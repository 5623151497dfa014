//! Construction of the symbol table.
//!
//! A configuration document maps literal source strings to canonical symbol
//! names.  Its entries are partitioned three ways by the shape of the key
//! alone: keys made entirely of ASCII letters, digits and underscores (any
//! length, the empty key included) are words; other keys of two or more
//! characters are multi-character symbols; other keys of exactly one
//! character are single-character symbols.  Construction is fail-fast: the
//! first entry whose value is not a string, or whose key fits no partition,
//! aborts it.

use vstd::prelude::*;

use crate::all_alphanumeric;
use crate::err::{
    LexicalAnalysisErr, LexicalAnalysisErrView, LexicalAnalysisResult,
};
use crate::is_made_entirely_alphanumeric_or_empty;

verus! {

/// The contents of an association list, read as a map.  Later entries win,
/// as they do under repeated insertion into a map.
pub open spec fn assoc_map(s: Seq<(String, String)>) -> Map<Seq<char>, Seq<char>>
    decreases s.len(),
{
    if s.len() == 0 {
        Map::empty()
    } else {
        assoc_map(s.drop_last()).insert(s.last().0@, s.last().1@)
    }
}

/// Looks a key up in an association list, preferring later entries.
pub open spec fn assoc_get(s: Seq<(String, String)>, k: Seq<char>) -> Option<Seq<char>>
    decreases s.len(),
{
    if s.len() == 0 {
        None
    } else if s.last().0@ == k {
        Some(s.last().1@)
    } else {
        assoc_get(s.drop_last(), k)
    }
}

/// Appending an entry to an association list inserts it into the map the
/// list stands for.
pub proof fn lemma_assoc_map_push(s: Seq<(String, String)>, k: Seq<char>, v: Seq<char>, e: (String, String))
    requires
        e.0@ == k,
        e.1@ == v,
    ensures
        assoc_map(s.push(e)) == assoc_map(s).insert(k, v),
{
    assert(s.push(e).drop_last() =~= s);
    assert(s.push(e).last() == e);
    assert(assoc_map(s.push(e)) =~= assoc_map(s).insert(k, v));
}

/// `assoc_get` reads exactly the map that `assoc_map` builds.
pub proof fn lemma_assoc_get_is_map_get(s: Seq<(String, String)>, k: Seq<char>)
    ensures
        assoc_get(s, k) == if assoc_map(s).contains_key(k) {
            Some(assoc_map(s)[k])
        } else {
            None::<Seq<char>>
        },
    decreases s.len(),
{
    if s.len() > 0 {
        lemma_assoc_get_is_map_get(s.drop_last(), k);
    }
}

/// Looks `key` up in `entries`, scanning from the most recent entry back,
/// and hands back a copy of the mapped value.
pub fn table_get(entries: &Vec<(String, String)>, key: &String) -> (r: Option<String>)
    ensures
        match r {
            Some(v) => assoc_map(entries@).contains_key(key@) && v@ == assoc_map(entries@)[key@],
            None => !assoc_map(entries@).contains_key(key@),
        },
{
    proof {
        lemma_assoc_get_is_map_get(entries@, key@);
        assert(entries@.take(entries@.len() as int) =~= entries@);
    }
    let mut i: usize = entries.len();
    while i > 0
        invariant
            i <= entries@.len(),
            assoc_get(entries@, key@) == assoc_get(entries@.take(i as int), key@),
        decreases i,
    {
        i = i - 1;
        proof {
            assert(entries@.take(i + 1).last() == entries@[i as int]);
            assert(entries@.take(i + 1).drop_last() =~= entries@.take(i as int));
        }
        if entries[i].0 == *key {
            return Some(entries[i].1.clone());
        }
    }
    proof {
        assert(entries@.take(0) =~= Seq::<(String, String)>::empty());
    }
    None
}

/// The symbol table: a three-way partition of the configuration document's
/// source-string-to-canonical-name mapping, immutable once built.
pub struct Keep {
    /// Keys made entirely of ASCII letters, digits and underscores.
    pub keep_words: Vec<(String, String)>,
    /// Keys of exactly one non-alphanumeric character.
    pub keep_symbol: Vec<(String, String)>,
    /// Keys of two or more characters with a non-alphanumeric one among them.
    pub keep_complex_symbol: Vec<(String, String)>,
}

/// The mathematical content of a [`Keep`]: its three partition maps.
#[verifier::ext_equal]
pub struct KeepView {
    pub words: Map<Seq<char>, Seq<char>>,
    pub single: Map<Seq<char>, Seq<char>>,
    pub complex: Map<Seq<char>, Seq<char>>,
}

impl View for Keep {
    type V = KeepView;

    open spec fn view(&self) -> KeepView {
        KeepView {
            words: assoc_map(self.keep_words@),
            single: assoc_map(self.keep_symbol@),
            complex: assoc_map(self.keep_complex_symbol@),
        }
    }
}

/// The table with nothing in it.
pub open spec fn empty_table() -> KeepView {
    KeepView { words: Map::empty(), single: Map::empty(), complex: Map::empty() }
}

/// Every key lies in the partition that its own shape selects.
pub open spec fn table_wf(t: KeepView) -> bool {
    &&& forall|k: Seq<char>| #[trigger] t.words.contains_key(k) ==> all_alphanumeric(k)
    &&& forall|k: Seq<char>| #[trigger] t.complex.contains_key(k) ==> !all_alphanumeric(k)
        && k.len() >= 2
    &&& forall|k: Seq<char>| #[trigger] t.single.contains_key(k) ==> !all_alphanumeric(k)
        && k.len() == 1
}

/// Folds configuration entries into a table, left to right, classifying each
/// key by its shape and failing fast: on the first non-string value with
/// `SymbolOfKeywordsIsNotString`, and on the first key that fits no
/// partition with `UnsupportedKeywords`.
pub open spec fn build_table_from(
    t: KeepView,
    entries: Seq<(Seq<char>, Option<Seq<char>>)>,
) -> Result<KeepView, LexicalAnalysisErrView>
    decreases entries.len(),
{
    if entries.len() == 0 {
        Ok(t)
    } else {
        let k = entries[0].0;
        if all_alphanumeric(k) {
            match entries[0].1 {
                Some(v) => build_table_from(
                    KeepView { words: t.words.insert(k, v), single: t.single, complex: t.complex },
                    entries.drop_first(),
                ),
                None => Err(LexicalAnalysisErrView::SymbolOfKeywordsIsNotString),
            }
        } else if k.len() > 1 {
            match entries[0].1 {
                Some(v) => build_table_from(
                    KeepView { words: t.words, single: t.single, complex: t.complex.insert(k, v) },
                    entries.drop_first(),
                ),
                None => Err(LexicalAnalysisErrView::SymbolOfKeywordsIsNotString),
            }
        } else if k.len() == 1 {
            match entries[0].1 {
                Some(v) => build_table_from(
                    KeepView { words: t.words, single: t.single.insert(k, v), complex: t.complex },
                    entries.drop_first(),
                ),
                None => Err(LexicalAnalysisErrView::SymbolOfKeywordsIsNotString),
            }
        } else {
            Err(LexicalAnalysisErrView::UnsupportedKeywords(k))
        }
    }
}

/// The table built from a configuration document's entries.
pub open spec fn build_table(
    entries: Seq<(Seq<char>, Option<Seq<char>>)>,
) -> Result<KeepView, LexicalAnalysisErrView> {
    build_table_from(empty_table(), entries)
}

/// What parsing a configuration document yields: `None` when the text is
/// not well-formed JSON; `Some(None)` when it is JSON whose root is not an
/// object; otherwise the root object's entries, each value kept when it is
/// a string and replaced by `None` when it is not.
pub uninterp spec fn json_doc_entries(s: Seq<char>) -> Option<
    Option<Seq<(Seq<char>, Option<Seq<char>>)>>,
>;

/// Relies on `serde_json::from_str::<serde_json::Value>`: what it makes of a
/// document depends on the document's characters alone.  Without the
/// `preserve_order` feature a `serde_json::Map` is a `BTreeMap`, so its
/// entries come out deduplicated (a later duplicate key has overwritten an
/// earlier one) and in ascending key order; either way, a fixed order that
/// is a function of the document.
#[verifier::external_body]
fn parse_symbol_document(jsonc: &str) -> (r: Result<
    Option<Vec<(String, Option<String>)>>,
    serde_json::Error,
>)
    ensures
        match r {
            Err(_) => json_doc_entries(jsonc@) is None,
            Ok(None) => json_doc_entries(jsonc@) matches Some(o) && o is None,
            Ok(Some(entries)) => json_doc_entries(jsonc@) == Some(Some(entries.deep_view())),
        },
{
    match serde_json::from_str::<serde_json::Value>(jsonc) {
        Err(e) => Err(e),
        Ok(serde_json::Value::Object(object)) => Ok(Some(
            object
                .into_iter()
                .map(|(source, symbol)| match symbol {
                    serde_json::Value::String(s) => (source, Some(s)),
                    _ => (source, None),
                })
                .collect(),
        )),
        Ok(_) => Ok(None),
    }
}

/// Builds the symbol table from the textual configuration document, or
/// fails: with `FailToSerializationKeyWordsJson` when the document is not
/// well-formed JSON, with `FailToReadKeyWordsJsonTree` when its root is not
/// an object, and otherwise as the entry-by-entry construction fails.
pub fn keepwords_deserialization(jsonc: &str) -> (r: LexicalAnalysisResult<Keep>)
    ensures
        match json_doc_entries(jsonc@) {
            None => r matches Err(e) && e@
                == LexicalAnalysisErrView::FailToSerializationKeyWordsJson,
            Some(None) => r matches Err(e) && e@
                == LexicalAnalysisErrView::FailToReadKeyWordsJsonTree,
            Some(Some(entries)) => match build_table(entries) {
                Ok(t) => r matches Ok(keep) && keep@ == t,
                Err(ev) => r matches Err(e) && e@ == ev,
            },
        },
{
    let entries = match parse_symbol_document(jsonc) {
        Err(e) => {
            return Err(LexicalAnalysisErr::FailToSerializationKeyWordsJson(e));
        },
        Ok(None) => {
            return Err(LexicalAnalysisErr::FailToReadKeyWordsJsonTree);
        },
        Ok(Some(entries)) => entries,
    };
    let mut keep = Keep { keep_words: Vec::new(), keep_symbol: Vec::new(), keep_complex_symbol: Vec::new() };
    proof {
        assert(keep@ =~= empty_table());
    }
    match insert_all_keepwords(&mut keep, entries) {
        Ok(_) => Ok(keep),
        Err(e) => Err(e),
    }
}

/// Construction keeps the shape rule on every partition.
proof fn lemma_build_table_wf(t: KeepView, entries: Seq<(Seq<char>, Option<Seq<char>>)>)
    requires
        table_wf(t),
        build_table_from(t, entries) is Ok,
    ensures
        table_wf(build_table_from(t, entries)->Ok_0),
    decreases entries.len(),
{
    if entries.len() != 0 {
        let k = entries[0].0;
        if all_alphanumeric(k) {
            let v = entries[0].1->Some_0;
            lemma_build_table_wf(
                KeepView { words: t.words.insert(k, v), single: t.single, complex: t.complex },
                entries.drop_first(),
            );
        } else if k.len() > 1 {
            let v = entries[0].1->Some_0;
            lemma_build_table_wf(
                KeepView { words: t.words, single: t.single, complex: t.complex.insert(k, v) },
                entries.drop_first(),
            );
        } else {
            let v = entries[0].1->Some_0;
            lemma_build_table_wf(
                KeepView { words: t.words, single: t.single.insert(k, v), complex: t.complex },
                entries.drop_first(),
            );
        }
    }
}

/// Construction only ever adds keys to a partition.
proof fn lemma_build_table_monotone(
    t: KeepView,
    entries: Seq<(Seq<char>, Option<Seq<char>>)>,
    t2: KeepView,
)
    requires
        build_table_from(t, entries) == Ok::<KeepView, LexicalAnalysisErrView>(t2),
    ensures
        forall|k: Seq<char>| t.words.contains_key(k) ==> t2.words.contains_key(k),
        forall|k: Seq<char>| t.complex.contains_key(k) ==> t2.complex.contains_key(k),
        forall|k: Seq<char>| t.single.contains_key(k) ==> t2.single.contains_key(k),
    decreases entries.len(),
{
    if entries.len() != 0 {
        let k = entries[0].0;
        let v = entries[0].1->Some_0;
        if all_alphanumeric(k) {
            lemma_build_table_monotone(
                KeepView { words: t.words.insert(k, v), single: t.single, complex: t.complex },
                entries.drop_first(),
                t2,
            );
        } else if k.len() > 1 {
            lemma_build_table_monotone(
                KeepView { words: t.words, single: t.single, complex: t.complex.insert(k, v) },
                entries.drop_first(),
                t2,
            );
        } else {
            lemma_build_table_monotone(
                KeepView { words: t.words, single: t.single.insert(k, v), complex: t.complex },
                entries.drop_first(),
                t2,
            );
        }
    }
}

/// Every accepted key reaches the partition that its shape selects.
proof fn lemma_build_table_covers(
    t: KeepView,
    entries: Seq<(Seq<char>, Option<Seq<char>>)>,
    t2: KeepView,
)
    requires
        build_table_from(t, entries) == Ok::<KeepView, LexicalAnalysisErrView>(t2),
    ensures
        forall|i: int| 0 <= i < entries.len() ==> {
            let k = (#[trigger] entries[i]).0;
            &&& (all_alphanumeric(k) ==> t2.words.contains_key(k))
            &&& (!all_alphanumeric(k) && k.len() >= 2 ==> t2.complex.contains_key(k))
            &&& (!all_alphanumeric(k) && k.len() == 1 ==> t2.single.contains_key(k))
        },
    decreases entries.len(),
{
    if entries.len() != 0 {
        let k = entries[0].0;
        let v = entries[0].1->Some_0;
        let tnext = if all_alphanumeric(k) {
            KeepView { words: t.words.insert(k, v), single: t.single, complex: t.complex }
        } else if k.len() > 1 {
            KeepView { words: t.words, single: t.single, complex: t.complex.insert(k, v) }
        } else {
            KeepView { words: t.words, single: t.single.insert(k, v), complex: t.complex }
        };
        lemma_build_table_monotone(tnext, entries.drop_first(), t2);
        lemma_build_table_covers(tnext, entries.drop_first(), t2);
        assert(forall|i: int| 1 <= i < entries.len() ==> #[trigger] entries[i]
            == entries.drop_first()[i - 1]);
    }
}

/// A key stands in a partition exactly when its own shape selects that
/// partition: word keys are entirely alphanumeric, multi-character symbol
/// keys have two or more characters with a non-alphanumeric one among them,
/// single-character symbol keys are one non-alphanumeric character.
pub open spec fn key_partition_ok(t: KeepView, k: Seq<char>) -> bool {
    &&& (t.words.contains_key(k) <==> all_alphanumeric(k))
    &&& (t.complex.contains_key(k) <==> !all_alphanumeric(k) && k.len() >= 2)
    &&& (t.single.contains_key(k) <==> !all_alphanumeric(k) && k.len() == 1)
}

/// Partition totality and disjointness: when construction succeeds, the
/// three partitions are pairwise disjoint, and the key of every
/// configuration entry stands in exactly one of them -- the one the shape
/// rule selects, since no key shape satisfies two of the three rules and
/// every key satisfies one.
pub proof fn lemma_partitions_total_disjoint(
    entries: Seq<(Seq<char>, Option<Seq<char>>)>,
    t: KeepView,
)
    requires
        build_table(entries) == Ok::<KeepView, LexicalAnalysisErrView>(t),
    ensures
        t.words.dom().disjoint(t.complex.dom()),
        t.words.dom().disjoint(t.single.dom()),
        t.complex.dom().disjoint(t.single.dom()),
        forall|i: int| 0 <= i < entries.len() ==> key_partition_ok(t, (#[trigger] entries[i]).0),
{
    lemma_build_table_wf(empty_table(), entries);
    lemma_build_table_covers(empty_table(), entries, t);
    assert(table_wf(t));
    assert forall|k: Seq<char>| t.words.dom().contains(k) implies !t.complex.dom().contains(k)
        && !t.single.dom().contains(k) by {
        assert(all_alphanumeric(k));
    }
    assert forall|k: Seq<char>| t.complex.dom().contains(k) implies !t.single.dom().contains(k) by {
        assert(t.complex.contains_key(k));
        assert(k.len() >= 2);
    }
}

/// Accepts the value of a configuration entry when it is a string.
pub fn safe_get_str_from_value(symbol: Option<String>) -> (r: LexicalAnalysisResult<String>)
    ensures
        match r {
            Ok(s) => symbol matches Some(v) && v@ == s@,
            Err(e) => symbol is None && e@ == LexicalAnalysisErrView::SymbolOfKeywordsIsNotString,
        },
{
    if let Some(s) = symbol {
        Ok(s)
    } else {
        Err(LexicalAnalysisErr::SymbolOfKeywordsIsNotString)
    }
}

/// Classifies each entry's key and inserts the entry into the matching
/// partition of `keep`, aborting on the first violation.
pub fn insert_all_keepwords(
    keep: &mut Keep,
    entries: Vec<(String, Option<String>)>,
) -> (r: LexicalAnalysisResult<()>)
    ensures
        match r {
            Ok(_) => build_table_from(old(keep)@, entries.deep_view()) == Ok::<
                KeepView,
                LexicalAnalysisErrView,
            >(final(keep)@),
            Err(e) => build_table_from(old(keep)@, entries.deep_view()) == Err::<
                KeepView,
                LexicalAnalysisErrView,
            >(e@),
        },
{
    let ghost t0 = keep@;
    let ghost all = entries.deep_view();
    let n = entries.len();
    proof {
        assert(all.len() == n);
        assert(all.skip(0) =~= all);
    }
    let mut i: usize = 0;
    while i < n
        invariant
            i <= n,
            n == entries@.len(),
            all == entries.deep_view(),
            build_table_from(t0, all) == build_table_from(keep@, all.skip(i as int)),
        decreases n - i,
    {
        let ghost kv = keep@;
        proof {
            assert(all[i as int] == (entries@[i as int].0@, entries@[i as int].1.deep_view()));
            assert(all.skip(i as int).drop_first() =~= all.skip(i + 1));
            assert(all.skip(i as int)[0] == all[i as int]);
        }
        let source = entries[i].0.clone();
        let symbol: Option<String> = match &entries[i].1 {
            Some(s) => Some(s.clone()),
            None => None,
        };
        proof {
            assert(symbol.deep_view() == all[i as int].1);
        }
        let ghost s0 = source@;
        if is_made_entirely_alphanumeric_or_empty(source.as_str()) {
            let v = match safe_get_str_from_value(symbol) {
                Ok(v) => v,
                Err(e) => {
                    return Err(e);
                },
            };
            let ghost v0 = v@;
            let ghost prev = keep.keep_words@;
            keep.keep_words.push((source, v));
            proof {
                lemma_assoc_map_push(prev, s0, v0, keep.keep_words@.last());
                assert(keep@ =~= (KeepView {
                    words: kv.words.insert(s0, v0),
                    single: kv.single,
                    complex: kv.complex,
                }));
            }
        } else if source.as_str().unicode_len() > 1 {
            let v = match safe_get_str_from_value(symbol) {
                Ok(v) => v,
                Err(e) => {
                    return Err(e);
                },
            };
            let ghost v0 = v@;
            let ghost prev = keep.keep_complex_symbol@;
            keep.keep_complex_symbol.push((source, v));
            proof {
                lemma_assoc_map_push(prev, s0, v0, keep.keep_complex_symbol@.last());
                assert(keep@ =~= (KeepView {
                    words: kv.words,
                    single: kv.single,
                    complex: kv.complex.insert(s0, v0),
                }));
            }
        } else if source.as_str().unicode_len() == 1 {
            let v = match safe_get_str_from_value(symbol) {
                Ok(v) => v,
                Err(e) => {
                    return Err(e);
                },
            };
            let ghost v0 = v@;
            let ghost prev = keep.keep_symbol@;
            keep.keep_symbol.push((source, v));
            proof {
                lemma_assoc_map_push(prev, s0, v0, keep.keep_symbol@.last());
                assert(keep@ =~= (KeepView {
                    words: kv.words,
                    single: kv.single.insert(s0, v0),
                    complex: kv.complex,
                }));
            }
        } else {
            return Err(LexicalAnalysisErr::UnsupportedKeywords(source));
        }
        i = i + 1;
    }
    proof {
        assert(all.skip(n as int) =~= Seq::<(Seq<char>, Option<Seq<char>>)>::empty());
    }
    Ok(())
}

} // verus!
