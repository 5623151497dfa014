//! A table-driven lexical analyser.
//!
//! The caller supplies a JSON document mapping literal source strings to
//! canonical symbol names.  The document is parsed into a three-way
//! partitioned symbol table ([`keep_for_use::Keep`]), the source text is
//! split into lexemes by a one-pass scanner with greedy two-character
//! maximal munch over the table's multi-character symbols
//! ([`code_split`]), and each lexeme is classified into a token
//! ([`KeyType`]) or rejected ([`words_match`]).

#![verifier::loop_isolation(false)]

use vstd::prelude::*;

pub mod code_split;
pub mod err;
pub mod keep_for_use;

use crate::code_split::{split_spec, CodeSpliting};
use crate::err::{KeySymbolKind, LexicalAnalysisErr, LexicalAnalysisErrView, LexicalAnalysisResult};
use crate::keep_for_use::{assoc_map, table_get, Keep, KeepView};

verus! {

/// A character counts as alphanumeric when it is an ASCII letter, an ASCII
/// digit or an underscore.
pub open spec fn is_alphanumeric_char(c: char) -> bool {
    ('a' <= c && c <= 'z') || ('A' <= c && c <= 'Z') || ('0' <= c && c <= '9') || c == '_'
}

/// Whitespace separates lexemes and is never part of one.
pub open spec fn is_space_char(c: char) -> bool {
    c == ' ' || c == '\n' || c == '\t'
}

/// Every character that is neither alphanumeric nor whitespace is a symbol
/// character.
pub open spec fn is_symbol_char(c: char) -> bool {
    !is_alphanumeric_char(c) && !is_space_char(c)
}

/// Every character of `s` is alphanumeric; true of the empty sequence.
pub open spec fn all_alphanumeric(s: Seq<char>) -> bool {
    forall|i: int| 0 <= i < s.len() ==> is_alphanumeric_char(s[i])
}

/// Decides whether every character of `str` is an ASCII letter, digit or
/// underscore.  The empty string qualifies.
pub fn is_made_entirely_alphanumeric_or_empty(str: &str) -> (r: bool)
    ensures
        r == all_alphanumeric(str@),
{
    let n: usize = str.unicode_len();
    let mut i: usize = 0;
    while i < n
        invariant
            i <= n,
            n == str@.len(),
            forall|j: int| 0 <= j < i ==> is_alphanumeric_char(str@[j]),
        decreases n - i,
    {
        let c = str.get_char(i);
        let ok = ('a' <= c && c <= 'z') || ('A' <= c && c <= 'Z') || ('0' <= c && c <= '9')
            || c == '_';
        if !ok {
            return false;
        }
        i = i + 1;
    }
    true
}

/// A classified token: a reserved word or symbol mapped to its canonical
/// name, a user identifier carrying its raw text, or an integer literal.
#[derive(Debug, PartialEq, Eq)]
pub enum KeyType {
    KeepWord(String),
    Identifier(String),
    Value(i32),
}

/// The mathematical image of a token.
pub enum KeyTypeView {
    KeepWord(Seq<char>),
    Identifier(Seq<char>),
    Value(int),
}

impl View for KeyType {
    type V = KeyTypeView;

    open spec fn view(&self) -> KeyTypeView {
        match self {
            KeyType::KeepWord(s) => KeyTypeView::KeepWord(s@),
            KeyType::Identifier(s) => KeyTypeView::Identifier(s@),
            KeyType::Value(n) => KeyTypeView::Value(*n as int),
        }
    }
}

impl DeepView for KeyType {
    type V = KeyTypeView;

    open spec fn deep_view(&self) -> KeyTypeView {
        self.view()
    }
}

/// An ASCII decimal digit.
pub open spec fn is_digit_char(c: char) -> bool {
    '0' <= c && c <= '9'
}

/// Every character of `s` is a decimal digit.
pub open spec fn all_digits(s: Seq<char>) -> bool {
    forall|i: int| 0 <= i < s.len() ==> is_digit_char(s[i])
}

/// The number a digit string denotes in base ten.
pub open spec fn decimal_value(s: Seq<char>) -> int
    decreases s.len(),
{
    if s.len() == 0 {
        0
    } else {
        decimal_value(s.drop_last()) * 10 + (s.last() as int - '0' as int)
    }
}

/// A lexeme denotes an integer literal when it is one or more decimal
/// digits whose value fits a 32-bit signed integer.  A lexeme is
/// alphanumeric, so a sign can never occur and the value is never
/// negative.
pub open spec fn is_integer_lexeme(s: Seq<char>) -> bool {
    s.len() > 0 && all_digits(s) && decimal_value(s) <= i32::MAX as int
}

proof fn lemma_decimal_value_nonneg(s: Seq<char>)
    requires
        all_digits(s),
    ensures
        decimal_value(s) >= 0,
    decreases s.len(),
{
    if s.len() > 0 {
        assert(all_digits(s.drop_last()));
        lemma_decimal_value_nonneg(s.drop_last());
    }
}

/// A digit string is worth at least any of its prefixes.
proof fn lemma_decimal_value_prefix_le(s: Seq<char>, i: int)
    requires
        all_digits(s),
        0 <= i <= s.len(),
    ensures
        decimal_value(s.take(i)) <= decimal_value(s),
    decreases s.len() - i,
{
    if i < s.len() {
        assert(all_digits(s.take(i)));
        lemma_decimal_value_nonneg(s.take(i));
        assert(s.take(i + 1).drop_last() =~= s.take(i));
        assert(s.take(i + 1).last() == s[i]);
        lemma_decimal_value_prefix_le(s, i + 1);
    } else {
        assert(s.take(i) =~= s);
    }
}

/// Parses a lexeme as a decimal integer literal, rejecting it when any
/// character is not a digit, when it is empty, or when its value exceeds
/// `i32::MAX`.
fn parse_integer_lexeme(word: &String) -> (r: Option<i32>)
    ensures
        match r {
            Some(n) => is_integer_lexeme(word@) && n as int == decimal_value(word@),
            None => !is_integer_lexeme(word@),
        },
{
    let n = word.as_str().unicode_len();
    if n == 0 {
        return None;
    }
    let mut acc: u64 = 0;
    let mut i: usize = 0;
    proof {
        assert(word@.take(0) =~= Seq::<char>::empty());
    }
    while i < n
        invariant
            i <= n,
            n == word@.len(),
            all_digits(word@.take(i as int)),
            acc as int == decimal_value(word@.take(i as int)),
            acc <= i32::MAX as u64,
        decreases n - i,
    {
        let c = word.as_str().get_char(i);
        if !('0' <= c && c <= '9') {
            proof {
                assert(!is_digit_char(word@[i as int]));
            }
            return None;
        }
        let d: u64 = c as u64 - 48;
        proof {
            assert(word@.take(i + 1).drop_last() =~= word@.take(i as int));
            assert(word@.take(i + 1).last() == word@[i as int]);
            assert(all_digits(word@.take(i + 1)));
        }
        let next: u64 = acc * 10 + d;
        if next > 0x7fff_ffff {
            proof {
                if all_digits(word@) {
                    assert(word@.take(i + 1) =~= word@.take(i + 1));
                    lemma_decimal_value_prefix_le(word@, i + 1);
                }
            }
            return None;
        }
        acc = next;
        i = i + 1;
    }
    proof {
        assert(word@.take(n as int) =~= word@);
    }
    Some(acc as i32)
}

/// The classification of one lexeme against the table: an alphanumeric
/// lexeme is a reserved word when the word partition knows it, an integer
/// literal when it is all digits and in range, and an identifier
/// otherwise; a symbol lexeme must be known to the partition its length
/// selects, or classification fails.
pub open spec fn classify_lexeme(w: Seq<char>, t: KeepView) -> Result<
    KeyTypeView,
    LexicalAnalysisErrView,
> {
    if all_alphanumeric(w) {
        if t.words.contains_key(w) {
            Ok(KeyTypeView::KeepWord(t.words[w]))
        } else if is_integer_lexeme(w) {
            Ok(KeyTypeView::Value(decimal_value(w)))
        } else {
            Ok(KeyTypeView::Identifier(w))
        }
    } else if w.len() > 1 {
        if t.complex.contains_key(w) {
            Ok(KeyTypeView::KeepWord(t.complex[w]))
        } else {
            Err(LexicalAnalysisErrView::UndefinedKeywords(KeySymbolKind::ComplexSymbol, w))
        }
    } else {
        if t.single.contains_key(w) {
            Ok(KeyTypeView::KeepWord(t.single[w]))
        } else {
            Err(LexicalAnalysisErrView::UndefinedKeywords(KeySymbolKind::SingleSymbol, w))
        }
    }
}

/// The classification of a lexeme sequence, strictly in order, stopping at
/// the first failure.
pub open spec fn classify_all(ws: Seq<Seq<char>>, t: KeepView) -> Result<
    Seq<KeyTypeView>,
    LexicalAnalysisErrView,
>
    decreases ws.len(),
{
    if ws.len() == 0 {
        Ok(Seq::empty())
    } else {
        match classify_lexeme(ws[0], t) {
            Err(e) => Err(e),
            Ok(tok) => match classify_all(ws.drop_first(), t) {
                Err(e) => Err(e),
                Ok(rest) => Ok(seq![tok] + rest),
            },
        }
    }
}

/// Order preservation at the token level: when classification succeeds,
/// tokens and lexemes correspond one to one, each token standing at its
/// lexeme's position.
pub proof fn lemma_classification_pointwise(
    ws: Seq<Seq<char>>,
    t: KeepView,
    toks: Seq<KeyTypeView>,
)
    requires
        classify_all(ws, t) == Ok::<Seq<KeyTypeView>, LexicalAnalysisErrView>(toks),
    ensures
        toks.len() == ws.len(),
        forall|i: int| 0 <= i < ws.len() ==> classify_lexeme(ws[i], t) == Ok::<
            KeyTypeView,
            LexicalAnalysisErrView,
        >(toks[i]),
    decreases ws.len(),
{
    if ws.len() > 0 {
        let tok = classify_lexeme(ws[0], t)->Ok_0;
        let rest = classify_all(ws.drop_first(), t)->Ok_0;
        lemma_classification_pointwise(ws.drop_first(), t, rest);
        assert(toks == seq![tok] + rest);
        assert(forall|i: int| 1 <= i < ws.len() ==> ws.drop_first()[i - 1] == #[trigger] ws[i]);
        assert(forall|i: int| 1 <= i < ws.len() ==> #[trigger] toks[i] == rest[i - 1]);
    }
}

/// Idempotent classification: the token sequence is a function of the
/// lexeme sequence and the table alone, so classifying the same lexemes
/// against the same table again yields the same tokens, or the same
/// failure.
pub proof fn lemma_classification_idempotent(
    ws: Seq<Seq<char>>,
    t: KeepView,
    r1: Result<Seq<KeyTypeView>, LexicalAnalysisErrView>,
    r2: Result<Seq<KeyTypeView>, LexicalAnalysisErrView>,
)
    requires
        r1 == classify_all(ws, t),
        r2 == classify_all(ws, t),
    ensures
        r1 == r2,
{
}

/// Maps each lexeme to its token, strictly in order, returning the first
/// failure and no partial sequence.
pub fn words_match(word_vec: Vec<String>, keep_words: Keep) -> (r: LexicalAnalysisResult<
    Vec<KeyType>,
>)
    ensures
        match r {
            Ok(v) => classify_all(word_vec.deep_view(), keep_words@) == Ok::<
                Seq<KeyTypeView>,
                LexicalAnalysisErrView,
            >(v.deep_view()),
            Err(e) => classify_all(word_vec.deep_view(), keep_words@) == Err::<
                Seq<KeyTypeView>,
                LexicalAnalysisErrView,
            >(e@),
        },
{
    let ghost ws = word_vec.deep_view();
    let ghost t = keep_words@;
    let mut result: Vec<KeyType> = Vec::new();
    let n = word_vec.len();
    proof {
        assert(ws.skip(0) =~= ws);
        assert(result.deep_view() =~= Seq::<KeyTypeView>::empty());
    }
    let mut i: usize = 0;
    while i < n
        invariant
            i <= n,
            n == word_vec@.len(),
            ws == word_vec.deep_view(),
            t == keep_words@,
            classify_all(ws, t) == match classify_all(ws.skip(i as int), t) {
                Ok(rest) => Ok::<Seq<KeyTypeView>, LexicalAnalysisErrView>(
                    result.deep_view() + rest,
                ),
                Err(e) => Err::<Seq<KeyTypeView>, LexicalAnalysisErrView>(e),
            },
        decreases n - i,
    {
        proof {
            assert(ws[i as int] == word_vec@[i as int]@);
            assert(ws.skip(i as int)[0] == ws[i as int]);
            assert(ws.skip(i as int).drop_first() =~= ws.skip(i + 1));
        }
        let ghost result0 = result.deep_view();
        let word = &word_vec[i];
        if is_made_entirely_alphanumeric_or_empty(word.as_str()) {
            match table_get(&keep_words.keep_words, word) {
                Some(symbol) => result.push(KeyType::KeepWord(symbol)),
                None => {
                    match parse_integer_lexeme(word) {
                        Some(num) => result.push(KeyType::Value(num)),
                        None => result.push(KeyType::Identifier(word.clone())),
                    }
                },
            }
        } else if word.as_str().unicode_len() > 1 {
            match table_get(&keep_words.keep_complex_symbol, word) {
                Some(symbol) => result.push(KeyType::KeepWord(symbol)),
                None => {
                    return Err(LexicalAnalysisErr::UndefinedKeywords(
                        KeySymbolKind::ComplexSymbol,
                        word.clone(),
                    ));
                },
            }
        } else {
            match table_get(&keep_words.keep_symbol, word) {
                Some(symbol) => result.push(KeyType::KeepWord(symbol)),
                None => {
                    return Err(LexicalAnalysisErr::UndefinedKeywords(
                        KeySymbolKind::SingleSymbol,
                        word.clone(),
                    ));
                },
            }
        }
        proof {
            assert(result.deep_view() =~= result0.push(
                classify_lexeme(ws[i as int], t)->Ok_0,
            ));
            assert(forall|rest: Seq<KeyTypeView>|
                result0 + (seq![classify_lexeme(ws[i as int], t)->Ok_0] + rest) =~= (
                result0.push(classify_lexeme(ws[i as int], t)->Ok_0) + rest));
        }
        i = i + 1;
    }
    proof {
        assert(ws.skip(n as int) =~= Seq::<Seq<char>>::empty());
        assert(result.deep_view() + Seq::<KeyTypeView>::empty() =~= result.deep_view());
    }
    Ok(result)
}

/// Copies a partition's association list entry by entry.
fn clone_table(v: &Vec<(String, String)>) -> (r: Vec<(String, String)>)
    ensures
        r@ == v@,
{
    let mut r: Vec<(String, String)> = Vec::new();
    let mut i: usize = 0;
    while i < v.len()
        invariant
            i <= v@.len(),
            r@ == v@.take(i as int),
        decreases v@.len() - i,
    {
        r.push((v[i].0.clone(), v[i].1.clone()));
        proof {
            assert(r@ =~= v@.take(i + 1));
        }
        i = i + 1;
    }
    proof {
        assert(v@.take(v@.len() as int) =~= v@);
    }
    r
}

/// Splits the source text into lexemes, scanning once, left to right, and
/// resolving symbol runs by maximal munch against the multi-character
/// partition.  The splitter itself never fails.
pub fn code_split(code: String, complex_key_symbol: Vec<(String, String)>) -> (r: Result<
    Vec<String>,
    LexicalAnalysisErr,
>)
    ensures
        r matches Ok(v) && v.deep_view() == split_spec(
            code@,
            assoc_map(complex_key_symbol@).dom(),
        ),
{
    let ghost keys = assoc_map(complex_key_symbol@).dom();
    let mut splitting = CodeSpliting::new(complex_key_symbol);
    let n = code.as_str().unicode_len();
    proof {
        assert(code@.take(0) =~= Seq::<char>::empty());
        assert(splitting.result.deep_view() =~= Seq::<Seq<char>>::empty());
    }
    let mut i: usize = 0;
    while i < n
        invariant
            i <= n,
            n == code@.len(),
            keys == splitting.keys(),
            splitting.result.deep_view() == code_split::split_scan(code@.take(i as int), keys).0,
            splitting.buf@ == code_split::split_scan(code@.take(i as int), keys).1,
        decreases n - i,
    {
        let c = code.as_str().get_char(i);
        proof {
            assert(code@.take(i + 1).drop_last() =~= code@.take(i as int));
            assert(code@.take(i + 1).last() == code@[i as int]);
        }
        if ('a' <= c && c <= 'z') || ('A' <= c && c <= 'Z') || ('0' <= c && c <= '9') || c == '_' {
            splitting.insert_alphanumeric_to_buf(c);
        } else if c == ' ' || c == '\n' || c == '\t' {
            splitting.insert_not_empty_buf_to_result();
        } else {
            splitting.insert_symbol_to_buf(c);
        }
        i = i + 1;
    }
    proof {
        assert(code@.take(n as int) =~= code@);
    }
    splitting.insert_not_empty_buf_to_result();
    Ok(splitting.result)
}

/// The whole pipeline: builds the symbol table from the configuration
/// document, splits the source text into lexemes, and classifies each, in
/// order, into the token sequence, or fails with the first error.
pub fn lexical_analysis(code: &str, key_words_json: &str) -> (r: LexicalAnalysisResult<
    Vec<KeyType>,
>)
    ensures
        match crate::keep_for_use::json_doc_entries(key_words_json@) {
            None => r matches Err(e) && e@
                == LexicalAnalysisErrView::FailToSerializationKeyWordsJson,
            Some(None) => r matches Err(e) && e@
                == LexicalAnalysisErrView::FailToReadKeyWordsJsonTree,
            Some(Some(entries)) => match crate::keep_for_use::build_table(entries) {
                Err(ev) => r matches Err(e) && e@ == ev,
                Ok(t) => match classify_all(split_spec(code@, t.complex.dom()), t) {
                    Ok(toks) => r matches Ok(v) && v.deep_view() == toks,
                    Err(ev) => r matches Err(e) && e@ == ev,
                },
            },
        },
{
    let key_words = match crate::keep_for_use::keepwords_deserialization(key_words_json) {
        Ok(k) => k,
        Err(e) => {
            return Err(e);
        },
    };
    let words = match code_split(code.to_owned(), clone_table(&key_words.keep_complex_symbol)) {
        Ok(w) => w,
        Err(e) => {
            return Err(e);
        },
    };
    words_match(words, key_words)
}

} // verus!
