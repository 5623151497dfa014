//! The splitter: one left-to-right scan of the source text that cuts it
//! into lexemes.
//!
//! An accumulation buffer holds the run being read, either a run of
//! alphanumeric characters or a run of symbol characters; whitespace
//! flushes the buffer and vanishes.  An alphanumeric run flushes to a
//! single lexeme.  A symbol run is resolved by greedy maximal munch over
//! the table's multi-character symbols: the run's current last two
//! characters leave as one lexeme when the table knows them, otherwise its
//! last character leaves alone, until the run is empty; the lexemes so
//! found, discovered right to left, enter the output in source order.  The
//! splitter never fails; whether each lexeme means anything is the
//! classifier's business.

use vstd::prelude::*;

use crate::all_alphanumeric;
use crate::is_alphanumeric_char;
use crate::is_space_char;
use crate::is_symbol_char;
use crate::keep_for_use::assoc_map;

verus! {

/// The lexemes of a symbol run, in source order: the run's last two
/// characters when `keys` holds them, its last character otherwise, after
/// the lexemes of the rest of the run.
pub open spec fn munch(buf: Seq<char>, keys: Set<Seq<char>>) -> Seq<Seq<char>>
    decreases buf.len(),
{
    if buf.len() == 0 {
        Seq::empty()
    } else if buf.len() == 1 {
        seq![buf]
    } else {
        let pair = buf.subrange(buf.len() - 2, buf.len() as int);
        if keys.contains(pair) {
            munch(buf.subrange(0, buf.len() - 2), keys).push(pair)
        } else {
            munch(buf.subrange(0, buf.len() - 1), keys).push(
                buf.subrange(buf.len() - 1, buf.len() as int),
            )
        }
    }
}

/// Flushing the accumulation buffer: nothing when it is empty, one lexeme
/// when it holds an alphanumeric run, its maximal munch when it holds a
/// symbol run.
pub open spec fn flush_buffer(
    result: Seq<Seq<char>>,
    buf: Seq<char>,
    keys: Set<Seq<char>>,
) -> Seq<Seq<char>> {
    if buf.len() == 0 {
        result
    } else if all_alphanumeric(buf) {
        result.push(buf)
    } else {
        result + munch(buf, keys)
    }
}

/// One buffer transition of the scan: an alphanumeric character extends an
/// alphanumeric run and ends a symbol run; whitespace flushes the buffer
/// and is discarded; a symbol character extends a symbol run and ends an
/// alphanumeric run.
pub open spec fn split_step(
    result: Seq<Seq<char>>,
    buf: Seq<char>,
    c: char,
    keys: Set<Seq<char>>,
) -> (Seq<Seq<char>>, Seq<char>) {
    if is_alphanumeric_char(c) {
        if all_alphanumeric(buf) {
            (result, buf.push(c))
        } else {
            (result + munch(buf, keys), seq![c])
        }
    } else if is_space_char(c) {
        (flush_buffer(result, buf, keys), Seq::empty())
    } else {
        if buf.len() == 0 {
            (result, seq![c])
        } else if all_alphanumeric(buf) {
            (result.push(buf), seq![c])
        } else {
            (result, buf.push(c))
        }
    }
}

/// The scan state after reading `code`: the lexemes emitted so far and the
/// buffer still accumulating.
pub open spec fn split_scan(code: Seq<char>, keys: Set<Seq<char>>) -> (Seq<Seq<char>>, Seq<char>)
    decreases code.len(),
{
    if code.len() == 0 {
        (Seq::empty(), Seq::empty())
    } else {
        let prev = split_scan(code.drop_last(), keys);
        split_step(prev.0, prev.1, code.last(), keys)
    }
}

/// The lexemes of `code`: the scan of all of it, with the buffer flushed
/// at end of input.
pub open spec fn split_spec(code: Seq<char>, keys: Set<Seq<char>>) -> Seq<Seq<char>> {
    flush_buffer(split_scan(code, keys).0, split_scan(code, keys).1, keys)
}

/// The non-whitespace characters of `code`, in source order.
pub open spec fn non_space(code: Seq<char>) -> Seq<char> {
    code.filter(|c: char| !is_space_char(c))
}

/// A lexeme sequence joined back into one character sequence.
pub open spec fn concat_lexemes(ls: Seq<Seq<char>>) -> Seq<char>
    decreases ls.len(),
{
    if ls.len() == 0 {
        Seq::empty()
    } else {
        concat_lexemes(ls.drop_last()) + ls.last()
    }
}

proof fn lemma_concat_push(ls: Seq<Seq<char>>, x: Seq<char>)
    ensures
        concat_lexemes(ls.push(x)) == concat_lexemes(ls) + x,
{
    assert(ls.push(x).drop_last() =~= ls);
    assert(ls.push(x).last() == x);
}

proof fn lemma_concat_append(a: Seq<Seq<char>>, b: Seq<Seq<char>>)
    ensures
        concat_lexemes(a + b) == concat_lexemes(a) + concat_lexemes(b),
    decreases b.len(),
{
    if b.len() == 0 {
        assert(a + b =~= a);
        assert(concat_lexemes(a) + concat_lexemes(b) =~= concat_lexemes(a));
    } else {
        lemma_concat_append(a, b.drop_last());
        assert((a + b).drop_last() =~= a + b.drop_last());
        assert((a + b).last() == b.last());
        assert((concat_lexemes(a) + concat_lexemes(b.drop_last())) + b.last()
            =~= concat_lexemes(a) + (concat_lexemes(b.drop_last()) + b.last()));
    }
}

/// The maximal munch of a symbol run spells the run itself back out.
proof fn lemma_concat_munch(buf: Seq<char>, keys: Set<Seq<char>>)
    ensures
        concat_lexemes(munch(buf, keys)) == buf,
    decreases buf.len(),
{
    if buf.len() == 0 {
        assert(concat_lexemes(munch(buf, keys)) =~= buf);
    } else if buf.len() == 1 {
        assert(munch(buf, keys) == seq![buf]);
        assert(seq![buf].drop_last() =~= Seq::<Seq<char>>::empty());
        assert(seq![buf].last() == buf);
        assert(concat_lexemes(Seq::<Seq<char>>::empty()) + buf =~= buf);
    } else {
        let pair = buf.subrange(buf.len() - 2, buf.len() as int);
        if keys.contains(pair) {
            let pre = buf.subrange(0, buf.len() - 2);
            lemma_concat_munch(pre, keys);
            lemma_concat_push(munch(pre, keys), pair);
            assert(pre + pair =~= buf);
        } else {
            let pre = buf.subrange(0, buf.len() - 1);
            let tail = buf.subrange(buf.len() - 1, buf.len() as int);
            lemma_concat_munch(pre, keys);
            lemma_concat_push(munch(pre, keys), tail);
            assert(pre + tail =~= buf);
        }
    }
}

/// Flushing appends exactly the buffer's characters to the output.
proof fn lemma_concat_flush(result: Seq<Seq<char>>, buf: Seq<char>, keys: Set<Seq<char>>)
    ensures
        concat_lexemes(flush_buffer(result, buf, keys)) == concat_lexemes(result) + buf,
{
    if buf.len() == 0 {
        assert(concat_lexemes(result) + buf =~= concat_lexemes(result));
    } else if all_alphanumeric(buf) {
        lemma_concat_push(result, buf);
    } else {
        lemma_concat_munch(buf, keys);
        lemma_concat_append(result, munch(buf, keys));
    }
}

/// After any prefix of the scan, the lexemes emitted so far followed by
/// the buffer hold the prefix's non-whitespace characters, in order.
proof fn lemma_scan_concat(code: Seq<char>, keys: Set<Seq<char>>)
    ensures
        concat_lexemes(split_scan(code, keys).0) + split_scan(code, keys).1 == non_space(code),
    decreases code.len(),
{
    reveal(Seq::filter);
    if code.len() == 0 {
        assert(non_space(code) =~= Seq::<char>::empty());
        assert(concat_lexemes(split_scan(code, keys).0) + split_scan(code, keys).1
            =~= Seq::<char>::empty());
    } else {
        let prev = split_scan(code.drop_last(), keys);
        let c = code.last();
        lemma_scan_concat(code.drop_last(), keys);
        if is_alphanumeric_char(c) {
            if all_alphanumeric(prev.1) {
                assert(concat_lexemes(prev.0) + prev.1.push(c) =~= (concat_lexemes(prev.0)
                    + prev.1).push(c));
            } else {
                lemma_concat_append(prev.0, munch(prev.1, keys));
                lemma_concat_munch(prev.1, keys);
                assert(concat_lexemes(prev.0 + munch(prev.1, keys)) + seq![c] =~= (
                concat_lexemes(prev.0) + prev.1).push(c));
            }
            assert(non_space(code) =~= non_space(code.drop_last()).push(c));
        } else if is_space_char(c) {
            lemma_concat_flush(prev.0, prev.1, keys);
            assert(concat_lexemes(flush_buffer(prev.0, prev.1, keys)) + Seq::<char>::empty()
                =~= concat_lexemes(prev.0) + prev.1);
            assert(non_space(code) =~= non_space(code.drop_last()));
        } else {
            if prev.1.len() == 0 {
                assert(concat_lexemes(prev.0) + seq![c] =~= (concat_lexemes(prev.0)
                    + prev.1).push(c));
            } else if all_alphanumeric(prev.1) {
                lemma_concat_push(prev.0, prev.1);
                assert(concat_lexemes(prev.0.push(prev.1)) + seq![c] =~= (concat_lexemes(prev.0)
                    + prev.1).push(c));
            } else {
                assert(concat_lexemes(prev.0) + prev.1.push(c) =~= (concat_lexemes(prev.0)
                    + prev.1).push(c));
            }
            assert(non_space(code) =~= non_space(code.drop_last()).push(c));
        }
    }
}

/// Order preservation: the lexemes of a whole scan, joined in emission
/// order, are exactly the source text's non-whitespace characters in
/// source order.  Splitting loses nothing, adds nothing and reorders
/// nothing, whatever the table.
pub proof fn lemma_split_preserves_order(code: Seq<char>, keys: Set<Seq<char>>)
    ensures
        concat_lexemes(split_spec(code, keys)) == non_space(code),
{
    lemma_scan_concat(code, keys);
    lemma_concat_flush(split_scan(code, keys).0, split_scan(code, keys).1, keys);
}

/// Relies on `String`'s `FromIterator<char>` implementation (through
/// `collect`): the collected string holds exactly the characters handed to
/// it, in order.
#[verifier::external_body]
fn chars_to_string(v: &Vec<char>) -> (s: String)
    ensures
        s@ == v@,
{
    v.iter().collect()
}

/// Copies the first `n` characters of `v`.
fn vec_char_prefix(v: &Vec<char>, n: usize) -> (r: Vec<char>)
    requires
        n <= v@.len(),
    ensures
        r@ == v@.take(n as int),
{
    let mut r: Vec<char> = Vec::new();
    let mut i: usize = 0;
    while i < n
        invariant
            i <= n,
            r@ == v@.take(i as int),
        decreases n - i,
    {
        r.push(v[i]);
        proof {
            assert(r@ =~= v@.take(i + 1));
        }
        i = i + 1;
    }
    r
}

/// Decides whether every character of `v` is alphanumeric.
fn vec_all_alphanumeric(v: &Vec<char>) -> (r: bool)
    ensures
        r == all_alphanumeric(v@),
{
    let mut i: usize = 0;
    while i < v.len()
        invariant
            i <= v@.len(),
            forall|j: int| 0 <= j < i ==> is_alphanumeric_char(v@[j]),
        decreases v@.len() - i,
    {
        let c = v[i];
        let ok = ('a' <= c && c <= 'z') || ('A' <= c && c <= 'Z') || ('0' <= c && c <= '9')
            || c == '_';
        if !ok {
            return false;
        }
        i = i + 1;
    }
    true
}

/// The accumulation buffer and the lexemes found so far, live for one scan.
pub struct CodeSpliting {
    /// The lexemes emitted so far, in source order.
    pub result: Vec<String>,
    /// The run of characters being read, alphanumeric or symbol.
    pub buf: Vec<char>,
    /// The multi-character symbol partition, read by the maximal munch.
    pub keep_complex_symbol: Vec<(String, String)>,
}

impl CodeSpliting {
    /// The set of multi-character symbol spellings the munch recognizes.
    pub open spec fn keys(&self) -> Set<Seq<char>> {
        assoc_map(self.keep_complex_symbol@).dom()
    }

    pub fn new(keep_complex_symbol: Vec<(String, String)>) -> (r: CodeSpliting)
        ensures
            r.result@ == Seq::<String>::empty(),
            r.buf@ == Seq::<char>::empty(),
            r.keep_complex_symbol == keep_complex_symbol,
    {
        CodeSpliting { result: Vec::new(), buf: Vec::new(), keep_complex_symbol }
    }

    /// Flushes whatever the buffer holds, leaving it empty; whitespace and
    /// end of input come here.
    pub fn insert_not_empty_buf_to_result(&mut self)
        ensures
            final(self).result.deep_view() == flush_buffer(
                old(self).result.deep_view(),
                old(self).buf@,
                old(self).keys(),
            ),
            final(self).buf@ == Seq::<char>::empty(),
            final(self).keep_complex_symbol == old(self).keep_complex_symbol,
    {
        if vec_all_alphanumeric(&self.buf) && self.buf.len() > 0 {
            self.move_alphanumeric_buf_to_result();
        } else {
            self.move_not_empty_symbol_buf_to_result();
        }
    }

    /// Reads one alphanumeric character: it extends an alphanumeric run
    /// and ends a symbol run.
    pub fn insert_alphanumeric_to_buf(&mut self, c: char)
        requires
            is_alphanumeric_char(c),
        ensures
            final(self).result.deep_view() == split_step(
                old(self).result.deep_view(),
                old(self).buf@,
                c,
                old(self).keys(),
            ).0,
            final(self).buf@ == split_step(
                old(self).result.deep_view(),
                old(self).buf@,
                c,
                old(self).keys(),
            ).1,
            final(self).keep_complex_symbol == old(self).keep_complex_symbol,
    {
        if vec_all_alphanumeric(&self.buf) {
            self.buf.push(c);
        } else {
            self.move_not_empty_symbol_buf_to_result();
            self.buf.push(c);
        }
    }

    /// Reads one symbol character: it extends a symbol run and ends an
    /// alphanumeric run.
    pub fn insert_symbol_to_buf(&mut self, c: char)
        requires
            is_symbol_char(c),
        ensures
            final(self).result.deep_view() == split_step(
                old(self).result.deep_view(),
                old(self).buf@,
                c,
                old(self).keys(),
            ).0,
            final(self).buf@ == split_step(
                old(self).result.deep_view(),
                old(self).buf@,
                c,
                old(self).keys(),
            ).1,
            final(self).keep_complex_symbol == old(self).keep_complex_symbol,
    {
        if self.buf.len() == 0 {
            self.buf.push(c);
        } else if vec_all_alphanumeric(&self.buf) {
            self.move_alphanumeric_buf_to_result();
            self.buf.push(c);
        } else {
            self.buf.push(c);
        }
    }

    /// Emits the whole buffer as one lexeme and empties it.
    fn move_alphanumeric_buf_to_result(&mut self)
        ensures
            final(self).result.deep_view() == old(self).result.deep_view().push(old(self).buf@),
            final(self).buf@ == Seq::<char>::empty(),
            final(self).keep_complex_symbol == old(self).keep_complex_symbol,
    {
        let s = chars_to_string(&self.buf);
        self.result.push(s);
        self.buf.clear();
        proof {
            assert(self.result.deep_view() =~= old(self).result.deep_view().push(old(self).buf@));
        }
    }

    /// Resolves the buffer as a symbol run and empties it: nothing leaves
    /// when it is empty, one lexeme when it holds one character, its
    /// maximal munch otherwise.
    fn move_not_empty_symbol_buf_to_result(&mut self)
        ensures
            final(self).result.deep_view() == old(self).result.deep_view() + munch(
                old(self).buf@,
                old(self).keys(),
            ),
            final(self).buf@ == Seq::<char>::empty(),
            final(self).keep_complex_symbol == old(self).keep_complex_symbol,
    {
        if self.buf.len() == 0 {
            proof {
                assert(self.result.deep_view() =~= self.result.deep_view() + munch(
                    self.buf@,
                    self.keys(),
                ));
            }
            return;
        }
        if self.buf.len() == 1 {
            let s = chars_to_string(&self.buf);
            self.result.push(s);
            self.buf.clear();
            proof {
                assert(self.result.deep_view() =~= old(self).result.deep_view() + munch(
                    old(self).buf@,
                    old(self).keys(),
                ));
            }
            return;
        }
        self.matching_symbol_arr_and_move();
    }

    /// Runs the maximal munch over the buffer, moves its lexemes to the
    /// output in source order, and empties the buffer.
    fn matching_symbol_arr_and_move(&mut self)
        ensures
            final(self).result.deep_view() == old(self).result.deep_view() + munch(
                old(self).buf@,
                old(self).keys(),
            ),
            final(self).buf@ == Seq::<char>::empty(),
            final(self).keep_complex_symbol == old(self).keep_complex_symbol,
    {
        let mut pieces = resolve_symbol_run(&self.buf, &self.keep_complex_symbol);
        self.result.append(&mut pieces);
        self.buf.clear();
        proof {
            assert(self.result.deep_view() =~= old(self).result.deep_view() + munch(
                old(self).buf@,
                old(self).keys(),
            ));
        }
    }
}

/// The executable maximal munch: resolves a symbol run against the
/// multi-character partition, preferring its trailing pair whenever the
/// table knows it.
fn resolve_symbol_run(buf: &Vec<char>, table: &Vec<(String, String)>) -> (r: Vec<String>)
    ensures
        r.deep_view() == munch(buf@, assoc_map(table@).dom()),
    decreases buf@.len(),
{
    let n = buf.len();
    if n == 0 {
        let r: Vec<String> = Vec::new();
        proof {
            assert(r.deep_view() =~= munch(buf@, assoc_map(table@).dom()));
        }
        r
    } else if n == 1 {
        let s = chars_to_string(buf);
        let mut r: Vec<String> = Vec::new();
        r.push(s);
        proof {
            assert(r.deep_view() =~= munch(buf@, assoc_map(table@).dom()));
        }
        r
    } else {
        let mut pair_chars: Vec<char> = Vec::new();
        pair_chars.push(buf[n - 2]);
        pair_chars.push(buf[n - 1]);
        let pair = chars_to_string(&pair_chars);
        proof {
            assert(pair@ =~= buf@.subrange(n - 2, n as int));
        }
        let matched = crate::keep_for_use::table_get(table, &pair).is_some();
        if matched {
            let prefix = vec_char_prefix(buf, n - 2);
            let mut r = resolve_symbol_run(&prefix, table);
            r.push(pair);
            proof {
                assert(r.deep_view() =~= munch(buf@, assoc_map(table@).dom()));
            }
            r
        } else {
            let prefix = vec_char_prefix(buf, n - 1);
            let mut r = resolve_symbol_run(&prefix, table);
            let mut last_chars: Vec<char> = Vec::new();
            last_chars.push(buf[n - 1]);
            let last = chars_to_string(&last_chars);
            proof {
                assert(last@ =~= buf@.subrange(n - 1, n as int));
            }
            r.push(last);
            proof {
                assert(r.deep_view() =~= munch(buf@, assoc_map(table@).dom()));
            }
            r
        }
    }
}

} // verus!
