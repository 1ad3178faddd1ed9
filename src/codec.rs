//! The binary layout of a dictionary. All integers are little-endian 32-bit:
//! the word count, then each word as its byte length and its UTF-8 bytes;
//! the context count, then each context as two five-byte token cells, its
//! candidate count, and each candidate as a token cell and its weight.

use vstd::prelude::*;
use vstd::utf8::{decode_utf8, encode_utf8, valid_utf8};
use crate::bytes::{le_bytes, le_value, lemma_le_value_of_bytes, to_4u8, to_u32};
use std::collections::HashSet;
use crate::dictionary::{code_of, Dictionary};
use crate::model::{
    candidates_unique, context_index, has_candidate, has_context, table_entry_wf, table_wf, token_code,
    valid_token, wf, Entry, ModelView, MAX_COUNT,
};
use crate::word::{cell_word, lemma_cell_word_of_cell, word_cell, Word};

verus! {

broadcast use {vstd::utf8::encode_utf8_valid_utf8, vstd::utf8::encode_utf8_decode_utf8};

/// Why a byte string is not a dictionary.
#[derive(Clone, Copy, PartialEq, Eq, Structural, Debug)]
pub enum DecodeError {
    /// A field runs past the end of the bytes.
    TruncatedInput,
    /// A token cell has an unknown tag byte.
    CorruptTag,
    /// A word is not valid UTF-8.
    CorruptEncoding,
    /// A token refers to an id outside the vocabulary.
    InvalidIndex,
    /// A token occurs twice among one context's candidates, which a
    /// candidate list never holds. (A context that occurs twice is no
    /// fault: its later candidates replace the earlier ones.)
    DuplicateEntry,
}

/// One word: its byte length, then its bytes.
pub open spec fn word_record(w: Seq<char>) -> Seq<u8> {
    le_bytes(encode_utf8(w).len() as u32) + encode_utf8(w)
}

pub open spec fn words_bytes(ws: Seq<Seq<char>>) -> Seq<u8>
    decreases ws.len(),
{
    if ws.len() == 0 {
        Seq::empty()
    } else {
        words_bytes(ws.drop_last()) + word_record(ws.last())
    }
}

/// One candidate: its token cell, then its weight.
pub open spec fn candidate_record(r: crate::model::Result) -> Seq<u8> {
    word_cell(r.word) + le_bytes(r.chance)
}

pub open spec fn candidates_bytes(l: Seq<crate::model::Result>) -> Seq<u8>
    decreases l.len(),
{
    if l.len() == 0 {
        Seq::empty()
    } else {
        candidates_bytes(l.drop_last()) + candidate_record(l.last())
    }
}

/// One context: its two token cells, its candidate count, its candidates.
pub open spec fn entry_record(t: (Entry, Seq<crate::model::Result>)) -> Seq<u8> {
    word_cell(t.0.0) + word_cell(t.0.1) + le_bytes(t.1.len() as u32) + candidates_bytes(t.1)
}

pub open spec fn entries_bytes(t: Seq<(Entry, Seq<crate::model::Result>)>) -> Seq<u8>
    decreases t.len(),
{
    if t.len() == 0 {
        Seq::empty()
    } else {
        entries_bytes(t.drop_last()) + entry_record(t.last())
    }
}

/// The bytes of a model.
pub open spec fn encode(m: ModelView) -> Seq<u8> {
    le_bytes(m.words.len() as u32) + words_bytes(m.words) + le_bytes(m.table.len() as u32)
        + entries_bytes(m.table)
}

/// The integer at `p`, and the position after it.
pub open spec fn read_u32(b: Seq<u8>, p: int) -> core::result::Result<(u32, int), DecodeError> {
    if p + 4 <= b.len() {
        Ok((le_value(b.subrange(p, p + 4)), p + 4))
    } else {
        Err(DecodeError::TruncatedInput)
    }
}

/// The token cell at `p`, for a vocabulary of `n` words.
pub open spec fn read_token(b: Seq<u8>, p: int, n: nat) -> core::result::Result<
    (Word, int),
    DecodeError,
> {
    if p + 5 > b.len() {
        Err(DecodeError::TruncatedInput)
    } else {
        match cell_word(b.subrange(p, p + 5)) {
            None => Err(DecodeError::CorruptTag),
            Some(w) => if valid_token(w, n) {
                Ok((w, p + 5))
            } else {
                Err(DecodeError::InvalidIndex)
            },
        }
    }
}

/// `count` words from `p`.
pub open spec fn read_words(b: Seq<u8>, p: int, count: nat) -> core::result::Result<
    (Seq<Seq<char>>, int),
    DecodeError,
>
    decreases count,
{
    if count == 0 {
        Ok((Seq::empty(), p))
    } else {
        match read_words(b, p, (count - 1) as nat) {
            Err(e) => Err(e),
            Ok((ws, q)) => match read_u32(b, q) {
                Err(e) => Err(e),
                Ok((len, q2)) => if q2 + len > b.len() {
                    Err(DecodeError::TruncatedInput)
                } else if !valid_utf8(b.subrange(q2, q2 + len)) {
                    Err(DecodeError::CorruptEncoding)
                } else {
                    Ok((ws.push(decode_utf8(b.subrange(q2, q2 + len))), q2 + len))
                },
            },
        }
    }
}

/// `count` candidates from `p`, for a vocabulary of `n` words.
pub open spec fn read_candidates(b: Seq<u8>, p: int, count: nat, n: nat) -> core::result::Result<
    (Seq<crate::model::Result>, int),
    DecodeError,
>
    decreases count,
{
    if count == 0 {
        Ok((Seq::empty(), p))
    } else {
        match read_candidates(b, p, (count - 1) as nat, n) {
            Err(e) => Err(e),
            Ok((l, q)) => match read_token(b, q, n) {
                Err(e) => Err(e),
                Ok((w, q2)) => if has_candidate(l, w) {
                    Err(DecodeError::DuplicateEntry)
                } else {
                    match read_u32(b, q2) {
                        Err(e) => Err(e),
                        Ok((c, q3)) => Ok((l.push(crate::model::Result { word: w, chance: c }), q3)),
                    }
                },
            },
        }
    }
}

/// The table with context `e` given the candidates `l`: in place of the
/// earlier list where the context is already there, at the end where not.
pub open spec fn with_entry(
    t: Seq<(Entry, Seq<crate::model::Result>)>,
    e: Entry,
    l: Seq<crate::model::Result>,
) -> Seq<(Entry, Seq<crate::model::Result>)> {
    if has_context(t, e) {
        t.update(context_index(t, e), (e, l))
    } else {
        t.push((e, l))
    }
}

/// `count` contexts from `p`, for a vocabulary of `n` words; a context that
/// comes again keeps its first place and takes the later candidates.
pub open spec fn read_entries(b: Seq<u8>, p: int, count: nat, n: nat) -> core::result::Result<
    (Seq<(Entry, Seq<crate::model::Result>)>, int),
    DecodeError,
>
    decreases count,
{
    if count == 0 {
        Ok((Seq::empty(), p))
    } else {
        match read_entries(b, p, (count - 1) as nat, n) {
            Err(e) => Err(e),
            Ok((t, q)) => match read_token(b, q, n) {
                Err(e) => Err(e),
                Ok((w1, q1)) => match read_token(b, q1, n) {
                    Err(e) => Err(e),
                    Ok((w2, q2)) => match read_u32(b, q2) {
                        Err(e) => Err(e),
                        Ok((k, q3)) => match read_candidates(b, q3, k as nat, n) {
                            Err(e) => Err(e),
                            Ok((l, q4)) => Ok((with_entry(t, (w1, w2), l), q4)),
                        },
                    },
                },
            },
        }
    }
}

/// The model that a byte string holds, or the first fault in it. A context
/// that comes again takes its later candidates; bytes after the last context
/// are ignored.
pub open spec fn decode(b: Seq<u8>) -> core::result::Result<ModelView, DecodeError> {
    match read_u32(b, 0) {
        Err(e) => Err(e),
        Ok((nw, p)) => match read_words(b, p, nw as nat) {
            Err(e) => Err(e),
            Ok((ws, q)) => match read_u32(b, q) {
                Err(e) => Err(e),
                Ok((nt, r)) => match read_entries(b, r, nt as nat, ws.len()) {
                    Err(e) => Err(e),
                    Ok((t, _)) => Ok(ModelView { words: ws, table: t }),
                },
            },
        },
    }
}

proof fn lemma_read_u32(pre: Seq<u8>, x: u32, rest: Seq<u8>)
    ensures
        read_u32(pre + le_bytes(x) + rest, pre.len() as int) == Ok::<(u32, int), DecodeError>(
            (x, pre.len() as int + 4),
        ),
{
    let b = pre + le_bytes(x) + rest;
    let p = pre.len() as int;
    assert(b.subrange(p, p + 4) =~= le_bytes(x));
    lemma_le_value_of_bytes(x);
}

proof fn lemma_read_token(pre: Seq<u8>, w: Word, rest: Seq<u8>, n: nat)
    requires
        valid_token(w, n),
    ensures
        read_token(pre + word_cell(w) + rest, pre.len() as int, n) == Ok::<(Word, int), DecodeError>(
            (w, pre.len() as int + 5),
        ),
{
    let b = pre + word_cell(w) + rest;
    let p = pre.len() as int;
    lemma_cell_word_of_cell(w, Seq::empty());
    assert(b.subrange(p, p + 5) =~= word_cell(w) + Seq::<u8>::empty());
}

proof fn lemma_read_words(pre: Seq<u8>, ws: Seq<Seq<char>>, rest: Seq<u8>)
    requires
        forall|i: int| 0 <= i < ws.len() ==> encode_utf8(#[trigger] ws[i]).len() <= MAX_COUNT,
    ensures
        read_words(pre + words_bytes(ws) + rest, pre.len() as int, ws.len()) == Ok::<
            (Seq<Seq<char>>, int),
            DecodeError,
        >((ws, pre.len() as int + words_bytes(ws).len())),
    decreases ws.len(),
{
    let b = pre + words_bytes(ws) + rest;
    if ws.len() == 0 {
        assert(ws =~= Seq::<Seq<char>>::empty());
    } else {
        let prev = ws.drop_last();
        let w = ws.last();
        let enc = encode_utf8(w);
        let tail = word_record(w) + rest;
        assert(b =~= pre + words_bytes(prev) + tail);
        assert forall|i: int| 0 <= i < prev.len() implies encode_utf8(#[trigger] prev[i]).len()
            <= MAX_COUNT by {
            assert(prev[i] == ws[i]);
        }
        lemma_read_words(pre, prev, tail);
        let q = pre.len() as int + words_bytes(prev).len();
        assert(encode_utf8(ws[ws.len() - 1]).len() <= MAX_COUNT);
        let len = enc.len() as u32;
        assert(b =~= (pre + words_bytes(prev)) + le_bytes(len) + (enc + rest));
        lemma_read_u32(pre + words_bytes(prev), len, enc + rest);
        assert(b.subrange(q + 4, q + 4 + len) =~= enc);
        assert(ws =~= prev.push(w));
    }
}

proof fn lemma_read_candidates(pre: Seq<u8>, l: Seq<crate::model::Result>, rest: Seq<u8>, n: nat)
    requires
        candidates_unique(l),
        forall|j: int| 0 <= j < l.len() ==> valid_token(#[trigger] l[j].word, n),
    ensures
        read_candidates(pre + candidates_bytes(l) + rest, pre.len() as int, l.len(), n) == Ok::<
            (Seq<crate::model::Result>, int),
            DecodeError,
        >((l, pre.len() as int + candidates_bytes(l).len())),
    decreases l.len(),
{
    let b = pre + candidates_bytes(l) + rest;
    if l.len() == 0 {
        assert(l =~= Seq::<crate::model::Result>::empty());
    } else {
        let prev = l.drop_last();
        let r = l.last();
        let tail = candidate_record(r) + rest;
        assert(b =~= pre + candidates_bytes(prev) + tail);
        assert forall|i: int, j: int|
            0 <= i < prev.len() && 0 <= j < prev.len() && i != j implies #[trigger] prev[i].word
                != #[trigger] prev[j].word by {
            assert(prev[i] == l[i] && prev[j] == l[j]);
        }
        assert forall|j: int| 0 <= j < prev.len() implies valid_token(#[trigger] prev[j].word, n) by {
            assert(prev[j] == l[j]);
        }
        lemma_read_candidates(pre, prev, tail, n);
        let pre2 = pre + candidates_bytes(prev);
        assert(valid_token(l[l.len() - 1].word, n));
        assert(b =~= pre2 + word_cell(r.word) + (le_bytes(r.chance) + rest));
        lemma_read_token(pre2, r.word, le_bytes(r.chance) + rest, n);
        assert(!has_candidate(prev, r.word)) by {
            if has_candidate(prev, r.word) {
                let i = choose|i: int| 0 <= i < prev.len() && #[trigger] prev[i].word == r.word;
                assert(l[i].word == l[l.len() - 1].word);
            }
        }
        lemma_cell_word_of_cell(r.word, Seq::empty());
        assert(b =~= (pre2 + word_cell(r.word)) + le_bytes(r.chance) + rest);
        lemma_read_u32(pre2 + word_cell(r.word), r.chance, rest);
        assert(l =~= prev.push(crate::model::Result { word: r.word, chance: r.chance }));
    }
}

proof fn lemma_read_entry(pre: Seq<u8>, x: (Entry, Seq<crate::model::Result>), rest: Seq<u8>, n: nat)
    requires
        table_entry_wf(x, n),
    ensures
        ({
            let b = pre + entry_record(x) + rest;
            let q = pre.len() as int;
            &&& read_token(b, q, n) == Ok::<(Word, int), DecodeError>((x.0.0, q + 5))
            &&& read_token(b, q + 5, n) == Ok::<(Word, int), DecodeError>((x.0.1, q + 10))
            &&& read_u32(b, q + 10) == Ok::<(u32, int), DecodeError>((x.1.len() as u32, q + 14))
            &&& read_candidates(b, q + 14, x.1.len(), n) == Ok::<
                (Seq<crate::model::Result>, int),
                DecodeError,
            >((x.1, q + entry_record(x).len()))
        }),
{
    let b = pre + entry_record(x) + rest;
    let c1 = word_cell(x.0.0);
    let c2 = word_cell(x.0.1);
    let lb = le_bytes(x.1.len() as u32);
    let cb = candidates_bytes(x.1);
    lemma_cell_word_of_cell(x.0.0, Seq::empty());
    lemma_cell_word_of_cell(x.0.1, Seq::empty());
    assert(b =~= pre + c1 + (c2 + lb + cb + rest));
    lemma_read_token(pre, x.0.0, c2 + lb + cb + rest, n);
    assert(b =~= (pre + c1) + c2 + (lb + cb + rest));
    lemma_read_token(pre + c1, x.0.1, lb + cb + rest, n);
    assert(b =~= (pre + c1 + c2) + lb + (cb + rest));
    lemma_read_u32(pre + c1 + c2, x.1.len() as u32, cb + rest);
    assert(b =~= (pre + c1 + c2 + lb) + cb + rest);
    lemma_read_candidates(pre + c1 + c2 + lb, x.1, rest, n);
}

#[verifier::rlimit(40)]
proof fn lemma_read_entries(
    pre: Seq<u8>,
    t: Seq<(Entry, Seq<crate::model::Result>)>,
    rest: Seq<u8>,
    n: nat,
)
    requires
        table_wf(t, n),
    ensures
        read_entries(pre + entries_bytes(t) + rest, pre.len() as int, t.len(), n) == Ok::<
            (Seq<(Entry, Seq<crate::model::Result>)>, int),
            DecodeError,
        >((t, pre.len() as int + entries_bytes(t).len())),
    decreases t.len(),
{
    let b = pre + entries_bytes(t) + rest;
    if t.len() == 0 {
        assert(t =~= Seq::<(Entry, Seq<crate::model::Result>)>::empty());
    } else {
        let prev = t.drop_last();
        let x = t.last();
        let tail = entry_record(x) + rest;
        assert(b =~= pre + entries_bytes(prev) + tail);
        assert forall|i: int, j: int|
            0 <= i < prev.len() && 0 <= j < prev.len() && i != j implies #[trigger] prev[i].0
                != #[trigger] prev[j].0 by {
            assert(prev[i] == t[i] && prev[j] == t[j]);
        }
        assert forall|i: int| 0 <= i < prev.len() implies table_entry_wf(#[trigger] prev[i], n) by {
            assert(prev[i] == t[i]);
        }
        lemma_read_entries(pre, prev, tail, n);
        let pre2 = pre + entries_bytes(prev);
        assert(table_entry_wf(t[t.len() - 1], n));
        assert(b =~= pre2 + entry_record(x) + rest);
        lemma_read_entry(pre2, x, rest, n);
        assert(!has_context(prev, x.0)) by {
            if has_context(prev, x.0) {
                let i = choose|i: int| 0 <= i < prev.len() && #[trigger] prev[i].0 == x.0;
                assert(t[i].0 == t[t.len() - 1].0);
            }
        }
        assert(t =~= prev.push(((x.0.0, x.0.1), x.1)));
    }
}

/// Decoding the bytes of a well-formed model gives the model back.
pub proof fn lemma_decode_encode(m: ModelView)
    requires
        wf(m),
    ensures
        decode(encode(m)) == Ok::<ModelView, DecodeError>(m),
{
    let wb = words_bytes(m.words);
    let eb = entries_bytes(m.table);
    let nw = le_bytes(m.words.len() as u32);
    let nt = le_bytes(m.table.len() as u32);
    let b = encode(m);
    assert(b =~= Seq::<u8>::empty() + nw + (wb + nt + eb));
    lemma_read_u32(Seq::empty(), m.words.len() as u32, wb + nt + eb);
    assert(b =~= nw + wb + (nt + eb));
    lemma_read_words(nw, m.words, nt + eb);
    assert(b =~= (nw + wb) + nt + eb);
    lemma_read_u32(nw + wb, m.table.len() as u32, eb);
    assert(b =~= (nw + wb + nt) + eb + Seq::<u8>::empty());
    lemma_read_entries(nw + wb + nt, m.table, Seq::empty(), m.words.len());
}

/// What a read gives on the first `l` bytes of `b`, given what it gives
/// on `b`: the same where it ends within them, a truncation where it does
/// not.
pub open spec fn cut<T>(r: core::result::Result<(T, int), DecodeError>, l: int) -> core::result::Result<
    (T, int),
    DecodeError,
> {
    match r {
        Ok((x, q)) => if q <= l {
            Ok((x, q))
        } else {
            Err(DecodeError::TruncatedInput)
        },
        Err(e) => Err(e),
    }
}

proof fn lemma_cut_u32(b: Seq<u8>, p: int, l: int)
    requires
        0 <= p,
        0 <= l <= b.len(),
        read_u32(b, p) is Ok,
    ensures
        read_u32(b.take(l), p) == cut(read_u32(b, p), l),
{
    if p + 4 <= l {
        assert(b.take(l).subrange(p, p + 4) =~= b.subrange(p, p + 4));
    }
}

proof fn lemma_cut_token(b: Seq<u8>, p: int, n: nat, l: int)
    requires
        0 <= p,
        0 <= l <= b.len(),
        read_token(b, p, n) is Ok,
    ensures
        read_token(b.take(l), p, n) == cut(read_token(b, p, n), l),
{
    if p + 5 <= l {
        assert(b.take(l).subrange(p, p + 5) =~= b.subrange(p, p + 5));
    }
}

proof fn lemma_read_words_end(b: Seq<u8>, p: int, n: nat)
    requires
        0 <= p,
        read_words(b, p, n) is Ok,
    ensures
        p <= read_words(b, p, n)->Ok_0.1,
    decreases n,
{
    if n > 0 {
        lemma_read_words_end(b, p, (n - 1) as nat);
    }
}

proof fn lemma_cut_words(b: Seq<u8>, p: int, n: nat, l: int)
    requires
        0 <= p,
        p <= l,
        0 <= l <= b.len(),
        read_words(b, p, n) is Ok,
    ensures
        read_words(b.take(l), p, n) == cut(read_words(b, p, n), l),
    decreases n,
{
    if n > 0 {
        let n1 = (n - 1) as nat;
        let c = b.take(l);
        assert(read_words(b, p, n1) is Ok);
        lemma_cut_words(b, p, n1, l);
        lemma_read_words_end(b, p, n1);
        let (ws, q) = read_words(b, p, n1)->Ok_0;
        assert(read_u32(b, q) is Ok);
        let (len, q2) = read_u32(b, q)->Ok_0;
        assert(q2 == q + 4);
        assert(read_words(b, p, n) == Ok::<(Seq<Seq<char>>, int), DecodeError>(
            (ws.push(decode_utf8(b.subrange(q2, q2 + len))), q2 + len),
        ));
        if q <= l {
            assert(read_words(c, p, n1) == Ok::<(Seq<Seq<char>>, int), DecodeError>((ws, q)));
            lemma_cut_u32(b, q, l);
            if q2 <= l {
                assert(read_u32(c, q) == Ok::<(u32, int), DecodeError>((len, q2)));
                if q2 + len <= l {
                    assert(c.subrange(q2, q2 + len) =~= b.subrange(q2, q2 + len));
                } else {
                    assert(read_words(c, p, n) == Err::<(Seq<Seq<char>>, int), DecodeError>(
                        DecodeError::TruncatedInput,
                    ));
                }
            } else {
                assert(read_u32(c, q) == Err::<(u32, int), DecodeError>(DecodeError::TruncatedInput));
            }
        } else {
            assert(read_words(c, p, n1) == Err::<(Seq<Seq<char>>, int), DecodeError>(
                DecodeError::TruncatedInput,
            ));
        }
    }
}

proof fn lemma_read_candidates_end(b: Seq<u8>, p: int, n: nat, k: nat)
    requires
        0 <= p,
        read_candidates(b, p, n, k) is Ok,
    ensures
        p <= read_candidates(b, p, n, k)->Ok_0.1,
    decreases n,
{
    if n > 0 {
        lemma_read_candidates_end(b, p, (n - 1) as nat, k);
    }
}

proof fn lemma_cut_candidates(b: Seq<u8>, p: int, n: nat, k: nat, l: int)
    requires
        0 <= p,
        p <= l,
        0 <= l <= b.len(),
        read_candidates(b, p, n, k) is Ok,
    ensures
        read_candidates(b.take(l), p, n, k) == cut(read_candidates(b, p, n, k), l),
    decreases n,
{
    if n > 0 {
        let n1 = (n - 1) as nat;
        let c = b.take(l);
        assert(read_candidates(b, p, n1, k) is Ok);
        lemma_cut_candidates(b, p, n1, k, l);
        lemma_read_candidates_end(b, p, n1, k);
        let (ls, q) = read_candidates(b, p, n1, k)->Ok_0;
        assert(read_token(b, q, k) is Ok);
        let (w, q2) = read_token(b, q, k)->Ok_0;
        assert(read_u32(b, q2) is Ok);
        let (x, q3) = read_u32(b, q2)->Ok_0;
        assert(q2 == q + 5 && q3 == q2 + 4);
        if q <= l {
            assert(read_candidates(c, p, n1, k) == Ok::<(Seq<crate::model::Result>, int), DecodeError>(
                (ls, q),
            ));
            lemma_cut_token(b, q, k, l);
            if q2 <= l {
                lemma_cut_u32(b, q2, l);
            }
        } else {
            assert(read_candidates(c, p, n1, k) == Err::<(Seq<crate::model::Result>, int), DecodeError>(
                DecodeError::TruncatedInput,
            ));
        }
    }
}

proof fn lemma_read_entries_end(b: Seq<u8>, p: int, n: nat, k: nat)
    requires
        0 <= p,
        read_entries(b, p, n, k) is Ok,
    ensures
        p <= read_entries(b, p, n, k)->Ok_0.1,
    decreases n,
{
    if n > 0 {
        lemma_read_entries_end(b, p, (n - 1) as nat, k);
        let (t, q) = read_entries(b, p, (n - 1) as nat, k)->Ok_0;
        let (w1, q1) = read_token(b, q, k)->Ok_0;
        let (w2, q2) = read_token(b, q1, k)->Ok_0;
        let (c, q3) = read_u32(b, q2)->Ok_0;
        lemma_read_candidates_end(b, q3, c as nat, k);
    }
}

proof fn lemma_cut_entries(b: Seq<u8>, p: int, n: nat, k: nat, l: int)
    requires
        0 <= p,
        p <= l,
        0 <= l <= b.len(),
        read_entries(b, p, n, k) is Ok,
    ensures
        read_entries(b.take(l), p, n, k) == cut(read_entries(b, p, n, k), l),
    decreases n,
{
    if n > 0 {
        let n1 = (n - 1) as nat;
        let c = b.take(l);
        assert(read_entries(b, p, n1, k) is Ok);
        lemma_cut_entries(b, p, n1, k, l);
        lemma_read_entries_end(b, p, n1, k);
        let (t, q) = read_entries(b, p, n1, k)->Ok_0;
        assert(read_token(b, q, k) is Ok);
        let (w1, q1) = read_token(b, q, k)->Ok_0;
        assert(read_token(b, q1, k) is Ok);
        let (w2, q2) = read_token(b, q1, k)->Ok_0;
        assert(read_u32(b, q2) is Ok);
        let (cnt, q3) = read_u32(b, q2)->Ok_0;
        assert(read_candidates(b, q3, cnt as nat, k) is Ok);
        lemma_read_candidates_end(b, q3, cnt as nat, k);
        assert(q1 == q + 5 && q2 == q1 + 5 && q3 == q2 + 4);
        if q <= l {
            assert(read_entries(c, p, n1, k) == Ok::<
                (Seq<(Entry, Seq<crate::model::Result>)>, int),
                DecodeError,
            >((t, q)));
            lemma_cut_token(b, q, k, l);
            if q1 <= l {
                lemma_cut_token(b, q1, k, l);
                if q2 <= l {
                    lemma_cut_u32(b, q2, l);
                    if q3 <= l {
                        lemma_cut_candidates(b, q3, cnt as nat, k, l);
                    }
                }
            }
        } else {
            assert(read_entries(c, p, n1, k) == Err::<
                (Seq<(Entry, Seq<crate::model::Result>)>, int),
                DecodeError,
            >(DecodeError::TruncatedInput));
        }
    }
}

/// Decoding a strict prefix of the bytes of a well-formed model fails with
/// `TruncatedInput`.
pub proof fn lemma_decode_prefix(m: ModelView, l: int)
    requires
        wf(m),
        0 <= l < encode(m).len(),
    ensures
        decode(encode(m).take(l)) == Err::<ModelView, DecodeError>(DecodeError::TruncatedInput),
{
    let b = encode(m);
    let wb = words_bytes(m.words);
    let eb = entries_bytes(m.table);
    let nw = le_bytes(m.words.len() as u32);
    let nt = le_bytes(m.table.len() as u32);
    assert(b =~= Seq::<u8>::empty() + nw + (wb + nt + eb));
    lemma_read_u32(Seq::empty(), m.words.len() as u32, wb + nt + eb);
    assert(b =~= nw + wb + (nt + eb));
    lemma_read_words(nw, m.words, nt + eb);
    assert(b =~= (nw + wb) + nt + eb);
    lemma_read_u32(nw + wb, m.table.len() as u32, eb);
    assert(b =~= (nw + wb + nt) + eb + Seq::<u8>::empty());
    lemma_read_entries(nw + wb + nt, m.table, Seq::empty(), m.words.len());
    lemma_cut_u32(b, 0, l);
    if 4 <= l {
        lemma_cut_words(b, 4, m.words.len(), l);
        let q = 4 + wb.len() as int;
        if q <= l {
            lemma_cut_u32(b, q, l);
            if q + 4 <= l {
                lemma_cut_entries(b, q + 4, m.table.len(), m.words.len(), l);
            }
        }
    }
}

fn push_bytes(out: &mut Vec<u8>, b: &[u8])
    ensures
        final(out)@ == old(out)@ + b@,
{
    let mut i: usize = 0;
    while i < b.len()
        invariant
            i <= b@.len(),
            out@ == old(out)@ + b@.take(i as int),
        decreases b@.len() - i,
    {
        out.push(b[i]);
        i += 1;
        assert(out@ =~= old(out)@ + b@.take(i as int));
    }
    assert(b@.take(b@.len() as int) =~= b@);
}

fn push_u32(out: &mut Vec<u8>, x: u32)
    ensures
        final(out)@ == old(out)@ + le_bytes(x),
{
    let a = to_4u8(x);
    out.push(a[0]);
    out.push(a[1]);
    out.push(a[2]);
    out.push(a[3]);
    assert(out@ =~= old(out)@ + le_bytes(x));
}

fn push_cell(out: &mut Vec<u8>, w: Word)
    ensures
        final(out)@ == old(out)@ + word_cell(w),
{
    let a = w.into_bytes();
    let mut i: usize = 0;
    while i < 5
        invariant
            i <= 5,
            a@ == word_cell(w),
            a@.len() == 5,
            out@ == old(out)@ + a@.take(i as int),
        decreases 5 - i,
    {
        out.push(a[i]);
        i += 1;
        assert(out@ =~= old(out)@ + a@.take(i as int));
    }
    assert(a@.take(5) =~= a@);
}

impl Dictionary {
    /// The bytes of this dictionary in the binary layout, contexts in the
    /// order the table holds them.
    pub fn to_bytes(&self) -> (r: Vec<u8>)
        requires
            self.inv(),
        ensures
            r@ == encode(self@),
    {
        proof {
            self.lemma_wf();
        }
        let ghost m = self@;
        let mut out: Vec<u8> = Vec::new();
        let nw = self.word_count();
        push_u32(&mut out, nw as u32);
        let mut i: usize = 0;
        proof {
            assert(m.words.take(0) =~= Seq::<Seq<char>>::empty());
            assert(out@ =~= le_bytes(nw as u32) + words_bytes(m.words.take(0)));
        }
        while i < nw
            invariant
                self.inv(),
                m == self@,
                wf(m),
                nw == m.words.len(),
                i <= nw,
                out@ == le_bytes(nw as u32) + words_bytes(m.words.take(i as int)),
            decreases nw - i,
        {
            let b = self.word_at(i).as_str().as_bytes();
            proof {
                assert(m.words.take(i + 1).drop_last() =~= m.words.take(i as int));
                assert(encode_utf8(m.words[i as int]).len() <= MAX_COUNT);
            }
            push_u32(&mut out, b.len() as u32);
            push_bytes(&mut out, b);
            i += 1;
            proof {
                assert(out@ =~= le_bytes(nw as u32) + words_bytes(m.words.take(i as int)));
            }
        }
        let nt = self.context_count();
        push_u32(&mut out, nt as u32);
        proof {
            assert(m.words.take(nw as int) =~= m.words);
            assert(m.table.take(0) =~= Seq::<(Entry, Seq<crate::model::Result>)>::empty());
            assert(out@ =~= le_bytes(nw as u32) + words_bytes(m.words) + le_bytes(nt as u32)
                + entries_bytes(m.table.take(0)));
        }
        let mut k: usize = 0;
        while k < nt
            invariant
                self.inv(),
                m == self@,
                wf(m),
                nw == m.words.len(),
                nt == m.table.len(),
                k <= nt,
                out@ == le_bytes(nw as u32) + words_bytes(m.words) + le_bytes(nt as u32)
                    + entries_bytes(m.table.take(k as int)),
            decreases nt - k,
        {
            let (e, list) = self.entry_at(k);
            let ghost before = out@;
            proof {
                assert(table_entry_wf(m.table[k as int], m.words.len()));
            }
            push_cell(&mut out, e.0);
            push_cell(&mut out, e.1);
            push_u32(&mut out, list.len() as u32);
            let ghost head = out@;
            let mut j: usize = 0;
            proof {
                assert(list@.take(0) =~= Seq::<crate::model::Result>::empty());
                assert(out@ =~= head + candidates_bytes(list@.take(0)));
            }
            while j < list.len()
                invariant
                    j <= list@.len(),
                    out@ == head + candidates_bytes(list@.take(j as int)),
                decreases list@.len() - j,
            {
                proof {
                    assert(list@.take(j + 1).drop_last() =~= list@.take(j as int));
                }
                push_cell(&mut out, list[j].word);
                push_u32(&mut out, list[j].chance);
                j += 1;
                proof {
                    assert(out@ =~= head + candidates_bytes(list@.take(j as int)));
                }
            }
            k += 1;
            proof {
                assert(list@.take(list@.len() as int) =~= list@);
                assert(m.table.take(k as int).drop_last() =~= m.table.take(k - 1));
                assert(out@ =~= le_bytes(nw as u32) + words_bytes(m.words) + le_bytes(nt as u32)
                    + entries_bytes(m.table.take(k as int)));
            }
        }
        proof {
            assert(m.table.take(nt as int) =~= m.table);
        }
        out
    }
}

proof fn lemma_read_words_err(b: Seq<u8>, p: int, k: nat, m: nat)
    requires
        read_words(b, p, k) is Err,
        k <= m,
    ensures
        read_words(b, p, m) == read_words(b, p, k),
    decreases m,
{
    if m > k {
        lemma_read_words_err(b, p, k, (m - 1) as nat);
    }
}

proof fn lemma_read_candidates_err(b: Seq<u8>, p: int, k: nat, m: nat, n: nat)
    requires
        read_candidates(b, p, k, n) is Err,
        k <= m,
    ensures
        read_candidates(b, p, m, n) == read_candidates(b, p, k, n),
    decreases m,
{
    if m > k {
        lemma_read_candidates_err(b, p, k, (m - 1) as nat, n);
    }
}

proof fn lemma_read_entries_err(b: Seq<u8>, p: int, k: nat, m: nat, n: nat)
    requires
        read_entries(b, p, k, n) is Err,
        k <= m,
    ensures
        read_entries(b, p, m, n) == read_entries(b, p, k, n),
    decreases m,
{
    if m > k {
        lemma_read_entries_err(b, p, k, (m - 1) as nat, n);
    }
}

/// Relies on `std::str::from_utf8`: it accepts exactly the valid UTF-8 byte
/// strings, and the string it gives holds those bytes.
#[verifier::external_body]
fn utf8_string(b: &[u8]) -> (r: Option<String>)
    ensures
        r is Some <==> valid_utf8(b@),
        r matches Some(s) ==> encode_utf8(s@) == b@,
{
    std::str::from_utf8(b).ok().map(String::from)
}

fn read_u32_at(b: &[u8], p: usize) -> (r: core::result::Result<(u32, usize), DecodeError>)
    ensures
        match r {
            Ok((x, q)) => read_u32(b@, p as int) == Ok::<(u32, int), DecodeError>((x, q as int)),
            Err(e) => read_u32(b@, p as int) == Err::<(u32, int), DecodeError>(e),
        },
{
    if p > b.len() || b.len() - p < 4 {
        return Err(DecodeError::TruncatedInput);
    }
    let v = to_u32(&b[p..p + 4]);
    Ok((v.unwrap(), p + 4))
}

fn read_token_at(b: &[u8], p: usize, n: usize) -> (r: core::result::Result<(Word, usize), DecodeError>)
    ensures
        match r {
            Ok((w, q)) => read_token(b@, p as int, n as nat) == Ok::<(Word, int), DecodeError>(
                (w, q as int),
            ),
            Err(e) => read_token(b@, p as int, n as nat) == Err::<(Word, int), DecodeError>(e),
        },
{
    if p > b.len() || b.len() - p < 5 {
        return Err(DecodeError::TruncatedInput);
    }
    match Word::from_bytes(&b[p..p + 5]) {
        None => Err(DecodeError::CorruptTag),
        Some(w) => {
            let valid = match w {
                Word::Word(i) => (i as usize) < n,
                _ => true,
            };
            if valid {
                Ok((w, p + 5))
            } else {
                Err(DecodeError::InvalidIndex)
            }
        },
    }
}

fn read_vocabulary(b: &[u8], p: usize, count: u32) -> (r: core::result::Result<
    (Dictionary, usize),
    DecodeError,
>)
    ensures
        match r {
            Ok((d, q)) => d.inv() && d@.table.len() == 0 && read_words(b@, p as int, count as nat)
                == Ok::<(Seq<Seq<char>>, int), DecodeError>((d@.words, q as int)),
            Err(e) => read_words(b@, p as int, count as nat) == Err::<(Seq<Seq<char>>, int), DecodeError>(
                e,
            ),
        },
{
    let mut d = Dictionary::new();
    let mut i: u32 = 0;
    let mut q: usize = p;
    while i < count
        invariant
            d.inv(),
            d@.table.len() == 0,
            i <= count,
            d@.words.len() == i,
            read_words(b@, p as int, i as nat) == Ok::<(Seq<Seq<char>>, int), DecodeError>(
                (d@.words, q as int),
            ),
        decreases count - i,
    {
        let (len, q2) = match read_u32_at(b, q) {
            Ok(x) => x,
            Err(e) => {
                proof {
                    lemma_read_words_err(b@, p as int, (i + 1) as nat, count as nat);
                }
                return Err(e);
            },
        };
        if len as usize > b.len() - q2 {
            proof {
                lemma_read_words_err(b@, p as int, (i + 1) as nat, count as nat);
            }
            return Err(DecodeError::TruncatedInput);
        }
        let end = q2 + len as usize;
        match utf8_string(&b[q2..end]) {
            None => {
                proof {
                    lemma_read_words_err(b@, p as int, (i + 1) as nat, count as nat);
                }
                return Err(DecodeError::CorruptEncoding);
            },
            Some(w) => {
                proof {
                    vstd::utf8::encode_utf8_decode_utf8(w@);
                }
                d.push_word(w);
            },
        }
        q = end;
        i += 1;
    }
    Ok((d, q))
}

fn read_candidate_list(b: &[u8], p: usize, count: u32, n: usize) -> (r: core::result::Result<
    (Vec<crate::model::Result>, usize),
    DecodeError,
>)
    ensures
        match r {
            Ok((l, q)) => read_candidates(b@, p as int, count as nat, n as nat) == Ok::<
                (Seq<crate::model::Result>, int),
                DecodeError,
            >((l@, q as int)) && table_entry_wf(((Word::End, Word::End), l@), n as nat),
            Err(e) => read_candidates(b@, p as int, count as nat, n as nat) == Err::<
                (Seq<crate::model::Result>, int),
                DecodeError,
            >(e),
        },
{
    let mut l: Vec<crate::model::Result> = Vec::new();
    let mut seen: HashSet<u128> = HashSet::new();
    let mut i: u32 = 0;
    let mut q: usize = p;
    while i < count
        invariant
            i <= count,
            l@.len() == i,
            forall|x: u128|
                #[trigger] seen@.contains(x) <==> exists|j: int|
                    0 <= j < l@.len() && token_code(l@[j].word) == x,
            candidates_unique(l@),
            forall|j: int| 0 <= j < l@.len() ==> valid_token(#[trigger] l@[j].word, n as nat),
            read_candidates(b@, p as int, i as nat, n as nat) == Ok::<
                (Seq<crate::model::Result>, int),
                DecodeError,
            >((l@, q as int)),
        decreases count - i,
    {
        let (w, q1) = match read_token_at(b, q, n) {
            Ok(x) => x,
            Err(e) => {
                proof {
                    lemma_read_candidates_err(b@, p as int, (i + 1) as nat, count as nat, n as nat);
                }
                return Err(e);
            },
        };
        let ghost before = seen@;
        let fresh = seen.insert(code_of(w));
        proof {
            if has_candidate(l@, w) {
                let j = choose|j: int| 0 <= j < l@.len() && #[trigger] l@[j].word == w;
                assert(token_code(l@[j].word) == token_code(w));
                assert(before.contains(token_code(w) as u128));
            }
            if before.contains(token_code(w) as u128) {
                let j = choose|j: int| 0 <= j < l@.len() && token_code(l@[j].word) == token_code(w) as u128;
                assert(l@[j].word == w);
            }
            assert(fresh == !has_candidate(l@, w));
        }
        if !fresh {
            proof {
                lemma_read_candidates_err(b@, p as int, (i + 1) as nat, count as nat, n as nat);
            }
            return Err(DecodeError::DuplicateEntry);
        }
        let (c, q2) = match read_u32_at(b, q1) {
            Ok(x) => x,
            Err(e) => {
                proof {
                    lemma_read_candidates_err(b@, p as int, (i + 1) as nat, count as nat, n as nat);
                }
                return Err(e);
            },
        };
        let ghost prev = l@;
        l.push(crate::model::Result { word: w, chance: c });
        proof {
            assert forall|x: u128| #[trigger] seen@.contains(x) <==> exists|j: int|
                0 <= j < l@.len() && token_code(l@[j].word) == x by {
                if seen@.contains(x) && x != token_code(w) as u128 {
                    let j = choose|j: int| 0 <= j < prev.len() && token_code(prev[j].word) == x;
                    assert(l@[j] == prev[j]);
                }
                if exists|j: int| 0 <= j < l@.len() && token_code(l@[j].word) == x {
                    let j = choose|j: int| 0 <= j < l@.len() && token_code(l@[j].word) == x;
                    if j < prev.len() {
                        assert(l@[j] == prev[j]);
                    }
                }
                if x == token_code(w) as u128 {
                    assert(l@[prev.len() as int].word == w);
                }
            }
            assert forall|x: int, y: int|
                0 <= x < l@.len() && 0 <= y < l@.len() && x != y implies #[trigger] l@[x].word
                    != #[trigger] l@[y].word by {
                if x == prev.len() {
                    assert(prev[y].word != w);
                } else if y == prev.len() {
                    assert(prev[x].word != w);
                } else {
                    assert(l@[x] == prev[x] && l@[y] == prev[y]);
                }
            }
            assert forall|j: int| 0 <= j < l@.len() implies valid_token(#[trigger] l@[j].word, n as nat) by {
                if j < prev.len() {
                    assert(l@[j] == prev[j]);
                }
            }
        }
        q = q2;
        i += 1;
    }
    Ok((l, q))
}

impl Dictionary {
    /// The dictionary that `bytes` hold in the binary layout, or the first
    /// fault found in them.
    pub fn from_bytes(bytes: &[u8]) -> (r: core::result::Result<Dictionary, DecodeError>)
        ensures
            match r {
                Ok(d) => d.inv() && decode(bytes@) == Ok::<ModelView, DecodeError>(d@),
                Err(e) => decode(bytes@) == Err::<ModelView, DecodeError>(e),
            },
    {
        let (nw, p) = match read_u32_at(bytes, 0) {
            Ok(x) => x,
            Err(e) => {
                return Err(e);
            },
        };
        let (mut d, q) = match read_vocabulary(bytes, p, nw) {
            Ok(x) => x,
            Err(e) => {
                return Err(e);
            },
        };
        let (nt, r) = match read_u32_at(bytes, q) {
            Ok(x) => x,
            Err(e) => {
                return Err(e);
            },
        };
        let n = d.word_count();
        let ghost ws = d@.words;
        let mut k: u32 = 0;
        let mut pos: usize = r;
        proof {
            assert(d@.table =~= Seq::<(Entry, Seq<crate::model::Result>)>::empty());
        }
        while k < nt
            invariant
                d.inv(),
                d@.words == ws,
                n == ws.len(),
                k <= nt,
                d@.table.len() <= k,
                read_u32(bytes@, 0) == Ok::<(u32, int), DecodeError>((nw, p as int)),
                read_words(bytes@, p as int, nw as nat) == Ok::<(Seq<Seq<char>>, int), DecodeError>(
                    (ws, q as int),
                ),
                read_u32(bytes@, q as int) == Ok::<(u32, int), DecodeError>((nt, r as int)),
                read_entries(bytes@, r as int, k as nat, n as nat) == Ok::<
                    (Seq<(Entry, Seq<crate::model::Result>)>, int),
                    DecodeError,
                >((d@.table, pos as int)),
            decreases nt - k,
        {
            let (w1, q1) = match read_token_at(bytes, pos, n) {
                Ok(x) => x,
                Err(e) => {
                    proof {
                        lemma_read_entries_err(bytes@, r as int, (k + 1) as nat, nt as nat, n as nat);
                    }
                    return Err(e);
                },
            };
            let (w2, q2) = match read_token_at(bytes, q1, n) {
                Ok(x) => x,
                Err(e) => {
                    proof {
                        lemma_read_entries_err(bytes@, r as int, (k + 1) as nat, nt as nat, n as nat);
                    }
                    return Err(e);
                },
            };
            let (cnt, q3) = match read_u32_at(bytes, q2) {
                Ok(x) => x,
                Err(e) => {
                    proof {
                        lemma_read_entries_err(bytes@, r as int, (k + 1) as nat, nt as nat, n as nat);
                    }
                    return Err(e);
                },
            };
            let (list, q4) = match read_candidate_list(bytes, q3, cnt, n) {
                Ok(x) => x,
                Err(e) => {
                    proof {
                        lemma_read_entries_err(bytes@, r as int, (k + 1) as nat, nt as nat, n as nat);
                    }
                    return Err(e);
                },
            };
            proof {
                assert(table_entry_wf(((w1, w2), list@), n as nat));
            }
            if d.has_context((w1, w2)) {
                d.replace_context((w1, w2), list);
            } else {
                d.push_context((w1, w2), list);
            }
            pos = q4;
            k += 1;
        }
        Ok(d)
    }
}

} // verus!
