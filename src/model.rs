//! The mathematical model of a dictionary: its vocabulary, its transition
//! table, and what learning a line does to them.

use vstd::prelude::*;
use vstd::utf8::encode_utf8;
use crate::word::Word;

verus! {

/// A context: the two tokens that precede a position.
pub type Entry = (Word, Word);

/// A candidate next token, with the number of times it was seen.
#[derive(Clone, Copy, PartialEq, Eq, Structural, Debug)]
pub struct Result {
    pub word: Word,
    pub chance: u32,
}

/// What a dictionary holds: the vocabulary in id order, and the transition
/// table, each context with its candidates, in the order they were added.
pub struct ModelView {
    pub words: Seq<Seq<char>>,
    pub table: Seq<(Entry, Seq<Result>)>,
}

/// The largest count that the binary layout can hold.
pub const MAX_COUNT: u32 = 0xffff_ffff;

/// A token refers to nothing outside a vocabulary of `n` words.
pub open spec fn valid_token(w: Word, n: nat) -> bool {
    match w {
        Word::Word(i) => (i as nat) < n,
        _ => true,
    }
}

/// The id of the first occurrence of `w` in `words`.
pub open spec fn word_position(words: Seq<Seq<char>>, w: Seq<char>) -> Option<nat>
    decreases words.len(),
{
    if words.len() == 0 {
        None
    } else if words[0] == w {
        Some(0)
    } else {
        match word_position(words.drop_first(), w) {
            Some(i) => Some(i + 1),
            None => None,
        }
    }
}

pub open spec fn has_context(table: Seq<(Entry, Seq<Result>)>, e: Entry) -> bool {
    exists|i: int| 0 <= i < table.len() && #[trigger] table[i].0 == e
}

pub open spec fn context_index(table: Seq<(Entry, Seq<Result>)>, e: Entry) -> int {
    choose|i: int| 0 <= i < table.len() && #[trigger] table[i].0 == e
}

pub open spec fn has_candidate(list: Seq<Result>, c: Word) -> bool {
    exists|i: int| 0 <= i < list.len() && #[trigger] list[i].word == c
}

pub open spec fn candidate_index(list: Seq<Result>, c: Word) -> int {
    choose|i: int| 0 <= i < list.len() && #[trigger] list[i].word == c
}

/// No context occurs twice in the table.
pub open spec fn contexts_unique(table: Seq<(Entry, Seq<Result>)>) -> bool {
    forall|i: int, j: int|
        0 <= i < table.len() && 0 <= j < table.len() && i != j ==> #[trigger] table[i].0
            != #[trigger] table[j].0
}

/// No token occurs twice among a context's candidates.
pub open spec fn candidates_unique(list: Seq<Result>) -> bool {
    forall|i: int, j: int|
        0 <= i < list.len() && 0 <= j < list.len() && i != j ==> #[trigger] list[i].word
            != #[trigger] list[j].word
}

/// The weight of `c` among the candidates of context `e`; zero where it is
/// not one of them.
pub open spec fn weight(table: Seq<(Entry, Seq<Result>)>, e: Entry, c: Word) -> nat {
    if has_context(table, e) {
        let list = table[context_index(table, e)].1;
        if has_candidate(list, c) {
            list[candidate_index(list, c)].chance as nat
        } else {
            0
        }
    } else {
        0
    }
}

pub open spec fn saturating_inc(w: u32) -> u32 {
    if w == MAX_COUNT {
        w
    } else {
        (w + 1) as u32
    }
}

/// A candidate list after one more sighting of `c`.
pub open spec fn bump(list: Seq<Result>, c: Word) -> Seq<Result> {
    if has_candidate(list, c) {
        let i = candidate_index(list, c);
        list.update(i, Result { word: c, chance: saturating_inc(list[i].chance) })
    } else {
        list.push(Result { word: c, chance: 1 })
    }
}

/// The table after one sighting of `c` in context `e`.
pub open spec fn observe(table: Seq<(Entry, Seq<Result>)>, e: Entry, c: Word) -> Seq<
    (Entry, Seq<Result>),
> {
    if has_context(table, e) {
        let k = context_index(table, e);
        table.update(k, (e, bump(table[k].1, c)))
    } else {
        table.push((e, seq![Result { word: c, chance: 1 }]))
    }
}

/// The table after the sightings of `obs`, in order.
pub open spec fn observe_all(table: Seq<(Entry, Seq<Result>)>, obs: Seq<(Entry, Word)>) -> Seq<
    (Entry, Seq<Result>),
>
    decreases obs.len(),
{
    if obs.len() == 0 {
        table
    } else {
        observe(observe_all(table, obs.drop_last()), obs.last().0, obs.last().1)
    }
}

/// The tokens of a line framed by the start markers and the end marker.
pub open spec fn augmented(ids: Seq<Word>) -> Seq<Word> {
    seq![Word::Start1, Word::Start2] + ids + seq![Word::End]
}

/// Every window of two tokens of the framed line, with the token after it.
pub open spec fn observations(ids: Seq<Word>) -> Seq<(Entry, Word)> {
    let a = augmented(ids);
    Seq::new(ids.len() + 1, |k: int| ((a[k], a[k + 1]), a[k + 2]))
}

/// The vocabulary after interning each of `tokens` in order.
pub open spec fn intern_all(words: Seq<Seq<char>>, tokens: Seq<Seq<char>>) -> Seq<Seq<char>>
    decreases tokens.len(),
{
    if tokens.len() == 0 {
        words
    } else {
        let w = intern_all(words, tokens.drop_last());
        if word_position(w, tokens.last()) is Some {
            w
        } else {
            w.push(tokens.last())
        }
    }
}

/// The tokens of `tokens` as ids into `words`.
pub open spec fn token_ids(words: Seq<Seq<char>>, tokens: Seq<Seq<char>>) -> Seq<Word> {
    Seq::new(
        tokens.len(),
        |i: int|
            match word_position(words, tokens[i]) {
                Some(j) => Word::Word(j as u32),
                None => Word::End,
            },
    )
}

/// The model after learning a line made of `tokens`; a line without tokens
/// changes nothing.
pub open spec fn learn_spec(m: ModelView, tokens: Seq<Seq<char>>) -> ModelView {
    if tokens.len() == 0 {
        m
    } else {
        let w = intern_all(m.words, tokens);
        ModelView { words: w, table: observe_all(m.table, observations(token_ids(w, tokens))) }
    }
}

/// The sightings that learning `tokens` makes in `m`.
pub open spec fn line_observations(m: ModelView, tokens: Seq<Seq<char>>) -> Seq<(Entry, Word)> {
    if tokens.len() == 0 {
        Seq::empty()
    } else {
        observations(token_ids(intern_all(m.words, tokens), tokens))
    }
}

/// Learning a line of `tokens` in `m` keeps every count within the binary
/// layout's bounds.
pub open spec fn fits(m: ModelView, tokens: Seq<Seq<char>>) -> bool {
    &&& m.words.len() + tokens.len() + 3 <= MAX_COUNT
    &&& m.table.len() + tokens.len() + 1 <= MAX_COUNT
    &&& forall|i: int| 0 <= i < tokens.len() ==> encode_utf8(#[trigger] tokens[i]).len() <= MAX_COUNT
}

/// A model that the binary layout can hold, with no repeated context, no
/// repeated candidate in a context, and no id outside the vocabulary.
pub open spec fn wf(m: ModelView) -> bool {
    &&& m.words.len() <= MAX_COUNT
    &&& forall|i: int| 0 <= i < m.words.len() ==> encode_utf8(#[trigger] m.words[i]).len() <= MAX_COUNT
    &&& m.table.len() <= MAX_COUNT
    &&& contexts_unique(m.table)
    &&& forall|i: int| 0 <= i < m.table.len() ==> table_entry_wf(#[trigger] m.table[i], m.words.len())
}

pub open spec fn table_entry_wf(t: (Entry, Seq<Result>), n: nat) -> bool {
    &&& valid_token(t.0.0, n)
    &&& valid_token(t.0.1, n)
    &&& t.1.len() <= MAX_COUNT
    &&& candidates_unique(t.1)
    &&& forall|j: int| 0 <= j < t.1.len() ==> valid_token(#[trigger] t.1[j].word, n)
}

/// A code of each token, with markers at the bottom.
pub open spec fn token_rank(w: Word) -> int {
    match w {
        Word::Start1 => 0,
        Word::Start2 => 1,
        Word::End => 2,
        Word::Word(i) => i + 3,
    }
}

/// The key under which a context is indexed.
pub open spec fn token_code(w: Word) -> int {
    match w {
        Word::Word(i) => i as int,
        Word::Start1 => 0x1_0000_0000,
        Word::Start2 => 0x1_0000_0001,
        Word::End => 0x1_0000_0002,
    }
}

pub open spec fn context_key(e: Entry) -> u128 {
    (token_code(e.0) * 0x1_0000_0000_0000_0000 + token_code(e.1)) as u128
}


/// Where the first occurrence of `w` stands, if anywhere.
pub proof fn lemma_word_position(words: Seq<Seq<char>>, w: Seq<char>)
    ensures
        match word_position(words, w) {
            Some(i) => i < words.len() && words[i as int] == w && forall|j: int|
                0 <= j < i ==> words[j] != w,
            None => forall|j: int| 0 <= j < words.len() ==> words[j] != w,
        },
    decreases words.len(),
{
    if words.len() > 0 && words[0] != w {
        let rest = words.drop_first();
        lemma_word_position(rest, w);
        assert forall|j: int| 1 <= j < words.len() implies words[j] == rest[j - 1] by {}
        match word_position(rest, w) {
            Some(i) => {
                assert forall|j: int| 0 <= j < i + 1 implies words[j] != w by {
                    if j > 0 {
                        assert(words[j] == rest[j - 1]);
                    }
                }
            },
            None => {
                assert forall|j: int| 0 <= j < words.len() implies words[j] != w by {
                    if j > 0 {
                        assert(words[j] == rest[j - 1]);
                    }
                }
            },
        }
    }
}

/// A first occurrence found by a scan is the position.
pub proof fn lemma_word_position_at(words: Seq<Seq<char>>, w: Seq<char>, i: int)
    requires
        0 <= i < words.len(),
        words[i] == w,
        forall|j: int| 0 <= j < i ==> words[j] != w,
    ensures
        word_position(words, w) == Some(i as nat),
{
    lemma_word_position(words, w);
}

/// A word absent from the vocabulary has no position.
pub proof fn lemma_word_position_none(words: Seq<Seq<char>>, w: Seq<char>)
    requires
        forall|j: int| 0 <= j < words.len() ==> words[j] != w,
    ensures
        word_position(words, w) is None,
{
    lemma_word_position(words, w);
}

/// Appending words keeps the position of a word already present.
pub proof fn lemma_word_position_extend(words: Seq<Seq<char>>, more: Seq<Seq<char>>, w: Seq<char>)
    requires
        word_position(words, w) is Some,
    ensures
        word_position(words + more, w) == word_position(words, w),
{
    lemma_word_position(words, w);
    let i = word_position(words, w)->0;
    assert((words + more)[i as int] == w);
    assert forall|j: int| 0 <= j < i implies (words + more)[j] != w by {
        assert((words + more)[j] == words[j]);
    }
    lemma_word_position_at(words + more, w, i as int);
}

/// Interning in two parts is interning the whole.
pub proof fn lemma_intern_all_append(words: Seq<Seq<char>>, a: Seq<Seq<char>>, b: Seq<Seq<char>>)
    ensures
        intern_all(words, a + b) == intern_all(intern_all(words, a), b),
    decreases b.len(),
{
    if b.len() == 0 {
        assert(a + b =~= a);
    } else {
        assert((a + b).drop_last() =~= a + b.drop_last());
        assert((a + b).last() == b.last());
        lemma_intern_all_append(words, a, b.drop_last());
    }
}

/// Interning only appends, at most one word per token, each one of the
/// tokens, and leaves every token with a position.
pub proof fn lemma_intern_all(words: Seq<Seq<char>>, tokens: Seq<Seq<char>>)
    ensures
        words.len() <= intern_all(words, tokens).len() <= words.len() + tokens.len(),
        intern_all(words, tokens).subrange(0, words.len() as int) == words,
        forall|i: int|
            0 <= i < tokens.len() ==> word_position(intern_all(words, tokens), #[trigger] tokens[i])
                is Some,
        forall|j: int|
            words.len() <= j < intern_all(words, tokens).len() ==> exists|i: int|
                0 <= i < tokens.len() && tokens[i] == #[trigger] intern_all(words, tokens)[j],
        forall|w: Seq<char>|
            #[trigger] word_position(words, w) is Some ==> word_position(
                intern_all(words, tokens),
                w,
            ) == word_position(words, w),
    decreases tokens.len(),
{
    if tokens.len() > 0 {
        let prev = tokens.drop_last();
        let t = tokens.last();
        lemma_intern_all(words, prev);
        let w = intern_all(words, prev);
        let r = intern_all(words, tokens);
        if word_position(w, t) is None {
            lemma_word_position(w, t);
            assert(r == w.push(t));
            assert(w.push(t) =~= w + seq![t]);
            assert forall|x: Seq<char>| #[trigger] word_position(w, x) is Some implies word_position(r, x)
                == word_position(w, x) by {
                lemma_word_position_extend(w, seq![t], x);
            }
            lemma_word_position_at(r, t, w.len() as int);
        }
        assert(r.subrange(0, words.len() as int) =~= words) by {
            assert(w.subrange(0, words.len() as int) == words);
        }
        assert forall|i: int| 0 <= i < tokens.len() implies word_position(r, #[trigger] tokens[i])
            is Some by {
            if i < prev.len() {
                assert(tokens[i] == prev[i]);
            }
        }
        assert forall|j: int| words.len() <= j < r.len() implies exists|i: int|
            0 <= i < tokens.len() && tokens[i] == #[trigger] r[j] by {
            if j < w.len() {
                let i = choose|i: int| 0 <= i < prev.len() && prev[i] == w[j];
                assert(tokens[i] == prev[i]);
            } else {
                assert(tokens[tokens.len() - 1] == r[j]);
            }
        }
    }
}


/// Distinct contexts have distinct keys.
pub proof fn lemma_context_key_injective(a: Entry, b: Entry)
    requires
        context_key(a) == context_key(b),
    ensures
        a == b,
{
    let (ca0, ca1, cb0, cb1) = (token_code(a.0), token_code(a.1), token_code(b.0), token_code(b.1));
    assert(0 <= ca0 < 0x1_0000_0003 && 0 <= ca1 < 0x1_0000_0003);
    assert(0 <= cb0 < 0x1_0000_0003 && 0 <= cb1 < 0x1_0000_0003);
    assert(ca0 * 0x1_0000_0000_0000_0000 + ca1 == cb0 * 0x1_0000_0000_0000_0000 + cb1);
    assert(ca0 == cb0 && ca1 == cb1) by (nonlinear_arith)
        requires
            0 <= ca0 < 0x1_0000_0003,
            0 <= ca1 < 0x1_0000_0003,
            0 <= cb0 < 0x1_0000_0003,
            0 <= cb1 < 0x1_0000_0003,
            ca0 * 0x1_0000_0000_0000_0000 + ca1 == cb0 * 0x1_0000_0000_0000_0000 + cb1,
    ;
}

/// A list of distinct tokens of a vocabulary of `n` words has at most
/// `n + 3` entries.
pub proof fn lemma_candidates_bound(list: Seq<Result>, n: nat)
    requires
        candidates_unique(list),
        forall|j: int| 0 <= j < list.len() ==> valid_token(#[trigger] list[j].word, n),
    ensures
        list.len() <= n + 3,
{
    let ranks = list.map_values(|r: Result| token_rank(r.word));
    assert forall|i: int, j: int| 0 <= i < ranks.len() && 0 <= j < ranks.len() && i != j implies ranks[i]
        != ranks[j] by {
        assert(list[i].word != list[j].word);
    }
    assert(ranks.no_duplicates());
    ranks.unique_seq_to_set();
    let range = Set::new(|x: int| 0 <= x < n + 3);
    assert(range =~= vstd::set_lib::set_int_range(0, (n + 3) as int));
    vstd::set_lib::lemma_int_range(0, (n + 3) as int);
    assert(ranks.to_set().subset_of(range)) by {
        assert forall|x: int| ranks.to_set().contains(x) implies range.contains(x) by {
            let j = choose|j: int| 0 <= j < ranks.len() && ranks[j] == x;
            assert(valid_token(list[j].word, n));
        }
    }
    vstd::set_lib::lemma_len_subset(ranks.to_set(), range);
}

/// Bumping a candidate keeps the list free of repeats, and adds at most `c`.
pub proof fn lemma_bump(list: Seq<Result>, c: Word)
    requires
        candidates_unique(list),
    ensures
        candidates_unique(bump(list, c)),
        forall|j: int|
            0 <= j < bump(list, c).len() ==> (#[trigger] bump(list, c)[j].word == c || exists|i: int|
                0 <= i < list.len() && list[i].word == bump(list, c)[j].word),
        bump(list, c).len() <= list.len() + 1,
        forall|d: Word|
            #[trigger] has_candidate(bump(list, c), d) == (d == c || has_candidate(list, d)),
        forall|d: Word|
            has_candidate(bump(list, c), d) ==> #[trigger] bump(list, c)[candidate_index(
                bump(list, c),
                d,
            )].chance == if d == c {
                saturating_inc(
                    if has_candidate(list, c) {
                        list[candidate_index(list, c)].chance
                    } else {
                        0
                    },
                )
            } else {
                list[candidate_index(list, d)].chance
            },
{
    let b = bump(list, c);
    if has_candidate(list, c) {
        let i = candidate_index(list, c);
        assert forall|d: Word| has_candidate(b, d) implies b[candidate_index(b, d)].chance == if d
            == c {
            saturating_inc(list[i].chance)
        } else {
            list[candidate_index(list, d)].chance
        } by {
            let k = candidate_index(b, d);
            if d != c {
                assert(list[k].word == d);
                assert(candidate_index(list, d) == k);
            } else {
                assert(k == i);
            }
        }
        assert forall|d: Word| #[trigger] has_candidate(b, d) == (d == c || has_candidate(list, d)) by {
            if has_candidate(list, d) {
                let k = candidate_index(list, d);
                assert(b[k].word == d);
            }
            if has_candidate(b, d) {
                let k = candidate_index(b, d);
                assert(list[k].word == d);
            }
        }
    } else {
        assert forall|d: Word| has_candidate(b, d) implies b[candidate_index(b, d)].chance == if d
            == c {
            saturating_inc(0)
        } else {
            list[candidate_index(list, d)].chance
        } by {
            let k = candidate_index(b, d);
            if d != c {
                assert(k < list.len());
                assert(list[k].word == d);
            } else {
                assert(k == list.len());
            }
        }
        assert forall|d: Word| #[trigger] has_candidate(b, d) == (d == c || has_candidate(list, d)) by {
            if has_candidate(list, d) {
                let k = candidate_index(list, d);
                assert(b[k].word == d);
            }
            if d == c {
                assert(b[list.len() as int].word == d);
            }
            if has_candidate(b, d) && d != c {
                let k = candidate_index(b, d);
                assert(list[k].word == d);
            }
        }
    }
    assert forall|j: int|
        0 <= j < b.len() implies (#[trigger] b[j].word == c || exists|i: int|
            0 <= i < list.len() && list[i].word == b[j].word) by {
        if b[j].word != c {
            assert(list[j].word == b[j].word);
        }
    }
}


/// The number of sightings of `c` in context `e` among `obs`.
pub open spec fn sightings(obs: Seq<(Entry, Word)>, e: Entry, c: Word) -> nat
    decreases obs.len(),
{
    if obs.len() == 0 {
        0
    } else {
        sightings(obs.drop_last(), e, c) + if obs.last() == (e, c) {
            1nat
        } else {
            0nat
        }
    }
}

/// `x`, or the largest count where `x` exceeds it.
pub open spec fn capped(x: nat) -> nat {
    if x > MAX_COUNT {
        MAX_COUNT as nat
    } else {
        x
    }
}

/// The table entries are well formed for a vocabulary of `n` words.
pub open spec fn table_wf(table: Seq<(Entry, Seq<Result>)>, n: nat) -> bool {
    &&& contexts_unique(table)
    &&& forall|i: int| 0 <= i < table.len() ==> table_entry_wf(#[trigger] table[i], n)
}

/// One sighting keeps the table well formed and grows it by at most one
/// context.
pub proof fn lemma_observe(table: Seq<(Entry, Seq<Result>)>, e: Entry, c: Word, n: nat)
    requires
        table_wf(table, n),
        valid_token(e.0, n),
        valid_token(e.1, n),
        valid_token(c, n),
        n + 3 <= MAX_COUNT,
    ensures
        table_wf(observe(table, e, c), n),
        observe(table, e, c).len() <= table.len() + 1,
{
    let t = observe(table, e, c);
    assert forall|i: int| 0 <= i < table.len() implies candidates_unique(#[trigger] table[i].1) by {
        assert(table_entry_wf(table[i], n));
    }
    lemma_observe_unique(table, e, c);
    if has_context(table, e) {
        let k = context_index(table, e);
        let list = table[k].1;
        lemma_bump(list, c);
        let b = bump(list, c);
        assert forall|j: int| 0 <= j < b.len() implies valid_token(#[trigger] b[j].word, n) by {
            if b[j].word != c {
                let i = choose|i: int| 0 <= i < list.len() && list[i].word == b[j].word;
                assert(table_entry_wf(table[k], n));
            }
        }
        lemma_candidates_bound(b, n);
        assert(table_entry_wf(t[k], n));
        assert forall|i: int| 0 <= i < t.len() implies table_entry_wf(#[trigger] t[i], n) by {
            if i != k {
                assert(t[i] == table[i]);
            }
        }
    } else {
        assert(table_entry_wf(t[table.len() as int], n));
        assert forall|i: int| 0 <= i < t.len() implies table_entry_wf(#[trigger] t[i], n) by {
            if i < table.len() {
                assert(t[i] == table[i]);
            }
        }
    }
}

/// No context occurs twice, and no candidate twice in a context.
pub open spec fn table_unique(table: Seq<(Entry, Seq<Result>)>) -> bool {
    &&& contexts_unique(table)
    &&& forall|i: int| 0 <= i < table.len() ==> candidates_unique(#[trigger] table[i].1)
}

/// One sighting keeps contexts and candidates free of repeats and adds one
/// to one weight, up to the largest count.
pub proof fn lemma_observe_unique(table: Seq<(Entry, Seq<Result>)>, e: Entry, c: Word)
    requires
        table_unique(table),
    ensures
        table_unique(observe(table, e, c)),
        forall|e2: Entry, c2: Word|
            #[trigger] weight(observe(table, e, c), e2, c2) == if e2 == e && c2 == c {
                capped(weight(table, e, c) + 1)
            } else {
                weight(table, e2, c2)
            },
{
    let t = observe(table, e, c);
    if has_context(table, e) {
        let k = context_index(table, e);
        lemma_bump(table[k].1, c);
        assert forall|i: int| 0 <= i < t.len() implies candidates_unique(#[trigger] t[i].1) by {
            if i != k {
                assert(t[i] == table[i]);
            }
        }
        assert forall|i: int, j: int|
            0 <= i < t.len() && 0 <= j < t.len() && i != j implies #[trigger] t[i].0
                != #[trigger] t[j].0 by {
            assert(t[i].0 == table[i].0);
            assert(t[j].0 == table[j].0);
        }
        assert forall|e2: Entry, c2: Word|
            #[trigger] weight(t, e2, c2) == if e2 == e && c2 == c {
                capped(weight(table, e, c) + 1)
            } else {
                weight(table, e2, c2)
            } by {
            assert(t[k].0 == e);
            if e2 == e {
                assert(context_index(t, e) == k);
            } else if has_context(table, e2) {
                let k2 = context_index(table, e2);
                assert(t[k2].0 == e2);
                assert(context_index(t, e2) == k2);
            } else {
                if has_context(t, e2) {
                    let k2 = context_index(t, e2);
                    assert(table[k2].0 == e2);
                }
            }
        }
    } else {
        assert forall|i: int| 0 <= i < t.len() implies candidates_unique(#[trigger] t[i].1) by {
            if i < table.len() {
                assert(t[i] == table[i]);
            }
        }
        assert forall|e2: Entry, c2: Word|
            #[trigger] weight(t, e2, c2) == if e2 == e && c2 == c {
                capped(weight(table, e, c) + 1)
            } else {
                weight(table, e2, c2)
            } by {
            let last = table.len() as int;
            assert(t[last].0 == e);
            if e2 == e {
                assert(context_index(t, e) == last);
                if c2 == c {
                    assert(t[last].1[0].word == c);
                    assert(candidate_index(t[last].1, c) == 0);
                } else {
                    if has_candidate(t[last].1, c2) {
                        let j = candidate_index(t[last].1, c2);
                        assert(j == 0);
                    }
                }
            } else if has_context(table, e2) {
                let k2 = context_index(table, e2);
                assert(t[k2].0 == e2);
                assert(context_index(t, e2) == k2);
            } else {
                if has_context(t, e2) {
                    let k2 = context_index(t, e2);
                    assert(table[k2].0 == e2);
                }
            }
        }
    }
}

/// A run of sightings keeps contexts and candidates free of repeats, and
/// adds to each weight the number of its sightings, up to the largest count.
pub proof fn lemma_observe_all_unique(table: Seq<(Entry, Seq<Result>)>, obs: Seq<(Entry, Word)>)
    requires
        table_unique(table),
    ensures
        table_unique(observe_all(table, obs)),
        forall|e: Entry, c: Word|
            #[trigger] weight(observe_all(table, obs), e, c) == capped(
                weight(table, e, c) + sightings(obs, e, c),
            ),
    decreases obs.len(),
{
    if obs.len() > 0 {
        let prev = obs.drop_last();
        lemma_observe_all_unique(table, prev);
        let (e, c) = obs.last();
        let t = observe_all(table, prev);
        lemma_observe_unique(t, e, c);
        assert forall|e2: Entry, c2: Word|
            #[trigger] weight(observe_all(table, obs), e2, c2) == capped(
                weight(table, e2, c2) + sightings(obs, e2, c2),
            ) by {
            assert(weight(table, e2, c2) <= MAX_COUNT) by {
                if has_context(table, e2) {
                    let l = table[context_index(table, e2)].1;
                    if has_candidate(l, c2) {
                        let x = l[candidate_index(l, c2)].chance;
                    }
                }
            }
        }
    }
}

/// The model after a chat line of `tokens`: learned where it fits,
/// unchanged where it does not.
pub open spec fn after_line(m: ModelView, tokens: Seq<Seq<char>>) -> ModelView {
    if fits(m, tokens) {
        learn_spec(m, tokens)
    } else {
        m
    }
}

} // verus!
