//! Properties that relate several operations of the dictionary.

use vstd::prelude::*;
use crate::codec::{decode, encode, lemma_decode_encode, lemma_decode_prefix, DecodeError};
use crate::dictionary::{whitespace_tokens, Dictionary};
use crate::logs::{learn_log_lines, learnable_message};
use crate::model::{
    fits, candidates_unique, capped, intern_all, learn_spec, lemma_intern_all, lemma_observe_all_unique,
    line_observations, observations, sightings, table_entry_wf, table_unique, token_ids, weight,
    word_position, wf, Entry, ModelView, MAX_COUNT,
};
use crate::word::Word;

verus! {

/// The bytes of a dictionary decode to the same vocabulary, in the same
/// order, and the same transition table, with the same weights.
pub proof fn lemma_round_trip(d: &Dictionary)
    requires
        d.inv(),
    ensures
        decode(encode(d@)) == Ok::<ModelView, DecodeError>(d@),
{
    d.lemma_wf();
    lemma_decode_encode(d@);
}

/// The first `l` bytes of a dictionary, fewer than all of them, fail to
/// decode with `TruncatedInput`.
pub proof fn lemma_truncated(d: &Dictionary, l: int)
    requires
        d.inv(),
        0 <= l < encode(d@).len(),
    ensures
        decode(encode(d@).take(l)) == Err::<ModelView, DecodeError>(DecodeError::TruncatedInput),
{
    d.lemma_wf();
    lemma_decode_prefix(d@, l);
}

/// `m` after learning the line of `tokens` `n` times.
pub open spec fn learn_times(m: ModelView, tokens: Seq<Seq<char>>, n: nat) -> ModelView
    decreases n,
{
    if n == 0 {
        m
    } else {
        learn_spec(learn_times(m, tokens, (n - 1) as nat), tokens)
    }
}

/// Interning tokens that are all present changes nothing.
proof fn lemma_intern_all_present(words: Seq<Seq<char>>, tokens: Seq<Seq<char>>)
    requires
        forall|i: int| 0 <= i < tokens.len() ==> word_position(words, #[trigger] tokens[i]) is Some,
    ensures
        intern_all(words, tokens) == words,
    decreases tokens.len(),
{
    if tokens.len() > 0 {
        let prev = tokens.drop_last();
        assert forall|i: int| 0 <= i < prev.len() implies word_position(words, #[trigger] prev[i])
            is Some by {
            assert(prev[i] == tokens[i]);
        }
        lemma_intern_all_present(words, prev);
        assert(word_position(words, tokens[tokens.len() - 1]) is Some);
    }
}

/// Learning a line never lowers a weight.
pub proof fn lemma_learn_monotonic(m: ModelView, tokens: Seq<Seq<char>>)
    requires
        wf(m),
    ensures
        forall|e: Entry, c: Word|
            #[trigger] weight(learn_spec(m, tokens).table, e, c) >= weight(m.table, e, c),
{
    if tokens.len() > 0 {
        lemma_wf_unique(m);
        let w = intern_all(m.words, tokens);
        lemma_observe_all_unique(m.table, observations(token_ids(w, tokens)));
        assert forall|e: Entry, c: Word|
            #[trigger] weight(learn_spec(m, tokens).table, e, c) >= weight(m.table, e, c) by {
            lemma_weight_bound(m.table, e, c);
        }
    }
}

proof fn lemma_wf_unique(m: ModelView)
    requires
        wf(m),
    ensures
        table_unique(m.table),
{
    assert forall|i: int| 0 <= i < m.table.len() implies candidates_unique(#[trigger] m.table[i].1) by {
        assert(table_entry_wf(m.table[i], m.words.len()));
    }
}

proof fn lemma_weight_bound(table: Seq<(Entry, Seq<crate::model::Result>)>, e: Entry, c: Word)
    ensures
        weight(table, e, c) <= MAX_COUNT,
{
}

/// Learning the same line `n + 1` times gives every weight what learning it
/// once gives, plus `n` times the number of sightings of that candidate in
/// that context that the line makes, up to the largest count.
pub proof fn lemma_learn_repeated(m: ModelView, tokens: Seq<Seq<char>>, n: nat)
    requires
        wf(m),
    ensures
        forall|e: Entry, c: Word|
            #[trigger] weight(learn_times(m, tokens, n + 1).table, e, c) == capped(
                weight(learn_spec(m, tokens).table, e, c) + n * sightings(
                    line_observations(m, tokens),
                    e,
                    c,
                ),
            ),
    decreases n,
{
    let m1 = learn_spec(m, tokens);
    assert(learn_times(m, tokens, 1) == m1) by {
        assert(learn_times(m, tokens, 0) == m);
    }
    if n == 0 {
        assert forall|e: Entry, c: Word|
            #[trigger] weight(learn_times(m, tokens, 1).table, e, c) == capped(
                weight(m1.table, e, c) + 0 * sightings(line_observations(m, tokens), e, c),
            ) by {
            lemma_weight_bound(m1.table, e, c);
        }
    } else if tokens.len() == 0 {
        lemma_learn_repeated(m, tokens, (n - 1) as nat);
        assert forall|e: Entry, c: Word|
            #[trigger] weight(learn_times(m, tokens, n + 1).table, e, c) == capped(
                weight(m1.table, e, c) + n * sightings(line_observations(m, tokens), e, c),
            ) by {
            assert(line_observations(m, tokens) =~= Seq::<(Entry, Word)>::empty());
            assert(n * sightings(line_observations(m, tokens), e, c) == 0) by (nonlinear_arith)
                requires
                    sightings(line_observations(m, tokens), e, c) == 0,
            ;
            let k = (n - 1) as nat;
            assert(k + 1 == n);
            assert(weight(learn_times(m, tokens, k + 1).table, e, c) == capped(
                weight(m1.table, e, c) + k * sightings(line_observations(m, tokens), e, c),
            ));
            assert((n - 1) * sightings(line_observations(m, tokens), e, c) == 0) by (nonlinear_arith)
                requires
                    sightings(line_observations(m, tokens), e, c) == 0,
            ;
            lemma_weight_bound(m1.table, e, c);
        }
    } else {
        lemma_learn_repeated(m, tokens, (n - 1) as nat);
        lemma_learn_times_words(m, tokens, n);
        let mk = learn_times(m, tokens, n);
        let w = m1.words;
        lemma_intern_all(m.words, tokens);
        lemma_intern_all_present(w, tokens);
        let obs = observations(token_ids(w, tokens));
        assert(line_observations(m, tokens) == obs);
        lemma_observe_all_unique(mk.table, obs);
        assert forall|e: Entry, c: Word|
            #[trigger] weight(learn_times(m, tokens, n + 1).table, e, c) == capped(
                weight(m1.table, e, c) + n * sightings(obs, e, c),
            ) by {
            let s = sightings(obs, e, c);
            let w1 = weight(m1.table, e, c);
            let k = (n - 1) as nat;
            assert(k + 1 == n);
            assert(weight(learn_times(m, tokens, k + 1).table, e, c) == capped(
                w1 + k * sightings(line_observations(m, tokens), e, c),
            ));
            assert(weight(mk.table, e, c) == capped(w1 + k * s));
            assert(n * s == (n - 1) * s + s) by (nonlinear_arith)
                requires
                    n >= 1,
            ;
        }
    }
}

/// After the first time, learning the same line again keeps the vocabulary,
/// and the table free of repeats.
proof fn lemma_learn_times_words(m: ModelView, tokens: Seq<Seq<char>>, n: nat)
    requires
        wf(m),
        tokens.len() > 0,
        n >= 1,
    ensures
        learn_times(m, tokens, n).words == learn_spec(m, tokens).words,
        table_unique(learn_times(m, tokens, n).table),
    decreases n,
{
    let m1 = learn_spec(m, tokens);
    let w = m1.words;
    lemma_wf_unique(m);
    lemma_intern_all(m.words, tokens);
    assert(learn_times(m, tokens, 0) == m);
    lemma_observe_all_unique(m.table, observations(token_ids(w, tokens)));
    if n > 1 {
        lemma_learn_times_words(m, tokens, (n - 1) as nat);
        lemma_intern_all_present(w, tokens);
        let mk = learn_times(m, tokens, (n - 1) as nat);
        lemma_observe_all_unique(mk.table, observations(token_ids(w, tokens)));
    }
}

/// `n` copies of one line.
pub open spec fn copies(line: Seq<char>, n: nat) -> Seq<Seq<char>> {
    Seq::new(n, |i: int| line)
}

/// The tokens of the message of a learnable log line.
pub open spec fn message_tokens(line: Seq<char>) -> Seq<Seq<char>> {
    whitespace_tokens(learnable_message(line)->0)
}

/// A log of `n` copies of one learnable line learns its message `n` times,
/// where each of those learnings fits the binary layout.
pub proof fn lemma_log_copies(m: ModelView, line: Seq<char>, n: nat)
    requires
        learnable_message(line) is Some,
        forall|k: nat|
            k < n ==> #[trigger] fits(learn_times(m, message_tokens(line), k), message_tokens(line)),
    ensures
        learn_log_lines(m, copies(line, n)) == learn_times(m, message_tokens(line), n),
    decreases n,
{
    if n > 0 {
        let k = (n - 1) as nat;
        let ls = copies(line, n);
        assert(ls.drop_last() =~= copies(line, k));
        assert(ls.last() == line);
        lemma_log_copies(m, line, k);
        assert(fits(learn_times(m, message_tokens(line), k), message_tokens(line)));
    }
}

/// A log of `n + 1` copies of one learnable line gives every weight what
/// learning its message once gives, plus `n` times the number of sightings
/// of that candidate in that context that the message makes, up to the
/// largest count; where each learning fits the binary layout.
pub proof fn lemma_log_repeated(m: ModelView, line: Seq<char>, n: nat)
    requires
        wf(m),
        learnable_message(line) is Some,
        forall|k: nat|
            k <= n ==> #[trigger] fits(learn_times(m, message_tokens(line), k), message_tokens(line)),
    ensures
        forall|e: Entry, c: Word|
            #[trigger] weight(learn_log_lines(m, copies(line, n + 1)).table, e, c)
                == capped(
                weight(learn_spec(m, message_tokens(line)).table, e, c) + n * sightings(
                    line_observations(m, message_tokens(line)),
                    e,
                    c,
                ),
            ),
{
    lemma_log_copies(m, line, n + 1);
    lemma_learn_repeated(m, message_tokens(line), n);
}

} // verus!
