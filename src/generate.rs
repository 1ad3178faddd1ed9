//! Generating sentences by a weighted random walk over the transition table.

use vstd::prelude::*;
use vstd::string::StringExecFns;
use crate::dictionary::Dictionary;
use crate::model::{context_index, has_context, valid_token, wf, Entry, ModelView, Result};
use crate::random::random_below;
use crate::word::Word;

verus! {

/// The most tokens one sentence draws.
pub const MAX_SENTENCE_TOKENS: usize = 64;

/// The candidates of context `e`; none where the table lacks it.
pub open spec fn candidates(table: Seq<(Entry, Seq<Result>)>, e: Entry) -> Seq<Result> {
    if has_context(table, e) {
        table[context_index(table, e)].1
    } else {
        Seq::empty()
    }
}

/// The sum of the weights of a candidate list.
pub open spec fn total_weight(list: Seq<Result>) -> nat
    decreases list.len(),
{
    if list.len() == 0 {
        0
    } else {
        list[0].chance as nat + total_weight(list.drop_first())
    }
}

/// The candidate that a draw `x` below the total weight selects: candidate
/// `i` covers the draws from the sum of the weights before it up to that
/// sum plus its own weight.
pub open spec fn pick(list: Seq<Result>, x: nat) -> Word
    decreases list.len(),
{
    if list.len() == 0 {
        Word::End
    } else if x < list[0].chance {
        list[0].word
    } else {
        pick(list.drop_first(), (x - list[0].chance) as nat)
    }
}

/// `w` is among the candidates with a weight above zero.
pub open spec fn drawable(list: Seq<Result>, w: Word) -> bool {
    exists|i: int| 0 <= i < list.len() && #[trigger] list[i].word == w && list[i].chance > 0
}

/// The context in which the token after `tokens` is drawn.
pub open spec fn next_context(tokens: Seq<Word>) -> Entry {
    let a = seq![Word::Start1, Word::Start2] + tokens;
    (a[a.len() - 2], a[a.len() - 1])
}

/// `tokens` is a walk through the table from the start context: each token
/// is drawable in the context of the two before it, and only the last may
/// be the end marker.
pub open spec fn is_walk(table: Seq<(Entry, Seq<Result>)>, tokens: Seq<Word>) -> bool {
    &&& forall|i: int|
        0 <= i < tokens.len() ==> drawable(
            candidates(table, next_context(tokens.take(i))),
            #[trigger] tokens[i],
        )
    &&& forall|i: int| 0 <= i < tokens.len() - 1 ==> #[trigger] tokens[i] != Word::End
}

/// A walk stops at the end marker, at a context with nothing to draw, or at
/// `max` tokens.
pub open spec fn walk_stopped(table: Seq<(Entry, Seq<Result>)>, tokens: Seq<Word>, max: nat) -> bool {
    ||| tokens.len() == max
    ||| (tokens.len() > 0 && tokens.last() == Word::End)
    ||| total_weight(candidates(table, next_context(tokens))) == 0
}

/// The words that the vocabulary tokens of `tokens` stand for, in order.
pub open spec fn spoken(words: Seq<Seq<char>>, tokens: Seq<Word>) -> Seq<Seq<char>>
    decreases tokens.len(),
{
    if tokens.len() == 0 {
        Seq::empty()
    } else {
        let prev = spoken(words, tokens.drop_last());
        match tokens.last() {
            Word::Word(i) => prev.push(words[i as int]),
            _ => prev,
        }
    }
}

/// Words joined by single spaces.
pub open spec fn join_spaces(ws: Seq<Seq<char>>) -> Seq<char>
    decreases ws.len(),
{
    if ws.len() == 0 {
        Seq::empty()
    } else if ws.len() == 1 {
        ws[0]
    } else {
        join_spaces(ws.drop_last()) + seq![' '] + ws.last()
    }
}

/// The sentence that a walk spells in model `m`.
pub open spec fn sentence(m: ModelView, tokens: Seq<Word>) -> Seq<char> {
    join_spaces(spoken(m.words, tokens))
}

proof fn lemma_total_weight_bound(list: Seq<Result>)
    ensures
        total_weight(list) <= list.len() * 0xffff_ffff,
    decreases list.len(),
{
    if list.len() > 0 {
        lemma_total_weight_bound(list.drop_first());
    }
}

/// The sum of the weights of a candidate list.
pub fn total_of(list: &Vec<Result>) -> (r: u64)
    requires
        list@.len() <= 0xffff_ffff,
    ensures
        r == total_weight(list@),
{
    let mut i: usize = list.len();
    let mut sum: u64 = 0;
    proof {
        assert(list@.skip(i as int) =~= Seq::<Result>::empty());
    }
    while i > 0
        invariant
            i <= list@.len() <= 0xffff_ffff,
            sum == total_weight(list@.skip(i as int)),
        decreases i,
    {
        proof {
            assert(list@.skip(i - 1).drop_first() =~= list@.skip(i as int));
            lemma_total_weight_bound(list@.skip(i - 1));
            assert((list@.len() - i + 1) * 0xffff_ffff <= 0xffff_ffff * 0xffff_ffff) by (nonlinear_arith)
                requires
                    i >= 1,
                    list@.len() <= 0xffff_ffff,
            ;
        }
        i -= 1;
        sum = sum + list[i].chance as u64;
    }
    proof {
        assert(list@.skip(0) =~= list@);
    }
    sum
}

/// The candidate that draw `x` selects.
pub fn pick_candidate(list: &Vec<Result>, x: u64) -> (r: Word)
    requires
        (x as nat) < total_weight(list@),
    ensures
        r == pick(list@, x as nat),
        drawable(list@, r),
{
    let mut i: usize = 0;
    let mut rest: u64 = x;
    assert(list@.skip(0) =~= list@);
    while i < list.len()
        invariant
            i <= list@.len(),
            (rest as nat) < total_weight(list@.skip(i as int)),
            pick(list@, x as nat) == pick(list@.skip(i as int), rest as nat),
            forall|w: Word| drawable(list@.skip(i as int), w) ==> drawable(list@, w),
        decreases list@.len() - i,
    {
        let ghost s = list@.skip(i as int);
        proof {
            assert(s.drop_first() =~= list@.skip(i + 1));
            assert(s[0] == list@[i as int]);
            assert forall|w: Word| drawable(list@.skip(i + 1), w) implies drawable(list@, w) by {
                let j = choose|j: int|
                    0 <= j < list@.skip(i + 1).len() && #[trigger] list@.skip(i + 1)[j].word == w
                        && list@.skip(i + 1)[j].chance > 0;
                assert(s[j + 1] == list@.skip(i + 1)[j]);
            }
        }
        let c = list[i].chance as u64;
        if rest < c {
            proof {
                assert(s[0].word == list@[i as int].word);
                assert(drawable(s, s[0].word));
            }
            return list[i].word;
        }
        rest = rest - c;
        i += 1;
    }
    proof {
        assert(list@.skip(i as int) =~= Seq::<Result>::empty());
    }
    Word::End
}

impl Dictionary {
    /// The token that draw `x` selects among the candidates of context `e`.
    pub fn next_word(&self, e: Entry, x: u64) -> (r: Word)
        requires
            self.inv(),
            (x as nat) < total_weight(candidates(self@.table, e)),
        ensures
            r == pick(candidates(self@.table, e), x as nat),
            drawable(candidates(self@.table, e), r),
    {
        match self.lookup(e) {
            Some(list) => pick_candidate(list, x),
            None => Word::End,
        }
    }

    /// A random walk from the start context: each token is drawn among the
    /// candidates of the two before it, with chance in proportion to its
    /// weight, until the end marker is drawn, a context has nothing to draw,
    /// or `max_tokens` tokens are drawn.
    pub fn generate_tokens(&self, max_tokens: usize) -> (r: Vec<Word>)
        requires
            self.inv(),
        ensures
            r@.len() <= max_tokens,
            is_walk(self@.table, r@),
            walk_stopped(self@.table, r@, max_tokens as nat),
    {
        let mut out: Vec<Word> = Vec::new();
        let mut older = Word::Start1;
        let mut newer = Word::Start2;
        let mut done = false;
        proof {
            assert(next_context(out@) == (older, newer));
            self.lemma_wf();
        }
        while !done && out.len() < max_tokens
            invariant
                self.inv(),
                wf(self@),
                out@.len() <= max_tokens,
                is_walk(self@.table, out@),
                next_context(out@) == (older, newer),
                done ==> walk_stopped(self@.table, out@, max_tokens as nat),
                !done ==> (out@.len() == 0 || out@.last() != Word::End),
            decreases max_tokens - out@.len() + if done {
                0int
            } else {
                1int
            },
        {
            let ghost e = (older, newer);
            match self.lookup((older, newer)) {
                None => {
                    done = true;
                },
                Some(list) => {
                    proof {
                        let k = context_index(self@.table, e);
                        assert(crate::model::table_entry_wf(self@.table[k], self@.words.len()));
                    }
                    let total = total_of(list);
                    if total == 0 {
                        done = true;
                    } else {
                        let x = random_below(total);
                        let w = pick_candidate(list, x);
                        let ghost before = out@;
                        out.push(w);
                        proof {
                            assert(out@.take(before.len() as int) =~= before);
                            assert forall|i: int| 0 <= i < out@.len() implies drawable(
                                candidates(self@.table, next_context(out@.take(i))),
                                #[trigger] out@[i],
                            ) by {
                                if i < before.len() {
                                    assert(out@.take(i) =~= before.take(i));
                                    assert(out@[i] == before[i]);
                                }
                            }
                            assert forall|i: int| 0 <= i < out@.len() - 1 implies #[trigger] out@[i]
                                != Word::End by {
                                assert(out@[i] == before[i]);
                                if i < before.len() - 1 {
                                } else {
                                    assert(before.last() == before[i]);
                                }
                            }
                            let a = seq![Word::Start1, Word::Start2] + before;
                            let a2 = seq![Word::Start1, Word::Start2] + out@;
                            assert(a2 =~= a.push(w));
                            assert(next_context(out@) == (newer, w));
                        }
                        if w == Word::End {
                            done = true;
                        }
                        older = newer;
                        newer = w;
                    }
                },
            }
        }
        out
    }

    /// The words of the vocabulary tokens of `tokens`, joined by single
    /// spaces.
    pub fn sentence_of(&self, tokens: &Vec<Word>) -> (r: String)
        requires
            forall|i: int| 0 <= i < tokens@.len() ==> valid_token(#[trigger] tokens@[i], self@.words.len()),
            self.inv(),
        ensures
            r@ == sentence(self@, tokens@),
    {
        let mut s = String::new();
        let mut k: usize = 0;
        let mut any = false;
        proof {
            assert(tokens@.take(0) =~= Seq::<Word>::empty());
            reveal_strlit(" ");
        }
        while k < tokens.len()
            invariant
                self.inv(),
                k <= tokens@.len(),
                forall|i: int| 0 <= i < tokens@.len() ==> valid_token(#[trigger] tokens@[i], self@.words.len()),
                s@ == join_spaces(spoken(self@.words, tokens@.take(k as int))),
                any == (spoken(self@.words, tokens@.take(k as int)).len() > 0),
                " "@ == seq![' '],
            decreases tokens@.len() - k,
        {
            let ghost ws = spoken(self@.words, tokens@.take(k as int));
            proof {
                assert(tokens@.take(k + 1).drop_last() =~= tokens@.take(k as int));
                assert(tokens@.take(k + 1).last() == tokens@[k as int]);
            }
            match tokens[k] {
                Word::Word(i) => {
                    proof {
                        assert(valid_token(tokens@[k as int], self@.words.len()));
                        assert(ws.push(self@.words[i as int]).drop_last() =~= ws);
                    }
                    if any {
                        s.append(" ");
                    }
                    s.append(self.resolve(i).as_str());
                    any = true;
                },
                _ => {},
            }
            k += 1;
        }
        proof {
            assert(tokens@.take(tokens@.len() as int) =~= tokens@);
        }
        s
    }

    /// A random sentence: the words of a random walk of at most
    /// `max_tokens` tokens, joined by single spaces.
    pub fn generate_sentence_within(&self, max_tokens: usize) -> (r: String)
        requires
            self.inv(),
        ensures
            exists|t: Seq<Word>|
                t.len() <= max_tokens && is_walk(self@.table, t) && walk_stopped(
                    self@.table,
                    t,
                    max_tokens as nat,
                ) && r@ == sentence(self@, t),
    {
        let tokens = self.generate_tokens(max_tokens);
        proof {
            self.lemma_wf();
            assert forall|i: int| 0 <= i < tokens@.len() implies valid_token(
                #[trigger] tokens@[i],
                self@.words.len(),
            ) by {
                let e = next_context(tokens@.take(i));
                let l = candidates(self@.table, e);
                assert(drawable(l, tokens@[i]));
                let j = choose|j: int| 0 <= j < l.len() && #[trigger] l[j].word == tokens@[i] && l[j].chance > 0;
                let k = context_index(self@.table, e);
                assert(crate::model::table_entry_wf(self@.table[k], self@.words.len()));
            }
        }
        self.sentence_of(&tokens)
    }

    /// A random sentence: the words of a random walk of at most
    /// `MAX_SENTENCE_TOKENS` tokens, joined by single spaces.
    pub fn generate_sentence(&self) -> (r: String)
        requires
            self.inv(),
        ensures
            exists|t: Seq<Word>|
                t.len() <= MAX_SENTENCE_TOKENS && is_walk(self@.table, t) && walk_stopped(
                    self@.table,
                    t,
                    MAX_SENTENCE_TOKENS as nat,
                ) && r@ == sentence(self@, t),
    {
        self.generate_sentence_within(MAX_SENTENCE_TOKENS)
    }
}

} // verus!
