//! The dictionary: vocabulary and transition table, and learning lines into
//! them.

use std::collections::HashMap;
use vstd::prelude::*;
use vstd::utf8::encode_utf8;
use crate::model::{
    augmented, bump, candidate_index, candidates_unique, context_index, context_key, fits,
    has_candidate, has_context, intern_all, learn_spec, lemma_context_key_injective,
    lemma_intern_all, lemma_intern_all_append, lemma_observe, lemma_word_position,
    lemma_word_position_at, lemma_word_position_none, observations, observe, observe_all,
    table_entry_wf, token_code, token_ids, valid_token, word_position, wf, Entry, ModelView, Result,
    MAX_COUNT,
};
use crate::word::Word;

verus! {

broadcast use vstd::std_specs::hash::group_hash_axioms;

/// The views of a sequence of strings.
pub open spec fn strings_view(v: Seq<String>) -> Seq<Seq<char>> {
    v.map_values(|s: String| s@)
}

/// A second-order Markov model of chat lines.
pub struct Dictionary {
    words: Vec<String>,
    by_hash: HashMap<u64, Vec<u32>>,
    dict: Vec<(Entry, Vec<Result>)>,
    index: HashMap<u128, usize>,
}

impl View for Dictionary {
    type V = ModelView;

    closed spec fn view(&self) -> ModelView {
        ModelView {
            words: strings_view(self.words@),
            table: self.dict@.map_values(|t: (Entry, Vec<Result>)| (t.0, t.1@)),
        }
    }
}

/// The 64-bit FNV-1a hash of a byte string.
pub open spec fn fnv1a(bytes: Seq<u8>) -> u64
    decreases bytes.len(),
{
    if bytes.len() == 0 {
        0xcbf2_9ce4_8422_2325
    } else {
        (fnv1a(bytes.drop_last()) ^ (bytes.last() as u64)).wrapping_mul(0x0100_0000_01b3)
    }
}

/// The hash under which a word is indexed: that of its UTF-8 bytes.
pub open spec fn word_hash(w: Seq<char>) -> u64 {
    fnv1a(encode_utf8(w))
}

fn hash_of(s: &str) -> (r: u64)
    ensures
        r == word_hash(s@),
{
    let b = s.as_bytes();
    let mut h: u64 = 0xcbf2_9ce4_8422_2325;
    let mut i: usize = 0;
    assert(b@.take(0) =~= Seq::<u8>::empty());
    while i < b.len()
        invariant
            i <= b@.len(),
            b@ == encode_utf8(s@),
            h == fnv1a(b@.take(i as int)),
        decreases b@.len() - i,
    {
        assert(b@.take(i + 1).drop_last() =~= b@.take(i as int));
        h = (h ^ (b[i] as u64)).wrapping_mul(0x0100_0000_01b3);
        i += 1;
    }
    assert(b@.take(b@.len() as int) =~= b@);
    h
}

pub(crate) fn code_of(w: Word) -> (r: u128)
    ensures
        r == token_code(w),
{
    match w {
        Word::Word(i) => i as u128,
        Word::Start1 => 0x1_0000_0000,
        Word::Start2 => 0x1_0000_0001,
        Word::End => 0x1_0000_0002,
    }
}

fn key_of(e: Entry) -> (r: u128)
    ensures
        r == context_key(e),
{
    code_of(e.0) * 0x1_0000_0000_0000_0000 + code_of(e.1)
}

/// A hash bucket lists, in increasing order, ids of words with hash `h`.
pub open spec fn bucket_wf(bucket: Seq<u32>, h: u64, words: Seq<String>) -> bool {
    &&& forall|k: int| 0 <= k < bucket.len() ==> (#[trigger] bucket[k] as int) < words.len() && word_hash(words[bucket[k] as int]@) == h
    &&& forall|k1: int, k2: int| 0 <= k1 < k2 < bucket.len() ==> #[trigger] bucket[k1] < #[trigger] bucket[k2]
}

/// Each word's id is in the bucket of its hash, and each bucket is well
/// formed.
pub open spec fn words_indexed(words: Seq<String>, by_hash: Map<u64, Vec<u32>>) -> bool {
    &&& forall|i: int|
        0 <= i < words.len() ==> by_hash.contains_key(word_hash(#[trigger] words[i]@)) && exists|k: int|
            0 <= k < by_hash[word_hash(words[i]@)]@.len() && by_hash[word_hash(words[i]@)]@[k] == i
    &&& forall|h: u64| #[trigger] by_hash.contains_key(h) ==> bucket_wf(by_hash[h]@, h, words)
}

impl Dictionary {
    /// The model is well formed and the index maps each context's key to
    /// its place in the table.
    pub closed spec fn inv(&self) -> bool {
        &&& wf(self@)
        &&& words_indexed(self.words@, self.by_hash@)
        &&& forall|i: int|
            0 <= i < self.dict@.len() ==> self.index@.contains_key(
                context_key(#[trigger] self.dict@[i].0),
            ) && self.index@[context_key(self.dict@[i].0)] == i
        &&& forall|k: u128|
            #[trigger] self.index@.contains_key(k) ==> (self.index@[k] as int) < self.dict@.len()
                && context_key(self.dict@[self.index@[k] as int].0) == k
    }

    /// An empty dictionary.
    pub fn new() -> (r: Dictionary)
        ensures
            r.inv(),
            r@.words == Seq::<Seq<char>>::empty(),
            r@.table == Seq::<(Entry, Seq<Result>)>::empty(),
    {
        let r = Dictionary {
            words: Vec::new(),
            by_hash: HashMap::new(),
            dict: Vec::new(),
            index: HashMap::new(),
        };
        assert(r@.words =~= Seq::<Seq<char>>::empty());
        assert(r@.table =~= Seq::<(Entry, Seq<Result>)>::empty());
        r
    }

    /// The number of words in the vocabulary.
    pub fn word_count(&self) -> (r: usize)
        ensures
            r == self@.words.len(),
    {
        self.words.len()
    }

    /// The number of contexts in the transition table.
    pub fn context_count(&self) -> (r: usize)
        ensures
            r == self@.table.len(),
    {
        self.dict.len()
    }

    /// The word with id `id`.
    pub fn resolve(&self, id: u32) -> (r: &String)
        requires
            (id as int) < self@.words.len(),
        ensures
            r@ == self@.words[id as int],
    {
        &self.words[id as usize]
    }

    /// The id of `word`, if it is in the vocabulary.
    pub fn find_word(&self, word: &String) -> (r: Option<u32>)
        requires
            self.inv(),
        ensures
            r == match word_position(self@.words, word@) {
                Some(i) => Some(i as u32),
                None => None::<u32>,
            },
    {
        let h = hash_of(word.as_str());
        proof {
            assert forall|i: int| 0 <= i < self.words@.len() && self@.words[i] == word@ implies #[trigger] self.words@[i]@ == word@
                && self.by_hash@.contains_key(h) && exists|k: int|
                0 <= k < self.by_hash@[h]@.len() && self.by_hash@[h]@[k] == i by {
                assert(self@.words[i] == self.words@[i]@);
            }
        }
        match self.by_hash.get(&h) {
            None => {
                proof {
                    assert forall|j: int| 0 <= j < self@.words.len() implies self@.words[j] != word@ by {
                        assert(self@.words[j] == self.words@[j]@);
                    }
                    lemma_word_position_none(self@.words, word@);
                }
                None
            },
            Some(bucket) => {
                let mut k: usize = 0;
                proof {
                    assert(bucket_wf(bucket@, h, self.words@));
                }
                while k < bucket.len()
                    invariant
                        self.inv(),
                        bucket@ == self.by_hash@[h]@,
                        self.by_hash@.contains_key(h),
                        bucket_wf(bucket@, h, self.words@),
                        h == word_hash(word@),
                        k <= bucket@.len(),
                        forall|j: int| 0 <= j < k ==> self.words@[bucket@[j] as int]@ != word@,
                        forall|i: int| 0 <= i < self.words@.len() && self@.words[i] == word@ ==> exists|k2: int|
                            0 <= k2 < bucket@.len() && bucket@[k2] == i,
                    decreases bucket@.len() - k,
                {
                    let id = bucket[k];
                    if self.words[id as usize] == *word {
                        proof {
                            assert(self@.words[id as int] == word@);
                            assert forall|j: int| 0 <= j < id implies self@.words[j] != word@ by {
                                if self@.words[j] == word@ {
                                    let k2 = choose|k2: int| 0 <= k2 < bucket@.len() && bucket@[k2] == j;
                                    if k2 >= k {
                                        if k2 > k {
                                            assert(bucket@[k as int] < bucket@[k2]);
                                        }
                                    }
                                    assert(self.words@[bucket@[k2] as int]@ != word@);
                                }
                            }
                            lemma_word_position_at(self@.words, word@, id as int);
                        }
                        return Some(id);
                    }
                    k += 1;
                }
                proof {
                    assert forall|j: int| 0 <= j < self@.words.len() implies self@.words[j] != word@ by {
                        if self@.words[j] == word@ {
                            let k2 = choose|k2: int| 0 <= k2 < bucket@.len() && bucket@[k2] == j;
                            assert(self.words@[bucket@[k2] as int]@ != word@);
                        }
                    }
                    lemma_word_position_none(self@.words, word@);
                }
                None
            },
        }
    }

    /// The id of `word`, appending it to the vocabulary where it is new;
    /// `None`, with nothing changed, where a new word would outgrow the
    /// binary layout.
    pub fn intern_word(&mut self, word: &String) -> (r: Option<u32>)
        requires
            old(self).inv(),
        ensures
            final(self).inv(),
            final(self)@.table == old(self)@.table,
            r is None <==> word_position(old(self)@.words, word@) is None && (old(self)@.words.len()
                >= MAX_COUNT || encode_utf8(word@).len() > MAX_COUNT),
            r is None ==> final(self)@.words == old(self)@.words,
            r matches Some(id) ==> final(self)@.words == (if word_position(old(self)@.words, word@) is Some {
                old(self)@.words
            } else {
                old(self)@.words.push(word@)
            }) && word_position(final(self)@.words, word@) == Some(id as nat),
    {
        if self.words.len() as u64 >= MAX_COUNT as u64 || word.as_str().as_bytes().len() as u64
            > MAX_COUNT as u64 {
            return match self.find_word(word) {
                Some(id) => {
                    proof {
                        lemma_word_position(self@.words, word@);
                    }
                    Some(id)
                },
                None => None,
            };
        }
        Some(self.intern(word))
    }

    /// The id of `word`, appending it to the vocabulary where it is new.
    fn intern(&mut self, word: &String) -> (id: u32)
        requires
            old(self).inv(),
            old(self)@.words.len() < MAX_COUNT,
            encode_utf8(word@).len() <= MAX_COUNT,
        ensures
            final(self).inv(),
            final(self)@.words == if word_position(old(self)@.words, word@) is Some {
                old(self)@.words
            } else {
                old(self)@.words.push(word@)
            },
            final(self)@.table == old(self)@.table,
            word_position(final(self)@.words, word@) == Some(id as nat),
    {
        match self.find_word(word) {
            Some(id) => {
                proof {
                    lemma_word_position(self@.words, word@);
                }
                id
            },
            None => {
                let id = self.words.len() as u32;
                proof {
                    lemma_word_position(old(self)@.words, word@);
                }
                self.push_word(word.clone());
                proof {
                    lemma_word_position_at(self@.words, word@, id as int);
                }
                id
            },
        }
    }

    /// Counts one more sighting of `c` in context `e`.
    fn observe(&mut self, e: Entry, c: Word)
        requires
            old(self).inv(),
            valid_token(e.0, old(self)@.words.len()),
            valid_token(e.1, old(self)@.words.len()),
            valid_token(c, old(self)@.words.len()),
            old(self)@.table.len() < MAX_COUNT,
            old(self)@.words.len() + 3 <= MAX_COUNT,
        ensures
            final(self).inv(),
            final(self)@ == (ModelView {
                words: old(self)@.words,
                table: observe(old(self)@.table, e, c),
            }),
    {
        let ghost n = self@.words.len();
        proof {
            lemma_observe(self@.table, e, c, n);
        }
        let key = key_of(e);
        match self.index.get(&key) {
            Some(k_ref) => {
                let k = *k_ref;
                proof {
                    lemma_context_key_injective(self.dict@[k as int].0, e);
                    assert(self@.table[k as int].0 == e);
                    assert(context_index(self@.table, e) == k);
                }
                let mut slot: (Entry, Vec<Result>) = (e, Vec::new());
                self.dict.set_and_swap(k, &mut slot);
                let mut list = slot.1;
                proof {
                    assert(table_entry_wf(old(self)@.table[k as int], n));
                }
                bump_list(&mut list, c);
                self.dict.set(k, (e, list));
                proof {
                    assert(self@.table =~= observe(old(self)@.table, e, c));
                    assert(self@.words =~= old(self)@.words);
                    assert forall|i: int| 0 <= i < self.dict@.len() implies self.index@.contains_key(
                        context_key(#[trigger] self.dict@[i].0),
                    ) && self.index@[context_key(self.dict@[i].0)] == i by {
                        assert(self.dict@[i].0 == old(self).dict@[i].0);
                    }
                }
            },
            None => {
                let k = self.dict.len();
                let mut list: Vec<Result> = Vec::new();
                list.push(Result { word: c, chance: 1 });
                proof {
                    assert forall|i: int| 0 <= i < self@.table.len() implies self@.table[i].0 != e by {
                        assert(self.index@.contains_key(context_key(self.dict@[i].0)));
                    }
                }
                self.dict.push((e, list));
                self.index.insert(key, k);
                proof {
                    assert(self@.table =~= observe(old(self)@.table, e, c));
                    assert(self@.words =~= old(self)@.words);
                    assert forall|i: int| 0 <= i < self.dict@.len() implies self.index@.contains_key(
                        context_key(#[trigger] self.dict@[i].0),
                    ) && self.index@[context_key(self.dict@[i].0)] == i by {
                        if i < k {
                            assert(self.dict@[i].0 == old(self).dict@[i].0);
                            assert(old(self).index@.contains_key(context_key(self.dict@[i].0)));
                        }
                    }
                    assert forall|q: u128| #[trigger] self.index@.contains_key(q) implies (
                    self.index@[q] as int) < self.dict@.len() && context_key(
                        self.dict@[self.index@[q] as int].0,
                    ) == q by {
                        if q != key {
                            assert(old(self).index@.contains_key(q));
                        }
                    }
                }
            },
        }
    }
}

impl Dictionary {
    /// Whether learning a line of `tokens` keeps every count within the
    /// binary layout's bounds.
    pub fn fits_line(&self, tokens: &Vec<String>) -> (r: bool)
        requires
            self.inv(),
        ensures
            r == fits(self@, strings_view(tokens@)),
    {
        let ghost ts = strings_view(tokens@);
        let n = tokens.len();
        if n as u64 > MAX_COUNT as u64 {
            return false;
        }
        if self.words.len() as u64 + n as u64 + 3 > MAX_COUNT as u64 {
            return false;
        }
        if self.dict.len() as u64 + n as u64 + 1 > MAX_COUNT as u64 {
            return false;
        }
        let mut i: usize = 0;
        while i < n
            invariant
                n == tokens@.len(),
                ts == strings_view(tokens@),
                i <= n,
                forall|j: int| 0 <= j < i ==> encode_utf8(#[trigger] ts[j]).len() <= MAX_COUNT,
            decreases n - i,
        {
            let t = tokens[i].as_str();
            let len = t.as_bytes().len();
            assert(t@ == ts[i as int]);
            if len as u64 > MAX_COUNT as u64 {
                return false;
            }
            i += 1;
        }
        true
    }

    /// Learns a line given as its whitespace-separated tokens: each window
    /// of two tokens of the line framed by the start and end markers counts
    /// one sighting of the token after it. Where the counts would outgrow
    /// the binary layout nothing changes and the result is `false`.
    pub fn learn_words(&mut self, tokens: &Vec<String>) -> (r: bool)
        requires
            old(self).inv(),
        ensures
            final(self).inv(),
            r == fits(old(self)@, strings_view(tokens@)),
            r ==> final(self)@ == learn_spec(old(self)@, strings_view(tokens@)),
            !r ==> final(self)@ == old(self)@,
    {
        let ghost ts = strings_view(tokens@);
        if !self.fits_line(tokens) {
            return false;
        }
        if tokens.len() == 0 {
            return true;
        }
        let ghost old_m = self@;
        let ghost all_words = intern_all(old_m.words, ts);
        let ghost ids = token_ids(all_words, ts);
        let ghost obs = observations(ids);
        let ghost aug = augmented(ids);
        let mut older = Word::Start1;
        let mut newer = Word::Start2;
        let mut k: usize = 0;
        assert(ts.take(0) =~= Seq::<Seq<char>>::empty());
        assert(obs.take(0) =~= Seq::<(Entry, Word)>::empty());
        while k < tokens.len()
            invariant
                self.inv(),
                ts == strings_view(tokens@),
                fits(old_m, ts),
                ts.len() > 0,
                all_words == intern_all(old_m.words, ts),
                ids == token_ids(all_words, ts),
                obs == observations(ids),
                aug == augmented(ids),
                k <= ts.len(),
                self@.words == intern_all(old_m.words, ts.take(k as int)),
                self@.table == observe_all(old_m.table, obs.take(k as int)),
                self@.table.len() <= old_m.table.len() + k,
                older == aug[k as int],
                newer == aug[k + 1],
                valid_token(older, self@.words.len()),
                valid_token(newer, self@.words.len()),
            decreases ts.len() - k,
        {
            proof {
                lemma_intern_all(old_m.words, ts.take(k as int));
                assert(ts.take(k as int + 1).drop_last() =~= ts.take(k as int));
                assert(ts[k as int] == tokens@[k as int]@);
            }
            let id = self.intern(&tokens[k]);
            let c = Word::Word(id);
            proof {
                let wk = self@.words;
                assert(wk == intern_all(old_m.words, ts.take(k + 1)));
                lemma_intern_all(old_m.words, ts.take(k + 1));
                assert(ts =~= ts.take(k + 1) + ts.skip(k + 1));
                lemma_intern_all_append(old_m.words, ts.take(k + 1), ts.skip(k + 1));
                lemma_intern_all(wk, ts.skip(k + 1));
                assert(word_position(all_words, ts[k as int]) == Some(id as nat));
                assert(ids[k as int] == c);
                assert(aug[k + 2] == c);
                assert(obs[k as int] == ((older, newer), c));
                assert(obs.take(k + 1).drop_last() =~= obs.take(k as int));
                lemma_word_position(wk, ts[k as int]);
            }
            self.observe((older, newer), c);
            older = newer;
            newer = c;
            k += 1;
        }
        proof {
            assert(ts.take(ts.len() as int) =~= ts);
            assert(obs[ts.len() as int] == ((older, newer), Word::End));
            assert(obs.take(ts.len() as int + 1).drop_last() =~= obs.take(ts.len() as int));
            assert(obs.take(ts.len() as int + 1) =~= obs);
            lemma_intern_all(old_m.words, ts);
        }
        self.observe((older, newer), Word::End);
        true
    }
}

impl Dictionary {
    /// What the invariant gives to callers: the model is well formed.
    pub proof fn lemma_wf(&self)
        requires
            self.inv(),
        ensures
            wf(self@),
    {
    }

    /// The candidates of context `e`, where the table has it.
    pub fn lookup(&self, e: Entry) -> (r: Option<&Vec<Result>>)
        requires
            self.inv(),
        ensures
            match r {
                Some(l) => has_context(self@.table, e) && l@ == self@.table[context_index(
                    self@.table,
                    e,
                )].1,
                None => !has_context(self@.table, e),
            },
    {
        let key = key_of(e);
        match self.index.get(&key) {
            Some(k_ref) => {
                let k = *k_ref;
                proof {
                    lemma_context_key_injective(self.dict@[k as int].0, e);
                    assert(self@.table[k as int].0 == e);
                    assert(context_index(self@.table, e) == k);
                }
                Some(&self.dict[k].1)
            },
            None => {
                proof {
                    assert forall|i: int| 0 <= i < self@.table.len() implies self@.table[i].0 != e by {
                        assert(self.index@.contains_key(context_key(self.dict@[i].0)));
                    }
                }
                None
            },
        }
    }

    /// The candidates of context `e` in the order the table holds them;
    /// empty where the table lacks it.
    pub fn candidates_of(&self, e: Entry) -> (r: Vec<Result>)
        requires
            self.inv(),
        ensures
            r@ == (if has_context(self@.table, e) {
                self@.table[context_index(self@.table, e)].1
            } else {
                Seq::empty()
            }),
    {
        match self.lookup(e) {
            Some(l) => l.clone(),
            None => Vec::new(),
        }
    }
}

impl Dictionary {
    /// The word with id `i`, as a position.
    pub fn word_at(&self, i: usize) -> (r: &String)
        requires
            i < self@.words.len(),
        ensures
            r@ == self@.words[i as int],
    {
        &self.words[i]
    }

    /// The `i`-th context of the table, with its candidates.
    pub fn entry_at(&self, i: usize) -> (r: (Entry, &Vec<Result>))
        requires
            i < self@.table.len(),
        ensures
            r.0 == self@.table[i as int].0,
            r.1@ == self@.table[i as int].1,
    {
        let t = &self.dict[i];
        (t.0, &t.1)
    }

    /// Appends `w` to the vocabulary as it is, without looking for it.
    pub(crate) fn push_word(&mut self, w: String)
        requires
            old(self).inv(),
            old(self)@.words.len() < MAX_COUNT,
            encode_utf8(w@).len() <= MAX_COUNT,
        ensures
            final(self).inv(),
            final(self)@.words == old(self)@.words.push(w@),
            final(self)@.table == old(self)@.table,
    {
        let h = hash_of(w.as_str());
        let id = self.words.len() as u32;
        let mut bucket = match self.by_hash.remove(&h) {
            Some(b) => b,
            None => Vec::new(),
        };
        let ghost old_bucket = bucket@;
        proof {
            if old(self).by_hash@.contains_key(h) {
                assert(bucket_wf(old_bucket, h, old(self).words@));
            }
        }
        bucket.push(id);
        self.by_hash.insert(h, bucket);
        self.words.push(w);
        proof {
            let words = self.words@;
            assert(self@.words =~= old(self)@.words.push(w@));
            assert(self@.table =~= old(self)@.table);
            assert(words[id as int]@ == w@);
            assert forall|k: int| 0 <= k < old(self).words@.len() implies words[k] == old(self).words@[k] by {}
            assert(bucket_wf(self.by_hash@[h]@, h, words)) by {
                let b = self.by_hash@[h]@;
                assert forall|k: int| 0 <= k < b.len() implies (#[trigger] b[k] as int) < words.len()
                    && word_hash(words[b[k] as int]@) == h by {
                    if k < old_bucket.len() {
                        assert(b[k] == old_bucket[k]);
                    }
                }
            }
            assert forall|g: u64| #[trigger] self.by_hash@.contains_key(g) implies bucket_wf(
                self.by_hash@[g]@,
                g,
                words,
            ) by {
                if g != h {
                    assert(old(self).by_hash@.contains_key(g));
                    assert(bucket_wf(old(self).by_hash@[g]@, g, old(self).words@));
                }
            }
            assert forall|i: int| 0 <= i < words.len() implies self.by_hash@.contains_key(
                word_hash(#[trigger] words[i]@),
            ) && exists|k: int|
                0 <= k < self.by_hash@[word_hash(words[i]@)]@.len() && self.by_hash@[word_hash(
                    words[i]@,
                )]@[k] == i by {
                if i < id {
                    let g = word_hash(words[i]@);
                    assert(old(self).words@[i] == words[i]);
                    assert(old(self).by_hash@.contains_key(g));
                    let k = choose|k: int| 0 <= k < old(self).by_hash@[g]@.len() && old(self).by_hash@[g]@[k] == i;
                    if g == h {
                        assert(self.by_hash@[g]@[k] == old_bucket[k]);
                    }
                } else {
                    assert(self.by_hash@[h]@[old_bucket.len() as int] == id);
                }
            }
            let n = self@.words.len();
            assert forall|i: int| 0 <= i < self@.table.len() implies table_entry_wf(
                #[trigger] self@.table[i],
                n,
            ) by {
                assert(table_entry_wf(old(self)@.table[i], (n - 1) as nat));
            }
        }
    }

    /// Whether the table has context `e`.
    pub fn has_context(&self, e: Entry) -> (r: bool)
        requires
            self.inv(),
        ensures
            r == has_context(self@.table, e),
    {
        self.lookup(e).is_some()
    }

    /// Gives context `e`, which the table has, the candidates `list`.
    pub(crate) fn replace_context(&mut self, e: Entry, list: Vec<Result>)
        requires
            old(self).inv(),
            has_context(old(self)@.table, e),
            table_entry_wf((e, list@), old(self)@.words.len()),
        ensures
            final(self).inv(),
            final(self)@.table == old(self)@.table.update(
                context_index(old(self)@.table, e),
                (e, list@),
            ),
            final(self)@.words == old(self)@.words,
    {
        let key = key_of(e);
        let ghost j = context_index(self@.table, e);
        proof {
            assert(self.index@.contains_key(context_key(self.dict@[j].0)));
        }
        let k = *self.index.get(&key).unwrap();
        proof {
            lemma_context_key_injective(self.dict@[k as int].0, e);
            assert(k == j) by {
                assert(self@.table[k as int].0 == self@.table[j].0);
            }
        }
        self.dict.set(k, (e, list));
        proof {
            assert(self@.table =~= old(self)@.table.update(j, (e, list@)));
            assert(self@.words =~= old(self)@.words);
            assert forall|i: int| 0 <= i < self.dict@.len() implies self.index@.contains_key(
                context_key(#[trigger] self.dict@[i].0),
            ) && self.index@[context_key(self.dict@[i].0)] == i by {
                assert(self.dict@[i].0 == old(self).dict@[i].0);
            }
            assert forall|i: int| 0 <= i < self@.table.len() implies table_entry_wf(
                #[trigger] self@.table[i],
                self@.words.len(),
            ) by {
                if i != j {
                    assert(self@.table[i] == old(self)@.table[i]);
                }
            }
            assert forall|a: int, b: int|
                0 <= a < self@.table.len() && 0 <= b < self@.table.len() && a != b implies #[trigger] self@.table[a].0
                    != #[trigger] self@.table[b].0 by {
                assert(self@.table[a].0 == old(self)@.table[a].0);
                assert(self@.table[b].0 == old(self)@.table[b].0);
            }
        }
    }

    /// Appends a new context with its candidates to the table.
    pub(crate) fn push_context(&mut self, e: Entry, list: Vec<Result>)
        requires
            old(self).inv(),
            !has_context(old(self)@.table, e),
            table_entry_wf((e, list@), old(self)@.words.len()),
            old(self)@.table.len() < MAX_COUNT,
        ensures
            final(self).inv(),
            final(self)@.table == old(self)@.table.push((e, list@)),
            final(self)@.words == old(self)@.words,
    {
        let key = key_of(e);
        let k = self.dict.len();
        proof {
            if self.index@.contains_key(key) {
                let j = self.index@[key] as int;
                lemma_context_key_injective(self.dict@[j].0, e);
                assert(self@.table[j].0 == e);
            }
        }
        self.dict.push((e, list));
        self.index.insert(key, k);
        proof {
            assert(self@.table =~= old(self)@.table.push((e, list@)));
            assert(self@.words =~= old(self)@.words);
            assert forall|i: int| 0 <= i < self.dict@.len() implies self.index@.contains_key(
                context_key(#[trigger] self.dict@[i].0),
            ) && self.index@[context_key(self.dict@[i].0)] == i by {
                if i < k {
                    assert(self.dict@[i].0 == old(self).dict@[i].0);
                    assert(old(self).index@.contains_key(context_key(self.dict@[i].0)));
                }
            }
            assert forall|q: u128| #[trigger] self.index@.contains_key(q) implies (self.index@[q] as int)
                < self.dict@.len() && context_key(self.dict@[self.index@[q] as int].0) == q by {
                if q != key {
                    assert(old(self).index@.contains_key(q));
                }
            }
            assert forall|i: int, j: int|
                0 <= i < self@.table.len() && 0 <= j < self@.table.len() && i != j implies #[trigger] self@.table[i].0
                    != #[trigger] self@.table[j].0 by {
                if i == k as int {
                    assert(old(self)@.table[j].0 != e);
                } else if j == k as int {
                    assert(old(self)@.table[i].0 != e);
                }
            }
        }
    }
}

/// The whitespace-separated tokens of a line, each taken verbatim.
pub uninterp spec fn whitespace_tokens(s: Seq<char>) -> Seq<Seq<char>>;

/// Relies on `str::split_whitespace`: the tokens of a line depend on its
/// characters alone, and an empty line has none.
#[verifier::external_body]
pub(crate) fn split_line(line: &str) -> (r: Vec<String>)
    ensures
        strings_view(r@) == whitespace_tokens(line@),
        line@.len() == 0 ==> r@.len() == 0,
{
    line.split_whitespace().map(String::from).collect()
}

impl Dictionary {
    /// Learns a line of text: its whitespace-separated tokens, as
    /// `learn_words` does.
    pub fn learn_from_line(&mut self, line: &str) -> (r: bool)
        requires
            old(self).inv(),
        ensures
            final(self).inv(),
            r == fits(old(self)@, whitespace_tokens(line@)),
            r ==> final(self)@ == learn_spec(old(self)@, whitespace_tokens(line@)),
            !r ==> final(self)@ == old(self)@,
    {
        let tokens = split_line(line);
        self.learn_words(&tokens)
    }
}

/// Counts one more sighting of `c` in a candidate list.
fn bump_list(list: &mut Vec<Result>, c: Word)
    requires
        candidates_unique(old(list)@),
    ensures
        final(list)@ == bump(old(list)@, c),
{
    let mut i: usize = 0;
    while i < list.len()
        invariant
            i <= list@.len(),
            list@ == old(list)@,
            candidates_unique(list@),
            forall|j: int| 0 <= j < i ==> list@[j].word != c,
        decreases list@.len() - i,
    {
        if list[i].word == c {
            let w = list[i].chance;
            let w2 = if w == MAX_COUNT {
                w
            } else {
                w + 1
            };
            proof {
                assert(list@[i as int].word == c);
                assert(has_candidate(list@, c));
                let k = candidate_index(list@, c);
                assert(list@[k].word == c);
                assert(k == i);
            }
            list.set(i, Result { word: c, chance: w2 });
            return;
        }
        i += 1;
    }
    list.push(Result { word: c, chance: 1 });
}

} // verus!
