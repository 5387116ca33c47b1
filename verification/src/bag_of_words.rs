//! Word-frequency accumulation ("bag of words") and tokenization.

use vstd::prelude::*;

verus! {

use vstd::string::StrSliceExecFns;

/// Names the result of `char::is_alphabetic`: whether a character has the
/// Unicode `Alphabetic` property. The result depends on the character alone.
pub uninterp spec fn is_alpha(c: char) -> bool;

/// Names the result of `str::to_lowercase`: the Unicode lowercase equivalent
/// of a string. The result depends on the characters alone.
pub uninterp spec fn lower_of(s: Seq<char>) -> Seq<char>;

/// Relies on `char::is_alphabetic`: true exactly for characters with the
/// Unicode `Alphabetic` property.
#[verifier::external_body]
fn char_is_alphabetic(c: char) -> (r: bool)
    ensures
        r == is_alpha(c),
{
    c.is_alphabetic()
}

/// Relies on `str::to_lowercase`: the lowercase equivalent of the input,
/// which is empty exactly when the input is empty.
#[verifier::external_body]
fn str_lowercase(s: &str) -> (r: String)
    ensures
        r@ == lower_of(s@),
        s@.len() == 0 <==> r@.len() == 0,
{
    s.to_lowercase()
}

/// True when `c` does not count as a word character.
pub fn not_alpha(c: char) -> (r: bool)
    ensures
        r == !is_alpha(c),
{
    !char_is_alphabetic(c)
}

/// A map from word to occurrence count, stored as an association list with
/// distinct, non-empty keys and strictly positive counts.
pub struct BagOfWords {
    entries: Vec<(String, u32)>,
}

/// The sum of the counts in `s`.
pub open spec fn sum_counts(s: Seq<(String, u32)>) -> nat
    decreases s.len(),
{
    if s.len() == 0 {
        0
    } else {
        (sum_counts(s.drop_last()) + s.last().1) as nat
    }
}

/// The map described by the association list `s` (later entries win,
/// though well-formed lists have distinct keys).
pub open spec fn map_of<V>(s: Seq<(String, V)>) -> Map<Seq<char>, V>
    decreases s.len(),
{
    if s.len() == 0 {
        Map::empty()
    } else {
        map_of(s.drop_last()).insert(s.last().0@, s.last().1)
    }
}

/// The sum of the counts in `s` whose key is not in `excluded`.
pub open spec fn sum_counts_excl(s: Seq<(String, u32)>, excluded: Set<Seq<char>>) -> nat
    decreases s.len(),
{
    if s.len() == 0 {
        0
    } else {
        (sum_counts_excl(s.drop_last(), excluded) + if excluded.contains(s.last().0@) {
            0
        } else {
            s.last().1 as int
        }) as nat
    }
}

/// The keys of the entries in `s` are pairwise distinct.
pub open spec fn distinct_keys<V>(s: Seq<(String, V)>) -> bool {
    forall|i: int, j: int| 0 <= i < j < s.len() ==> s[i].0@ != s[j].0@
}

pub proof fn lemma_map_of_contains<V>(s: Seq<(String, V)>, w: Seq<char>)
    ensures
        map_of(s).contains_key(w) <==> exists|i: int| 0 <= i < s.len() && s[i].0@ == w,
    decreases s.len(),
{
    if s.len() > 0 {
        let sd = s.drop_last();
        lemma_map_of_contains(sd, w);
        if exists|i: int| 0 <= i < s.len() && s[i].0@ == w {
            let i = choose|i: int| 0 <= i < s.len() && s[i].0@ == w;
            if i < s.len() - 1 {
                assert(sd[i].0@ == w);
            }
            assert(map_of(s).contains_key(w));
        }
        if map_of(s).contains_key(w) && w != s.last().0@ {
            let i = choose|i: int| 0 <= i < sd.len() && sd[i].0@ == w;
            assert(s[i].0@ == w);
        }
    }
}

pub proof fn lemma_map_of_index<V>(s: Seq<(String, V)>, i: int)
    requires
        distinct_keys(s),
        0 <= i < s.len(),
    ensures
        map_of(s).contains_key(s[i].0@),
        map_of(s)[s[i].0@] == s[i].1,
    decreases s.len(),
{
    if i < s.len() - 1 {
        let sd = s.drop_last();
        assert(sd[i] == s[i]);
        lemma_map_of_index(sd, i);
        assert(s[i].0@ != s.last().0@);
    }
}

proof fn lemma_count_le_sum(s: Seq<(String, u32)>, w: Seq<char>)
    requires
        distinct_keys(s),
    ensures
        map_of(s).contains_key(w) ==> map_of(s)[w] <= sum_counts(s),
    decreases s.len(),
{
    if s.len() > 0 {
        lemma_count_le_sum(s.drop_last(), w);
    }
}

proof fn lemma_map_of_values(s: Seq<(String, u32)>, w: Seq<char>)
    requires
        forall|i: int| 0 <= i < s.len() ==> (#[trigger] s[i]).1 >= 1,
    ensures
        map_of(s).contains_key(w) ==> map_of(s)[w] >= 1,
    decreases s.len(),
{
    if s.len() > 0 {
        lemma_map_of_values(s.drop_last(), w);
    }
}

proof fn lemma_sum_excl_le_sum(s: Seq<(String, u32)>, excluded: Set<Seq<char>>)
    ensures
        sum_counts_excl(s, excluded) <= sum_counts(s),
    decreases s.len(),
{
    if s.len() > 0 {
        lemma_sum_excl_le_sum(s.drop_last(), excluded);
    }
}

proof fn lemma_map_of_update(s: Seq<(String, u32)>, i: int, e: (String, u32))
    requires
        distinct_keys(s),
        0 <= i < s.len(),
        e.0@ == s[i].0@,
    ensures
        map_of(s.update(i, e)) =~= map_of(s).insert(e.0@, e.1),
        sum_counts(s.update(i, e)) == sum_counts(s) - s[i].1 + e.1,
    decreases s.len(),
{
    let su = s.update(i, e);
    if i == s.len() - 1 {
        assert(su.drop_last() =~= s.drop_last());
        assert(su.last() == e);
    } else {
        let sd = s.drop_last();
        assert(sd[i] == s[i]);
        lemma_map_of_update(sd, i, e);
        assert(su.drop_last() =~= sd.update(i, e));
        assert(su.last() == s.last());
        assert(e.0@ != s.last().0@);
        assert(map_of(su) =~= map_of(s).insert(e.0@, e.1));
    }
}

/// Pushing an entry onto an association list records its key with its value.
pub proof fn lemma_map_of_push<V>(s: Seq<(String, V)>, e: (String, V))
    ensures
        map_of(s.push(e)) == map_of(s).insert(e.0@, e.1),
{
    assert(s.push(e).drop_last() =~= s);
    assert(s.push(e).last() == e);
}

/// The count recorded for `w` by the association list `s`; 0 when absent.
pub open spec fn count_in(s: Seq<(String, u32)>, w: Seq<char>) -> nat {
    if map_of(s).contains_key(w) {
        map_of(s)[w] as nat
    } else {
        0
    }
}

proof fn lemma_take_push(s: Seq<(String, u32)>, i: int)
    requires
        0 <= i < s.len(),
    ensures
        s.take(i + 1) =~= s.take(i).push(s[i]),
{
}

/// Taking one more element appends exactly that element.
pub proof fn lemma_take_push_any<T>(s: Seq<T>, i: int)
    requires
        0 <= i < s.len(),
    ensures
        s.take(i + 1) =~= s.take(i).push(s[i]),
{
}

proof fn lemma_push_step(s: Seq<(String, u32)>, e: (String, u32), excluded: Set<Seq<char>>)
    ensures
        map_of(s.push(e)) == map_of(s).insert(e.0@, e.1),
        sum_counts(s.push(e)) == sum_counts(s) + e.1,
        sum_counts_excl(s.push(e), excluded) == sum_counts_excl(s, excluded) + if excluded
            .contains(e.0@) {
            0
        } else {
            e.1 as int
        },
    decreases s.len(),
{
    assert(s.push(e).drop_last() =~= s);
    assert(s.push(e).last() == e);
}

/// The words of `m` retained by the historical fixed-threshold cut: count
/// strictly above `min_count`, length strictly above 1, not a stop word.
pub open spec fn zipf_filter(m: Map<Seq<char>, u32>, min_count: u32, stop: Set<Seq<char>>) -> Map<
    Seq<char>,
    u32,
> {
    Map::new(
        |w: Seq<char>| m.contains_key(w) && m[w] > min_count && w.len() > 1 && !stop.contains(w),
        |w: Seq<char>| m[w],
    )
}

proof fn lemma_prefix_keys_push(
    kept: Seq<(String, u32)>,
    s: Seq<(String, u32)>,
    i: int,
    e: (String, u32),
)
    requires
        distinct_keys(s),
        0 <= i < s.len(),
        e.0@ == s[i].0@,
        distinct_keys(kept),
        forall|j: int|
            0 <= j < kept.len() ==> exists|k: int|
                0 <= k < i && (#[trigger] kept[j]).0@ == s[k].0@,
    ensures
        distinct_keys(kept.push(e)),
        forall|j: int|
            0 <= j < kept.push(e).len() ==> exists|k: int|
                0 <= k < i + 1 && (#[trigger] kept.push(e)[j]).0@ == s[k].0@,
{
    let kp = kept.push(e);
    assert forall|a: int, b: int| 0 <= a < b < kp.len() implies kp[a].0@ != kp[b].0@ by {
        if b == kp.len() - 1 {
            let k = choose|k: int| 0 <= k < i && kept[a].0@ == s[k].0@;
            assert(s[k].0@ != s[i].0@);
        }
    }
    assert forall|j: int| 0 <= j < kp.len() implies exists|k: int|
        0 <= k < i + 1 && (#[trigger] kp[j]).0@ == s[k].0@ by {
        if j < kp.len() - 1 {
            let k = choose|k: int| 0 <= k < i && kept[j].0@ == s[k].0@;
            assert(kp[j].0@ == s[k].0@);
        } else {
            assert(kp[j].0@ == s[i].0@);
        }
    }
}

/// A set of words, used for membership tests (stop words, words to remove).
pub struct WordSet {
    items: Vec<String>,
}

impl View for WordSet {
    type V = Set<Seq<char>>;

    closed spec fn view(&self) -> Set<Seq<char>> {
        Set::new(
            |w: Seq<char>| exists|i: int| 0 <= i < self.items@.len() && self.items@[i]@ == w,
        )
    }
}

impl WordSet {
    /// A set containing no words.
    pub fn new() -> (r: Self)
        ensures
            r@ == Set::<Seq<char>>::empty(),
    {
        let r = WordSet { items: Vec::new() };
        proof {
            assert(r@ =~= Set::<Seq<char>>::empty());
        }
        r
    }

    /// Adds `word` to the set.
    pub fn insert(&mut self, word: String)
        ensures
            final(self)@ == old(self)@.insert(word@),
    {
        let ghost wv = word@;
        self.items.push(word);
        proof {
            assert forall|w: Seq<char>| self@.contains(w) implies old(self)@.insert(wv).contains(
                w,
            ) by {
                let i = choose|i: int| 0 <= i < self.items@.len() && self.items@[i]@ == w;
                if i < self.items@.len() - 1 {
                    assert(old(self).items@[i]@ == w);
                }
            }
            assert forall|w: Seq<char>| old(self)@.insert(wv).contains(w) implies self@.contains(
                w,
            ) by {
                if w == wv {
                    assert(self.items@[self.items@.len() - 1]@ == w);
                } else {
                    let i = choose|i: int|
                        0 <= i < old(self).items@.len() && old(self).items@[i]@ == w;
                    assert(self.items@[i]@ == w);
                }
            }
            assert(self@ =~= old(self)@.insert(wv));
        }
    }

    /// Whether `word` is in the set.
    pub fn contains(&self, word: &String) -> (r: bool)
        ensures
            r == self@.contains(word@),
    {
        let n = self.items.len();
        let mut i: usize = 0;
        while i < n
            invariant
                i <= n,
                n == self.items@.len(),
                forall|j: int| 0 <= j < i ==> (#[trigger] self.items@[j])@ != word@,
            decreases n - i,
        {
            if self.items[i] == *word {
                return true;
            }
            i = i + 1;
        }
        false
    }
}

impl View for BagOfWords {
    type V = Map<Seq<char>, u32>;

    closed spec fn view(&self) -> Map<Seq<char>, u32> {
        map_of(self.entries@)
    }
}

impl BagOfWords {
    /// Well-formed: keys are distinct and non-empty, counts are at least 1.
    pub closed spec fn wf(self) -> bool {
        &&& distinct_keys(self.entries@)
        &&& forall|i: int|
            0 <= i < self.entries@.len() ==> (#[trigger] self.entries@[i]).1 >= 1
        &&& forall|i: int|
            0 <= i < self.entries@.len() ==> (#[trigger] self.entries@[i]).0@.len() > 0
    }

    /// The count recorded for `w`; 0 when `w` is absent.
    pub open spec fn count(self, w: Seq<char>) -> nat {
        if self@.contains_key(w) {
            self@[w] as nat
        } else {
            0
        }
    }

    /// The total number of occurrences recorded, over all words.
    pub closed spec fn total(self) -> nat {
        sum_counts(self.entries@)
    }

    /// The total over all words except those in `excluded`.
    pub closed spec fn total_excl(self, excluded: Set<Seq<char>>) -> nat {
        sum_counts_excl(self.entries@, excluded)
    }

    /// A map with no words recorded.
    pub fn empty() -> (r: Self)
        ensures
            r.wf(),
            r@ == Map::<Seq<char>, u32>::empty(),
            r.total() == 0,
    {
        BagOfWords { entries: Vec::new() }
    }

    /// The index at which `word` is stored, if it is.
    fn find(&self, word: &String) -> (r: Option<usize>)
        ensures
            match r {
                Some(i) => i < self.entries@.len() && self.entries@[i as int].0@ == word@,
                None => forall|i: int|
                    0 <= i < self.entries@.len() ==> (#[trigger] self.entries@[i]).0@ != word@,
            },
    {
        let n = self.entries.len();
        let mut i: usize = 0;
        while i < n
            invariant
                i <= n,
                n == self.entries@.len(),
                forall|j: int| 0 <= j < i ==> (#[trigger] self.entries@[j]).0@ != word@,
            decreases n - i,
        {
            if self.entries[i].0 == *word {
                return Some(i);
            }
            i = i + 1;
        }
        None
    }

    /// The number of occurrences recorded for `word`; 0 when it was never added.
    pub fn get(&self, word: &String) -> (r: u32)
        requires
            self.wf(),
        ensures
            r == self.count(word@),
    {
        match self.find(word) {
            Some(i) => {
                proof {
                    lemma_map_of_index(self.entries@, i as int);
                }
                self.entries[i].1
            },
            None => {
                proof {
                    lemma_map_of_contains(self.entries@, word@);
                }
                0
            },
        }
    }

    /// Records `amount` more occurrences of `word`.
    pub fn add_words(self, word: String, amount: u32) -> (r: Self)
        requires
            self.wf(),
            amount >= 1,
            word@.len() > 0,
            self.count(word@) + amount <= u32::MAX,
        ensures
            r.wf(),
            r.count(word@) == self.count(word@) + amount,
            forall|w: Seq<char>| w != word@ ==> r.count(w) == self.count(w),
            r.total() == self.total() + amount,
    {
        let ghost s0 = self.entries@;
        let ghost wv = word@;
        let mut bow = self;
        match bow.find(&word) {
            Some(i) => {
                proof {
                    lemma_map_of_index(s0, i as int);
                }
                let c = bow.entries[i].1;
                bow.entries[i].1 = c + amount;
                proof {
                    let e = bow.entries@[i as int];
                    assert(bow.entries@ =~= s0.update(i as int, e));
                    assert(e.0@ == wv && e.1 == c + amount);
                    lemma_map_of_update(s0, i as int, e);
                    assert forall|a: int|
                        0 <= a < bow.entries@.len() implies (#[trigger] bow.entries@[a]).0@
                        == s0[a].0@ && bow.entries@[a].1 >= 1 by {}
                }
                bow
            },
            None => {
                proof {
                    lemma_map_of_contains(s0, wv);
                }
                bow.entries.push((word, amount));
                proof {
                    assert(bow.entries@.drop_last() =~= s0);
                    assert(bow.entries@.last().0@ == wv && bow.entries@.last().1 == amount);
                    assert(map_of(bow.entries@) =~= map_of(s0).insert(wv, amount));
                }
                bow
            },
        }
    }

    /// Records one more occurrence of `word`.
    pub fn add_word(self, word: String) -> (r: Self)
        requires
            self.wf(),
            word@.len() > 0,
            self.count(word@) + 1 <= u32::MAX,
        ensures
            r.wf(),
            r.count(word@) == self.count(word@) + 1,
            forall|w: Seq<char>| w != word@ ==> r.count(w) == self.count(w),
            r.total() == self.total() + 1,
    {
        self.add_words(word, 1)
    }

    /// An independent copy with the same recorded counts.
    fn duplicate(&self) -> (r: Self)
        ensures
            r.entries@ == self.entries@,
    {
        let n = self.entries.len();
        let mut items: Vec<(String, u32)> = Vec::new();
        let mut i: usize = 0;
        while i < n
            invariant
                i <= n,
                n == self.entries@.len(),
                items@ =~= self.entries@.take(i as int),
            decreases n - i,
        {
            items.push((self.entries[i].0.clone(), self.entries[i].1));
            proof {
                lemma_take_push(self.entries@, i as int);
            }
            i = i + 1;
        }
        proof {
            assert(items@ =~= self.entries@);
        }
        BagOfWords { entries: items }
    }

    /// A map whose count for each word is the sum of the two inputs' counts.
    /// Neither input is changed.
    pub fn merge(&self, other: &Self) -> (r: Self)
        requires
            self.wf(),
            other.wf(),
            forall|w: Seq<char>| self.count(w) + other.count(w) <= u32::MAX,
        ensures
            r.wf(),
            forall|w: Seq<char>| r.count(w) == self.count(w) + other.count(w),
            r.total() == self.total() + other.total(),
    {
        let ghost os = other.entries@;
        let mut r = self.duplicate();
        let n = other.entries.len();
        let mut i: usize = 0;
        while i < n
            invariant
                i <= n,
                n == os.len(),
                other.entries@ == os,
                other.wf(),
                self.wf(),
                forall|w: Seq<char>| self.count(w) + other.count(w) <= u32::MAX,
                r.wf(),
                forall|w: Seq<char>|
                    r.count(w) == self.count(w) + count_in(os.take(i as int), w),
                r.total() == self.total() + sum_counts(os.take(i as int)),
            decreases n - i,
        {
            let v = other.entries[i].1;
            let word = other.entries[i].0.clone();
            proof {
                lemma_map_of_index(os, i as int);
                lemma_map_of_contains(os.take(i as int), word@);
                assert(forall|j: int| 0 <= j < i ==> (#[trigger] os.take(i as int)[j]).0@ != word@);
                assert(count_in(os.take(i as int), word@) == 0);
                assert(other.count(word@) == v);
                lemma_take_push(os, i as int);
                lemma_push_step(os.take(i as int), os[i as int], Set::empty());
            }
            r = r.add_words(word, v);
            i = i + 1;
        }
        proof {
            assert(os.take(n as int) =~= os);
        }
        r
    }

    /// Deletes every word of `words` from the map; other words are untouched.
    pub fn remove_words(&mut self, words: &WordSet)
        requires
            old(self).wf(),
        ensures
            final(self).wf(),
            final(self)@ == old(self)@.remove_keys(words@),
            forall|w: Seq<char>|
                final(self).count(w) == if words@.contains(w) {
                    0nat
                } else {
                    old(self).count(w)
                },
            final(self).total() == old(self).total_excl(words@),
    {
        let ghost s0 = self.entries@;
        let n = self.entries.len();
        let mut kept: Vec<(String, u32)> = Vec::new();
        let mut i: usize = 0;
        while i < n
            invariant
                i <= n,
                n == s0.len(),
                self.entries@ == s0,
                distinct_keys(s0),
                forall|j: int| 0 <= j < s0.len() ==> (#[trigger] s0[j]).1 >= 1,
                forall|j: int| 0 <= j < s0.len() ==> (#[trigger] s0[j]).0@.len() > 0,
                distinct_keys(kept@),
                forall|j: int| 0 <= j < kept@.len() ==> (#[trigger] kept@[j]).1 >= 1,
                forall|j: int| 0 <= j < kept@.len() ==> (#[trigger] kept@[j]).0@.len() > 0,
                forall|j: int|
                    0 <= j < kept@.len() ==> exists|k: int|
                        0 <= k < i && (#[trigger] kept@[j]).0@ == s0[k].0@,
                map_of(kept@) == map_of(s0.take(i as int)).remove_keys(words@),
                sum_counts(kept@) == sum_counts_excl(s0.take(i as int), words@),
            decreases n - i,
        {
            let ghost m = map_of(s0.take(i as int));
            proof {
                lemma_take_push(s0, i as int);
                lemma_push_step(s0.take(i as int), s0[i as int], words@);
                lemma_map_of_contains(s0.take(i as int), s0[i as int].0@);
                assert(forall|j: int|
                    0 <= j < i ==> (#[trigger] s0.take(i as int)[j]).0@ != s0[i as int].0@);
                assert(!m.contains_key(s0[i as int].0@));
            }
            if !words.contains(&self.entries[i].0) {
                let ghost kept0 = kept@;
                kept.push((self.entries[i].0.clone(), self.entries[i].1));
                proof {
                    let e = kept@.last();
                    assert(kept@ == kept0.push(e));
                    assert(e.0@ == s0[i as int].0@ && e.1 == s0[i as int].1);
                    lemma_push_step(kept0, e, words@);
                    lemma_prefix_keys_push(kept0, s0, i as int, e);
                    assert(map_of(kept@) =~= map_of(s0.take(i as int + 1)).remove_keys(words@));
                }
            } else {
                proof {
                    assert(map_of(kept@) =~= map_of(s0.take(i as int + 1)).remove_keys(words@));
                }
            }
            i = i + 1;
        }
        proof {
            assert(s0.take(n as int) =~= s0);
        }
        self.entries = kept;
    }

    /// Retains only the words whose count is strictly greater than
    /// `min_count`, whose length is strictly greater than 1, and which are
    /// not stop words.
    pub fn zipf_cut(&mut self, min_count: u32, stop_words: &WordSet)
        requires
            old(self).wf(),
        ensures
            final(self).wf(),
            forall|w: Seq<char>|
                final(self).count(w) == if old(self).count(w) > min_count && w.len() > 1
                    && !stop_words@.contains(w) {
                    old(self).count(w)
                } else {
                    0nat
                },
    {
        let ghost s0 = self.entries@;
        let n = self.entries.len();
        let mut kept: Vec<(String, u32)> = Vec::new();
        let mut i: usize = 0;
        while i < n
            invariant
                i <= n,
                n == s0.len(),
                self.entries@ == s0,
                distinct_keys(s0),
                forall|j: int| 0 <= j < s0.len() ==> (#[trigger] s0[j]).1 >= 1,
                forall|j: int| 0 <= j < s0.len() ==> (#[trigger] s0[j]).0@.len() > 0,
                distinct_keys(kept@),
                forall|j: int| 0 <= j < kept@.len() ==> (#[trigger] kept@[j]).1 >= 1,
                forall|j: int| 0 <= j < kept@.len() ==> (#[trigger] kept@[j]).0@.len() > 0,
                forall|j: int|
                    0 <= j < kept@.len() ==> exists|k: int|
                        0 <= k < i && (#[trigger] kept@[j]).0@ == s0[k].0@,
                map_of(kept@) == zipf_filter(map_of(s0.take(i as int)), min_count, stop_words@),
            decreases n - i,
        {
            let ghost m = map_of(s0.take(i as int));
            proof {
                lemma_take_push(s0, i as int);
                lemma_push_step(s0.take(i as int), s0[i as int], stop_words@);
                lemma_map_of_contains(s0.take(i as int), s0[i as int].0@);
                assert(forall|j: int|
                    0 <= j < i ==> (#[trigger] s0.take(i as int)[j]).0@ != s0[i as int].0@);
                assert(!m.contains_key(s0[i as int].0@));
            }
            let keep = self.entries[i].1 > min_count && self.entries[i].0.as_str().unicode_len()
                > 1 && !stop_words.contains(&self.entries[i].0);
            if keep {
                let ghost kept0 = kept@;
                kept.push((self.entries[i].0.clone(), self.entries[i].1));
                proof {
                    let e = kept@.last();
                    assert(kept@ == kept0.push(e));
                    assert(e.0@ == s0[i as int].0@ && e.1 == s0[i as int].1);
                    lemma_push_step(kept0, e, stop_words@);
                    lemma_prefix_keys_push(kept0, s0, i as int, e);
                    assert(map_of(kept@) =~= zipf_filter(
                        map_of(s0.take(i as int + 1)),
                        min_count,
                        stop_words@,
                    ));
                }
            } else {
                proof {
                    assert(map_of(kept@) =~= zipf_filter(
                        map_of(s0.take(i as int + 1)),
                        min_count,
                        stop_words@,
                    ));
                }
            }
            i = i + 1;
        }
        proof {
            assert(s0.take(n as int) =~= s0);
        }
        self.entries = kept;
    }

    /// With a well-formed map, a recorded key always carries a positive
    /// count, so presence and a positive count coincide.
    pub proof fn lemma_values_positive(self, w: Seq<char>)
        requires
            self.wf(),
        ensures
            self@.contains_key(w) ==> self@[w] >= 1,
            self@.contains_key(w) <==> self.count(w) >= 1,
    {
        lemma_map_of_values(self.entries@, w);
    }

    /// No word's count exceeds the total of a well-formed map.
    pub proof fn lemma_count_le_total(self, w: Seq<char>)
        requires
            self.wf(),
        ensures
            self.count(w) <= self.total(),
    {
        lemma_count_le_sum(self.entries@, w);
    }

    /// Excluding words never increases the total.
    pub proof fn lemma_total_excl_le_total(self, excluded: Set<Seq<char>>)
        ensures
            self.total_excl(excluded) <= self.total(),
    {
        lemma_sum_excl_le_sum(self.entries@, excluded);
    }
}

/// For every word, an empty map records a count of 0.
pub proof fn lemma_empty_count_zero(b: BagOfWords, w: Seq<char>)
    requires
        b@ == Map::<Seq<char>, u32>::empty(),
    ensures
        b.count(w) == 0,
{
}

/// Counts fully determine a bag of words: two well-formed maps that record
/// the same count for every word are the same map.
pub proof fn lemma_counts_determine_view(a: BagOfWords, b: BagOfWords)
    requires
        a.wf(),
        b.wf(),
        forall|w: Seq<char>| a.count(w) == b.count(w),
    ensures
        a@ == b@,
{
    assert forall|w: Seq<char>| #![all_triggers] true implies (a@.contains_key(w)
        <==> b@.contains_key(w)) && (a@.contains_key(w) ==> a@[w] == b@[w]) by {
        a.lemma_values_positive(w);
        b.lemma_values_positive(w);
        assert(a.count(w) == b.count(w));
    }
    assert(a@ =~= b@);
}

/// Merging is commutative: the merged count of each word is the sum of the
/// inputs' counts, and sums do not depend on the order of the inputs, so the
/// two merge orders yield the same map.
pub proof fn lemma_merge_commutative(a: BagOfWords, b: BagOfWords, ab: BagOfWords, ba: BagOfWords)
    requires
        a.wf(),
        b.wf(),
        ab.wf(),
        ba.wf(),
        forall|w: Seq<char>| ab.count(w) == a.count(w) + b.count(w),
        forall|w: Seq<char>| ba.count(w) == b.count(w) + a.count(w),
    ensures
        ab@ == ba@,
{
    lemma_counts_determine_view(ab, ba);
}

/// Merging is associative: merging `a` and `b` first and then `c` yields the
/// same map as merging `a` with the merge of `b` and `c`.
pub proof fn lemma_merge_associative(
    a: BagOfWords,
    b: BagOfWords,
    c: BagOfWords,
    ab: BagOfWords,
    bc: BagOfWords,
    ab_c: BagOfWords,
    a_bc: BagOfWords,
)
    requires
        a.wf(),
        b.wf(),
        c.wf(),
        ab.wf(),
        bc.wf(),
        ab_c.wf(),
        a_bc.wf(),
        forall|w: Seq<char>| ab.count(w) == a.count(w) + b.count(w),
        forall|w: Seq<char>| bc.count(w) == b.count(w) + c.count(w),
        forall|w: Seq<char>| ab_c.count(w) == ab.count(w) + c.count(w),
        forall|w: Seq<char>| a_bc.count(w) == a.count(w) + bc.count(w),
    ensures
        ab_c@ == a_bc@,
{
    lemma_counts_determine_view(ab_c, a_bc);
}

/// The maximal alphabetic runs of `s`, given the run `cur` already in
/// progress.
pub open spec fn runs(s: Seq<char>, cur: Seq<char>) -> Seq<Seq<char>>
    decreases s.len(),
{
    if s.len() == 0 {
        if cur.len() == 0 {
            Seq::empty()
        } else {
            seq![cur]
        }
    } else if is_alpha(s[0]) {
        runs(s.drop_first(), cur.push(s[0]))
    } else if cur.len() == 0 {
        runs(s.drop_first(), cur)
    } else {
        seq![cur] + runs(s.drop_first(), Seq::empty())
    }
}

/// The tokens of `s`: its maximal alphabetic runs, each lowercased.
pub open spec fn tokens_of(s: Seq<char>) -> Seq<Seq<char>> {
    runs(s, Seq::empty()).map_values(|t: Seq<char>| lower_of(t))
}

proof fn lemma_runs_nonempty(s: Seq<char>, cur: Seq<char>)
    ensures
        forall|i: int| 0 <= i < runs(s, cur).len() ==> (#[trigger] runs(s, cur)[i]).len() > 0,
    decreases s.len(),
{
    if s.len() > 0 {
        if is_alpha(s[0]) {
            lemma_runs_nonempty(s.drop_first(), cur.push(s[0]));
            assert(runs(s, cur) == runs(s.drop_first(), cur.push(s[0])));
        } else if cur.len() == 0 {
            lemma_runs_nonempty(s.drop_first(), cur);
            assert(runs(s, cur) == runs(s.drop_first(), cur));
        } else {
            lemma_runs_nonempty(s.drop_first(), Seq::empty());
            assert forall|i: int| 0 <= i < runs(s, cur).len() implies (#[trigger] runs(s, cur)[i])
                .len() > 0 by {
                if i > 0 {
                    assert(runs(s, cur)[i] == runs(s.drop_first(), Seq::empty())[i - 1]);
                } else {
                    assert(runs(s, cur)[0] == cur);
                }
            }
        }
    }
}

proof fn lemma_runs_count(s: Seq<char>, cur: Seq<char>)
    ensures
        runs(s, cur).len() <= s.len() + if cur.len() == 0 {
            0int
        } else {
            1int
        },
    decreases s.len(),
{
    if s.len() > 0 {
        if is_alpha(s[0]) {
            lemma_runs_count(s.drop_first(), cur.push(s[0]));
        } else if cur.len() == 0 {
            lemma_runs_count(s.drop_first(), cur);
        } else {
            lemma_runs_count(s.drop_first(), Seq::empty());
        }
    }
}

/// Splits `text` on non-alphabetic characters, drops empty fragments, and
/// lowercases each fragment.
pub fn to_words(text: &str) -> (r: Vec<String>)
    ensures
        r@.map_values(|w: String| w@) == tokens_of(text@),
        forall|i: int| 0 <= i < r@.len() ==> (#[trigger] r@[i])@.len() > 0,
{
    let ghost s = text@;
    let n = text.unicode_len();
    let mut r: Vec<String> = Vec::new();
    let mut start: usize = 0;
    let mut i: usize = 0;
    proof {
        assert(s.skip(0) =~~= s);
        assert(s.subrange(0, 0) =~~= Seq::<char>::empty());
        assert(r@.map_values(|w: String| w@) + runs(s, Seq::empty()).map_values(
            |t: Seq<char>| lower_of(t),
        ) =~~= tokens_of(s));
    }
    while i < n
        invariant
            start <= i <= n,
            n == s.len(),
            text@ == s,
            r@.map_values(|w: String| w@) + runs(
                s.skip(i as int),
                s.subrange(start as int, i as int),
            ).map_values(|t: Seq<char>| lower_of(t)) == tokens_of(s),
            forall|j: int| 0 <= j < r@.len() ==> (#[trigger] r@[j])@.len() > 0,
        decreases n - i,
    {
        let ghost cur = s.subrange(start as int, i as int);
        proof {
            assert(s.skip(i as int)[0] == s[i as int]);
            assert(s.skip(i as int).drop_first() =~~= s.skip(i as int + 1));
        }
        let c = text.get_char(i);
        if char_is_alphabetic(c) {
            proof {
                assert(s.subrange(start as int, i as int + 1) =~~= cur.push(s[i as int]));
                assert(runs(s.skip(i as int), cur) == runs(
                    s.skip(i as int).drop_first(),
                    cur.push(s.skip(i as int)[0]),
                ));
                assert(runs(s.skip(i as int), cur) == runs(
                    s.skip(i as int + 1),
                    s.subrange(start as int, i as int + 1),
                ));
                assert(r@.map_values(|w: String| w@) + runs(
                    s.skip(i as int + 1),
                    s.subrange(start as int, i as int + 1),
                ).map_values(|t: Seq<char>| lower_of(t)) == tokens_of(s));
            }
        } else {
            if start == i {
                proof {
                    assert(cur =~~= Seq::<char>::empty());
                    assert(runs(s.skip(i as int), cur) == runs(
                        s.skip(i as int + 1),
                        Seq::empty(),
                    ));
                }
            }
            if start < i {
                let run = text.substring_char(start, i);
                let w = str_lowercase(run);
                let ghost r0 = r@;
                r.push(w);
                proof {
                    assert(runs(s.skip(i as int), cur) =~~= seq![cur] + runs(
                        s.skip(i as int + 1),
                        Seq::empty(),
                    ));
                    assert(r@.map_values(|w2: String| w2@) =~~= r0.map_values(|w2: String| w2@)
                        .push(lower_of(cur)));
                    assert((seq![cur] + runs(s.skip(i as int + 1), Seq::empty())).map_values(
                        |t: Seq<char>| lower_of(t),
                    ) =~~= seq![lower_of(cur)] + runs(s.skip(i as int + 1), Seq::empty()).map_values(
                        |t: Seq<char>| lower_of(t),
                    ));
                    assert(r0.map_values(|w2: String| w2@).push(lower_of(cur)) + runs(
                        s.skip(i as int + 1),
                        Seq::empty(),
                    ).map_values(|t: Seq<char>| lower_of(t)) =~~= r0.map_values(|w2: String| w2@) + (
                    seq![lower_of(cur)] + runs(s.skip(i as int + 1), Seq::empty()).map_values(
                        |t: Seq<char>| lower_of(t),
                    )));
                    assert(r@.map_values(|w2: String| w2@) + runs(
                        s.skip(i as int + 1),
                        Seq::empty(),
                    ).map_values(|t: Seq<char>| lower_of(t)) == tokens_of(s));
                }
            }
            start = i + 1;
            proof {
                assert(s.subrange(start as int, i as int + 1) =~~= Seq::<char>::empty());
                assert(runs(s.skip(i as int + 1), s.subrange(start as int, i as int + 1)) == runs(
                    s.skip(i as int + 1),
                    Seq::empty(),
                ));
                assert(r@.map_values(|w: String| w@) + runs(
                    s.skip(i as int + 1),
                    s.subrange(start as int, i as int + 1),
                ).map_values(|t: Seq<char>| lower_of(t)) == tokens_of(s));
            }
        }
        i = i + 1;
    }
    proof {
        assert(s.skip(n as int) =~~= Seq::<char>::empty());
    }
    if start < n {
        let run = text.substring_char(start, n);
        let w = str_lowercase(run);
        let ghost r0 = r@;
        let ghost cur = s.subrange(start as int, n as int);
        r.push(w);
        proof {
            assert(runs(Seq::<char>::empty(), cur) =~~= seq![cur]);
            assert(r@.map_values(|w2: String| w2@) =~~= r0.map_values(|w2: String| w2@).push(
                lower_of(cur),
            ));
            assert(r0.map_values(|w2: String| w2@).push(lower_of(cur)) =~~= r0.map_values(
                |w2: String| w2@,
            ) + seq![cur].map_values(|t: Seq<char>| lower_of(t)));
        }
    } else {
        proof {
            let ghost cur = s.subrange(start as int, n as int);
            assert(cur =~~= Seq::<char>::empty());
            assert(runs(Seq::<char>::empty(), cur) =~~= Seq::<Seq<char>>::empty());
            assert(r@.map_values(|w: String| w@) + Seq::<Seq<char>>::empty().map_values(
                |t: Seq<char>| lower_of(t),
            ) =~~= r@.map_values(|w: String| w@));
        }
    }
    r
}

/// The total number of characters in `texts`.
pub open spec fn sum_lens(texts: Seq<Seq<char>>) -> nat
    decreases texts.len(),
{
    if texts.len() == 0 {
        0
    } else {
        (sum_lens(texts.drop_last()) + texts.last().len()) as nat
    }
}

/// The tokens of every text of `texts`, in order.
pub open spec fn corpus_tokens(texts: Seq<Seq<char>>) -> Seq<Seq<char>>
    decreases texts.len(),
{
    if texts.len() == 0 {
        Seq::empty()
    } else {
        corpus_tokens(texts.drop_last()) + tokens_of(texts.last())
    }
}

/// How many times `w` occurs in `toks`.
pub open spec fn occurrences(toks: Seq<Seq<char>>, w: Seq<char>) -> nat
    decreases toks.len(),
{
    if toks.len() == 0 {
        0
    } else {
        (occurrences(toks.drop_last(), w) + if toks.last() == w {
            1int
        } else {
            0int
        }) as nat
    }
}

proof fn lemma_occ_push(toks: Seq<Seq<char>>, e: Seq<char>, w: Seq<char>)
    ensures
        occurrences(toks.push(e), w) == occurrences(toks, w) + if e == w {
            1int
        } else {
            0int
        },
{
    assert(toks.push(e).drop_last() =~~= toks);
    assert(toks.push(e).last() == e);
}

proof fn lemma_tokens_le_len(s: Seq<char>)
    ensures
        tokens_of(s).len() <= s.len(),
{
    lemma_runs_count(s, Seq::empty());
}

proof fn lemma_corpus_le_sum_lens(texts: Seq<Seq<char>>)
    ensures
        corpus_tokens(texts).len() <= sum_lens(texts),
    decreases texts.len(),
{
    if texts.len() > 0 {
        lemma_corpus_le_sum_lens(texts.drop_last());
        lemma_tokens_le_len(texts.last());
    }
}

proof fn lemma_sum_lens_take(texts: Seq<Seq<char>>, k: int)
    requires
        0 <= k <= texts.len(),
    ensures
        sum_lens(texts.take(k)) <= sum_lens(texts),
    decreases texts.len(),
{
    if k < texts.len() {
        assert(texts.drop_last().take(k) =~~= texts.take(k));
        lemma_sum_lens_take(texts.drop_last(), k);
    } else {
        assert(texts.take(k) =~~= texts);
    }
}

impl BagOfWords {
    /// Builds a bag of words from a corpus: every text is tokenized and
    /// every token counted.
    pub fn from_texts(texts: &Vec<String>) -> (r: Self)
        requires
            sum_lens(texts@.map_values(|t: String| t@)) <= u32::MAX,
        ensures
            r.wf(),
            forall|w: Seq<char>|
                r.count(w) == occurrences(
                    corpus_tokens(texts@.map_values(|t: String| t@)),
                    w,
                ),
            r.total() == corpus_tokens(texts@.map_values(|t: String| t@)).len(),
            r.total() <= u32::MAX,
    {
        let ghost tv = texts@.map_values(|t: String| t@);
        let mut bow = BagOfWords::empty();
        let n = texts.len();
        let mut i: usize = 0;
        proof {
            assert(tv.take(0) =~~= Seq::<Seq<char>>::empty());
            assert forall|w: Seq<char>| #[trigger] bow.count(w) == occurrences(
                corpus_tokens(tv.take(0)),
                w,
            ) by {}
        }
        while i < n
            invariant
                i <= n,
                n == texts@.len(),
                tv == texts@.map_values(|t: String| t@),
                sum_lens(tv) <= u32::MAX,
                bow.wf(),
                forall|w: Seq<char>|
                    #[trigger] bow.count(w) == occurrences(corpus_tokens(tv.take(i as int)), w),
                bow.total() == corpus_tokens(tv.take(i as int)).len(),
            decreases n - i,
        {
            let ghost before = corpus_tokens(tv.take(i as int));
            proof {
                assert(tv.take(i as int + 1) =~~= tv.take(i as int).push(tv[i as int]));
                assert(tv.take(i as int + 1).drop_last() =~~= tv.take(i as int));
                assert(corpus_tokens(tv.take(i as int + 1)) == before + tokens_of(tv[i as int]));
                lemma_corpus_le_sum_lens(tv.take(i as int + 1));
                lemma_sum_lens_take(tv, i as int + 1);
            }
            let words = to_words(texts[i].as_str());
            let ghost ws = words@.map_values(|x: String| x@);
            proof {
                assert(tv[i as int] == texts@[i as int]@);
                assert(ws == tokens_of(tv[i as int]));
            }
            let m = words.len();
            let mut j: usize = 0;
            proof {
                assert(ws.take(0) =~~= Seq::<Seq<char>>::empty());
                assert(before + ws.take(0) =~~= before);
            }
            while j < m
                invariant
                    j <= m,
                    m == words@.len(),
                    ws == words@.map_values(|x: String| x@),
                    ws == tokens_of(tv[i as int]),
                    forall|k: int| 0 <= k < words@.len() ==> (#[trigger] words@[k])@.len() > 0,
                    before == corpus_tokens(tv.take(i as int)),
                    corpus_tokens(tv.take(i as int + 1)) == before + ws,
                    corpus_tokens(tv.take(i as int + 1)).len() <= sum_lens(tv),
                    sum_lens(tv) <= u32::MAX,
                    bow.wf(),
                    forall|w: Seq<char>|
                        #[trigger] bow.count(w) == occurrences(before + ws.take(j as int), w),
                    bow.total() == before.len() + j,
                decreases m - j,
            {
                let ghost prev = bow;
                let tok = words[j].clone();
                proof {
                    assert(tok@ == ws[j as int]);
                    bow.lemma_count_le_total(tok@);
                    assert((before + ws).len() <= u32::MAX);
                    assert(bow.total() + 1 <= u32::MAX);
                }
                bow = bow.add_word(tok);
                proof {
                    assert(before + ws.take(j as int + 1) =~~= (before + ws.take(j as int)).push(
                        ws[j as int],
                    ));
                    assert forall|w: Seq<char>| #[trigger] bow.count(w) == occurrences(
                        before + ws.take(j as int + 1),
                        w,
                    ) by {
                        assert(prev.count(w) == occurrences(before + ws.take(j as int), w));
                        lemma_occ_push(before + ws.take(j as int), ws[j as int], w);
                    }
                }
                j = j + 1;
            }
            proof {
                assert(ws.take(m as int) =~~= ws);
                assert forall|w: Seq<char>| #[trigger] bow.count(w) == occurrences(
                    corpus_tokens(tv.take(i as int + 1)),
                    w,
                ) by {
                    assert(bow.count(w) == occurrences(before + ws.take(m as int), w));
                }
            }
            i = i + 1;
        }
        proof {
            assert(tv.take(n as int) =~~= tv);
            lemma_corpus_le_sum_lens(tv);
        }
        bow
    }
}

/// The words that are too short to carry information: length 1 or 0.
pub open spec fn short_words() -> Set<Seq<char>> {
    Set::new(|w: Seq<char>| w.len() <= 1)
}

proof fn lemma_sum_take_le(s: Seq<(String, u32)>, k: int)
    requires
        0 <= k <= s.len(),
    ensures
        sum_counts(s.take(k)) <= sum_counts(s),
    decreases s.len(),
{
    if k < s.len() {
        assert(s.drop_last().take(k) =~= s.take(k));
        lemma_sum_take_le(s.drop_last(), k);
    } else {
        assert(s.take(k) =~= s);
    }
}

impl BagOfWords {
    /// The recorded words, in storage order.
    pub closed spec fn words_seq(self) -> Seq<Seq<char>> {
        self.entries@.map_values(|e: (String, u32)| e.0@)
    }

    /// How many distinct words are recorded.
    pub fn num_words(&self) -> (r: usize)
        ensures
            r == self.words_seq().len(),
    {
        self.entries.len()
    }

    /// The word at position `i` of the storage order.
    pub fn word_at(&self, i: usize) -> (r: &String)
        requires
            i < self.words_seq().len(),
        ensures
            r@ == self.words_seq()[i as int],
    {
        &self.entries[i].0
    }

    /// In a well-formed map the recorded words are distinct, each carries a
    /// positive count, and every recorded word appears among them.
    pub proof fn lemma_words_seq(self)
        requires
            self.wf(),
        ensures
            forall|i: int, j: int|
                0 <= i < j < self.words_seq().len() ==> self.words_seq()[i]
                    != self.words_seq()[j],
            forall|i: int|
                0 <= i < self.words_seq().len() ==> self@.contains_key(
                    #[trigger] self.words_seq()[i],
                ) && self.count(self.words_seq()[i]) >= 1,
            forall|w: Seq<char>|
                self@.contains_key(w) ==> exists|i: int|
                    0 <= i < self.words_seq().len() && self.words_seq()[i] == w,
    {
        assert forall|i: int| 0 <= i < self.words_seq().len() implies self@.contains_key(
            #[trigger] self.words_seq()[i],
        ) && self.count(self.words_seq()[i]) >= 1 by {
            lemma_map_of_index(self.entries@, i);
        }
        assert forall|w: Seq<char>| self@.contains_key(w) implies exists|i: int|
            0 <= i < self.words_seq().len() && self.words_seq()[i] == w by {
            lemma_map_of_contains(self.entries@, w);
            let k = choose|k: int| 0 <= k < self.entries@.len() && self.entries@[k].0@ == w;
            assert(self.words_seq()[k] == w);
        }
    }

    /// Deletes every stop word and every word of length 1 from the map.
    pub fn remove_noise(&mut self, stop_words: &WordSet)
        requires
            old(self).wf(),
        ensures
            final(self).wf(),
            forall|w: Seq<char>|
                final(self).count(w) == if stop_words@.contains(w) || w.len() <= 1 {
                    0nat
                } else {
                    old(self).count(w)
                },
            final(self).total() == old(self).total_excl(stop_words@.union(short_words())),
    {
        let ghost noise = stop_words@.union(short_words());
        let ghost s0 = self.entries@;
        let n = self.entries.len();
        let mut kept: Vec<(String, u32)> = Vec::new();
        let mut i: usize = 0;
        while i < n
            invariant
                i <= n,
                n == s0.len(),
                self.entries@ == s0,
                noise == stop_words@.union(short_words()),
                distinct_keys(s0),
                forall|j: int| 0 <= j < s0.len() ==> (#[trigger] s0[j]).1 >= 1,
                forall|j: int| 0 <= j < s0.len() ==> (#[trigger] s0[j]).0@.len() > 0,
                distinct_keys(kept@),
                forall|j: int| 0 <= j < kept@.len() ==> (#[trigger] kept@[j]).1 >= 1,
                forall|j: int| 0 <= j < kept@.len() ==> (#[trigger] kept@[j]).0@.len() > 0,
                forall|j: int|
                    0 <= j < kept@.len() ==> exists|k: int|
                        0 <= k < i && (#[trigger] kept@[j]).0@ == s0[k].0@,
                map_of(kept@) == map_of(s0.take(i as int)).remove_keys(noise),
                sum_counts(kept@) == sum_counts_excl(s0.take(i as int), noise),
            decreases n - i,
        {
            let ghost m = map_of(s0.take(i as int));
            proof {
                lemma_take_push(s0, i as int);
                lemma_push_step(s0.take(i as int), s0[i as int], noise);
                lemma_map_of_contains(s0.take(i as int), s0[i as int].0@);
                assert(forall|j: int|
                    0 <= j < i ==> (#[trigger] s0.take(i as int)[j]).0@ != s0[i as int].0@);
                assert(!m.contains_key(s0[i as int].0@));
            }
            let keep = !stop_words.contains(&self.entries[i].0) && self.entries[i].0.as_str()
                .unicode_len() > 1;
            if keep {
                let ghost kept0 = kept@;
                kept.push((self.entries[i].0.clone(), self.entries[i].1));
                proof {
                    let e = kept@.last();
                    assert(kept@ == kept0.push(e));
                    assert(e.0@ == s0[i as int].0@ && e.1 == s0[i as int].1);
                    lemma_push_step(kept0, e, noise);
                    lemma_prefix_keys_push(kept0, s0, i as int, e);
                    assert(map_of(kept@) =~= map_of(s0.take(i as int + 1)).remove_keys(noise));
                }
            } else {
                proof {
                    assert(s0[i as int].0@.len() > 0);
                    assert(noise.contains(s0[i as int].0@));
                    assert(map_of(kept@) =~= map_of(s0.take(i as int + 1)).remove_keys(noise));
                }
            }
            i = i + 1;
        }
        proof {
            assert(s0.take(n as int) =~= s0);
        }
        self.entries = kept;
    }

    /// The total number of recorded occurrences, over all words.
    pub fn total_u64(&self) -> (r: u64)
        requires
            self.total() <= u64::MAX,
        ensures
            r == self.total(),
    {
        let n = self.entries.len();
        let mut acc: u64 = 0;
        let mut i: usize = 0;
        while i < n
            invariant
                i <= n,
                n == self.entries@.len(),
                sum_counts(self.entries@) <= u64::MAX,
                acc == sum_counts(self.entries@.take(i as int)),
            decreases n - i,
        {
            proof {
                lemma_take_push(self.entries@, i as int);
                lemma_push_step(
                    self.entries@.take(i as int),
                    self.entries@[i as int],
                    Set::empty(),
                );
                lemma_sum_take_le(self.entries@, i as int + 1);
            }
            acc = acc + self.entries[i].1 as u64;
            i = i + 1;
        }
        proof {
            assert(self.entries@.take(n as int) =~= self.entries@);
        }
        acc
    }
}

/// Removing a set of words twice yields the same map as removing it once.
pub proof fn lemma_remove_words_idempotent(m: Map<Seq<char>, u32>, words: Set<Seq<char>>)
    ensures
        m.remove_keys(words).remove_keys(words) == m.remove_keys(words),
{
    assert(m.remove_keys(words).remove_keys(words) =~= m.remove_keys(words));
}

} // verus!
