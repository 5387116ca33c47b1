//! Building a binary sentiment lexicon from per-class word frequencies, and
//! classifying text with it.

use vstd::prelude::*;

verus! {

use crate::bag_of_words::{
    BagOfWords,
    WordSet,
    map_of,
    distinct_keys,
    lemma_map_of_contains,
    lemma_map_of_index,
    lemma_map_of_push,
    short_words,
    tokens_of,
    to_words,
};

/// An exact ratio in [0, 1], written `num / den`.
#[derive(Clone, Copy, Debug, PartialEq, Eq, Structural)]
pub struct Ratio {
    pub num: u32,
    pub den: u32,
}

impl Ratio {
    /// Well-formed: a proper fraction with a positive denominator.
    pub open spec fn wf(self) -> bool {
        0 < self.den && self.num <= self.den
    }
}

/// How a word's per-class counts enter its discrimination ratio.
#[derive(Clone, Copy, Debug, PartialEq, Eq, Structural)]
pub enum NormalizationMode {
    /// Counts are used directly.
    Raw,
    /// Each class's count is divided by that class's total token count, so
    /// classes of very different corpus sizes are put on equal footing.
    FrequencyNormalized,
}

/// The thresholds and mode that govern dictionary construction.
#[derive(Clone, Copy, Debug)]
pub struct BuildConfig {
    /// Words whose combined count is strictly below this are dropped.
    pub min_word_freq: u32,
    /// A word is positive when its ratio is strictly above this.
    pub accept_ratio_pos: Ratio,
    /// A word is negative when its ratio is strictly below one minus this.
    pub accept_ratio_neg: Ratio,
    /// Whether counts are normalized by class totals.
    pub normalization: NormalizationMode,
}

impl BuildConfig {
    /// Well-formed: both thresholds are proper fractions.
    pub open spec fn wf(self) -> bool {
        self.accept_ratio_pos.wf() && self.accept_ratio_neg.wf()
    }
}

/// The weight of the positive class for a word with counts `cp`/`cn` and
/// class totals `tp`/`tn`.
pub open spec fn pos_weight(cp: nat, cn: nat, tp: nat, tn: nat, mode: NormalizationMode) -> int {
    match mode {
        NormalizationMode::Raw => cp as int,
        NormalizationMode::FrequencyNormalized => (cp * tn) as int,
    }
}

/// The weight of the negative class for a word with counts `cp`/`cn` and
/// class totals `tp`/`tn`.
pub open spec fn neg_weight(cp: nat, cn: nat, tp: nat, tn: nat, mode: NormalizationMode) -> int {
    match mode {
        NormalizationMode::Raw => cn as int,
        NormalizationMode::FrequencyNormalized => (cn * tp) as int,
    }
}

/// The label a word receives: `Some(true)` when its discrimination ratio
/// `pw / (pw + nw)` is strictly above the positive threshold, otherwise
/// `Some(false)` when the ratio is strictly below one minus the negative
/// threshold, otherwise `None` (excluded). The comparisons are stated by
/// cross-multiplication, so a zero denominator (both weights zero) makes
/// both of them false and excludes the word.
pub open spec fn decide(cp: nat, cn: nat, tp: nat, tn: nat, cfg: BuildConfig) -> Option<bool> {
    let pw = pos_weight(cp, cn, tp, tn, cfg.normalization);
    let nw = neg_weight(cp, cn, tp, tn, cfg.normalization);
    if pw * cfg.accept_ratio_pos.den > cfg.accept_ratio_pos.num * (pw + nw) {
        Some(true)
    } else if pw * cfg.accept_ratio_neg.den < (cfg.accept_ratio_neg.den
        - cfg.accept_ratio_neg.num) * (pw + nw) {
        Some(false)
    } else {
        None
    }
}

/// Whether a word with per-class counts `cp`/`cn` is a candidate for the
/// lexicon at all: not a stop word, longer than one character, recorded at
/// least once, and at least as frequent as `min_word_freq`.
pub open spec fn eligible(
    cp: nat,
    cn: nat,
    w: Seq<char>,
    stop: Set<Seq<char>>,
    min_word_freq: u32,
) -> bool {
    &&& !stop.contains(w)
    &&& w.len() > 1
    &&& cp + cn >= 1
    &&& cp + cn >= min_word_freq
}

/// A class's total token count as the builder sees it: all counts except
/// those of stop words and one-character words.
pub open spec fn class_total(bow: BagOfWords, stop: Set<Seq<char>>) -> nat {
    bow.total_excl(stop.union(short_words()))
}

/// The lexicon the builder owes: every eligible word that the decision rule
/// labels, with that label.
pub open spec fn lexicon_of(
    pos: BagOfWords,
    neg: BagOfWords,
    stop: Set<Seq<char>>,
    cfg: BuildConfig,
) -> Map<Seq<char>, bool> {
    Map::new(
        |w: Seq<char>|
            eligible(pos.count(w), neg.count(w), w, stop, cfg.min_word_freq) && decide(
                pos.count(w),
                neg.count(w),
                class_total(pos, stop),
                class_total(neg, stop),
                cfg,
            ).is_some(),
        |w: Seq<char>|
            decide(
                pos.count(w),
                neg.count(w),
                class_total(pos, stop),
                class_total(neg, stop),
                cfg,
            ).unwrap(),
    )
}

/// The words among the first `k` of `ws`.
pub open spec fn keys_prefix(ws: Seq<Seq<char>>, k: int) -> Set<Seq<char>> {
    Set::new(|w: Seq<char>| exists|j: int| 0 <= j < k && ws[j] == w)
}

proof fn lemma_keys_prefix_step(ws: Seq<Seq<char>>, i: int)
    requires
        0 <= i < ws.len(),
    ensures
        keys_prefix(ws, i + 1) =~= keys_prefix(ws, i).insert(ws[i]),
{
    assert forall|w: Seq<char>| keys_prefix(ws, i + 1).contains(w) implies keys_prefix(
        ws,
        i,
    ).insert(ws[i]).contains(w) by {
        let j = choose|j: int| 0 <= j < i + 1 && ws[j] == w;
        if j < i {
            assert(keys_prefix(ws, i).contains(w));
        }
    }
    assert forall|w: Seq<char>| keys_prefix(ws, i).insert(ws[i]).contains(w) implies keys_prefix(
        ws,
        i + 1,
    ).contains(w) by {
        if w == ws[i] {
            assert(0 <= i < i + 1 && ws[i] == w);
        } else {
            let j = choose|j: int| 0 <= j < i && ws[j] == w;
            assert(0 <= j < i + 1 && ws[j] == w);
        }
    }
}

proof fn lemma_out_push(out: Seq<(String, bool)>, covered: Set<Seq<char>>, e: (String, bool))
    requires
        distinct_keys(out),
        forall|j: int| 0 <= j < out.len() ==> covered.contains((#[trigger] out[j]).0@),
        !covered.contains(e.0@),
    ensures
        distinct_keys(out.push(e)),
        forall|j: int|
            0 <= j < out.push(e).len() ==> covered.insert(e.0@).contains(
                (#[trigger] out.push(e)[j]).0@,
            ),
{
    let op = out.push(e);
    assert forall|a: int, b: int| 0 <= a < b < op.len() implies op[a].0@ != op[b].0@ by {
        if b == op.len() - 1 {
            assert(covered.contains(out[a].0@));
        }
    }
}

/// A word-to-polarity map: `true` marks a positive-indicating word, `false`
/// a negative-indicating one; neutral words are absent.
#[derive(Debug)]
pub struct BinarySentimentDictionary {
    entries: Vec<(String, bool)>,
}

impl View for BinarySentimentDictionary {
    type V = Map<Seq<char>, bool>;

    closed spec fn view(&self) -> Map<Seq<char>, bool> {
        map_of(self.entries@)
    }
}

/// How many of the tokens in `toks` carry a positive label in `lex`.
pub open spec fn pos_hits(lex: Map<Seq<char>, bool>, toks: Seq<Seq<char>>) -> nat
    decreases toks.len(),
{
    if toks.len() == 0 {
        0
    } else {
        (pos_hits(lex, toks.drop_last()) + if lex.contains_key(toks.last()) && lex[toks.last()] {
            1int
        } else {
            0int
        }) as nat
    }
}

/// How many of the tokens in `toks` carry a negative label in `lex`.
pub open spec fn neg_hits(lex: Map<Seq<char>, bool>, toks: Seq<Seq<char>>) -> nat
    decreases toks.len(),
{
    if toks.len() == 0 {
        0
    } else {
        (neg_hits(lex, toks.drop_last()) + if lex.contains_key(toks.last()) && !lex[toks.last()] {
            1int
        } else {
            0int
        }) as nat
    }
}

proof fn lemma_hits_push(lex: Map<Seq<char>, bool>, toks: Seq<Seq<char>>, e: Seq<char>)
    ensures
        pos_hits(lex, toks.push(e)) == pos_hits(lex, toks) + if lex.contains_key(e) && lex[e] {
            1int
        } else {
            0int
        },
        neg_hits(lex, toks.push(e)) == neg_hits(lex, toks) + if lex.contains_key(e) && !lex[e] {
            1int
        } else {
            0int
        },
{
    assert(toks.push(e).drop_last() =~~= toks);
    assert(toks.push(e).last() == e);
}

fn decide_exec(cp: u32, cn: u32, tp: u64, tn: u64, config: &BuildConfig) -> (r: Option<bool>)
    requires
        config.wf(),
        tp <= u32::MAX,
        tn <= u32::MAX,
    ensures
        r == decide(cp as nat, cn as nat, tp as nat, tn as nat, *config),
{
    proof {
        assert(cp as int * tn as int <= u32::MAX as int * u32::MAX as int) by (nonlinear_arith)
            requires
                cp <= u32::MAX,
                tn <= u32::MAX,
        ;
        assert(cn as int * tp as int <= u32::MAX as int * u32::MAX as int) by (nonlinear_arith)
            requires
                cn <= u32::MAX,
                tp <= u32::MAX,
        ;
    }
    let pw: u128;
    let nw: u128;
    match config.normalization {
        NormalizationMode::Raw => {
            pw = cp as u128;
            nw = cn as u128;
        },
        NormalizationMode::FrequencyNormalized => {
            pw = cp as u128 * tn as u128;
            nw = cn as u128 * tp as u128;
        },
    }
    let total: u128 = pw + nw;
    proof {
        let bound: int = u32::MAX as int * u32::MAX as int;
        assert(pw as int * config.accept_ratio_pos.den as int <= bound * u32::MAX as int)
            by (nonlinear_arith)
            requires
                pw <= bound,
                config.accept_ratio_pos.den <= u32::MAX,
                0 <= pw,
        ;
        assert(config.accept_ratio_pos.num as int * total as int <= u32::MAX as int * (2 * bound))
            by (nonlinear_arith)
            requires
                total <= 2 * bound,
                config.accept_ratio_pos.num <= u32::MAX,
                0 <= total,
        ;
        assert(pw as int * config.accept_ratio_neg.den as int <= bound * u32::MAX as int)
            by (nonlinear_arith)
            requires
                pw <= bound,
                config.accept_ratio_neg.den <= u32::MAX,
                0 <= pw,
        ;
        assert((config.accept_ratio_neg.den - config.accept_ratio_neg.num) as int * total as int
            <= u32::MAX as int * (2 * bound)) by (nonlinear_arith)
            requires
                total <= 2 * bound,
                0 <= config.accept_ratio_neg.den - config.accept_ratio_neg.num <= u32::MAX as int,
                0 <= total,
        ;
    }
    let neg_slack: u32 = config.accept_ratio_neg.den - config.accept_ratio_neg.num;
    let pos_lhs: u128 = pw * config.accept_ratio_pos.den as u128;
    let pos_rhs: u128 = config.accept_ratio_pos.num as u128 * total;
    let neg_lhs: u128 = pw * config.accept_ratio_neg.den as u128;
    let neg_rhs: u128 = neg_slack as u128 * total;
    if pos_lhs > pos_rhs {
        Some(true)
    } else if neg_lhs < neg_rhs {
        Some(false)
    } else {
        None
    }
}

impl BinarySentimentDictionary {
    /// Well-formed: each word is recorded at most once.
    pub closed spec fn wf(self) -> bool {
        distinct_keys(self.entries@)
    }

    /// Turns two raw per-class word-frequency maps into a sentiment lexicon.
    /// The pipeline: stop words and one-character words are dropped, class
    /// totals are taken, words rarer than `config.min_word_freq` are
    /// dropped, and each remaining word is labeled by the decision rule.
    pub fn build(
        positive_bow: BagOfWords,
        negative_bow: BagOfWords,
        stop_words: &WordSet,
        config: &BuildConfig,
    ) -> (r: Self)
        requires
            positive_bow.wf(),
            negative_bow.wf(),
            config.wf(),
            positive_bow.total() <= u32::MAX,
            negative_bow.total() <= u32::MAX,
        ensures
            r.wf(),
            r@ == lexicon_of(positive_bow, negative_bow, stop_words@, *config),
            forall|w: Seq<char>|
                #[trigger] r@.contains_key(w) <==> eligible(
                    positive_bow.count(w),
                    negative_bow.count(w),
                    w,
                    stop_words@,
                    config.min_word_freq,
                ) && decide(
                    positive_bow.count(w),
                    negative_bow.count(w),
                    class_total(positive_bow, stop_words@),
                    class_total(negative_bow, stop_words@),
                    *config,
                ).is_some(),
            forall|w: Seq<char>|
                #[trigger] r@.contains_key(w) ==> r@[w] == decide(
                    positive_bow.count(w),
                    negative_bow.count(w),
                    class_total(positive_bow, stop_words@),
                    class_total(negative_bow, stop_words@),
                    *config,
                ).unwrap(),
            forall|w: Seq<char>|
                stop_words@.contains(w) || w.len() <= 1 ==> !(#[trigger] r@.contains_key(w)),
            forall|w: Seq<char>|
                positive_bow.count(w) + negative_bow.count(w) < config.min_word_freq ==> !(
                #[trigger] r@.contains_key(w)),
    {
        let ghost pb = positive_bow;
        let ghost nb = negative_bow;
        let ghost lex = lexicon_of(pb, nb, stop_words@, *config);
        let mut p = positive_bow;
        let mut n = negative_bow;
        proof {
            pb.lemma_total_excl_le_total(stop_words@.union(short_words()));
            nb.lemma_total_excl_le_total(stop_words@.union(short_words()));
        }
        p.remove_noise(stop_words);
        n.remove_noise(stop_words);
        let tp = p.total_u64();
        let tn = n.total_u64();
        let mut out: Vec<(String, bool)> = Vec::new();
        let pn = p.num_words();
        let mut i: usize = 0;
        proof {
            assert(map_of(out@) =~= lex.restrict(keys_prefix(p.words_seq(), 0)));
        }
        while i < pn
            invariant
                i <= pn,
                pn == p.words_seq().len(),
                p.wf(),
                n.wf(),
                config.wf(),
                lex == lexicon_of(pb, nb, stop_words@, *config),
                tp == class_total(pb, stop_words@),
                tn == class_total(nb, stop_words@),
                tp <= u32::MAX,
                tn <= u32::MAX,
                forall|w: Seq<char>|
                    p.count(w) == if stop_words@.contains(w) || w.len() <= 1 {
                        0nat
                    } else {
                        pb.count(w)
                    },
                forall|w: Seq<char>|
                    n.count(w) == if stop_words@.contains(w) || w.len() <= 1 {
                        0nat
                    } else {
                        nb.count(w)
                    },
                distinct_keys(out@),
                forall|j: int|
                    0 <= j < out@.len() ==> keys_prefix(p.words_seq(), i as int).contains(
                        (#[trigger] out@[j]).0@,
                    ),
                map_of(out@) == lex.restrict(keys_prefix(p.words_seq(), i as int)),
            decreases pn - i,
        {
            let ghost ws = p.words_seq();
            let ghost wv = ws[i as int];
            let w = p.word_at(i);
            let cp = p.get(w);
            let cn = n.get(w);
            proof {
                p.lemma_words_seq();
                assert(cp == p.count(wv) && cp >= 1);
                assert(!(stop_words@.contains(wv) || wv.len() <= 1));
                assert(cp == pb.count(wv));
                assert(cn == nb.count(wv));
                lemma_keys_prefix_step(ws, i as int);
                assert(!keys_prefix(ws, i as int).contains(wv));
            }
            let combined: u64 = cp as u64 + cn as u64;
            let lab = if combined >= config.min_word_freq as u64 {
                decide_exec(cp, cn, tp, tn, config)
            } else {
                None
            };
            proof {
                assert(eligible(pb.count(wv), nb.count(wv), wv, stop_words@, config.min_word_freq)
                    <==> combined >= config.min_word_freq);
            }
            match lab {
                Some(b) => {
                    let ghost out0 = out@;
                    out.push((w.clone(), b));
                    proof {
                        let e = out@.last();
                        assert(out@ == out0.push(e));
                        assert(e.0@ == wv && e.1 == b);
                        lemma_map_of_push(out0, e);
                        lemma_out_push(out0, keys_prefix(ws, i as int), e);
                        assert(lex.contains_key(wv) && lex[wv] == b);
                        assert(map_of(out@) =~= lex.restrict(keys_prefix(ws, i as int + 1)));
                    }
                },
                None => {
                    proof {
                        assert(!lex.contains_key(wv));
                        assert(map_of(out@) =~= lex.restrict(keys_prefix(ws, i as int + 1)));
                    }
                },
            }
            i = i + 1;
        }
        let ghost pdom = p@.dom();
        proof {
            p.lemma_words_seq();
            assert(keys_prefix(p.words_seq(), pn as int) =~= pdom) by {
                assert forall|w: Seq<char>|
                    keys_prefix(p.words_seq(), pn as int).contains(w) implies pdom.contains(w) by {
                    let j = choose|j: int| 0 <= j < pn && p.words_seq()[j] == w;
                    assert(p@.contains_key(p.words_seq()[j]));
                }
            }
            assert(lex.restrict(pdom) =~= lex.restrict(pdom.union(keys_prefix(n.words_seq(), 0))));
        }
        let nn = n.num_words();
        let mut i2: usize = 0;
        while i2 < nn
            invariant
                i2 <= nn,
                nn == n.words_seq().len(),
                p.wf(),
                n.wf(),
                config.wf(),
                pdom == p@.dom(),
                lex == lexicon_of(pb, nb, stop_words@, *config),
                tp == class_total(pb, stop_words@),
                tn == class_total(nb, stop_words@),
                tp <= u32::MAX,
                tn <= u32::MAX,
                forall|w: Seq<char>|
                    p.count(w) == if stop_words@.contains(w) || w.len() <= 1 {
                        0nat
                    } else {
                        pb.count(w)
                    },
                forall|w: Seq<char>|
                    n.count(w) == if stop_words@.contains(w) || w.len() <= 1 {
                        0nat
                    } else {
                        nb.count(w)
                    },
                distinct_keys(out@),
                forall|j: int|
                    0 <= j < out@.len() ==> pdom.union(keys_prefix(n.words_seq(), i2 as int))
                        .contains((#[trigger] out@[j]).0@),
                map_of(out@) == lex.restrict(pdom.union(keys_prefix(n.words_seq(), i2 as int))),
            decreases nn - i2,
        {
            let ghost ws = n.words_seq();
            let ghost wv = ws[i2 as int];
            let w = n.word_at(i2);
            let cp = p.get(w);
            let cn = n.get(w);
            proof {
                n.lemma_words_seq();
                assert(cn == n.count(wv) && cn >= 1);
                assert(!(stop_words@.contains(wv) || wv.len() <= 1));
                assert(cp == pb.count(wv));
                assert(cn == nb.count(wv));
                lemma_keys_prefix_step(ws, i2 as int);
                p.lemma_values_positive(wv);
            }
            if cp == 0 {
                proof {
                    assert(!pdom.contains(wv));
                    assert(!pdom.union(keys_prefix(ws, i2 as int)).contains(wv));
                }
                let combined: u64 = cp as u64 + cn as u64;
                let lab = if combined >= config.min_word_freq as u64 {
                    decide_exec(cp, cn, tp, tn, config)
                } else {
                    None
                };
                proof {
                    assert(eligible(
                        pb.count(wv),
                        nb.count(wv),
                        wv,
                        stop_words@,
                        config.min_word_freq,
                    ) <==> combined >= config.min_word_freq);
                }
                match lab {
                    Some(b) => {
                        let ghost out0 = out@;
                        out.push((w.clone(), b));
                        proof {
                            let e = out@.last();
                            assert(out@ == out0.push(e));
                            assert(e.0@ == wv && e.1 == b);
                            lemma_map_of_push(out0, e);
                            lemma_out_push(out0, pdom.union(keys_prefix(ws, i2 as int)), e);
                            assert(lex.contains_key(wv) && lex[wv] == b);
                            assert(pdom.union(keys_prefix(ws, i2 as int + 1)) =~= pdom.union(
                                keys_prefix(ws, i2 as int),
                            ).insert(wv));
                            assert(map_of(out@) =~= lex.restrict(
                                pdom.union(keys_prefix(ws, i2 as int + 1)),
                            ));
                        }
                    },
                    None => {
                        proof {
                            assert(!lex.contains_key(wv));
                            assert(pdom.union(keys_prefix(ws, i2 as int + 1)) =~= pdom.union(
                                keys_prefix(ws, i2 as int),
                            ).insert(wv));
                            assert(map_of(out@) =~= lex.restrict(
                                pdom.union(keys_prefix(ws, i2 as int + 1)),
                            ));
                        }
                    },
                }
            } else {
                proof {
                    assert(pdom.contains(wv));
                    assert(pdom.union(keys_prefix(ws, i2 as int + 1)) =~= pdom.union(
                        keys_prefix(ws, i2 as int),
                    ));
                }
            }
            i2 = i2 + 1;
        }
        proof {
            n.lemma_words_seq();
            let ndom = n@.dom();
            assert(keys_prefix(n.words_seq(), nn as int) =~= ndom) by {
                assert forall|w: Seq<char>|
                    keys_prefix(n.words_seq(), nn as int).contains(w) implies ndom.contains(w) by {
                    let j = choose|j: int| 0 <= j < nn && n.words_seq()[j] == w;
                    assert(n@.contains_key(n.words_seq()[j]));
                }
            }
            assert(lex.restrict(pdom.union(ndom)) =~= lex) by {
                assert forall|w: Seq<char>| lex.contains_key(w) implies pdom.union(ndom).contains(
                    w,
                ) by {
                    assert(eligible(pb.count(w), nb.count(w), w, stop_words@, config.min_word_freq));
                    assert(pb.count(w) + nb.count(w) >= 1);
                    p.lemma_values_positive(w);
                    n.lemma_values_positive(w);
                }
            }
        }
        BinarySentimentDictionary { entries: out }
    }

    /// The label recorded for `word`, if any.
    pub fn lookup(&self, word: &String) -> (r: Option<bool>)
        requires
            self.wf(),
        ensures
            r == if self@.contains_key(word@) {
                Some(self@[word@])
            } else {
                None::<bool>
            },
    {
        let n = self.entries.len();
        let mut i: usize = 0;
        while i < n
            invariant
                i <= n,
                n == self.entries@.len(),
                self.wf(),
                forall|j: int| 0 <= j < i ==> (#[trigger] self.entries@[j]).0@ != word@,
            decreases n - i,
        {
            if self.entries[i].0 == *word {
                proof {
                    lemma_map_of_index(self.entries@, i as int);
                }
                return Some(self.entries[i].1);
            }
            i = i + 1;
        }
        proof {
            lemma_map_of_contains(self.entries@, word@);
        }
        None
    }

    /// Tokenizes `text`, counts positive-labeled and negative-labeled token
    /// occurrences, and returns `true` exactly when the positive count is
    /// strictly greater; a tie is a negative verdict.
    pub fn classify(&self, text: &str) -> (r: bool)
        requires
            self.wf(),
        ensures
            r == (pos_hits(self@, tokens_of(text@)) > neg_hits(self@, tokens_of(text@))),
    {
        let ghost toks = tokens_of(text@);
        let words = to_words(text);
        let n = words.len();
        let mut pos: usize = 0;
        let mut neg: usize = 0;
        let mut i: usize = 0;
        proof {
            assert(toks.take(0) =~~= Seq::<Seq<char>>::empty());
        }
        while i < n
            invariant
                i <= n,
                n == words@.len(),
                self.wf(),
                words@.map_values(|w: String| w@) == toks,
                pos <= i,
                neg <= i,
                pos == pos_hits(self@, toks.take(i as int)),
                neg == neg_hits(self@, toks.take(i as int)),
            decreases n - i,
        {
            proof {
                assert(toks.take(i as int + 1) =~~= toks.take(i as int).push(toks[i as int]));
                lemma_hits_push(self@, toks.take(i as int), toks[i as int]);
                assert(words@[i as int]@ == toks[i as int]);
            }
            match self.lookup(&words[i]) {
                Some(true) => {
                    pos = pos + 1;
                },
                Some(false) => {
                    neg = neg + 1;
                },
                None => {},
            }
            i = i + 1;
        }
        proof {
            assert(toks.take(n as int) =~~= toks);
        }
        pos > neg
    }

    /// The lexicon as two-column rows `(word, label)`: read back as a map
    /// the rows are exactly the lexicon, each word appears once, and
    /// positive-labeled rows come before negative-labeled rows.
    pub fn export_rows(&self) -> (rows: Vec<(String, bool)>)
        requires
            self.wf(),
        ensures
            map_of(rows@) == self@,
            distinct_keys(rows@),
            forall|i: int, j: int| 0 <= i < j < rows@.len() && !rows@[i].1 ==> !rows@[j].1,
    {
        let s = &self.entries;
        let n = s.len();
        let ghost m_true = label_filter(map_of(s@), true);
        let ghost m_false = label_filter(map_of(s@), false);
        let mut rows: Vec<(String, bool)> = Vec::new();
        let mut i: usize = 0;
        proof {
            assert(map_of(rows@) =~= label_filter(map_of(s@.take(0)), true));
        }
        while i < n
            invariant
                i <= n,
                n == s@.len(),
                s@ == self.entries@,
                distinct_keys(s@),
                distinct_keys(rows@),
                forall|j: int| 0 <= j < rows@.len() ==> (#[trigger] rows@[j]).1,
                forall|j: int|
                    0 <= j < rows@.len() ==> map_of(rows@).contains_key(
                        (#[trigger] rows@[j]).0@,
                    ),
                map_of(rows@) == label_filter(map_of(s@.take(i as int)), true),
            decreases n - i,
        {
            proof {
                crate::bag_of_words::lemma_take_push_any(s@, i as int);
                lemma_map_of_push(s@.take(i as int), s@[i as int]);
                lemma_map_of_contains(s@.take(i as int), s@[i as int].0@);
                assert(forall|j: int|
                    0 <= j < i ==> (#[trigger] s@.take(i as int)[j]).0@ != s@[i as int].0@);
                assert(!map_of(s@.take(i as int)).contains_key(s@[i as int].0@));
            }
            if self.entries[i].1 {
                let ghost rows0 = rows@;
                rows.push((self.entries[i].0.clone(), true));
                proof {
                    let e = rows@.last();
                    assert(rows@ == rows0.push(e));
                    assert(e.0@ == s@[i as int].0@ && e.1);
                    lemma_map_of_push(rows0, e);
                    lemma_out_push(rows0, map_of(rows0).dom(), e);
                    assert(map_of(rows@) =~= label_filter(
                        map_of(s@.take(i as int + 1)),
                        true,
                    ));
                }
            } else {
                proof {
                    assert(map_of(rows@) =~= label_filter(
                        map_of(s@.take(i as int + 1)),
                        true,
                    ));
                }
            }
            i = i + 1;
        }
        let ghost hl = rows@.len() as int;
        proof {
            assert(s@.take(n as int) =~= s@);
            assert(map_of(rows@).union_prefer_right(label_filter(map_of(s@.take(0)), false))
                =~= m_true);
        }
        let mut i2: usize = 0;
        while i2 < n
            invariant
                i2 <= n,
                n == s@.len(),
                s@ == self.entries@,
                distinct_keys(s@),
                distinct_keys(rows@),
                hl <= rows@.len(),
                m_true == label_filter(map_of(s@), true),
                forall|j: int| 0 <= j < rows@.len() ==> ((#[trigger] rows@[j]).1 <==> j < hl),
                forall|j: int|
                    0 <= j < rows@.len() ==> map_of(rows@).contains_key(
                        (#[trigger] rows@[j]).0@,
                    ),
                map_of(rows@) == m_true.union_prefer_right(
                    label_filter(map_of(s@.take(i2 as int)), false),
                ),
            decreases n - i2,
        {
            proof {
                crate::bag_of_words::lemma_take_push_any(s@, i2 as int);
                lemma_map_of_push(s@.take(i2 as int), s@[i2 as int]);
                lemma_map_of_contains(s@.take(i2 as int), s@[i2 as int].0@);
                assert(forall|j: int|
                    0 <= j < i2 ==> (#[trigger] s@.take(i2 as int)[j]).0@ != s@[i2 as int].0@);
                assert(!map_of(s@.take(i2 as int)).contains_key(s@[i2 as int].0@));
            }
            if !self.entries[i2].1 {
                let ghost rows0 = rows@;
                rows.push((self.entries[i2].0.clone(), false));
                proof {
                    let e = rows@.last();
                    assert(rows@ == rows0.push(e));
                    assert(e.0@ == s@[i2 as int].0@ && !e.1);
                    lemma_map_of_push(rows0, e);
                    lemma_map_of_index(s@, i2 as int);
                    assert(!map_of(rows0).contains_key(e.0@));
                    lemma_out_push(rows0, map_of(rows0).dom(), e);
                    assert(map_of(rows@) =~= m_true.union_prefer_right(
                        label_filter(map_of(s@.take(i2 as int + 1)), false),
                    ));
                }
            } else {
                proof {
                    assert(map_of(rows@) =~= m_true.union_prefer_right(
                        label_filter(map_of(s@.take(i2 as int + 1)), false),
                    ));
                }
            }
            i2 = i2 + 1;
        }
        proof {
            assert(s@.take(n as int) =~= s@);
            assert(m_true.union_prefer_right(m_false) =~= map_of(s@));
        }
        rows
    }
}

/// The entries of `m` whose label is `b`.
pub open spec fn label_filter(m: Map<Seq<char>, bool>, b: bool) -> Map<Seq<char>, bool> {
    Map::new(|w: Seq<char>| m.contains_key(w) && m[w] == b, |w: Seq<char>| b)
}

/// A word that the lexicon labels as positive-indicating.
pub open spec fn is_positive_word(d: BinarySentimentDictionary, w: Seq<char>) -> bool {
    d@.contains_key(w) && d@[w]
}

/// A word that the lexicon labels as negative-indicating.
pub open spec fn is_negative_word(d: BinarySentimentDictionary, w: Seq<char>) -> bool {
    d@.contains_key(w) && !d@[w]
}

/// No word ever carries both labels in a single lexicon.
pub proof fn lemma_single_label(d: BinarySentimentDictionary, w: Seq<char>)
    ensures
        !(is_positive_word(d, w) && is_negative_word(d, w)),
{
}

/// With every token unknown to the lexicon, both hit counts are zero, so a
/// classification verdict over them is the tie default, negative.
pub proof fn lemma_all_unknown_no_hits(lex: Map<Seq<char>, bool>, toks: Seq<Seq<char>>)
    requires
        forall|i: int| 0 <= i < toks.len() ==> !lex.contains_key(#[trigger] toks[i]),
    ensures
        pos_hits(lex, toks) == 0,
        neg_hits(lex, toks) == 0,
    decreases toks.len(),
{
    if toks.len() > 0 {
        assert(forall|i: int|
            0 <= i < toks.drop_last().len() ==> toks.drop_last()[i] == #[trigger] toks[i]);
        lemma_all_unknown_no_hits(lex, toks.drop_last());
    }
}

} // verus!
