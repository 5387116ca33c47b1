use sentiment_analysis::bag_of_words::{BagOfWords, WordSet};
use sentiment_analysis::dictionary::{
    BinarySentimentDictionary, BuildConfig, NormalizationMode, Ratio,
};

fn s(x: &str) -> String {
    String::from(x)
}

fn raw_config(min_word_freq: u32, pos: (u32, u32), neg: (u32, u32)) -> BuildConfig {
    BuildConfig {
        min_word_freq,
        accept_ratio_pos: Ratio { num: pos.0, den: pos.1 },
        accept_ratio_neg: Ratio { num: neg.0, den: neg.1 },
        normalization: NormalizationMode::Raw,
    }
}

#[test]
fn ratio_boundary_is_excluded() {
    // ratio exactly 0.9 with threshold 0.9: strict `>` required, so excluded
    let pos = BagOfWords::empty().add_words(s("solid"), 9);
    let neg = BagOfWords::empty().add_words(s("solid"), 1);
    let stop = WordSet::new();
    let config = raw_config(1, (9, 10), (9, 10));
    let dict = BinarySentimentDictionary::build(pos, neg, &stop, &config);
    assert_eq!(dict.lookup(&s("solid")), None);
}

#[test]
fn ratio_above_boundary_is_positive() {
    // ratio 0.91 with threshold 0.9: labeled positive
    let pos = BagOfWords::empty().add_words(s("solid"), 91);
    let neg = BagOfWords::empty().add_words(s("solid"), 9);
    let stop = WordSet::new();
    let config = raw_config(1, (9, 10), (9, 10));
    let dict = BinarySentimentDictionary::build(pos, neg, &stop, &config);
    assert_eq!(dict.lookup(&s("solid")), Some(true));
}

#[test]
fn stop_words_never_in_lexicon() {
    let pos = BagOfWords::empty().add_words(s("the"), 100).add_words(s("good"), 100);
    let neg = BagOfWords::empty().add_words(s("bad"), 100);
    let mut stop = WordSet::new();
    stop.insert(s("the"));
    let config = raw_config(1, (1, 2), (1, 2));
    let dict = BinarySentimentDictionary::build(pos, neg, &stop, &config);
    assert_eq!(dict.lookup(&s("the")), None);
    assert_eq!(dict.lookup(&s("good")), Some(true));
    assert_eq!(dict.lookup(&s("bad")), Some(false));
}

#[test]
fn short_words_never_in_lexicon() {
    let pos = BagOfWords::empty().add_words(s("x"), 100).add_words(s("good"), 10);
    let neg = BagOfWords::empty().add_words(s("y"), 100);
    let stop = WordSet::new();
    let config = raw_config(1, (1, 2), (1, 2));
    let dict = BinarySentimentDictionary::build(pos, neg, &stop, &config);
    assert_eq!(dict.lookup(&s("x")), None);
    assert_eq!(dict.lookup(&s("y")), None);
    assert_eq!(dict.lookup(&s("good")), Some(true));
}

#[test]
fn rare_words_never_in_lexicon() {
    let pos = BagOfWords::empty().add_words(s("scarce"), 4).add_words(s("common"), 5);
    let neg = BagOfWords::empty();
    let stop = WordSet::new();
    let config = raw_config(5, (1, 2), (1, 2));
    let dict = BinarySentimentDictionary::build(pos, neg, &stop, &config);
    assert_eq!(dict.lookup(&s("scarce")), None); // combined 4 < 5
    assert_eq!(dict.lookup(&s("common")), Some(true)); // combined 5 >= 5
}

#[test]
fn classify_unknown_words_is_negative() {
    let pos = BagOfWords::empty().add_words(s("good"), 10);
    let neg = BagOfWords::empty().add_words(s("bad"), 10);
    let stop = WordSet::new();
    let config = raw_config(1, (1, 2), (1, 2));
    let dict = BinarySentimentDictionary::build(pos, neg, &stop, &config);
    assert!(!dict.classify("mysterious unknown tokens"));
    assert!(!dict.classify(""));
}

#[test]
fn classify_tie_is_negative() {
    let pos = BagOfWords::empty().add_words(s("good"), 10);
    let neg = BagOfWords::empty().add_words(s("bad"), 10);
    let stop = WordSet::new();
    let config = raw_config(1, (1, 2), (1, 2));
    let dict = BinarySentimentDictionary::build(pos, neg, &stop, &config);
    assert!(!dict.classify("good bad"));
    assert!(dict.classify("good good bad"));
}

#[test]
fn end_to_end_small_corpus() {
    let pos_texts = vec![s("good great good")];
    let neg_texts = vec![s("bad bad terrible")];
    let pos = BagOfWords::from_texts(&pos_texts);
    let neg = BagOfWords::from_texts(&neg_texts);
    let stop = WordSet::new();
    let config = raw_config(1, (1, 2), (1, 2));
    let dict = BinarySentimentDictionary::build(pos, neg, &stop, &config);
    assert_eq!(dict.lookup(&s("good")), Some(true));
    assert_eq!(dict.lookup(&s("great")), Some(true));
    assert_eq!(dict.lookup(&s("bad")), Some(false));
    assert_eq!(dict.lookup(&s("terrible")), Some(false));
    assert!(!dict.classify("good bad bad"));
    assert!(dict.classify("good great bad"));
}

#[test]
fn export_rows_positives_first() {
    let pos = BagOfWords::empty().add_words(s("good"), 10).add_words(s("great"), 10);
    let neg = BagOfWords::empty().add_words(s("bad"), 10);
    let stop = WordSet::new();
    let config = raw_config(1, (1, 2), (1, 2));
    let dict = BinarySentimentDictionary::build(pos, neg, &stop, &config);
    let rows = dict.export_rows();
    assert_eq!(rows.len(), 3);
    // positive rows before negative rows
    let mut seen_negative = false;
    for (_, label) in rows.iter() {
        if !label {
            seen_negative = true;
        } else {
            assert!(!seen_negative);
        }
    }
    // every labeled word appears exactly once with its label
    let mut good: u32 = 0;
    let mut great: u32 = 0;
    let mut bad: u32 = 0;
    for (word, label) in rows.iter() {
        match word.as_str() {
            "good" => {
                assert!(*label);
                good += 1;
            }
            "great" => {
                assert!(*label);
                great += 1;
            }
            "bad" => {
                assert!(!*label);
                bad += 1;
            }
            other => panic!("unexpected row {}", other),
        }
    }
    assert_eq!((good, great, bad), (1, 1, 1));
}

#[test]
fn normalization_modes_differ() {
    // positive corpus 10 tokens, negative corpus 100 tokens; the shared word
    // has raw ratio 1/11 but normalized ratio exactly 1/2.
    let make_pos = || BagOfWords::empty().add_words(s("meh"), 1).add_words(s("good"), 9);
    let make_neg = || BagOfWords::empty().add_words(s("meh"), 10).add_words(s("bad"), 90);
    let stop = WordSet::new();
    let raw = raw_config(1, (1, 2), (1, 2));
    let dict_raw = BinarySentimentDictionary::build(make_pos(), make_neg(), &stop, &raw);
    assert_eq!(dict_raw.lookup(&s("meh")), Some(false));
    let pos = make_pos();
    let neg = make_neg();
    let normalized = BuildConfig {
        min_word_freq: 1,
        accept_ratio_pos: Ratio { num: 1, den: 2 },
        accept_ratio_neg: Ratio { num: 1, den: 2 },
        normalization: NormalizationMode::FrequencyNormalized,
    };
    let dict_norm = BinarySentimentDictionary::build(pos, neg, &stop, &normalized);
    assert_eq!(dict_norm.lookup(&s("meh")), None);
    assert_eq!(dict_norm.lookup(&s("good")), Some(true));
    assert_eq!(dict_norm.lookup(&s("bad")), Some(false));
}

#[test]
fn min_word_freq_zero_accepts_all_present() {
    let pos = BagOfWords::empty().add_words(s("good"), 1);
    let neg = BagOfWords::empty();
    let stop = WordSet::new();
    let config = raw_config(0, (1, 2), (1, 2));
    let dict = BinarySentimentDictionary::build(pos, neg, &stop, &config);
    assert_eq!(dict.lookup(&s("good")), Some(true));
    assert_eq!(dict.lookup(&s("absent")), None);
}

#[test]
fn overlapping_inputs_single_label() {
    // a word frequent in both classes gets at most one label
    let pos = BagOfWords::empty().add_words(s("meh"), 60).add_words(s("good"), 40);
    let neg = BagOfWords::empty().add_words(s("meh"), 40).add_words(s("bad"), 60);
    let stop = WordSet::new();
    let config = raw_config(1, (1, 2), (1, 2));
    let dict = BinarySentimentDictionary::build(pos, neg, &stop, &config);
    let rows = dict.export_rows();
    for (i, (wi, _)) in rows.iter().enumerate() {
        for (wj, _) in rows.iter().skip(i + 1) {
            assert_ne!(wi, wj);
        }
    }
    assert_eq!(dict.lookup(&s("meh")), Some(true)); // ratio 0.6 > 0.5
}
