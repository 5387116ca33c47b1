use sentiment_analysis::bag_of_words::{to_words, BagOfWords, WordSet};

fn s(x: &str) -> String {
    String::from(x)
}

#[test]
fn empty_get_zero() {
    let bow = BagOfWords::empty();
    assert_eq!(bow.get(&s("anything")), 0);
    assert_eq!(bow.get(&s("")), 0);
    assert_eq!(bow.get(&s("word")), 0);
}

#[test]
fn add_and_get() {
    let bow = BagOfWords::empty().add_word(s("good")).add_word(s("good")).add_word(s("bad"));
    assert_eq!(bow.get(&s("good")), 2);
    assert_eq!(bow.get(&s("bad")), 1);
    assert_eq!(bow.get(&s("absent")), 0);
}

#[test]
fn add_words_amount() {
    let bow = BagOfWords::empty().add_words(s("word"), 5).add_words(s("word"), 7);
    assert_eq!(bow.get(&s("word")), 12);
}

#[test]
fn merge_counts_are_sums() {
    let a = BagOfWords::empty().add_words(s("good"), 3).add_words(s("bad"), 1);
    let b = BagOfWords::empty().add_words(s("good"), 2).add_words(s("ugly"), 4);
    let ab = a.merge(&b);
    assert_eq!(ab.get(&s("good")), 5);
    assert_eq!(ab.get(&s("bad")), 1);
    assert_eq!(ab.get(&s("ugly")), 4);
    assert_eq!(ab.get(&s("absent")), 0);
    // inputs unchanged
    assert_eq!(a.get(&s("good")), 3);
    assert_eq!(b.get(&s("good")), 2);
}

#[test]
fn merge_commutative_counts() {
    let a = BagOfWords::empty().add_words(s("x"), 2).add_words(s("y"), 1);
    let b = BagOfWords::empty().add_words(s("y"), 5).add_words(s("z"), 3);
    let ab = a.merge(&b);
    let ba = b.merge(&a);
    for w in ["x", "y", "z", "w"] {
        assert_eq!(ab.get(&s(w)), ba.get(&s(w)));
    }
}

#[test]
fn merge_associative_counts() {
    let a = BagOfWords::empty().add_words(s("x"), 2);
    let b = BagOfWords::empty().add_words(s("x"), 1).add_words(s("y"), 4);
    let c = BagOfWords::empty().add_words(s("y"), 7).add_words(s("z"), 1);
    let ab_c = a.merge(&b).merge(&c);
    let a_bc = a.merge(&b.merge(&c));
    for w in ["x", "y", "z", "q"] {
        assert_eq!(ab_c.get(&s(w)), a_bc.get(&s(w)));
    }
}

#[test]
fn remove_words_deletes() {
    let mut bow = BagOfWords::empty().add_words(s("keep"), 2).add_words(s("drop"), 9);
    let mut set = WordSet::new();
    set.insert(s("drop"));
    bow.remove_words(&set);
    assert_eq!(bow.get(&s("keep")), 2);
    assert_eq!(bow.get(&s("drop")), 0);
}

#[test]
fn remove_words_idempotent() {
    let mut once = BagOfWords::empty().add_words(s("a"), 1).add_words(s("bb"), 2).add_words(
        s("cc"),
        3,
    );
    let mut twice = BagOfWords::empty().add_words(s("a"), 1).add_words(s("bb"), 2).add_words(
        s("cc"),
        3,
    );
    let mut set = WordSet::new();
    set.insert(s("bb"));
    set.insert(s("zz"));
    once.remove_words(&set);
    twice.remove_words(&set);
    twice.remove_words(&set);
    for w in ["a", "bb", "cc", "zz"] {
        assert_eq!(once.get(&s(w)), twice.get(&s(w)));
    }
}

#[test]
fn zipf_cut_filters() {
    let mut bow = BagOfWords::empty()
        .add_words(s("frequent"), 10)
        .add_words(s("rare"), 1)
        .add_words(s("x"), 50)
        .add_words(s("stopper"), 40);
    let mut stop = WordSet::new();
    stop.insert(s("stopper"));
    bow.zipf_cut(2, &stop);
    assert_eq!(bow.get(&s("frequent")), 10);
    assert_eq!(bow.get(&s("rare")), 0); // count not strictly above 2
    assert_eq!(bow.get(&s("x")), 0); // too short
    assert_eq!(bow.get(&s("stopper")), 0); // stop word
}

#[test]
fn zipf_cut_strict_threshold() {
    let mut bow = BagOfWords::empty().add_words(s("edge"), 2).add_words(s("over"), 3);
    let stop = WordSet::new();
    bow.zipf_cut(2, &stop);
    assert_eq!(bow.get(&s("edge")), 0);
    assert_eq!(bow.get(&s("over")), 3);
}

#[test]
fn to_words_splits_and_lowercases() {
    let words = to_words("Good, GREAT!! 123 bad");
    let views: Vec<&str> = words.iter().map(|w| w.as_str()).collect();
    assert_eq!(views, vec!["good", "great", "bad"]);
}

#[test]
fn to_words_empty_and_short() {
    assert!(to_words("").is_empty());
    assert!(to_words(" 42 ,;").is_empty());
    let words = to_words("a b");
    let views: Vec<&str> = words.iter().map(|w| w.as_str()).collect();
    assert_eq!(views, vec!["a", "b"]);
}

#[test]
fn from_texts_counts_tokens() {
    let texts = vec![s("good great good"), s("Bad good!")];
    let bow = BagOfWords::from_texts(&texts);
    assert_eq!(bow.get(&s("good")), 3);
    assert_eq!(bow.get(&s("great")), 1);
    assert_eq!(bow.get(&s("bad")), 1);
    assert_eq!(bow.get(&s("absent")), 0);
}

#[test]
fn word_set_membership() {
    let mut set = WordSet::new();
    assert!(!set.contains(&s("the")));
    set.insert(s("the"));
    set.insert(s("an"));
    assert!(set.contains(&s("the")));
    assert!(set.contains(&s("an")));
    assert!(!set.contains(&s("word")));
}

#[test]
fn not_alpha_splits_words() {
    assert!(sentiment_analysis::bag_of_words::not_alpha(' '));
    assert!(sentiment_analysis::bag_of_words::not_alpha('7'));
    assert!(sentiment_analysis::bag_of_words::not_alpha('!'));
    assert!(!sentiment_analysis::bag_of_words::not_alpha('a'));
    assert!(!sentiment_analysis::bag_of_words::not_alpha('Z'));
}
