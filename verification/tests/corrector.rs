use spelling_corrector::{edits1, get_words, train, SimpleSpellChecker};

#[test]
fn check_words() {
    let input = "This is a test. Don't be fooled!".to_lowercase();
    let output = vec!["this", "is", "a", "test", "don", "t", "be", "fooled"];
    let words = get_words(&input);
    assert_eq!(words.len(), output.len());
    assert_eq!(words, output);
}

#[test]
fn check_counting() {
    let input = vec![
        "foo".to_string(),
        "bar".to_string(),
        "foo".to_string(),
        "foo".to_string(),
        "bar".to_string(),
    ];
    let counter = train(&input);
    assert_eq!(counter.len(), 2);
    assert_eq!(counter.get("foo"), Some(4));
    assert_eq!(counter.get("bar"), Some(3));
    assert_eq!(counter.get("baz"), None);
}

#[test]
fn check_edits1() {
    let input = "something";
    let results = edits1(input);
    assert!(results.contains("somethin"));
    assert!(results.contains("omething"));
    assert!(results.contains("somehting"));
    assert!(results.contains("bsomething"));
    assert!(results.contains("somethingb"));
    assert!(results.contains("sometring"));
    assert_eq!(results.len(), 494);
}

#[test]
fn separators_split_words() {
    let words = get_words("abc42def  GHi");
    assert_eq!(words, vec!["abc", "def", "i"]);
}

#[test]
fn empty_corpus_yields_no_words() {
    assert!(get_words("").is_empty());
    let model = train(&Vec::new());
    assert_eq!(model.len(), 0);
}

#[test]
fn edits1_of_empty_word_is_all_single_letters() {
    let results = edits1("");
    assert_eq!(results.len(), 26);
    assert!(results.contains("a"));
    assert!(results.contains("q"));
    assert!(results.contains("z"));
}

#[test]
fn word_is_in_its_own_edit_set() {
    let results = edits1("word");
    assert!(results.contains("word"));
}

#[test]
fn edit_lengths_stay_within_one() {
    let results = edits1("word");
    let mut i: usize = 0;
    while i < results.len() {
        let len = results.get(i).len();
        assert!(3 <= len && len <= 5);
        i += 1;
    }
}

#[test]
fn known_word_is_returned_unchanged() {
    let checker = SimpleSpellChecker::new("alpha beta beta gamma");
    assert_eq!(checker.correct("beta"), "beta");
}

#[test]
fn known_word_beats_more_frequent_neighbors() {
    let checker = SimpleSpellChecker::new("cat cat cat bat");
    assert_eq!(checker.correct("bat"), "bat");
}

#[test]
fn corrects_close_misspellings() {
    let corpus = "the correct spelling of a word is the spelling that the dictionary gives";
    let checker = SimpleSpellChecker::new(corpus);
    assert_eq!(checker.correct("speling"), "spelling");
    assert_eq!(checker.correct("thew"), "the");
}

#[test]
fn ranking_prefers_the_most_frequent_candidate() {
    let checker = SimpleSpellChecker::new("bat bat cat cat cat");
    assert_eq!(checker.correct("xat"), "cat");
}

#[test]
fn corrects_at_edit_distance_two() {
    let checker = SimpleSpellChecker::new("dog dog cat");
    assert_eq!(checker.correct("dgoo"), "dog");
}

#[test]
fn distant_word_falls_back_to_itself() {
    let checker = SimpleSpellChecker::new("dog cat");
    assert_eq!(checker.correct("qqqq"), "qqqq");
}
