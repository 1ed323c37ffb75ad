use hypertrie::error::TrieError;
use hypertrie::trie::{Node, Trie};

fn dictionary(size: usize, num_hashes: usize) -> Trie {
    match Trie::new(size, num_hashes) {
        Ok(t) => t,
        Err(e) => panic!("construction refused: {:?}", e),
    }
}

fn sorted(mut words: Vec<String>) -> Vec<String> {
    words.sort();
    words
}

fn strings(words: &[&str]) -> Vec<String> {
    words.iter().map(|w| w.to_string()).collect()
}

#[test]
fn insert_then_contains_folds_case() {
    let mut t = dictionary(1024, 4);
    assert_eq!(t.insert("Hello"), Ok(()));
    assert!(t.contains("hello"));
    assert!(t.contains("HELLO"));
    assert!(t.contains("Hello"));
    assert!(!t.contains("world"));
}

#[test]
fn prefix_query_returns_all_words_below() {
    let mut t = dictionary(1024, 4);
    for w in ["cat", "car", "cart"] {
        assert_eq!(t.insert(w), Ok(()));
    }
    let found = sorted(t.words_with_prefix("ca"));
    assert_eq!(found, strings(&["car", "cart", "cat"]));
}

#[test]
fn prefix_query_is_depth_first_in_slot_order() {
    let mut t = dictionary(1024, 4);
    for w in ["cat", "cart", "car", "b1", "ba", "b", "b z"] {
        assert_eq!(t.insert(w), Ok(()));
    }
    assert_eq!(t.words_with_prefix("ca"), strings(&["car", "cart", "cat"]));
    assert_eq!(t.words_with_prefix("b"), strings(&["b", "ba", "b1", "b z"]));
    assert_eq!(
        t.words_with_prefix(""),
        strings(&["b", "ba", "b1", "b z", "car", "cart", "cat"])
    );
}

#[test]
fn prefix_query_folds_the_prefix() {
    let mut t = dictionary(64, 2);
    assert_eq!(t.insert("Tree"), Ok(()));
    assert_eq!(t.insert("TRIE"), Ok(()));
    assert_eq!(t.words_with_prefix("TR"), strings(&["tree", "trie"]));
    assert_eq!(t.words_with_prefix("Tri"), strings(&["trie"]));
}

#[test]
fn prefix_that_is_a_word_is_listed_first() {
    let mut t = dictionary(64, 2);
    assert_eq!(t.insert("car"), Ok(()));
    assert_eq!(t.insert("cart"), Ok(()));
    assert_eq!(t.words_with_prefix("car"), strings(&["car", "cart"]));
    assert_eq!(t.words_with_prefix("cart"), strings(&["cart"]));
    assert_eq!(t.words_with_prefix("carts"), Vec::<String>::new());
}

#[test]
fn prefix_with_no_node_gives_nothing() {
    let mut t = dictionary(64, 2);
    assert_eq!(t.insert("cat"), Ok(()));
    assert!(t.words_with_prefix("dog").is_empty());
    assert!(t.words_with_prefix("cab").is_empty());
}

#[test]
fn prefix_outside_alphabet_gives_nothing() {
    let mut t = dictionary(64, 2);
    assert_eq!(t.insert("cat"), Ok(()));
    assert!(t.words_with_prefix("c\u{e9}").is_empty());
    assert!(t.words_with_prefix("~").is_empty());
    assert!(t.words_with_prefix("\u{2122}").is_empty());
}

#[test]
fn empty_dictionary_lists_nothing() {
    let t = dictionary(64, 2);
    assert!(t.words_with_prefix("").is_empty());
    assert!(!t.contains(""));
    assert!(!t.contains("a"));
}

#[test]
fn empty_word_can_be_stored() {
    let mut t = dictionary(64, 2);
    assert_eq!(t.insert(""), Ok(()));
    assert!(t.contains(""));
    assert_eq!(t.words_with_prefix(""), strings(&[""]));
    assert!(!t.contains("a"));
}

#[test]
fn inserting_twice_lists_once() {
    let mut t = dictionary(1024, 4);
    assert_eq!(t.insert("test"), Ok(()));
    let once = t.words_with_prefix("te");
    let dump_once = t.print();
    assert_eq!(t.insert("test"), Ok(()));
    assert_eq!(t.words_with_prefix("te"), strings(&["test"]));
    assert_eq!(t.words_with_prefix("te"), once);
    assert_eq!(t.print(), dump_once);
    assert!(t.contains("test"));
    assert_eq!(t.insert("TEST"), Ok(()));
    assert_eq!(t.words_with_prefix(""), strings(&["test"]));
}

#[test]
fn word_outside_alphabet_is_refused_whole() {
    let mut t = dictionary(1024, 4);
    let before = t.print();
    assert_eq!(t.insert("h\u{e9}llo"), Err(TrieError::InvalidCharacter));
    assert!(!t.contains("h\u{e9}llo"));
    assert!(!t.contains("h"));
    assert!(t.words_with_prefix("").is_empty());
    assert!(t.words_with_prefix("h").is_empty());
    assert_eq!(t.print(), before);
}

#[test]
fn refused_word_leaves_earlier_words() {
    let mut t = dictionary(1024, 4);
    assert_eq!(t.insert("help"), Ok(()));
    let before = t.print();
    assert_eq!(t.insert("hello~"), Err(TrieError::InvalidCharacter));
    assert_eq!(t.insert("hel\u{0}"), Err(TrieError::InvalidCharacter));
    assert_eq!(t.insert("he\tllo"), Err(TrieError::InvalidCharacter));
    assert_eq!(t.insert("a=b"), Err(TrieError::InvalidCharacter));
    assert_eq!(t.insert("`"), Err(TrieError::InvalidCharacter));
    assert_eq!(t.print(), before);
    assert_eq!(t.words_with_prefix(""), strings(&["help"]));
    assert!(!t.contains("hello"));
    assert!(!t.contains("hel"));
}

#[test]
fn bulk_insert_reports_each_entry() {
    let mut t = dictionary(1024, 4);
    let outcomes = t.bulk_insert(&["a", "b", "bad#char\u{2122}"]);
    assert_eq!(
        outcomes,
        vec![Ok(()), Ok(()), Err(TrieError::InvalidCharacter)]
    );
    assert!(t.contains("a"));
    assert!(t.contains("b"));
    assert!(!t.contains("bad#char\u{2122}"));
    assert!(!t.contains("bad#char"));
    assert_eq!(t.words_with_prefix(""), strings(&["a", "b"]));
}

#[test]
fn bulk_insert_goes_on_after_a_refusal() {
    let mut t = dictionary(256, 3);
    let outcomes = t.bulk_insert(&["\u{e9}", "One", "tw\u{f6}", "two", "one"]);
    assert_eq!(
        outcomes,
        vec![
            Err(TrieError::InvalidCharacter),
            Ok(()),
            Err(TrieError::InvalidCharacter),
            Ok(()),
            Ok(()),
        ]
    );
    assert_eq!(t.words_with_prefix(""), strings(&["one", "two"]));
}

#[test]
fn bulk_insert_of_nothing_changes_nothing() {
    let mut t = dictionary(256, 3);
    assert_eq!(t.insert("x"), Ok(()));
    let outcomes = t.bulk_insert(&[]);
    assert!(outcomes.is_empty());
    assert_eq!(t.words_with_prefix(""), strings(&["x"]));
}

#[test]
fn bulk_insert_equals_single_inserts() {
    let words = ["delta", "Alpha", "no\u{a0}space", "beta", "alpha", "be"];
    let mut one = dictionary(128, 3);
    let mut other = dictionary(128, 3);
    let outcomes = one.bulk_insert(&words);
    for (i, w) in words.iter().enumerate() {
        assert_eq!(other.insert(w), outcomes[i]);
    }
    assert_eq!(one.words_with_prefix(""), other.words_with_prefix(""));
    assert_eq!(one.print(), other.print());
    assert_eq!(
        one.words_with_prefix(""),
        strings(&["alpha", "be", "beta", "delta"])
    );
}

#[test]
fn zero_parameters_are_refused() {
    assert!(matches!(Trie::new(0, 4), Err(TrieError::InvalidConfiguration)));
    assert!(matches!(Trie::new(1024, 0), Err(TrieError::InvalidConfiguration)));
    assert!(matches!(Trie::new(0, 0), Err(TrieError::InvalidConfiguration)));
    assert!(Trie::new(1, 1).is_ok());
}

#[test]
fn filter_false_positive_is_not_visible() {
    // One bit and one hash: after the first insertion the filter answers
    // "possibly present" for every text.
    let mut t = dictionary(1, 1);
    assert_eq!(t.insert("present"), Ok(()));
    assert!(t.contains("present"));
    assert!(!t.contains("absent"));
    assert!(!t.contains("presen"));
    assert!(!t.contains("presents"));
    assert!(!t.contains(""));
}

#[test]
fn every_inserted_word_is_found_with_a_small_filter() {
    let mut t = dictionary(3, 2);
    let words = ["one", "two", "three", "four", "five", "six", "seven"];
    for w in words {
        assert_eq!(t.insert(w), Ok(()));
    }
    for w in words {
        assert!(t.contains(w));
    }
    for w in ["eight", "on", "tw", "sevens", "fiv"] {
        assert!(!t.contains(w));
    }
}

#[test]
fn punctuation_digits_and_space_are_stored() {
    let mut t = dictionary(512, 3);
    let word = "a1 .,;:!?\"'()-_[]{}@#$%^&*+/\\|<>";
    assert_eq!(t.insert(word), Ok(()));
    assert!(t.contains(word));
    assert_eq!(t.words_with_prefix("a1 "), strings(&[word]));
}

#[test]
fn dump_of_empty_dictionary_is_empty() {
    let t = dictionary(8, 1);
    assert_eq!(t.print(), "");
}

#[test]
fn dump_indents_by_depth() {
    let mut t = dictionary(8, 1);
    assert_eq!(t.insert("ab"), Ok(()));
    assert_eq!(t.insert("a"), Ok(()));
    assert_eq!(t.insert("c"), Ok(()));
    assert_eq!(t.insert("aa"), Ok(()));
    let expected = "  'a' (end_of_word: true)\n    'a' (end_of_word: true)\n    'b' (end_of_word: true)\n  'c' (end_of_word: true)\n";
    assert_eq!(t.print(), expected);
}

#[test]
fn dump_marks_inner_nodes_as_not_ending() {
    let mut t = dictionary(8, 1);
    assert_eq!(t.insert("Hi!"), Ok(()));
    let expected = "  'h' (end_of_word: false)\n    'i' (end_of_word: false)\n      '!' (end_of_word: true)\n";
    assert_eq!(t.print(), expected);
}

#[test]
fn node_can_be_made_for_any_letter() {
    let _root = Node::new('\0');
    let _leaf = Node::new('z');
}
