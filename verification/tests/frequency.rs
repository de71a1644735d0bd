use std::collections::BTreeMap;

use word_count::dictionary::Dictionary;
use word_count::frequency::{
    count_line, create_dictionary, seed_line, update_dictionary, CountOverflow,
};

fn lines(texts: &[&str]) -> Vec<String> {
    texts.iter().map(|text| text.to_string()).collect()
}

fn entry(word: &str, count: u32) -> (String, u32) {
    (word.to_string(), count)
}

#[test]
fn seed_line_adds_the_sanitized_word_with_its_count() {
    let mut dictionary = Dictionary::new();
    assert!(seed_line(&mut dictionary, &"Apple, 3".to_string()));
    assert_eq!(dictionary.get("apple"), Some(3));
    assert_eq!(dictionary.get("Apple,"), None);
}

#[test]
fn seed_line_keeps_the_count_of_an_earlier_line() {
    let mut dictionary = Dictionary::new();
    assert!(seed_line(&mut dictionary, &"apple 3".to_string()));
    assert!(seed_line(&mut dictionary, &"APPLE! 9".to_string()));
    assert_eq!(dictionary.get("apple"), Some(3));
}

#[test]
fn seed_line_refuses_a_line_that_gives_no_entry() {
    let mut dictionary = Dictionary::new();
    assert!(seed_line(&mut dictionary, &"apple 3".to_string()));
    assert!(!seed_line(&mut dictionary, &"".to_string()));
    assert!(!seed_line(&mut dictionary, &"pear".to_string()));
    assert!(!seed_line(&mut dictionary, &"pear x".to_string()));
    assert!(!seed_line(&mut dictionary, &"pear  1".to_string()));
    assert_eq!(dictionary.get("pear"), None);
    assert_eq!(dictionary.nonzero_entries(), vec![entry("apple", 3)]);
}

#[test]
fn count_line_counts_the_sanitized_first_word() {
    let mut dictionary = Dictionary::new();
    assert!(count_line(&mut dictionary, &"Hello, world!".to_string()));
    assert!(count_line(&mut dictionary, &"hello again".to_string()));
    assert!(count_line(&mut dictionary, &"HELLO".to_string()));
    assert_eq!(dictionary.get("hello"), Some(3));
    assert_eq!(dictionary.get("world"), None);
    assert_eq!(dictionary.get("again"), None);
}

#[test]
fn count_line_counts_an_empty_line_under_the_empty_word() {
    let mut dictionary = Dictionary::new();
    assert!(count_line(&mut dictionary, &"".to_string()));
    assert!(count_line(&mut dictionary, &" \t ".to_string()));
    assert!(count_line(&mut dictionary, &"?! x".to_string()));
    assert_eq!(dictionary.get(""), Some(3));
    assert_eq!(dictionary.get("x"), None);
}

#[test]
fn count_line_skips_leading_whitespace() {
    let mut dictionary = Dictionary::new();
    assert!(count_line(&mut dictionary, &" indented".to_string()));
    assert!(count_line(&mut dictionary, &"\t\tIndented, twice".to_string()));
    assert_eq!(dictionary.get("indented"), Some(2));
    assert_eq!(dictionary.get(""), None);
}

#[test]
fn count_line_ends_the_word_at_a_tab() {
    let mut dictionary = Dictionary::new();
    assert!(count_line(&mut dictionary, &"hello\tworld".to_string()));
    assert!(count_line(&mut dictionary, &"Hello!\u{a0}again".to_string()));
    assert_eq!(dictionary.get("hello"), Some(2));
    assert_eq!(dictionary.get("hello\tworld"), None);
    assert_eq!(dictionary.get("world"), None);
}

#[test]
fn count_line_refuses_to_pass_the_largest_count() {
    let mut dictionary = Dictionary::new();
    assert!(seed_line(&mut dictionary, &"full 4294967295".to_string()));
    assert!(!count_line(&mut dictionary, &"Full. stop".to_string()));
    assert_eq!(dictionary.get("full"), Some(u32::MAX));
}

#[test]
fn create_dictionary_reads_every_line_of_a_good_file() {
    let dictionary = create_dictionary(&lines(&["pear 2", "apple 0", "Zebra 7"]));
    assert_eq!(dictionary.get("pear"), Some(2));
    assert_eq!(dictionary.get("apple"), Some(0));
    assert_eq!(dictionary.get("zebra"), Some(7));
    assert_eq!(dictionary.nonzero_entries(), vec![entry("pear", 2), entry("zebra", 7)]);
}

#[test]
fn create_dictionary_of_no_lines_is_empty() {
    let dictionary = create_dictionary(&lines(&[]));
    assert_eq!(dictionary.nonzero_entries(), vec![]);
    assert_eq!(dictionary.get(""), None);
}

#[test]
fn create_dictionary_stops_at_the_first_line_that_gives_no_entry() {
    let dictionary =
        create_dictionary(&lines(&["apple 3", "Banana, 1", "cherry x", "date 4", "apple 9"]));
    assert_eq!(dictionary.get("apple"), Some(3));
    assert_eq!(dictionary.get("banana"), Some(1));
    assert_eq!(dictionary.get("cherry"), None);
    assert_eq!(dictionary.get("date"), None);
}

#[test]
fn create_dictionary_stops_at_an_empty_line() {
    let dictionary = create_dictionary(&lines(&["apple 3", "", "pear 4"]));
    assert_eq!(dictionary.get("apple"), Some(3));
    assert_eq!(dictionary.get("pear"), None);
}

#[test]
fn create_dictionary_reads_nothing_after_a_bad_first_line() {
    let dictionary = create_dictionary(&lines(&["apple", "pear 4"]));
    assert_eq!(dictionary.get("apple"), None);
    assert_eq!(dictionary.get("pear"), None);
    assert_eq!(dictionary.nonzero_entries(), vec![]);
}

#[test]
fn create_dictionary_gives_a_word_the_count_of_its_first_line() {
    let dictionary = create_dictionary(&lines(&["Apple 3", "apple 9", "APPLE. 1", "a,p.p!l?e 0"]));
    assert_eq!(dictionary.get("apple"), Some(3));
    assert_eq!(dictionary.nonzero_entries(), vec![entry("apple", 3)]);
}

#[test]
fn update_dictionary_counts_the_first_word_of_each_line() {
    let mut dictionary = create_dictionary(&lines(&["apple 0", "pear 10", "kiwi 0"]));
    let text = lines(&["Apple pie", "pear", "APPLE!", "fig tree", "apple, apple", "Pear."]);
    assert_eq!(update_dictionary(&mut dictionary, &text), Ok(()));
    assert_eq!(
        dictionary.nonzero_entries(),
        vec![entry("apple", 3), entry("fig", 1), entry("pear", 12)]
    );
    assert_eq!(dictionary.get("kiwi"), Some(0));
    assert_eq!(dictionary.get("pie"), None);
}

#[test]
fn update_dictionary_with_no_lines_changes_nothing() {
    let mut dictionary = create_dictionary(&lines(&["apple 2", "pear 0"]));
    assert_eq!(update_dictionary(&mut dictionary, &lines(&[])), Ok(()));
    assert_eq!(dictionary.get("apple"), Some(2));
    assert_eq!(dictionary.get("pear"), Some(0));
    assert_eq!(dictionary.nonzero_entries(), vec![entry("apple", 2)]);
}

#[test]
fn update_dictionary_counts_empty_lines_under_the_empty_word() {
    let mut dictionary = Dictionary::new();
    let text = lines(&["", "word", "  ", " x", "..."]);
    assert_eq!(update_dictionary(&mut dictionary, &text), Ok(()));
    assert_eq!(dictionary.nonzero_entries(), vec![entry("", 3), entry("word", 1), entry("x", 1)]);
}

#[test]
fn update_dictionary_reaches_the_largest_count() {
    let mut dictionary = create_dictionary(&lines(&["x 4294967293"]));
    assert_eq!(update_dictionary(&mut dictionary, &lines(&["x", "X", "y"])), Ok(()));
    assert_eq!(dictionary.get("x"), Some(u32::MAX));
    assert_eq!(dictionary.get("y"), Some(1));
}

#[test]
fn update_dictionary_stops_where_a_count_would_pass_the_largest() {
    let mut dictionary = create_dictionary(&lines(&["x 4294967294"]));
    let text = lines(&["a", "x", "b", "X!", "c", "x"]);
    assert_eq!(update_dictionary(&mut dictionary, &text), Err(CountOverflow { line: 3 }));
    assert_eq!(dictionary.get("a"), Some(1));
    assert_eq!(dictionary.get("b"), Some(1));
    assert_eq!(dictionary.get("c"), None);
    assert_eq!(dictionary.get("x"), Some(u32::MAX));
}

#[test]
fn update_dictionary_names_the_first_line_when_it_cannot_be_counted() {
    let mut dictionary = create_dictionary(&lines(&["x 4294967295"]));
    assert_eq!(
        update_dictionary(&mut dictionary, &lines(&["x", "y"])),
        Err(CountOverflow { line: 0 })
    );
    assert_eq!(dictionary.get("x"), Some(u32::MAX));
    assert_eq!(dictionary.get("y"), None);
}

#[test]
fn update_dictionary_twice_counts_both_texts() {
    let seed = lines(&["apple 1", "pear 0"]);
    let first = lines(&["apple", "fig", "Pear"]);
    let second = lines(&["fig.", "apple", "", "plum"]);
    let mut in_turn = create_dictionary(&seed);
    assert_eq!(update_dictionary(&mut in_turn, &first), Ok(()));
    assert_eq!(update_dictionary(&mut in_turn, &second), Ok(()));
    let mut at_once = create_dictionary(&seed);
    let mut both = first.clone();
    both.extend(second.iter().cloned());
    assert_eq!(update_dictionary(&mut at_once, &both), Ok(()));
    assert_eq!(in_turn.nonzero_entries(), at_once.nonzero_entries());
    assert_eq!(
        in_turn.nonzero_entries(),
        vec![entry("", 1), entry("apple", 3), entry("fig", 2), entry("pear", 1), entry("plum", 1)]
    );
}

#[test]
fn update_dictionary_never_lowers_a_count() {
    let seed = lines(&["a 5", "b 0", "c 4294967295"]);
    let mut dictionary = create_dictionary(&seed);
    assert_eq!(update_dictionary(&mut dictionary, &lines(&["a", "d", "a", "B"])), Ok(()));
    assert_eq!(dictionary.get("a"), Some(7));
    assert_eq!(dictionary.get("b"), Some(1));
    assert_eq!(dictionary.get("c"), Some(u32::MAX));
    assert_eq!(dictionary.get("d"), Some(1));
}

#[test]
fn stepping_through_the_lines_gives_what_the_whole_run_gives() {
    let seed = lines(&["one 1", "Two, 2", "three", "four 4"]);
    let text = lines(&["one fish", "TWO fish", "red fish", "", "Two."]);
    let mut stepped = Dictionary::new();
    for line in seed.iter() {
        if !seed_line(&mut stepped, line) {
            break;
        }
    }
    for line in text.iter() {
        assert!(count_line(&mut stepped, line));
    }
    let mut whole = create_dictionary(&seed);
    assert_eq!(update_dictionary(&mut whole, &text), Ok(()));
    assert_eq!(stepped.nonzero_entries(), whole.nonzero_entries());
    assert_eq!(
        whole.nonzero_entries(),
        vec![entry("", 1), entry("one", 2), entry("red", 1), entry("two", 4)]
    );
}

#[test]
fn the_counts_agree_with_an_ordered_map() {
    let seed = lines(&[
        "the 0", "The 5", "a 1", "fox, 2", "DOG. 0", "dog 3", "\u{c9}t\u{e9} 4", "end", "late 9",
    ]);
    let text = lines(&[
        "The quick brown fox", "a lazy dog", "Fox! jumps", "", "dog?", "\u{c9}T\u{c9} indien",
        "the end", "END.", " leading space", "late", "Dog, dog, dog", "x", "Fox\tagain", "\t",
    ]);
    let mut expected: BTreeMap<String, u32> = BTreeMap::new();
    for line in seed.iter() {
        let fields: Vec<&str> = line.split(' ').collect();
        if line.is_empty() || fields.len() < 2 {
            break;
        }
        let count = match fields[1].parse::<u32>() {
            Ok(count) => count,
            Err(_) => break,
        };
        let word = fields[0].replace(&[',', '.', '!', '?'][..], "").to_lowercase();
        expected.entry(word).or_insert(count);
    }
    for line in text.iter() {
        let first = line.split_whitespace().next().unwrap_or("");
        let word = first.replace(&[',', '.', '!', '?'][..], "").to_lowercase();
        *expected.entry(word).or_insert(0) += 1;
    }
    let mut dictionary = create_dictionary(&seed);
    assert_eq!(update_dictionary(&mut dictionary, &text), Ok(()));
    for (word, count) in expected.iter() {
        assert_eq!(dictionary.get(word), Some(*count), "{:?}", word);
    }
    let listed: Vec<(String, u32)> =
        expected.into_iter().filter(|(_, count)| *count != 0).collect();
    assert_eq!(dictionary.nonzero_entries(), listed);
    assert_eq!(
        dictionary.nonzero_entries(),
        vec![
            entry("", 2),
            entry("a", 2),
            entry("dog", 2),
            entry("end", 1),
            entry("fox", 4),
            entry("late", 1),
            entry("leading", 1),
            entry("the", 2),
            entry("x", 1),
            entry("\u{e9}t\u{e9}", 5),
        ]
    );
}
