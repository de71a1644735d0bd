use word_count::dictionary::Dictionary;
use word_count::frequency::{create_dictionary, update_dictionary};
use word_count::number::{append_count, parse_count};
use word_count::report::{report, report_line};

fn count_text(count: u32) -> String {
    let mut text = String::new();
    append_count(&mut text, count);
    text
}

fn lines(texts: &[&str]) -> Vec<String> {
    texts.iter().map(|text| text.to_string()).collect()
}

#[test]
fn append_count_writes_decimal_digits() {
    assert_eq!(count_text(0), "0");
    assert_eq!(count_text(7), "7");
    assert_eq!(count_text(9), "9");
    assert_eq!(count_text(10), "10");
    assert_eq!(count_text(42), "42");
    assert_eq!(count_text(100), "100");
    assert_eq!(count_text(1234567890), "1234567890");
    assert_eq!(count_text(u32::MAX), "4294967295");
}

#[test]
fn append_count_agrees_with_formatting() {
    for count in [0u32, 1, 5, 9, 10, 11, 99, 100, 101, 999, 1000, 65535, 65536, 999999999, 1000000000, 4294967294, 4294967295] {
        assert_eq!(count_text(count), format!("{}", count));
    }
}

#[test]
fn append_count_is_read_back_by_parse_count() {
    for count in [0u32, 1, 9, 10, 12345, 4000000000, u32::MAX] {
        assert_eq!(parse_count(&count_text(count)), Some(count));
    }
}

#[test]
fn append_count_keeps_what_stands_before() {
    let mut text = "n=".to_string();
    append_count(&mut text, 305);
    assert_eq!(text, "n=305");
    append_count(&mut text, 0);
    assert_eq!(text, "n=3050");
}

#[test]
fn report_line_joins_word_and_count() {
    assert_eq!(report_line("apple", 3), "apple: 3");
    assert_eq!(report_line("", 12), ": 12");
    assert_eq!(report_line("\u{e9}t\u{e9}", 4294967295), "\u{e9}t\u{e9}: 4294967295");
    assert_eq!(report_line("a b", 0), "a b: 0");
}

#[test]
fn report_line_agrees_with_formatting() {
    for (word, count) in [("the", 2u32), ("", 1), ("x:y", 10), ("\u{1f600}", 4000000000)] {
        assert_eq!(report_line(word, count), format!("{}: {}", word, count));
    }
}

#[test]
fn report_of_an_empty_dictionary_has_no_line() {
    let dictionary = Dictionary::new();
    assert_eq!(report(&dictionary), Vec::<String>::new());
}

#[test]
fn report_lists_the_counted_words_in_word_order() {
    let mut dictionary = create_dictionary(&lines(&["pear 2", "Apple, 0", "kiwi 0", "fig 10"]));
    let text = lines(&["apple pie", "Zebra!", "apple.", "", "pear"]);
    assert_eq!(update_dictionary(&mut dictionary, &text), Ok(()));
    assert_eq!(
        report(&dictionary),
        lines(&[": 1", "apple: 2", "fig: 10", "pear: 3", "zebra: 1"])
    );
}

#[test]
fn report_skips_the_words_that_were_never_counted() {
    let dictionary = create_dictionary(&lines(&["a 0", "b 0", "c 1"]));
    assert_eq!(report(&dictionary), lines(&["c: 1"]));
}
