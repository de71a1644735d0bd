use word_count::order::{compare_words, Precedence};

#[test]
fn compare_words_orders_ascii_words() {
    assert_eq!(compare_words("apple", "banana"), Precedence::Before);
    assert_eq!(compare_words("banana", "apple"), Precedence::After);
    assert_eq!(compare_words("same", "same"), Precedence::Same);
}

#[test]
fn compare_words_puts_a_prefix_first() {
    assert_eq!(compare_words("app", "apple"), Precedence::Before);
    assert_eq!(compare_words("apple", "app"), Precedence::After);
    assert_eq!(compare_words("", "a"), Precedence::Before);
    assert_eq!(compare_words("a", ""), Precedence::After);
    assert_eq!(compare_words("", ""), Precedence::Same);
}

#[test]
fn compare_words_decides_at_the_first_difference() {
    assert_eq!(compare_words("abz", "aca"), Precedence::Before);
    assert_eq!(compare_words("aca", "abz"), Precedence::After);
    assert_eq!(compare_words("abc", "abd"), Precedence::Before);
}

#[test]
fn compare_words_puts_uppercase_before_lowercase() {
    assert_eq!(compare_words("Zebra", "apple"), Precedence::Before);
    assert_eq!(compare_words("apple", "Zebra"), Precedence::After);
}

#[test]
fn compare_words_orders_by_code_point() {
    assert_eq!(compare_words("z", "\u{e9}"), Precedence::Before);
    assert_eq!(compare_words("\u{e9}", "z"), Precedence::After);
    assert_eq!(compare_words("\u{e9}", "\u{1f600}"), Precedence::Before);
    assert_eq!(compare_words("\u{ffff}", "\u{10000}"), Precedence::Before);
    assert_eq!(compare_words("\u{65e5}\u{672c}", "\u{65e5}\u{672c}\u{8a9e}"), Precedence::Before);
    assert_eq!(compare_words("\u{65e5}\u{672c}", "\u{65e5}\u{672c}"), Precedence::Same);
}

#[test]
fn compare_words_agrees_with_the_order_of_str() {
    let words = [
        "", " ", "a", "A", "ab", "abc", "abd", "b", "B", "z", "zz", "0", "10", "9", "~", "\u{7f}",
        "\u{80}", "\u{e9}", "\u{e9}a", "e\u{301}", "\u{7ff}", "\u{800}", "\u{d7ff}", "\u{e000}",
        "\u{ffff}", "\u{10000}", "\u{10ffff}", "\u{1f600}", "a\u{1f600}", "a\u{e9}",
    ];
    for a in words.iter() {
        for b in words.iter() {
            let expected = if a < b {
                Precedence::Before
            } else if a == b {
                Precedence::Same
            } else {
                Precedence::After
            };
            assert_eq!(compare_words(a, b), expected, "{:?} against {:?}", a, b);
        }
    }
}

#[test]
fn compare_words_is_antisymmetric_and_transitive_on_samples() {
    let words = ["", "a", "ab", "b", "ba", "\u{e9}", "A"];
    for a in words.iter() {
        assert_eq!(compare_words(a, a), Precedence::Same);
        for b in words.iter() {
            let forth = compare_words(a, b);
            let back = compare_words(b, a);
            match forth {
                Precedence::Before => assert_eq!(back, Precedence::After),
                Precedence::Same => assert_eq!(back, Precedence::Same),
                Precedence::After => assert_eq!(back, Precedence::Before),
            }
            for c in words.iter() {
                if forth == Precedence::Before && compare_words(b, c) == Precedence::Before {
                    assert_eq!(compare_words(a, c), Precedence::Before);
                }
            }
        }
    }
}
