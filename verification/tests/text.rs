use offload::ranking::{reversed, sort_by_rank};
use offload::text::{
    chars_of, contains_text, count_text, decimal_text, join_texts, replace_text, same,
    starts_with, text_of, text_precedes, trim_text,
};

#[test]
fn replacing_takes_matches_from_the_left() {
    for (s, pat, to) in [
        ("aaaa", "aa", "b"),
        ("aaa", "aa", "b"),
        ("x{id}y{id}", "{id}", "{id}{id}"),
        ("none", "zz", "y"),
        ("", "a", "b"),
        ("\u{e9}t\u{e9}", "\u{e9}", ""),
    ] {
        assert_eq!(replace_text(s, pat, to), s.replace(pat, to));
    }
}

#[test]
fn searching_agrees_with_std() {
    for s in ["", "a", "<error", "xx<failure y", "aaaa", "aabaabaa"] {
        for pat in ["a", "aa", "<failure", "<error", "aab"] {
            assert_eq!(contains_text(s, pat), s.contains(pat));
            assert_eq!(count_text(s, pat), s.matches(pat).count());
            assert_eq!(starts_with(s, pat), s.starts_with(pat));
        }
    }
    assert!(contains_text("abc", ""));
}

#[test]
fn trimming_agrees_with_std() {
    for s in ["", " ", "a", " a b ", "\t\n\u{b}\u{c}\r x\u{85}\u{a0}", "\u{1680}\u{2000}\u{200a}",
        "\u{2028}y\u{2029}", "\u{202f}\u{205f}\u{3000}", "\u{200b}z\u{feff}", "\u{1c}q\u{1f}"]
    {
        assert_eq!(trim_text(s), s.trim());
    }
    for c in (0..=0x10ffff).filter_map(char::from_u32).step_by(1) {
        if c.is_whitespace() {
            assert_eq!(trim_text(&format!("{c}")), "");
        }
    }
}

#[test]
fn numbers_are_written_in_decimal() {
    for n in [0, 7, 10, 99, 100, 1234567890, u64::MAX] {
        assert_eq!(decimal_text(n), format!("{n}"));
    }
}

#[test]
fn strings_are_ordered_as_by_std() {
    let all = ["", "a", "aa", "ab", "b", "B", "\u{e9}", "\u{10000}", "\u{ffff}"];
    for a in all {
        for b in all {
            assert_eq!(text_precedes(a, b), a < b, "{a:?} {b:?}");
            assert_eq!(same(a, b), a == b);
        }
    }
}

#[test]
fn joining_puts_separators_between() {
    let parts: Vec<String> = vec!["a".to_string(), String::new(), "c".to_string()];
    assert_eq!(join_texts(&parts, ", "), "a, , c");
    assert_eq!(join_texts(&vec![], ", "), "");
    assert_eq!(text_of(&chars_of("h\u{e9}")), "h\u{e9}");
}

#[test]
fn sorting_sorts() {
    assert_eq!(sort_by_rank(vec![3u64, 1, 2, 1, 9, 0]), vec![0, 1, 1, 2, 3, 9]);
    assert_eq!(sort_by_rank(Vec::<u64>::new()), Vec::<u64>::new());
    assert_eq!(reversed(vec![1, 2, 3]), vec![3, 2, 1]);
}
