use singularity_benchmark::run::workspace::truncate;
use singularity_benchmark::text::{
    chars_of, concatenated, contains_text, is_white_space, join, less_text, same_text, trim,
};

#[test]
fn white_space_matches_std_for_every_char() {
    for c in (0u32..=0x10ffff).filter_map(char::from_u32) {
        assert_eq!(is_white_space(c), c.is_whitespace(), "char {:?}", c);
    }
}

#[test]
fn trim_matches_std() {
    let samples = [
        "",
        "   ",
        "  abc  ",
        "\t\nabc d\r\n",
        "\u{3000}x\u{85}",
        "\u{a0}\u{2028}",
        "no-space",
        " a b ",
    ];
    for s in samples {
        assert_eq!(trim(s), s.trim());
    }
}

#[test]
fn trim_of_blank_is_empty() {
    assert!(trim(" \t\u{2003} ").is_empty());
    assert!(!trim(" x ").is_empty());
}

#[test]
fn truncate_keeps_leading_characters() {
    assert_eq!(truncate("héllo wörld", 4), "héll");
    assert_eq!(truncate("short", 2000), "short");
    assert_eq!(truncate("", 3), "");
    assert_eq!(truncate("abc", 0), "");
    let long: String = std::iter::repeat('ä').take(2500).collect();
    assert_eq!(truncate(&long, 2000).chars().count(), 2000);
}

#[test]
fn contains_text_matches_std() {
    let cases = [
        ("hello world", "world", true),
        ("hello world", "World", false),
        ("abc", "", true),
        ("", "", true),
        ("", "a", false),
        ("aaab", "aab", true),
        ("ab", "abc", false),
        ("grüße", "üß", true),
    ];
    for (h, n, expected) in cases {
        assert_eq!(contains_text(h, n), expected);
        assert_eq!(h.contains(n), expected);
    }
}

#[test]
fn less_text_matches_str_order() {
    let words = ["", "a", "ab", "b", "B", "anthropic", "openai", "é", "z", "ab/c"];
    for a in words {
        for b in words {
            assert_eq!(less_text(a, b), a < b, "{:?} {:?}", a, b);
        }
    }
}

#[test]
fn same_text_and_concat() {
    assert!(same_text("abc", "abc"));
    assert!(!same_text("abc", "abd"));
    assert!(!same_text("abc", "ab"));
    assert_eq!(concatenated("unsafe relative path: ", "../x"), "unsafe relative path: ../x");
    assert_eq!(chars_of("añb"), vec!['a', 'ñ', 'b']);
}

#[test]
fn join_separates_parts() {
    let parts = vec!["a".to_string(), "b".to_string(), "c".to_string()];
    assert_eq!(join(&parts, ", "), "a, b, c");
    assert_eq!(join(&vec![], ", "), "");
    assert_eq!(join(&vec!["only".to_string()], ", "), "only");
}

#[test]
fn trimming_twice_changes_nothing() {
    for s in ["  a b  ", "\u{2000}x\u{3000}", "", "   ", "plain"] {
        let once = trim(s);
        assert_eq!(trim(&once), once);
        assert!(s.contains(once.as_str()));
    }
}
