use goto::config::{config_file, config_file_in};
use goto::text::{contains, eq_ignore_case, join_path, str_less, trim, trim_end_char};

#[test]
fn trims_unicode_white_space() {
    assert_eq!(trim("  a b \t\n"), "a b");
    assert_eq!(trim("\u{3000}x\u{a0}"), "x");
    assert_eq!(trim("   "), "");
}

#[test]
fn case_insensitive_comparison() {
    assert!(eq_ignore_case("GitHub", "github"));
    assert!(eq_ignore_case("Über", "über"));
    assert!(eq_ignore_case("ÄB", "äb"));
    assert!(!eq_ignore_case("ab", "abc"));
    assert!(!eq_ignore_case("a", "b"));
}

#[test]
fn string_order_matches_std() {
    for (a, b) in [("a", "b"), ("ab", "a"), ("", "a"), ("Z", "a"), ("é", "z"), ("same", "same")] {
        assert_eq!(str_less(a, b), a < b, "{a} < {b}");
    }
}

#[test]
fn path_join_matches_std() {
    for (base, rest) in [("/a", "b"), ("/a/", "b"), ("", "b"), ("/a", "/b"), ("/a", "")] {
        let expected = std::path::Path::new(base).join(rest).to_string_lossy().into_owned();
        assert_eq!(join_path(base, rest), expected, "{base} + {rest}");
    }
}

#[test]
fn substring_and_trailing() {
    assert!(contains("hello world", "o w"));
    assert!(!contains("hello", "world"));
    assert!(contains("x", ""));
    assert_eq!(trim_end_char("a/b///", '/'), "a/b");
}

#[test]
fn config_file_names() {
    assert_eq!(config_file_in(None), "goto-config.toml");
    assert_eq!(config_file_in(Some("/home/u/.config/goto".to_string())), "/home/u/.config/goto/config.toml");
    assert!(config_file().ends_with("config.toml"));
}

#[test]
fn white_space_matches_std_for_every_char() {
    for v in 0u32..=0x10ffff {
        if let Some(c) = char::from_u32(v) {
            assert_eq!(goto::text::is_white_space(c), c.is_whitespace(), "U+{v:04X}");
        }
    }
}

#[test]
fn trim_matches_std() {
    for s in ["", " ", "\u{2028}a\u{85}", "a\u{200b}", " a b ", "\u{feff}x"] {
        assert_eq!(trim(s), s.trim(), "{s:?}");
    }
}
