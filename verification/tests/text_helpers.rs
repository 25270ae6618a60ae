//! Texts, paths, names, globs and identifiers.

use autoreview::digest::short_id;
use autoreview::globs::any_match;
use autoreview::names::NameSet;
use autoreview::paths::{extension, file_name, join};
use autoreview::text;

fn texts(items: &[&str]) -> Vec<String> {
    items.iter().map(|s| s.to_string()).collect()
}

#[test]
fn numbers_are_written_in_decimal() {
    assert_eq!(text::decimal(0), "0");
    assert_eq!(text::decimal(1_203), "1203");
    assert_eq!(text::decimal(u64::MAX), "18446744073709551615");
    assert_eq!(text::decimal_wide(u128::MAX), "340282366920938463463374607431768211455");
}

#[test]
fn millionths_are_written_without_needless_zeros() {
    assert_eq!(text::millionths(0), "0");
    assert_eq!(text::millionths(2_000_000), "2");
    assert_eq!(text::millionths(1_500_000), "1.5");
    assert_eq!(text::millionths(50_001), "0.050001");
}

#[test]
fn tenths_are_rounded_half_to_even() {
    assert_eq!(text::one_decimal(0), "0.0");
    assert_eq!(text::one_decimal(1_250_000), "1.2");
    assert_eq!(text::one_decimal(1_350_000), "1.4");
    assert_eq!(text::one_decimal(1_250_001), "1.3");
    assert_eq!(text::one_decimal(-2_000_000), "-2.0");
}

#[test]
fn unsigned_numbers_are_read_up_to_the_bound() {
    assert_eq!(text::parse_unsigned("42", 100), Some(42));
    assert_eq!(text::parse_unsigned("+7", 100), Some(7));
    assert_eq!(text::parse_unsigned("101", 100), None);
    assert_eq!(text::parse_unsigned("-1", 100), None);
    assert_eq!(text::parse_unsigned("", 100), None);
    assert_eq!(text::parse_unsigned("+", 100), None);
    assert_eq!(text::parse_unsigned("1x", 100), None);
    assert_eq!(text::parse_unsigned("99999999999999999999999", u64::MAX), None);
}

#[test]
fn lines_and_words_are_those_of_the_standard_library() {
    for s in ["", "\n", "a", "a\n", "a\r\nb", "a\n\nb\n", " a\t b \n c", "a\r", "\u{a0}x\u{2003}y"] {
        assert_eq!(text::lines(s), s.lines().map(str::to_string).collect::<Vec<_>>(), "{s:?}");
        assert_eq!(text::words(s), s.split_whitespace().map(str::to_string).collect::<Vec<_>>(), "{s:?}");
        assert_eq!(text::trim(s), s.trim(), "{s:?}");
        assert_eq!(text::trim_start(s), s.trim_start(), "{s:?}");
        assert_eq!(text::trim_end(s), s.trim_end(), "{s:?}");
    }
}

#[test]
fn parts_are_found_as_the_standard_library_finds_them() {
    for s in ["", "a", "abcabc", "aaaa", "é€𝄞", "a.b.c"] {
        for part in ["a", "aa", "bc", "€", ".", "zz"] {
            assert_eq!(text::contains(s, part), s.contains(part));
            assert_eq!(text::starts_with(s, part), s.starts_with(part));
            assert_eq!(text::ends_with(s, part), s.ends_with(part));
            assert_eq!(text::count_of(s, part), s.matches(part).count());
            assert_eq!(text::after_first(s, part), s.split_once(part).map(|(_, rest)| rest));
            assert_eq!(text::trim_trailing(s, part), s.trim_end_matches(part));
        }
        assert_eq!(text::split_once(s, '.'), s.split_once('.'));
        assert_eq!(text::trim_leading(s, 'a'), s.trim_start_matches('a'));
    }
}

#[test]
fn texts_are_ordered_by_code_point() {
    let items = ["b", "a", "", "ab", "é", "z", "𝄞", "a"];
    for a in items {
        for b in items {
            assert_eq!(text::before(a, b), a < b, "{a:?} {b:?}");
            assert_eq!(text::same(a, b), a == b);
        }
    }
    let mut sorted = texts(&items);
    sorted.sort();
    sorted.dedup();
    assert_eq!(text::sort_dedup(&texts(&items)), sorted);
    assert_eq!(text::distinct(&texts(&items)), texts(&["b", "a", "", "ab", "é", "z", "𝄞"]));
}

#[test]
fn heads_count_characters_and_bytes() {
    assert_eq!(text::head("é€𝄞", 2), "é€");
    assert_eq!(text::head("ab", 5), "ab");
    assert_eq!(text::bytes_head("é€", 2), Some("é"));
    assert_eq!(text::bytes_head("é€", 3), None);
    assert_eq!(text::bytes_head("é€", 5), Some("é€"));
    assert_eq!(text::bytes_head("é€", 9), None);
    for c in ['a', 'é', '€', '𝄞'] {
        assert_eq!(text::width(c), c.len_utf8());
    }
}

#[test]
fn whole_words_are_bounded_by_other_characters() {
    assert!(text::contains_word("a fix for it", "fix"));
    assert!(!text::contains_word("prefix it", "fix"));
    assert!(!text::contains_word("fixed", "fix"));
}

#[test]
fn file_names_and_extensions_are_those_of_the_standard_library() {
    for p in ["a/b.go", "b.go", ".bashrc", "a/", "a/.", "a/..", "/", "", "x.tar.gz", "a/b.", "..", "dir.d/file"] {
        let path = std::path::Path::new(p);
        assert_eq!(file_name(p), path.file_name().and_then(|n| n.to_str()), "{p:?}");
        assert_eq!(extension(p), path.extension().and_then(|n| n.to_str()), "{p:?}");
        for rest in ["c", "/c", "", "c/d"] {
            assert_eq!(join(p, rest), path.join(rest).to_str().unwrap(), "{p:?} {rest:?}");
        }
    }
}

#[test]
fn globs_match_across_directories() {
    let globs = texts(&["**/auth/**", "[", "*.tf"]);
    assert!(any_match(&globs, "src/auth/login.go"));
    assert!(any_match(&globs, "main.tf"));
    assert!(!any_match(&globs, "src/author.go"));
    assert!(!any_match(&globs, "["));
    assert!(!any_match(&vec![], "main.tf"));
    assert!(any_match(&texts(&["{a,b}/?.go"]), "b/x.go"));
}

#[test]
fn identifiers_are_the_first_half_of_a_digest() {
    assert_eq!(short_id(&texts(&["abc"])), "ba7816bf8f01cfea");
    assert_eq!(short_id(&texts(&["correctness", "r", "t"])), "bc4b0a77eca4f416");
    assert_ne!(short_id(&texts(&["a", "b"])), short_id(&texts(&["ab"])));
}

#[test]
fn sets_hold_what_was_put_in() {
    let mut set = NameSet::new();
    set.insert("a");
    set.insert("b");
    set.insert("a");
    assert!(set.contains("a") && set.contains("b") && !set.contains("c"));
    let mut other = set.dup();
    other.remove("a");
    assert!(!other.contains("a") && set.contains("a"));
    assert!(other.subset_of(&set) && !set.subset_of(&other));
    other.insert("c");
    let both = set.union(&other);
    assert!(both.contains("a") && both.contains("b") && both.contains("c"));
}
