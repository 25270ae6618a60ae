//! Languages and their parsers.

use autoreview::langsupport::{language_for_path, parse_source, Language};
use autoreview::syntax::SyntaxNode;

fn has_error(node: &SyntaxNode) -> bool {
    node.kind == "ERROR" || node.children.iter().any(has_error)
}

#[test]
fn dispatches_by_extension() {
    assert_eq!(language_for_path("main.go"), Some(Language::Go));
    assert_eq!(language_for_path("Foo.java"), Some(Language::Java));
    assert_eq!(language_for_path("foo.kt"), Some(Language::Kotlin));
    assert_eq!(language_for_path("foo.kts"), Some(Language::Kotlin));
    assert_eq!(language_for_path("foo.py"), None);
}

#[test]
fn parser_for_each_language_parses_a_trivial_snippet() {
    for (lang, src) in [(Language::Go, "package main\n"), (Language::Java, "class Foo {}\n"), (Language::Kotlin, "class Foo\n")] {
        let root = parse_source(lang, src.as_bytes()).expect("should parse");
        assert!(!has_error(&root), "{lang:?} produced an error tree for: {src}");
        assert_eq!(root.text, src);
    }
}
