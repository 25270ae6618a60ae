//! Reading acceptance criteria.

use autoreview::spec_verify::parse::parse_bullet;
use autoreview::spec_verify::parse_spec;

#[test]
fn parses_a_well_formed_spec() {
    let content = "\
# Add rate limiting

## Intent

Cap per-user request rate so a single client can't exhaust the API.

## Acceptance Criteria

- Returns 429 when a user exceeds the configured rate
- Includes a Retry-After header on the 429 response
- [ ] Existing endpoints are unaffected when under the limit
";
    let spec = parse_spec(content).expect("should parse");
    assert_eq!(spec.title, "Add rate limiting");
    assert_eq!(spec.intent, "Cap per-user request rate so a single client can't exhaust the API.");
    assert_eq!(spec.criteria, vec!["Returns 429 when a user exceeds the configured rate", "Includes a Retry-After header on the 429 response", "Existing endpoints are unaffected when under the limit"]);
}

#[test]
fn accepts_asterisk_bullets_and_checked_checkboxes() {
    let content = "\
# T

## Acceptance Criteria

* [x] Done thing one
* Plain thing two
";
    let spec = parse_spec(content).unwrap();
    assert_eq!(spec.criteria, vec!["Done thing one", "Plain thing two"]);
}

#[test]
fn no_title_heading_yields_no_spec() {
    assert!(parse_spec("## Acceptance Criteria\n\n- Something\n").is_none());
}

#[test]
fn a_title_with_zero_criteria_yields_no_spec() {
    assert!(parse_spec("# Title only\n\n## Intent\n\nJust some prose.\n").is_none());
}

#[test]
fn an_empty_criteria_section_yields_no_spec() {
    assert!(parse_spec("# T\n\n## Acceptance Criteria\n\n").is_none());
}

#[test]
fn missing_intent_section_is_tolerated_as_an_empty_string() {
    let spec = parse_spec("# T\n\n## Acceptance Criteria\n\n- One\n").unwrap();
    assert_eq!(spec.intent, "");
}

#[test]
fn text_outside_known_sections_is_ignored() {
    let content = "\
# T

Some preamble that isn't inside any recognized section.

## Some Other Heading

Unrelated prose that must not leak into intent or criteria.

## Acceptance Criteria

- Only this counts
";
    let spec = parse_spec(content).unwrap();
    assert_eq!(spec.criteria, vec!["Only this counts"]);
    assert_eq!(spec.intent, "");
}

#[test]
fn a_bullet_is_what_stands_behind_its_checkbox() {
    assert_eq!(parse_bullet("- [ ]"), None);
    assert_eq!(parse_bullet("* [x]"), None);
    assert_eq!(parse_bullet("- [X]   "), None);
    assert_eq!(parse_bullet("-"), None);
    assert_eq!(parse_bullet("- [x] a"), Some("a".to_string()));
    assert_eq!(parse_bullet("- [ ] [ ] a"), Some("[ ] a".to_string()));
    assert_eq!(parse_bullet("- [x](https://example.com)"), Some("[x](https://example.com)".to_string()));
    assert_eq!(parse_bullet("- [y] a"), Some("[y] a".to_string()));
    assert_eq!(parse_bullet("a"), None);
}
