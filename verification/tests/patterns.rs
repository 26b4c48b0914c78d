use bindgen::pattern::{invalid_regex_warning, Level, PatternSet, RegexErrorText};

#[test]
fn new_set_is_empty_and_matches_nothing() {
    let mut set = PatternSet::default();
    assert!(set.is_empty());
    assert!(!set.matches("anything"));
    assert!(set.unmatched_items().is_empty());
}

#[test]
fn get_items_returns_patterns_in_insertion_order() {
    let mut set = PatternSet::default();
    set.insert("foo.*");
    set.insert("bar");
    assert!(!set.is_empty());
    let items: Vec<String> = set.get_items().clone();
    assert_eq!(items, vec!["foo.*".to_string(), "bar".to_string()]);
}

#[test]
fn matches_records_coverage_and_reports_unmatched() {
    let mut set = PatternSet::default();
    set.insert("foo.*");
    set.insert("bar");
    set.build(true);
    assert!(set.matches("foobar"));
    let unmatched = set.unmatched_items();
    assert_eq!(unmatched, vec!["bar".to_string()]);
    assert!(!set.matches("nope"));
    assert_eq!(set.unmatched_items(), vec!["bar".to_string()]);
    assert!(set.matches("foobar"));
    assert_eq!(set.unmatched_items(), vec!["bar".to_string()]);
}

#[test]
fn matching_is_anchored_to_the_whole_candidate() {
    let mut set = PatternSet::default();
    set.insert("bar");
    set.build(false);
    assert!(set.matches("bar"));
    assert!(!set.matches("foobar"));
    assert!(!set.matches("barfoo"));
}

#[test]
fn without_recording_no_coverage_is_tracked() {
    let mut set = PatternSet::default();
    set.insert("foo");
    set.build(false);
    assert!(set.matches("foo"));
    assert!(set.unmatched_items().is_empty());
}

#[test]
fn insert_invalidates_the_compiled_matcher() {
    let mut set = PatternSet::default();
    set.insert("foo");
    set.build(true);
    assert!(set.matches("foo"));
    set.insert("bar");
    assert!(!set.matches("foo"));
    set.build(true);
    assert!(set.matches("foo"));
}

#[test]
fn malformed_pattern_degrades_the_whole_set() {
    let mut set = PatternSet::default();
    set.insert("(");
    let diagnostic = set.build_with_diagnostics(true, Some("allowlist"));
    let d = diagnostic.expect("a warning diagnostic must be produced");
    assert_eq!(d.title_level, Level::Warning);
    let note = d
        .annotations
        .iter()
        .find(|a| a.level == Level::Note)
        .expect("an attribution note must be present");
    assert!(note.text.contains("allowlist"));
    assert!(!set.matches("anything"));
    assert!(!set.matches("("));
    assert_eq!(set.unmatched_items(), vec!["(".to_string()]);
}

#[test]
fn malformed_pattern_keeps_set_degraded_across_rebuilds() {
    let mut set = PatternSet::default();
    set.insert("[");
    set.build(true);
    assert!(!set.matches("x"));
    set.insert("x");
    set.build(true);
    assert!(!set.matches("x"));
    assert_eq!(set.unmatched_items(), vec!["[".to_string(), "x".to_string()]);
}

#[test]
fn bare_wildcard_gets_a_help_annotation() {
    let mut set = PatternSet::default();
    set.insert("*");
    let d = set
        .build_with_diagnostics(true, Some("blocklist"))
        .expect("a bare wildcard is a malformed pattern");
    let help = d
        .annotations
        .iter()
        .find(|a| a.level == Level::Help)
        .expect("the wildcard guidance must be present");
    assert!(help.text.contains(".*"));
}

#[test]
fn unnamed_build_reports_no_diagnostic() {
    let mut set = PatternSet::default();
    set.insert("(");
    assert!(set.build_with_diagnostics(true, None).is_none());
}

#[test]
fn syntax_error_text_is_parsed_into_source_and_annotations() {
    let text = "regex parse error:\n    (\n    ^\nerror: unclosed group".to_string();
    let d = invalid_regex_warning(
        &vec!["(".to_string()],
        RegexErrorText::Syntax { text },
        "allowlist",
    );
    assert_eq!(d.title, "Error while parsing a regular expression.");
    assert_eq!(d.title_level, Level::Warning);
    assert_eq!(d.source, "    (\n    ^\n");
    assert_eq!(d.annotations.len(), 2);
    assert_eq!(d.annotations[0].level, Level::Error);
    assert_eq!(d.annotations[0].text, "unclosed group");
    assert_eq!(d.annotations[1].level, Level::Note);
    assert_eq!(
        d.annotations[1].text,
        "This regular expression was passed via `allowlist`."
    );
}

#[test]
fn other_error_text_titles_the_diagnostic() {
    let d = invalid_regex_warning(
        &vec!["a".to_string()],
        RegexErrorText::Other { text: "Compiled regex exceeds size limit".to_string() },
        "blocklist",
    );
    assert_eq!(d.title, "Compiled regex exceeds size limit");
    assert_eq!(d.title_level, Level::Warning);
    assert!(d.source.is_empty());
    assert_eq!(d.annotations.len(), 1);
    assert_eq!(d.annotations[0].level, Level::Note);
}
