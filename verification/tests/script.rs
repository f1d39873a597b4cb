//! JSON text inside an HTML script element.
use cute_report::script::payload_json_for_html_script;

/// The safe JSON text of a payload with the given baseline.
fn serialized(baseline: &str) -> String {
    let mut payload = serde_json::Map::new();
    payload.insert("baseline".to_owned(), serde_json::Value::String(baseline.to_owned()));
    payload_json_for_html_script(&serde_json::to_string(&payload).unwrap())
}

fn baseline_of(json: &str) -> String {
    let parsed: serde_json::Value =
        serde_json::from_str(json).expect("escaped output is valid JSON");
    parsed["baseline"].as_str().unwrap().to_owned()
}

#[test]
fn payload_json_escapes_closing_script_tag_via_unicode() {
    let serialized = serialized("</script><script>alert(1)</script>");
    assert!(
        !serialized.contains("</script>"),
        "no raw </script> survives in: {serialized}",
    );
    assert!(
        serialized.contains("\\u003c/script>"),
        "`</` is replaced with `\\u003c/` in: {serialized}",
    );
}

#[test]
fn payload_json_escapes_html_comment_open_via_unicode() {
    let serialized = serialized("x<!--hostile-->y");
    assert!(
        !serialized.contains("<!--"),
        "no raw <!-- survives in: {serialized}",
    );
    assert!(
        serialized.contains("\\u003c!--"),
        "`<!` is replaced with `\\u003c!` in: {serialized}",
    );
}

#[test]
fn payload_json_leaves_bare_left_angle_alone() {
    let serialized = serialized("a < b");
    assert!(serialized.contains("a < b"), "bare `<` is preserved");
}

#[test]
fn payload_json_escapes_le_comparisons_for_sloppy_scanners() {
    let serialized = serialized("encounter_start_at <= current_timestamp");
    assert!(
        !serialized.contains("<="),
        "no raw <= survives: {serialized}"
    );
    assert!(
        serialized.contains("\\u003c="),
        "`<=` escapes to `\\u003c=`: {serialized}"
    );
    assert_eq!(baseline_of(&serialized), "encounter_start_at <= current_timestamp");
}

#[test]
fn payload_json_escapes_tag_like_angle_brackets() {
    let serialized = serialized("filters WHERE <right>.<key> IS NULL <?");
    assert!(
        !serialized.contains("<right>") && !serialized.contains("<key>"),
        "no raw tag-like sequence survives: {serialized}"
    );
    assert!(
        serialized.contains("\\u003cright>") && serialized.contains("\\u003c?"),
        "tag openers escape to \\u003c: {serialized}"
    );
    assert_eq!(baseline_of(&serialized), "filters WHERE <right>.<key> IS NULL <?");
}

#[test]
fn payload_json_output_is_round_trippable_through_json_parse() {
    let serialized = serialized("</script><!--end");
    assert_eq!(
        baseline_of(&serialized),
        "</script><!--end",
        "round-trip recovers the original baseline value",
    );
}

#[test]
fn text_without_markup_is_left_alone() {
    for text in ["", "<", "a<", "< /", "<<<", "é<é", "<1", "{\"a\":[1,2]}"] {
        assert_eq!(payload_json_for_html_script(text), text);
    }
    assert_eq!(payload_json_for_html_script("<<a"), "<\\u003ca");
    assert_eq!(payload_json_for_html_script("<Z<z"), "\\u003cZ\\u003cz");
}

#[test]
fn escapes_before_markup_read_as_they_did() {
    for text in ["\\<a", "\"</", "\n<!", "\u{1}<x", "\\u003c<b", "\u{1f600}</i>"] {
        assert_eq!(baseline_of(&serialized(text)), text);
    }
}
