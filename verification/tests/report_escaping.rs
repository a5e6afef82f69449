use boxpacker::report::escape_json_for_script;

#[test]
fn arbitrary_names_cannot_end_the_data_script_or_inject_markup() {
    let escaped = escape_json_for_script(r#"{"name":"</script><b>&x</b>"}"#);

    assert!(!escaped.contains('<'));
    assert!(!escaped.contains('>'));
    assert!(!escaped.contains('&'));
    assert_eq!(escaped, r#"{"name":"\u003c/script\u003e\u003cb\u003e\u0026x\u003c/b\u003e"}"#);
}

#[test]
fn line_separators_are_escaped_and_other_text_is_kept() {
    assert_eq!(escape_json_for_script("a\u{2028}b\u{2029}c"), r"a\u2028b\u2029c");
    assert_eq!(escape_json_for_script("plain ünïcode"), "plain ünïcode");
    assert_eq!(escape_json_for_script(""), "");
}
