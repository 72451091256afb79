use aksync::markup::{escape, unescape};

#[test]
fn escape_round_trips() {
    for text in [
        "",
        "plain",
        "a|b=c",
        "{{x}} and }}{{",
        "AK {{Vorlage|p=1}}",
        "Grüße | ÄÖÜ = ß",
        "{{{=}}}",
    ] {
        assert_eq!(unescape(&escape(text)), text);
    }
}

#[test]
fn escape_pipe_and_equals() {
    assert_eq!(escape("a|b=c"), "a{{!}}b{{=}}c");
}

#[test]
fn escape_braces_get_zero_width_space() {
    assert_eq!(escape("{{x}}"), "{&ZeroWidthSpace;{x}&ZeroWidthSpace;}");
}

#[test]
fn escape_plain_text_unchanged() {
    assert_eq!(escape("Grüße aus dem AK"), "Grüße aus dem AK");
}

#[test]
fn escape_leaves_no_literal_pipe() {
    let escaped = escape("a|b||c");
    assert!(!escaped.contains('|'));
}

#[test]
fn escape_equals_only_inside_escapes() {
    let escaped = escape("k=v");
    assert_eq!(escaped, "k{{=}}v");
    // the only equals sign left sits inside the template escape
    assert_eq!(escaped.matches("{{=}}").count(), 1);
}

#[test]
fn escape_brace_runs() {
    // three braces: the first pair is escaped, the third passes through
    assert_eq!(escape("{{{"), "{&ZeroWidthSpace;{{");
    assert_eq!(escape("}}}"), "}&ZeroWidthSpace;}}");
}

#[test]
fn escape_empty() {
    assert_eq!(escape(""), "");
}
