use vue_scanner::context::{ScanContext, SourceFile, Span};
use vue_scanner::rules::no_v_html::{NoVHtml, NoVHtmlViolation};
use vue_scanner::rules::{Rule, RuleDiagnostic, RuleKind};
use vue_scanner::suppression::{line_ignores, list_names_rule, unsuppressed, violation_is_ignored};

#[test]
fn parses_script_comment() {
    assert!(line_ignores(
        "el.innerHTML = x // vuer-ignore[no-inner-html]",
        "no-inner-html",
        "vue/security/no-inner-html"
    ));
}

#[test]
fn parses_template_comment() {
    assert!(line_ignores(
        r#"<div v-html="x"></div> <!-- vuer-ignore[no-v-html] -->"#,
        "no-v-html",
        "vue/security/no-v-html"
    ));
}

#[test]
fn accepts_colon_separator() {
    assert!(line_ignores(
        "// vuer: ignore[no-v-html]",
        "no-v-html",
        "vue/security/no-v-html"
    ));
    assert!(line_ignores(
        "<!-- vuer: ignore[no-v-html] -->",
        "no-v-html",
        "vue/security/no-v-html"
    ));
}

#[test]
fn accepts_full_rule_id() {
    assert!(line_ignores(
        "// vuer-ignore[vue/security/no-v-html]",
        "no-v-html",
        "vue/security/no-v-html"
    ));
}

#[test]
fn matches_one_of_many() {
    assert!(line_ignores(
        "// vuer-ignore[no-v-html, no-eval, no-inner-html]",
        "no-eval",
        "vue/security/no-eval"
    ));
}

#[test]
fn tolerates_whitespace_and_trailing_comma() {
    assert!(line_ignores(
        "//   vuer-ignore[ no-v-html ,  vue/security/no-eval ,  ]",
        "vue/security/no-eval",
        "vue/security/no-eval"
    ));
}

#[test]
fn ignores_unrelated_rule() {
    assert!(!line_ignores(
        "// vuer-ignore[no-v-html]",
        "no-eval",
        "vue/security/no-eval"
    ));
}

#[test]
fn empty_list_does_nothing() {
    assert!(!line_ignores(
        "// vuer-ignore[]",
        "no-v-html",
        "vue/security/no-v-html"
    ));
}

#[test]
fn no_comment_means_no_ignore() {
    assert!(!line_ignores(
        "el.innerHTML = x",
        "no-inner-html",
        "vue/security/no-inner-html"
    ));
}

#[test]
fn requires_whitespace_after_marker() {
    // `//vuer-ignore` (no space) is not recognised.
    assert!(!line_ignores(
        "//vuer-ignore[no-v-html]",
        "no-v-html",
        "vue/security/no-v-html"
    ));
}

#[test]
fn violation_is_ignored_uses_correct_line() {
    let src = "el.innerHTML = x\nel.innerHTML = y // vuer-ignore[no-inner-html]\n";
    // First violation at offset 0, no comment on that line or the one before.
    assert!(!violation_is_ignored(
        src,
        0,
        "no-inner-html",
        "vue/security/no-inner-html"
    ));
    // Second violation is on the line with the comment.
    assert!(violation_is_ignored(
        src,
        18,
        "no-inner-html",
        "vue/security/no-inner-html"
    ));
}

#[test]
fn violation_is_ignored_uses_previous_line() {
    let src = "// vuer-ignore[no-v-html]\n<div v-html=\"x\"></div>\n";
    // Violation is on line 2; the comment on line 1 should still apply.
    assert!(violation_is_ignored(
        src,
        26,
        "no-v-html",
        "vue/security/no-v-html"
    ));
}

#[test]
fn comment_two_lines_above_does_not_apply() {
    let src = "// vuer-ignore[no-v-html]\n\n<div v-html=\"x\"></div>\n";
    assert!(!violation_is_ignored(src, 27, "no-v-html", "vue/security/no-v-html"));
    assert!(violation_is_ignored(src, 26, "no-v-html", "vue/security/no-v-html"));
}

#[test]
fn offset_past_end_uses_last_line() {
    let src = "a\n<!-- vuer-ignore[no-v-html] -->";
    assert!(violation_is_ignored(src, 1000, "no-v-html", "x"));
    assert!(!violation_is_ignored("a\nb\nc", 1000, "no-v-html", "x"));
}

#[test]
fn multibyte_source_offsets() {
    // "é" is two bytes; the comment line starts at byte 3.
    let src = "é\n// vuer-ignore[r]\nx";
    assert!(violation_is_ignored(src, 3, "r", "r"));
    assert!(violation_is_ignored(src, src.len() - 1, "r", "r"));
    assert!(!violation_is_ignored(src, 0, "r", "r"));
}

#[test]
fn block_comment_opener_is_not_a_marker() {
    assert!(!line_ignores("/* vuer-ignore[no-v-html] */", "no-v-html", "x"));
    assert!(line_ignores("<!--\tvuer-  ignore[no-v-html]-->", "no-v-html", "x"));
}

#[test]
fn list_fields_are_trimmed_and_matched_exactly() {
    assert!(list_names_rule(" a , b ", "b", "zz"));
    assert!(list_names_rule("a,,b,", "zz", "b"));
    assert!(!list_names_rule("ab", "a", "b"));
    assert!(!list_names_rule(" , ,", "", ""));
    assert!(!list_names_rule("", "", ""));
    assert!(list_names_rule("\u{3000}x\u{a0}", "x", "y"));
}

#[test]
fn unsuppressed_keeps_findings_without_an_ignore_comment() {
    let src = "<div v-html=\"a\"></div>\n<!-- vuer-ignore[vue/security/no-v-html] -->\n<div v-html=\"b\"></div>\n<i v-html=\"c\"></i> <!-- vuer-ignore[no-v-html] -->\n";
    let mut ctx = ScanContext::new("s.vue".to_string(), src.to_string());
    ctx.template = Some(src.to_string());
    let found = NoVHtml.check(&ctx);
    // the comment's own rule list holds "v-html" too
    assert_eq!(found.len(), 4);
    let kept = unsuppressed(src, RuleKind::VHtml, found).unwrap();
    assert_eq!(kept.len(), 1);
    assert_eq!(kept[0].span().offset, 5);
    // another rule's comment does not silence it
    let found = NoVHtml.check(&ctx);
    assert_eq!(unsuppressed(src, RuleKind::InlineStyle, found).unwrap().len(), 4);
}

#[test]
fn unsuppressed_refuses_offsets_inside_a_character() {
    let src = "é v-html";
    let d = RuleDiagnostic::VHtml(NoVHtmlViolation {
        src: SourceFile {
            name: "s.vue".to_string(),
            text: src.to_string(),
        },
        span: Span { offset: 1, len: 6 },
    });
    assert!(unsuppressed(src, RuleKind::VHtml, vec![d]).is_none());
    // an offset past the end counts as the end
    let d = RuleDiagnostic::VHtml(NoVHtmlViolation {
        src: SourceFile {
            name: "s.vue".to_string(),
            text: src.to_string(),
        },
        span: Span { offset: 99, len: 6 },
    });
    assert_eq!(unsuppressed(src, RuleKind::VHtml, vec![d]).unwrap().len(), 1);
}

#[test]
fn every_ignore_comment_of_a_line_counts() {
    let line = "x // vuer-ignore[no-eval] // vuer-ignore[no-v-html]";
    assert!(line_ignores(line, "no-v-html", "vue/security/no-v-html"));
    assert!(line_ignores(line, "no-eval", "vue/security/no-eval"));
    assert!(!line_ignores(line, "no-inline-style", "vue/performance/no-inline-style"));
    let line = "<!-- vuer-ignore[a] --> <!-- vuer: ignore[ b , vue/security/no-v-html ] -->";
    assert!(line_ignores(line, "no-v-html", "vue/security/no-v-html"));
    let src = "// vuer-ignore[a] // vuer-ignore[no-v-html]\n<div v-html=\"x\">\n";
    assert!(violation_is_ignored(src, 49, "no-v-html", "vue/security/no-v-html"));
}

#[test]
fn comment_syntax_details() {
    // an opener inside an earlier comment's list is part of that list
    assert!(!line_ignores("// vuer-ignore[ // vuer-ignore[x]", "x", "x"));
    assert!(line_ignores("// vuer-ignore[ // vuer-ignore[x]", "// vuer-ignore[x", "y"));
    // `///` still holds a `//` followed by whitespace
    assert!(line_ignores("/// vuer-ignore[x]", "x", "x"));
    // Unicode whitespace counts as whitespace
    assert!(line_ignores("//\u{3000}vuer:\tignore[x]", "x", "x"));
    // no whitespace between `vuer` and the separator
    assert!(!line_ignores("// vuer -ignore[x]", "x", "x"));
    // the list runs to the first `]`
    assert!(line_ignores("<!-- vuer-ignore[a]b] -->", "a", "a"));
    assert!(!line_ignores("<!-- vuer-ignore[a]b] -->", "a]b", "a]b"));
    // no closing bracket, no comment
    assert!(!line_ignores("// vuer-ignore[x", "x", "x"));
}
