use vue_scanner::context::ScanContext;
use vue_scanner::parser::parse_sfc;
use vue_scanner::rules::no_dynamic_bind::NoDynamicBindSrc;
use vue_scanner::rules::no_inline_styles::NoInlineStyle;
use vue_scanner::rules::no_v_html::NoVHtml;
use vue_scanner::rules::no_watch_with_callback::NoWatchWithCallback;
use vue_scanner::rules::{Rule, RuleDiagnostic, RuleRegistry};
use vue_scanner::suppression::list_names_rule;

const COMPONENT: &str = "<!-- é -->\n<template>\n  <div v-html=\"a\" :style=\"s\">\n    <p style='x' v-html=\"b\">é</p>\n    <img :src=\"u\">\n  </div>\n</template>\n<script setup>\nconst x = 1\n  watch(x, () => {})\n</script>\n";

fn parsed() -> ScanContext {
    let mut ctx = ScanContext::new("c.vue".to_string(), COMPONENT.to_string());
    parse_sfc(&mut ctx);
    ctx
}

fn offsets(found: &[RuleDiagnostic]) -> Vec<usize> {
    found
        .iter()
        .map(|d| match d {
            RuleDiagnostic::VHtml(v) => v.span.offset,
            RuleDiagnostic::DynamicBindSrc(v) => v.span.offset,
            RuleDiagnostic::InlineStyle(v) => v.span.offset,
            RuleDiagnostic::WatchWithCallback(v) => v.span.offset,
        })
        .collect()
}

#[test]
fn v_html_spans_point_into_source() {
    let ctx = parsed();
    let found = offsets(&NoVHtml.check(&ctx));
    assert_eq!(found.len(), 2);
    for o in found {
        assert_eq!(&COMPONENT[o..o + 6], "v-html");
    }
}

#[test]
fn watch_spans_point_into_source() {
    let ctx = parsed();
    let found = offsets(&NoWatchWithCallback.check(&ctx));
    assert_eq!(found.len(), 1);
    assert_eq!(&COMPONENT[found[0]..found[0] + 6], "watch(");
}

#[test]
fn inline_style_spans_point_into_source() {
    let ctx = parsed();
    let found = offsets(&NoInlineStyle.check(&ctx));
    assert_eq!(found.len(), 3);
    for o in found {
        let at = &COMPONENT[o..];
        assert!(
            at.starts_with("style=\"")
                || at.starts_with("style='")
                || at.starts_with(":style=\"")
                || at.starts_with(":style='")
        );
    }
}

#[test]
fn dynamic_bind_spans_point_into_source() {
    let ctx = parsed();
    let found = offsets(&NoDynamicBindSrc.check(&ctx));
    assert_eq!(found.len(), 1);
    assert_eq!(&COMPONENT[found[0]..found[0] + 4], ":src");
}

#[test]
fn spans_point_into_source_with_crlf_line_endings() {
    let src = COMPONENT.replace('\n', "\r\n");
    let mut ctx = ScanContext::new("crlf.vue".to_string(), src.clone());
    parse_sfc(&mut ctx);
    let v = offsets(&NoVHtml.check(&ctx));
    assert_eq!(v.len(), 2);
    for o in v {
        assert_eq!(&src[o..o + 6], "v-html");
    }
    let d = offsets(&NoDynamicBindSrc.check(&ctx));
    assert_eq!(d.len(), 1);
    assert_eq!(&src[d[0]..d[0] + 4], ":src");
    let w = offsets(&NoWatchWithCallback.check(&ctx));
    assert_eq!(w.len(), 1);
    assert_eq!(&src[w[0]..w[0] + 6], "watch(");
    let st = offsets(&NoInlineStyle.check(&ctx));
    assert_eq!(st.len(), 3);
    for o in st {
        assert!(src[o..].starts_with("style=") || src[o..].starts_with(":style="));
    }
}

#[test]
fn every_registered_rule_is_found_by_its_name() {
    let reg = RuleRegistry::new();
    for rule in reg.get_all() {
        assert_eq!(reg.get_by_name(rule.name()), Some(*rule));
        assert_eq!(reg.get_enabled(&[rule.name().to_string()]), vec![*rule]);
    }
}

#[test]
fn list_laws_on_examples() {
    // a trailing comma changes nothing
    assert_eq!(list_names_rule("a,b,", "b", "x"), list_names_rule("a,b", "b", "x"));
    // a doubled comma changes nothing
    assert_eq!(list_names_rule("a,,b", "b", "x"), list_names_rule("a,b", "b", "x"));
    // whitespace around an entry changes nothing
    assert!(list_names_rule("a,\t b  ,c", "b", "x"));
    // a list of commas and whitespace names nothing
    assert!(!list_names_rule(" ,\t, ", "a", "b"));
    // an entry names a rule by its short name or its full id
    assert!(list_names_rule("q,vue/security/no-v-html,r", "no-v-html", "vue/security/no-v-html"));
    assert!(list_names_rule("no-v-html", "no-v-html", "vue/security/no-v-html"));
}

#[test]
fn dynamic_bind_spans_point_into_source_on_every_line() {
    let src = "<template>\n<img v-bind:src=\"a\"> é <img :src=\"b\">\n<a bind::src=\"c\"></template>";
    let mut ctx = ScanContext::new("one.vue".to_string(), src.to_string());
    parse_sfc(&mut ctx);
    let found = offsets(&NoDynamicBindSrc.check(&ctx));
    // the `:src` of `bind::src` is skipped
    assert_eq!(found.len(), 2);
    assert_eq!(&src[found[0]..found[0] + 10], "v-bind:src");
    assert_eq!(&src[found[1]..found[1] + 4], ":src");
    assert!(found[0] < found[1]);
}
