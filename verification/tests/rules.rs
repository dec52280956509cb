use vue_scanner::context::{ScanContext, Span};
use vue_scanner::rules::no_dynamic_bind::NoDynamicBindSrc;
use vue_scanner::rules::no_inline_styles::NoInlineStyle;
use vue_scanner::rules::no_v_html::NoVHtml;
use vue_scanner::rules::no_watch_with_callback::NoWatchWithCallback;
use vue_scanner::rules::{Rule, RuleDiagnostic, RuleKind, RuleRegistry, Severity};

fn make_ctx(template: &str) -> ScanContext {
    let mut ctx = ScanContext::new("test.vue".to_string(), template.to_string());
    ctx.template = Some(template.to_string());
    ctx
}

fn make_script_ctx(script: &str) -> ScanContext {
    let mut ctx = ScanContext::new("test.vue".to_string(), script.to_string());
    ctx.script = Some(script.to_string());
    ctx
}

fn spans(found: &[RuleDiagnostic]) -> Vec<(usize, usize)> {
    found
        .iter()
        .map(|d| {
            let s: Span = match d {
                RuleDiagnostic::VHtml(v) => v.span,
                RuleDiagnostic::DynamicBindSrc(v) => v.span,
                RuleDiagnostic::InlineStyle(v) => v.span,
                RuleDiagnostic::WatchWithCallback(v) => v.span,
            };
            (s.offset, s.len)
        })
        .collect()
}

// no-dynamic-bind-src

#[test]
fn no_dynamic_bind_test_clean() {
    let ctx = make_ctx("<template><img src=\"logo.png\"></template>");
    let rule = NoDynamicBindSrc;
    assert!(rule.check(&ctx).is_empty());
}

#[test]
fn test_violation_v_bind_src() {
    let ctx = make_ctx("<template><img v-bind:src=\"url\"></template>");
    let rule = NoDynamicBindSrc;
    assert_eq!(rule.check(&ctx).len(), 1);
}

#[test]
fn test_violation_short_src() {
    let ctx = make_ctx("<template><img :src=\"url\"></template>");
    let rule = NoDynamicBindSrc;
    assert_eq!(rule.check(&ctx).len(), 1);
}

#[test]
fn dynamic_bind_spans_point_at_bindings() {
    let mut ctx = make_ctx("<a :src=\"x\">\n<b v-bind:src=\"y\" :src=\"z\">");
    ctx.template_offset = 100;
    let found = NoDynamicBindSrc.check(&ctx);
    assert_eq!(spans(&found), vec![(103, 4), (116, 10), (131, 4)]);
}

#[test]
fn dynamic_bind_on_a_later_line() {
    let ctx = make_ctx("<div>\n<img :src='u'>");
    assert_eq!(spans(&NoDynamicBindSrc.check(&ctx)), vec![(11, 4)]);
}

#[test]
fn dynamic_bind_bare_src_before_v_bind_src() {
    let ctx = make_ctx("<img :src='a'><img v-bind:src='b'>");
    assert_eq!(spans(&NoDynamicBindSrc.check(&ctx)), vec![(5, 4), (19, 10)]);
}

#[test]
fn dynamic_bind_skips_bind_prefixed_src() {
    // the five bytes before the `:src` at byte 6 read "bind:"
    let ctx = make_ctx("xbind::src");
    assert!(NoDynamicBindSrc.check(&ctx).is_empty());
    // before byte 6 the check does not apply
    let ctx = make_ctx("bind::src");
    assert_eq!(spans(&NoDynamicBindSrc.check(&ctx)), vec![(5, 4)]);
    // the five bytes before the colon of "bind:src" are not "bind:"
    let ctx = make_ctx("<xxxxbind:src>");
    assert_eq!(spans(&NoDynamicBindSrc.check(&ctx)), vec![(9, 4)]);
    // a `v-bind:src` is reported whole, its `:src` once
    let ctx = make_ctx("v-bind:src v-bind:src:src");
    assert_eq!(spans(&NoDynamicBindSrc.check(&ctx)), vec![(0, 10), (11, 10), (21, 4)]);
}

#[test]
fn dynamic_bind_refuses_split_characters() {
    // the five bytes before `:src` start inside the two-byte "é"
    let ctx = make_ctx("aaéeeee:src");
    assert!(NoDynamicBindSrc.try_check(&ctx).is_none());
    let ctx = make_ctx("aaéeee:src");
    assert_eq!(spans(&NoDynamicBindSrc.check(&ctx)), vec![(7, 4)]);
    let ctx = make_ctx("é\r\n<b :src=x>");
    assert_eq!(spans(&NoDynamicBindSrc.check(&ctx)), vec![(7, 4)]);
}

// no-inline-style

#[test]
fn no_inline_styles_test_clean() {
    let ctx = make_ctx("<template><div class=\"box\">Hello</div></template>");
    let rule = NoInlineStyle;
    assert!(rule.check(&ctx).is_empty());
}

#[test]
fn test_violation_static() {
    let ctx = make_ctx("<template><div style=\"color: red\">Hello</div></template>");
    let rule = NoInlineStyle;
    assert!(!rule.check(&ctx).is_empty());
}

#[test]
fn test_violation_dynamic() {
    let ctx = make_ctx("<template><div :style=\"styles\">Hello</div></template>");
    let rule = NoInlineStyle;
    assert!(!rule.check(&ctx).is_empty());
}

#[test]
fn inline_style_spans_in_pattern_order() {
    let ctx = make_ctx("<a :style=\"s\" style='t'>\n<b style=\"u\">");
    let found = NoInlineStyle.check(&ctx);
    // `:style="` also contains `style="`
    assert_eq!(spans(&found), vec![(4, 8), (14, 8), (3, 9), (28, 8)]);
}

#[test]
fn inline_style_refuses_unsliceable_resumption() {
    // a match at the very end of the line
    assert!(NoInlineStyle.try_check(&make_ctx("<div style=\"")).is_none());
    // a match followed by a two-byte character
    assert!(NoInlineStyle.try_check(&make_ctx("<div style=\"é\">")).is_none());
    assert!(NoInlineStyle.try_check(&make_ctx("<div style=\"e\">")).is_some());
}

// no-v-html

#[test]
fn test_no_v_html_clean() {
    let ctx = make_ctx("<template><div>Hello</div></template>");
    let rule = NoVHtml;
    assert!(rule.check(&ctx).is_empty());
}

#[test]
fn test_no_v_html_violation() {
    let ctx = make_ctx("<template><div v-html=\"raw\"></div></template>");
    let rule = NoVHtml;
    assert_eq!(rule.check(&ctx).len(), 1);
}

#[test]
fn v_html_reports_first_per_line_with_offsets() {
    let mut ctx = make_ctx("<p v-html=a v-html=b>\r\n<é v-html=c>\n");
    ctx.template_offset = 7;
    let found = NoVHtml.check(&ctx);
    // the second line starts after the "\r\n"
    assert_eq!(spans(&found), vec![(10, 6), (7 + 23 + 4, 6)]);
    match &found[0] {
        RuleDiagnostic::VHtml(v) => {
            assert_eq!(v.src.name, "test.vue");
            assert_eq!(v.src.text, ctx.source);
        }
        _ => panic!("wrong diagnostic"),
    }
}

#[test]
fn v_html_without_template_is_clean() {
    let ctx = ScanContext::new("test.vue".to_string(), "v-html".to_string());
    assert!(NoVHtml.check(&ctx).is_empty());
}

// no-watch-with-callback

#[test]
fn no_watch_with_callback_test_clean() {
    let ctx =
        make_script_ctx("<script setup>\nimport { ref } from 'vue'\nconst count = ref(0)\n</script>");
    let rule = NoWatchWithCallback;
    assert!(rule.check(&ctx).is_empty());
}

#[test]
fn test_violation() {
    let ctx =
        make_script_ctx("<script setup>\nwatch(count, (newVal) => { console.log(newVal) })\n</script>");
    let rule = NoWatchWithCallback;
    assert_eq!(rule.check(&ctx).len(), 1);
}

#[test]
fn watch_offsets_and_indentation() {
    let mut ctx = make_script_ctx("a\n  watch(x)\nfoo(watch(y))\n\twatch(z)");
    ctx.script_offset = 5;
    let found = NoWatchWithCallback.check(&ctx);
    assert_eq!(spans(&found), vec![(5 + 2 + 2, 6), (5 + 2 + 11 + 14 + 1, 6)]);
}

// registry

#[test]
fn registry_lists_rules_in_order() {
    let reg = RuleRegistry::new();
    let names: Vec<&str> = reg.get_all().iter().map(|r| r.name()).collect();
    assert_eq!(
        names,
        vec!["no-v-html", "no-dynamic-bind-src", "no-inline-style", "no-watch-with-callback"]
    );
    assert_eq!(
        reg.get_all()[0].description(),
        "Disallow usage of `v-html` directive to prevent XSS attacks"
    );
}

#[test]
fn registry_finds_rules_by_name() {
    let reg = RuleRegistry::default();
    assert_eq!(reg.get_by_name("no-inline-style"), Some(RuleKind::InlineStyle));
    assert_eq!(reg.get_by_name("no-such-rule"), None);
    assert_eq!(reg.get_by_name("vue/security/no-v-html"), None);
}

#[test]
fn registry_selects_enabled_rules() {
    let reg = RuleRegistry::new();
    assert_eq!(reg.get_enabled(&[]).len(), 4);
    let picked = reg.get_enabled(&[
        "no-watch-with-callback".to_string(),
        "unknown".to_string(),
        "no-v-html".to_string(),
    ]);
    assert_eq!(picked, vec![RuleKind::VHtml, RuleKind::WatchWithCallback]);
    assert!(reg.get_enabled(&["x".to_string()]).is_empty());
}

#[test]
fn registry_selects_rules_by_full_id() {
    let reg = RuleRegistry::new();
    let picked = reg.get_enabled(&["vue/security/no-v-html".to_string()]);
    assert_eq!(picked.iter().map(|r| r.name()).collect::<Vec<_>>(), vec!["no-v-html"]);
    let picked = reg.get_enabled(&[
        "vue/best-practices/no-watch-with-callback".to_string(),
        "no-dynamic-bind-src".to_string(),
    ]);
    assert_eq!(picked, vec![RuleKind::DynamicBindSrc, RuleKind::WatchWithCallback]);
}

#[test]
fn rule_ids() {
    let ids: Vec<&str> = RuleRegistry::new().get_all().iter().map(|r| r.id()).collect();
    assert_eq!(
        ids,
        vec![
            "vue/security/no-v-html",
            "vue/security/no-dynamic-bind-src",
            "vue/performance/no-inline-style",
            "vue/best-practices/no-watch-with-callback"
        ]
    );
}

#[test]
fn diagnostic_severities_and_spans() {
    let ctx = make_ctx("<div v-html=\"x\" style=\"a\" :src=\"b\">");
    let d = NoVHtml.check(&ctx);
    assert_eq!(d[0].severity(), Severity::Warning);
    assert_eq!(d[0].span(), Span { offset: 5, len: 6 });
    assert_eq!(NoDynamicBindSrc.check(&ctx)[0].severity(), Severity::Warning);
    assert_eq!(NoInlineStyle.check(&ctx)[0].severity(), Severity::Advice);
    let sctx = make_script_ctx("watch(a, f)");
    assert_eq!(NoWatchWithCallback.check(&sctx)[0].severity(), Severity::Advice);
}

#[test]
fn rule_kind_dispatches_to_rules() {
    let ctx = make_ctx("<div v-html=\"x\" style=\"a\">");
    assert_eq!(RuleKind::VHtml.check(&ctx).len(), 1);
    assert_eq!(RuleKind::InlineStyle.check(&ctx).len(), 1);
    assert_eq!(RuleKind::DynamicBindSrc.check(&ctx).len(), 0);
    assert_eq!(RuleKind::WatchWithCallback.check(&ctx).len(), 0);
}
