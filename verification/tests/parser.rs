use vue_scanner::context::{ScanContext, ScriptLang};
use vue_scanner::parser::{detect_lang, extract_block, parse_sfc, tag_name, BlockKind};

#[test]
fn test_parse_template_and_script() {
    let source = r#"<template>
  <div v-html="raw">Hello</div>
</template>

<script setup lang="ts">
import { ref } from 'vue'
const count = ref(0)
</script>"#;
    let mut ctx = ScanContext::new("test.vue".to_string(), source.to_string());
    parse_sfc(&mut ctx);

    assert!(ctx.template.is_some());
    assert!(ctx.script.is_some());
    assert_eq!(ctx.lang, ScriptLang::TypeScript);
}

#[test]
fn test_parse_no_script() {
    let source = r#"<template>
  <div>Hello</div>
</template>"#;
    let mut ctx = ScanContext::new("test.vue".to_string(), source.to_string());
    parse_sfc(&mut ctx);

    assert!(ctx.template.is_some());
    assert!(ctx.script.is_none());
}

#[test]
fn parse_records_trimmed_contents_and_offsets() {
    let source = "<template>\n  <div>Hi</div>\n</template>\n<script>\n  let a = 1\n</script>";
    let mut ctx = ScanContext::new("a.vue".to_string(), source.to_string());
    parse_sfc(&mut ctx);
    assert_eq!(ctx.template.as_deref(), Some("<div>Hi</div>"));
    assert_eq!(ctx.template_offset, 13);
    assert_eq!(&source[13..13 + 13], "<div>Hi</div>");
    assert_eq!(ctx.script.as_deref(), Some("let a = 1"));
    assert_eq!(&source[ctx.script_offset..ctx.script_offset + 9], "let a = 1");
    assert_eq!(ctx.lang, ScriptLang::JavaScript);
}

#[test]
fn parse_leaves_context_when_blocks_are_missing() {
    let mut ctx = ScanContext::new("a.vue".to_string(), "<template><div>".to_string());
    parse_sfc(&mut ctx);
    assert!(ctx.template.is_none());
    assert!(ctx.script.is_none());
    assert_eq!(ctx.lang, ScriptLang::Unknown);
    assert_eq!(ctx.template_offset, 0);
}

#[test]
fn extract_block_reports_byte_offsets() {
    let html = "é<style scoped> a {} </style>";
    let (attrs, content, open, offset) = extract_block(html, BlockKind::Style).unwrap();
    assert_eq!(attrs, " scoped");
    assert_eq!(content, "a {}");
    assert_eq!(open, 2);
    assert_eq!(offset, 17);
    assert_eq!(&html[offset..offset + 4], "a {}");
    assert!(extract_block(html, BlockKind::Script).is_none());
}

#[test]
fn extract_block_with_blank_contents() {
    let (_, content, _, offset) = extract_block("<script>  \n </script>", BlockKind::Script).unwrap();
    assert_eq!(content, "");
    assert_eq!(offset, 12);
}

#[test]
fn detect_lang_forms() {
    assert_eq!(detect_lang(" setup lang=\"ts\""), ScriptLang::TypeScript);
    assert_eq!(detect_lang(" lang='typescript'"), ScriptLang::TypeScript);
    assert_eq!(detect_lang(" lang=\"tsx\""), ScriptLang::JavaScript);
    assert_eq!(detect_lang(""), ScriptLang::JavaScript);
}

#[test]
fn tag_names() {
    assert_eq!(tag_name(BlockKind::Template), "template");
    assert_eq!(tag_name(BlockKind::Script), "script");
    assert_eq!(tag_name(BlockKind::Style), "style");
}

#[test]
fn new_context_is_empty() {
    let ctx = ScanContext::new("f.vue".to_string(), "src".to_string());
    assert_eq!(ctx.file_path, "f.vue");
    assert_eq!(ctx.source, "src");
    assert_eq!(ctx.named_source.name, "f.vue");
    assert_eq!(ctx.named_source.text, "src");
    assert!(ctx.template.is_none() && ctx.script.is_none());
    assert_eq!(ctx.lang, ScriptLang::Unknown);
    assert_eq!((ctx.template_offset, ctx.script_offset), (0, 0));
}
