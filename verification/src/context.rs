//! The per-file scanning context.
use vstd::prelude::*;

verus! {

/// Language of a component's `<script>` block.
#[derive(Debug, Clone, Copy, PartialEq, Eq, Structural)]
pub enum ScriptLang {
    JavaScript,
    TypeScript,
    Unknown,
}

/// A source text together with the name diagnostics show for it.
#[derive(Debug, Clone)]
pub struct SourceFile {
    pub name: String,
    pub text: String,
}

/// A byte range of a source text: `len` bytes starting at byte `offset`.
#[derive(Debug, Clone, Copy, PartialEq, Eq, Structural)]
pub struct Span {
    pub offset: usize,
    pub len: usize,
}

/// Everything the rules look at for one `.vue` file: the whole source and,
/// once parsed, the contents of its `<template>` and `<script>` blocks with
/// the byte offsets at which those contents start in the source.
#[derive(Debug, Clone)]
pub struct ScanContext {
    pub file_path: String,
    pub source: String,
    pub named_source: SourceFile,
    pub template: Option<String>,
    pub script: Option<String>,
    pub lang: ScriptLang,
    pub template_offset: usize,
    pub script_offset: usize,
}

impl ScanContext {
    /// A context for `source`, read from `file_path`, with no blocks parsed yet.
    pub fn new(file_path: String, source: String) -> (r: Self)
        ensures
            r.file_path == file_path,
            r.source == source,
            r.named_source == (SourceFile { name: file_path, text: source }),
            r.template is None,
            r.script is None,
            r.lang == ScriptLang::Unknown,
            r.template_offset == 0,
            r.script_offset == 0,
    {
        let named_source = SourceFile { name: file_path.clone(), text: source.clone() };
        ScanContext {
            file_path,
            source,
            named_source,
            template: None,
            script: None,
            lang: ScriptLang::Unknown,
            template_offset: 0,
            script_offset: 0,
        }
    }
}

} // verus!
