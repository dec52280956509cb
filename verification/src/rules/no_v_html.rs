//! `no-v-html`: the `v-html` directive renders raw HTML and invites XSS.
use vstd::prelude::*;

use crate::context::{ScanContext, SourceFile, Span};
use crate::parser::law_block_contents_located;
use crate::rules::{
    at_match, block_accepted, block_findings, block_spans, copy_source, lemma_scan_text_located,
    lemma_spans_relocated, scan_block, scanner_reports_matches, spans_at_matches,
    template_from_source, LineRule, LineScanner, Rule, RuleDiagnostic,
};
use crate::text::{
    byte_len, byte_len_between, chars_of, find_from, find_from_exec, lemma_byte_len_split,
    lemma_find_from, matches_at,
};

verus! {

/// A use of `v-html`.
#[derive(Debug)]
pub struct NoVHtmlViolation {
    pub src: SourceFile,
    pub span: Span,
}

/// Flags the first `v-html` on each template line.
pub struct NoVHtml;

/// The first `v-html` of line `l`, scanned at byte offset `base`.
pub open spec fn v_html_line(l: Seq<char>, base: int) -> Option<Seq<(int, int)>> {
    match find_from(l, "v-html"@, 0) {
        Some(p) => Some(seq![(base + byte_len(l.take(p)), 6int)]),
        None => Some(seq![]),
    }
}

pub open spec fn v_html_scanner() -> LineScanner {
    |l: Seq<char>, base: int| v_html_line(l, base)
}

/// The spans `no-v-html` reports for `ctx`.
pub open spec fn v_html_spans(ctx: ScanContext) -> Option<Seq<(int, int)>> {
    block_spans(NoVHtml, ctx.template, ctx.template_offset)
}

/// The diagnostics for `spans` in `src`.
pub open spec fn v_html_diagnostics(src: SourceFile, spans: Seq<(int, int)>) -> Seq<RuleDiagnostic> {
    spans.map_values(
        |p: (int, int)|
            RuleDiagnostic::VHtml(
                NoVHtmlViolation { src, span: Span { offset: p.0 as usize, len: p.1 as usize } },
            ),
    )
}

impl LineRule for NoVHtml {
    open spec fn scanner(&self) -> LineScanner {
        v_html_scanner()
    }

    open spec fn line_diagnostics(&self, src: SourceFile, spans: Seq<(int, int)>) -> Seq<
        RuleDiagnostic,
    > {
        v_html_diagnostics(src, spans)
    }

    proof fn lemma_line_diagnostics_append(
        &self,
        src: SourceFile,
        a: Seq<(int, int)>,
        b: Seq<(int, int)>,
    ) {
        assert(v_html_diagnostics(src, a + b) =~= v_html_diagnostics(src, a) + v_html_diagnostics(
            src,
            b,
        ));
    }

    proof fn lemma_line_diagnostics_spans(&self, src: SourceFile, spans: Seq<(int, int)>) {
    }

    fn push_line(&self, line: &Vec<char>, base: usize, src: &SourceFile, out: &mut Vec<RuleDiagnostic>) -> (ok: bool) {
        let pat = chars_of("v-html");
        let ghost l = line@;
        match find_from_exec(line, &pat, 0) {
            Some(p) => {
                proof {
                    lemma_find_from(l, pat@, 0);
                    lemma_byte_len_split(l, p as int);
                }
                let at = base + byte_len_between(line, 0, p);
                let d = RuleDiagnostic::VHtml(
                    NoVHtmlViolation { src: copy_source(src), span: Span { offset: at, len: 6 } },
                );
                out.push(d);
                proof {
                    assert(v_html_diagnostics(*src, seq![(at as int, 6int)]) =~= seq![d]);
                }
            },
            None => {
                proof {
                    assert(v_html_diagnostics(*src, seq![]) =~= Seq::<RuleDiagnostic>::empty());
                    assert(out@ =~= old(out)@ + Seq::<RuleDiagnostic>::empty());
                }
            },
        }
        true
    }
}

impl Rule for NoVHtml {
    open spec fn spec_name(&self) -> Seq<char> {
        "no-v-html"@
    }

    open spec fn spec_id(&self) -> Seq<char> {
        "vue/security/no-v-html"@
    }

    open spec fn spec_description(&self) -> Seq<char> {
        "Disallow usage of `v-html` directive to prevent XSS attacks"@
    }

    open spec fn accepts(&self, ctx: ScanContext) -> bool {
        block_accepted(*self, ctx.template, ctx.template_offset)
    }

    open spec fn findings(&self, ctx: ScanContext) -> Seq<RuleDiagnostic> {
        block_findings(*self, ctx.template, ctx.template_offset, ctx.named_source)
    }

    fn name(&self) -> (r: &'static str) {
        "no-v-html"
    }

    fn id(&self) -> (r: &'static str) {
        "vue/security/no-v-html"
    }

    fn description(&self) -> (r: &'static str) {
        "Disallow usage of `v-html` directive to prevent XSS attacks"
    }

    fn check(&self, ctx: &ScanContext) -> (r: Vec<RuleDiagnostic>) {
        match self.try_check(ctx) {
            Some(v) => v,
            None => Vec::new(),
        }
    }

    fn try_check(&self, ctx: &ScanContext) -> (r: Option<Vec<RuleDiagnostic>>) {
        scan_block(self, &ctx.template, ctx.template_offset, &ctx.named_source)
    }
}

/// `no-v-html` reports spans that start at a `v-html` of the line.
proof fn lemma_v_html_scanner_reports()
    ensures
        scanner_reports_matches(v_html_scanner(), seq!["v-html"@]),
{
    let pats = seq!["v-html"@];
    assert forall|l: Seq<char>, b: int| #[trigger]
        v_html_scanner()(l, b) is Some implies spans_at_matches(
        l,
        b,
        v_html_scanner()(l, b)->Some_0,
        pats,
    ) by {
        lemma_find_from(l, "v-html"@, 0);
        if let Some(p) = find_from(l, "v-html"@, 0) {
            assert(pats[0] == "v-html"@);
            assert(matches_at(l, p, pats[0]));
            assert(at_match(l, b, b + byte_len(l.take(p)), pats));
        }
    }
}

/// When the template was parsed out of the source, every span `no-v-html`
/// reports starts at a `v-html` of the source.
pub proof fn law_v_html_spans_point_into_source(ctx: ScanContext)
    requires
        template_from_source(ctx),
    ensures
        v_html_spans(ctx) matches Some(spans) ==> spans_at_matches(
            ctx.source@,
            0,
            spans,
            seq!["v-html"@],
        ),
{
    let t = ctx.template->Some_0;
    let offset = ctx.template_offset as int;
    lemma_v_html_scanner_reports();
    lemma_scan_text_located(t@, offset, 0, v_html_scanner(), seq!["v-html"@]);
    law_block_contents_located(ctx.source@, "template"@);
    if let Some(spans) = v_html_spans(ctx) {
        lemma_spans_relocated(ctx.source@, t@, offset, spans, seq!["v-html"@]);
    }
}

/// A template line whose first `v-html` starts at char index `p` yields
/// exactly one span: 6 bytes long, at the line's scan offset plus the byte
/// offset of that `v-html` in the line, whatever else the line holds. A line
/// without `v-html` yields none.
pub proof fn law_v_html_line(l: Seq<char>, b: int, p: int)
    ensures
        matches_at(l, p, "v-html"@) && (forall|j: int| 0 <= j < p ==> !matches_at(l, j, "v-html"@))
            ==> NoVHtml.scanner()(l, b) == Some(seq![(b + byte_len(l.take(p)), 6int)]),
        (forall|j: int| !matches_at(l, j, "v-html"@)) ==> NoVHtml.scanner()(l, b) == Some(
            Seq::<(int, int)>::empty(),
        ),
{
    lemma_find_from(l, "v-html"@, 0);
    if let Some(k) = find_from(l, "v-html"@, 0) {
        if matches_at(l, p, "v-html"@) && (forall|j: int| 0 <= j < p ==> !matches_at(l, j, "v-html"@)) {
            assert(k == p);
        }
        assert(matches_at(l, k, "v-html"@));
    }
}

} // verus!
