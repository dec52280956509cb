//! `no-watch-with-callback`: a `watch(...)` call with a callback can leak if never stopped.
use vstd::prelude::*;

use crate::context::{ScanContext, SourceFile, Span};
use crate::parser::law_block_contents_located;
use crate::rules::{
    at_match, block_accepted, block_findings, block_spans, copy_source, lemma_scan_text_located,
    lemma_spans_relocated, scan_block, scanner_reports_matches, script_from_source,
    spans_at_matches, LineRule, LineScanner, Rule, RuleDiagnostic,
};
use crate::text::{
    byte_len, byte_len_between, chars_of, find_from, find_from_exec, lemma_byte_len_split,
    lemma_find_from, lemma_skip_ws, lemma_skip_ws_back, matches_at, matches_at_exec, skip_ws,
    skip_ws_back, starts_with, trim, trim_exec, is_whitespace,
};

verus! {

/// A `watch(` call at the start of a script line.
#[derive(Debug)]
pub struct NoWatchWithCallbackViolation {
    pub src: SourceFile,
    pub span: Span,
}

/// Flags each script line that, once trimmed, starts with `watch(`.
pub struct NoWatchWithCallback;

/// Line `l`, scanned at byte offset `base`: if it starts with `watch(` after
/// leading whitespace, the span of its first `watch(`.
pub open spec fn watch_line(l: Seq<char>, base: int) -> Option<Seq<(int, int)>> {
    if starts_with(trim(l), "watch("@) {
        let at = match find_from(l, "watch("@, 0) {
            Some(p) => p,
            None => 0,
        };
        Some(seq![(base + byte_len(l.take(at)), 6int)])
    } else {
        Some(seq![])
    }
}

pub open spec fn watch_scanner() -> LineScanner {
    |l: Seq<char>, base: int| watch_line(l, base)
}

/// The spans `no-watch-with-callback` reports for `ctx`.
pub open spec fn watch_spans(ctx: ScanContext) -> Option<Seq<(int, int)>> {
    block_spans(NoWatchWithCallback, ctx.script, ctx.script_offset)
}

/// The diagnostics for `spans` in `src`.
pub open spec fn watch_diagnostics(src: SourceFile, spans: Seq<(int, int)>) -> Seq<RuleDiagnostic> {
    spans.map_values(
        |p: (int, int)|
            RuleDiagnostic::WatchWithCallback(
                NoWatchWithCallbackViolation { src, span: Span { offset: p.0 as usize, len: p.1 as usize } },
            ),
    )
}

impl LineRule for NoWatchWithCallback {
    open spec fn scanner(&self) -> LineScanner {
        watch_scanner()
    }

    open spec fn line_diagnostics(&self, src: SourceFile, spans: Seq<(int, int)>) -> Seq<
        RuleDiagnostic,
    > {
        watch_diagnostics(src, spans)
    }

    proof fn lemma_line_diagnostics_append(
        &self,
        src: SourceFile,
        a: Seq<(int, int)>,
        b: Seq<(int, int)>,
    ) {
        assert(watch_diagnostics(src, a + b) =~= watch_diagnostics(src, a) + watch_diagnostics(
            src,
            b,
        ));
    }

    proof fn lemma_line_diagnostics_spans(&self, src: SourceFile, spans: Seq<(int, int)>) {
    }

    fn push_line(&self, line: &Vec<char>, base: usize, src: &SourceFile, out: &mut Vec<RuleDiagnostic>) -> (ok: bool) {
        let pat = chars_of("watch(");
        let ghost l = line@;
        let trimmed = trim_exec(line);
        if matches_at_exec(&trimmed, 0, &pat) {
            let at_char = match find_from_exec(line, &pat, 0) {
                Some(p) => p,
                None => 0,
            };
            proof {
                lemma_find_from(l, pat@, 0);
                lemma_byte_len_split(l, at_char as int);
            }
            let at = base + byte_len_between(line, 0, at_char);
            let d = RuleDiagnostic::WatchWithCallback(
                NoWatchWithCallbackViolation {
                    src: copy_source(src),
                    span: Span { offset: at, len: 6 },
                },
            );
            out.push(d);
            proof {
                assert(watch_diagnostics(*src, seq![(at as int, 6int)]) =~= seq![d]);
            }
        } else {
            proof {
                assert(watch_diagnostics(*src, seq![]) =~= Seq::<RuleDiagnostic>::empty());
                assert(out@ =~= old(out)@ + Seq::<RuleDiagnostic>::empty());
            }
        }
        true
    }
}

impl Rule for NoWatchWithCallback {
    open spec fn spec_name(&self) -> Seq<char> {
        "no-watch-with-callback"@
    }

    open spec fn spec_id(&self) -> Seq<char> {
        "vue/best-practices/no-watch-with-callback"@
    }

    open spec fn spec_description(&self) -> Seq<char> {
        "Warn about `watch` usage with callbacks that may cause memory leaks"@
    }

    open spec fn accepts(&self, ctx: ScanContext) -> bool {
        block_accepted(*self, ctx.script, ctx.script_offset)
    }

    open spec fn findings(&self, ctx: ScanContext) -> Seq<RuleDiagnostic> {
        block_findings(*self, ctx.script, ctx.script_offset, ctx.named_source)
    }

    fn name(&self) -> (r: &'static str) {
        "no-watch-with-callback"
    }

    fn id(&self) -> (r: &'static str) {
        "vue/best-practices/no-watch-with-callback"
    }

    fn description(&self) -> (r: &'static str) {
        "Warn about `watch` usage with callbacks that may cause memory leaks"
    }

    fn check(&self, ctx: &ScanContext) -> (r: Vec<RuleDiagnostic>) {
        match self.try_check(ctx) {
            Some(v) => v,
            None => Vec::new(),
        }
    }

    fn try_check(&self, ctx: &ScanContext) -> (r: Option<Vec<RuleDiagnostic>>) {
        scan_block(self, &ctx.script, ctx.script_offset, &ctx.named_source)
    }
}

/// `no-watch-with-callback` reports spans that start at a `watch(` of the line.
proof fn lemma_watch_scanner_reports()
    ensures
        scanner_reports_matches(watch_scanner(), seq!["watch("@]),
{
    let pats = seq!["watch("@];
    assert forall|l: Seq<char>, b: int| #[trigger]
        watch_scanner()(l, b) is Some implies spans_at_matches(
        l,
        b,
        watch_scanner()(l, b)->Some_0,
        pats,
    ) by {
        if starts_with(trim(l), "watch("@) {
            reveal_strlit("watch(");
            lemma_skip_ws(l, 0);
            lemma_skip_ws_back(l, l.len() as int);
            let a = skip_ws(l, 0);
            let e = skip_ws_back(l, l.len() as int);
            assert(a < e);
            assert(l.subrange(a, a + 6) =~= trim(l).subrange(0, 6));
            assert(matches_at(l, a, "watch("@));
            lemma_find_from(l, "watch("@, 0);
            let p = find_from(l, "watch("@, 0)->Some_0;
            assert(pats[0] == "watch("@);
            assert(matches_at(l, p, pats[0]));
            assert(at_match(l, b, b + byte_len(l.take(p)), pats));
        }
    }
}

/// When the script was parsed out of the source, every span
/// `no-watch-with-callback` reports starts at a `watch(` of the source.
pub proof fn law_watch_spans_point_into_source(ctx: ScanContext)
    requires
        script_from_source(ctx),
    ensures
        watch_spans(ctx) matches Some(spans) ==> spans_at_matches(
            ctx.source@,
            0,
            spans,
            seq!["watch("@],
        ),
{
    let t = ctx.script->Some_0;
    let offset = ctx.script_offset as int;
    lemma_watch_scanner_reports();
    lemma_scan_text_located(t@, offset, 0, watch_scanner(), seq!["watch("@]);
    law_block_contents_located(ctx.source@, "script"@);
    if let Some(spans) = watch_spans(ctx) {
        lemma_spans_relocated(ctx.source@, t@, offset, spans, seq!["watch("@]);
    }
}

/// A script line that is whitespace up to char index `k` and then `watch(`
/// yields exactly one span: 6 bytes long, at the line's scan offset plus the
/// byte offset of that `watch(`, whatever follows it on the line.
pub proof fn law_watch_line(l: Seq<char>, b: int, k: int)
    requires
        forall|j: int| 0 <= j < k ==> is_whitespace(l[j]),
        matches_at(l, k, "watch("@),
    ensures
        NoWatchWithCallback.scanner()(l, b) == Some(seq![(b + byte_len(l.take(k)), 6int)]),
{
    reveal_strlit("watch(");
    assert(l[k] == l.subrange(k, k + 6)[0]);
    assert(l[k + 5] == l.subrange(k, k + 6)[5]);
    assert(!is_whitespace(l[k]));
    assert(!is_whitespace(l[k + 5]));
    lemma_skip_ws(l, 0);
    let a = skip_ws(l, 0);
    assert(a == k) by {
        if a < k {
            assert(is_whitespace(l[a]));
        }
        if a > k {
            assert(is_whitespace(l[k]));
        }
    }
    lemma_skip_ws_back(l, l.len() as int);
    let e = skip_ws_back(l, l.len() as int);
    assert(e >= k + 6) by {
        if e < k + 6 {
            assert(is_whitespace(l[k + 5]));
        }
    }
    assert(trim(l) == l.subrange(k, e));
    assert(trim(l).subrange(0, 6) =~= l.subrange(k, k + 6));
    assert(starts_with(trim(l), "watch("@));
    lemma_find_from(l, "watch("@, 0);
    let f = find_from(l, "watch("@, 0)->Some_0;
    assert(f == k) by {
        if f < k {
            assert(l[f] == l.subrange(f, f + 6)[0]);
            assert(is_whitespace(l[f]));
        }
    }
}

/// A script line in which no `watch(` follows only whitespace yields no
/// span.
pub proof fn law_other_line_no_watch(l: Seq<char>, b: int)
    requires
        forall|k: int|
            matches_at(l, k, "watch("@) ==> exists|j: int| 0 <= j < k && !is_whitespace(#[trigger] l[j]),
    ensures
        NoWatchWithCallback.scanner()(l, b) == Some(Seq::<(int, int)>::empty()),
{
    reveal_strlit("watch(");
    lemma_skip_ws(l, 0);
    lemma_skip_ws_back(l, l.len() as int);
    let a = skip_ws(l, 0);
    let e = skip_ws_back(l, l.len() as int);
    if starts_with(trim(l), "watch("@) {
        assert(a < e);
        assert(l.subrange(a, a + 6) =~= trim(l).subrange(0, 6));
        assert(matches_at(l, a, "watch("@));
        let j = choose|j: int| 0 <= j < a && !is_whitespace(#[trigger] l[j]);
        assert(is_whitespace(l[j]));
    }
}

} // verus!
