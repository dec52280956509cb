//! `no-inline-style`: inline `style` attributes in templates.
use vstd::prelude::*;

use crate::context::{ScanContext, SourceFile, Span};
use crate::parser::law_block_contents_located;
use crate::rules::{
    at_match, block_accepted, block_findings, block_spans, copy_source, lemma_prepend_spans_assoc,
    lemma_scan_text_located, lemma_spans_at_matches_append, lemma_spans_relocated, prepend_spans,
    scan_block, scanner_reports_matches, spans_at_matches, template_from_source, LineRule,
    LineScanner, Rule, RuleDiagnostic,
};
use crate::text::{
    byte_len, byte_len_between, char_index_at, char_index_of_byte, chars_of, find_from,
    find_from_exec, is_boundary, lemma_byte_len_split, lemma_byte_len_take_mono, lemma_find_from,
    matches_at,
};

verus! {

/// An inline `style` attribute.
#[derive(Debug)]
pub struct NoInlineStyleViolation {
    pub src: SourceFile,
    pub span: Span,
}

/// Flags every `style="`, `style='`, `:style="` and `:style='` in the template.
pub struct NoInlineStyle;

/// The char indices at which `l` is searched for `pat` from index `from` on.
/// After a match at `p` the search resumes `pat.len() + 1` bytes after the
/// match's first byte (one byte past the pattern); `None` when that offset is
/// not on a character boundary of `l` (a match at the very end of the line,
/// or one followed by a multi-byte character).
pub open spec fn style_matches(l: Seq<char>, pat: Seq<char>, from: int) -> Option<Seq<int>>
    decreases l.len() + 1 - from
    via style_matches_decreases
{
    match find_from(l, pat, from) {
        None => Some(seq![]),
        Some(p) => {
            let next = (byte_len(l.take(p)) + pat.len() + 1) as int;
            if is_boundary(l, next) {
                match style_matches(l, pat, char_index_at(l, next)) {
                    Some(rest) => Some(seq![p] + rest),
                    None => None,
                }
            } else {
                None
            }
        },
    }
}

#[via_fn]
proof fn style_matches_decreases(l: Seq<char>, pat: Seq<char>, from: int) {
    if from >= 0 {
        lemma_find_from(l, pat, from);
        if let Some(p) = find_from(l, pat, from) {
            let next = (byte_len(l.take(p)) + pat.len() + 1) as int;
            if is_boundary(l, next) {
                let k = char_index_at(l, next);
                if k <= p {
                    lemma_byte_len_take_mono(l, k, p);
                }
            }
        }
    }
}

/// The spans of `pat` in line `l` scanned at byte offset `base`; each is
/// `pat.len() + 1` bytes long.
pub open spec fn style_spans(l: Seq<char>, pat: Seq<char>, base: int) -> Option<Seq<(int, int)>> {
    match style_matches(l, pat, 0) {
        Some(ps) => Some(
            ps.map_values(|p: int| (base + byte_len(l.take(p)), pat.len() + 1int)),
        ),
        None => None,
    }
}

/// Both scans' spans, in order, when both are defined.
pub open spec fn concat_spans(a: Option<Seq<(int, int)>>, b: Option<Seq<(int, int)>>) -> Option<
    Seq<(int, int)>,
> {
    match (a, b) {
        (Some(x), Some(y)) => Some(x + y),
        _ => None,
    }
}

/// The inline-style spans of line `l` scanned at byte offset `base`: all
/// matches of each of the four patterns, pattern by pattern.
pub open spec fn inline_style_line(l: Seq<char>, base: int) -> Option<Seq<(int, int)>> {
    concat_spans(
        concat_spans(
            concat_spans(style_spans(l, "style=\""@, base), style_spans(l, "style='"@, base)),
            style_spans(l, ":style=\""@, base),
        ),
        style_spans(l, ":style='"@, base),
    )
}

pub open spec fn inline_style_scanner() -> LineScanner {
    |l: Seq<char>, base: int| inline_style_line(l, base)
}

/// The spans `no-inline-style` reports for `ctx`.
pub open spec fn inline_style_spans(ctx: ScanContext) -> Option<Seq<(int, int)>> {
    block_spans(NoInlineStyle, ctx.template, ctx.template_offset)
}

/// The diagnostics for `spans` in `src`.
pub open spec fn inline_style_diagnostics(src: SourceFile, spans: Seq<(int, int)>) -> Seq<
    RuleDiagnostic,
> {
    spans.map_values(
        |p: (int, int)|
            RuleDiagnostic::InlineStyle(
                NoInlineStyleViolation {
                    src,
                    span: Span { offset: p.0 as usize, len: p.1 as usize },
                },
            ),
    )
}

/// Char indices of the matches of `pat` in `l` (see `style_matches`), or
/// `None` where that scan is undefined.
fn style_positions(l: &Vec<char>, pat: &Vec<char>) -> (r: Option<Vec<usize>>)
    requires
        byte_len(l@) <= usize::MAX,
    ensures
        r is Some <==> style_matches(l@, pat@, 0) is Some,
        r matches Some(v) ==> v@.map_values(|p: usize| p as int) == style_matches(
            l@,
            pat@,
            0,
        ).unwrap() && forall|i: int| 0 <= i < v.len() ==> v@[i] <= l.len(),
{
    let mut r: Vec<usize> = Vec::new();
    let mut from: usize = 0;
    loop
        invariant
            byte_len(l@) <= usize::MAX,
            from <= l.len(),
            style_matches(l@, pat@, 0) == prepend_spans(
                r@.map_values(|p: usize| p as int),
                style_matches(l@, pat@, from as int),
            ),
            forall|i: int| 0 <= i < r.len() ==> r@[i] <= l.len(),
        decreases l.len() + 1 - from,
    {
        match find_from_exec(l, pat, from) {
            None => {
                assert(r@.map_values(|p: usize| p as int) + Seq::<int>::empty() =~= r@.map_values(
                    |p: usize| p as int,
                ));
                return Some(r);
            },
            Some(p) => {
                proof {
                    lemma_find_from(l@, pat@, from as int);
                    lemma_byte_len_split(l@, p as int);
                }
                let at = byte_len_between(l, 0, p);
                let next = match at.checked_add(pat.len()) {
                    Some(x) => x.checked_add(1),
                    None => None,
                };
                let next = match next {
                    Some(x) => x,
                    None => {
                        proof {
                            assert(!is_boundary(l@, byte_len(l@.take(p as int)) + pat.len() + 1))
                                by {
                                if is_boundary(l@, byte_len(l@.take(p as int)) + pat.len() + 1) {
                                    let k = char_index_at(
                                        l@,
                                        byte_len(l@.take(p as int)) + pat.len() + 1,
                                    );
                                    lemma_byte_len_take_mono(l@, k, l.len() as int);
                                    assert(l@.take(l.len() as int) =~= l@);
                                }
                            }
                        }
                        return None;
                    },
                };
                let k = match char_index_of_byte(l, next) {
                    Some(k) => k,
                    None => {
                        return None;
                    },
                };
                proof {
                    lemma_byte_len_take_mono(l@, if k <= p { k as int } else { p as int }, if k
                        <= p {
                        p as int
                    } else {
                        k as int
                    });
                    let ghost old = r@.map_values(|q: usize| q as int);
                    assert((r@.push(p)).map_values(|q: usize| q as int) =~= old.push(p as int));
                    lemma_prepend_spans_assoc(
                        old,
                        seq![p as int],
                        style_matches(l@, pat@, k as int),
                    );
                    assert(old + seq![p as int] =~= old.push(p as int));
                }
                r.push(p);
                from = k;
            },
        }
    }
}

/// Appends to `out` the diagnostics for the matches of `pat` in `line`,
/// scanned at byte offset `base`.
fn push_style_diagnostics(
    line: &Vec<char>,
    pat: &Vec<char>,
    base: usize,
    src: &SourceFile,
    out: &mut Vec<RuleDiagnostic>,
)
    -> (ok: bool)
    requires
        base + byte_len(line@) <= usize::MAX,
        pat.len() < 16,
    ensures
        ok == style_spans(line@, pat@, base as int) is Some,
        ok ==> final(out)@ == old(out)@ + inline_style_diagnostics(
            *src,
            style_spans(line@, pat@, base as int).unwrap(),
        ),
{
    proof {
        lemma_byte_len_split(line@, line.len() as int);
        assert(line@.take(line.len() as int) =~= line@);
    }
    let ps = match style_positions(line, pat) {
        Some(ps) => ps,
        None => return false,
    };
    let ghost spans = style_spans(line@, pat@, base as int).unwrap();
    let ghost start = old(out)@;
    let ghost ms = style_matches(line@, pat@, 0).unwrap();
    assert(ms.len() == ps.len());
    let mut j: usize = 0;
    while j < ps.len()
        invariant
            base + byte_len(line@) <= usize::MAX,
            pat.len() < 16,
            ps@.map_values(|p: usize| p as int) == style_matches(line@, pat@, 0).unwrap(),
            forall|i: int| 0 <= i < ps.len() ==> ps@[i] <= line.len(),
            spans == style_spans(line@, pat@, base as int).unwrap(),
            ms == style_matches(line@, pat@, 0).unwrap(),
            spans == ms.map_values(|q: int| (base + byte_len(line@.take(q)), pat.len() + 1int)),
            ms.len() == ps.len(),
            j <= ps.len(),
            out@ == start + inline_style_diagnostics(*src, spans.take(j as int)),
        decreases ps.len() - j,
    {
        let p = ps[j];
        proof {
            lemma_byte_len_split(line@, p as int);
            assert(ps@.map_values(|q: usize| q as int)[j as int] == p as int);
            assert(ms[j as int] == p as int);
        }
        let at = base + byte_len_between(line, 0, p);
        let d = RuleDiagnostic::InlineStyle(
            NoInlineStyleViolation {
                src: copy_source(src),
                span: Span { offset: at, len: pat.len() + 1 },
            },
        );
        out.push(d);
        proof {
            assert(spans[j as int] == (at as int, pat.len() + 1));
            assert(spans.take(j + 1) =~= spans.take(j as int).push(spans[j as int]));
            assert(inline_style_diagnostics(*src, spans.take(j + 1)) =~= inline_style_diagnostics(
                *src,
                spans.take(j as int),
            ).push(d));
        }
        j = j + 1;
    }
    proof {
        assert(spans.take(ps.len() as int) =~= spans);
    }
    true
}

/// The diagnostics of a concatenation are the concatenated diagnostics.
proof fn lemma_inline_style_diagnostics_append(
    src: SourceFile,
    a: Seq<(int, int)>,
    b: Seq<(int, int)>,
)
    ensures
        inline_style_diagnostics(src, a + b) == inline_style_diagnostics(src, a)
            + inline_style_diagnostics(src, b),
{
    assert(inline_style_diagnostics(src, a + b) =~= inline_style_diagnostics(src, a)
        + inline_style_diagnostics(src, b));
}

/// Appends to `out` the diagnostics for line `line` scanned at byte offset `base`.
fn push_line_diagnostics(
    line: &Vec<char>,
    base: usize,
    src: &SourceFile,
    out: &mut Vec<RuleDiagnostic>,
)
    -> (ok: bool)
    requires
        base + byte_len(line@) <= usize::MAX,
    ensures
        ok == inline_style_line(line@, base as int) is Some,
        ok ==> final(out)@ == old(out)@ + inline_style_diagnostics(
            *src,
            inline_style_line(line@, base as int).unwrap(),
        ),
{
    let p1 = chars_of("style=\"");
    let p2 = chars_of("style='");
    let p3 = chars_of(":style=\"");
    let p4 = chars_of(":style='");
    proof {
        reveal_strlit("style=\"");
        reveal_strlit("style='");
        reveal_strlit(":style=\"");
        reveal_strlit(":style='");
    }
    let ghost b = base as int;
    let ghost l = line@;
    let ghost s1 = style_spans(l, p1@, b).unwrap();
    let ghost s2 = style_spans(l, p2@, b).unwrap();
    let ghost s3 = style_spans(l, p3@, b).unwrap();
    let ghost s4 = style_spans(l, p4@, b).unwrap();
    let ghost before = out@;
    if !push_style_diagnostics(line, &p1, base, src, out) {
        return false;
    }
    if !push_style_diagnostics(line, &p2, base, src, out) {
        return false;
    }
    if !push_style_diagnostics(line, &p3, base, src, out) {
        return false;
    }
    if !push_style_diagnostics(line, &p4, base, src, out) {
        return false;
    }
    proof {
        assert(inline_style_line(l, b) == Some(s1 + s2 + s3 + s4));
        lemma_inline_style_diagnostics_append(*src, s1 + s2 + s3, s4);
        lemma_inline_style_diagnostics_append(*src, s1 + s2, s3);
        lemma_inline_style_diagnostics_append(*src, s1, s2);
        assert(out@ =~= before + inline_style_diagnostics(*src, s1 + s2 + s3 + s4));
    }
    true
}

impl LineRule for NoInlineStyle {
    open spec fn scanner(&self) -> LineScanner {
        inline_style_scanner()
    }

    open spec fn line_diagnostics(&self, src: SourceFile, spans: Seq<(int, int)>) -> Seq<
        RuleDiagnostic,
    > {
        inline_style_diagnostics(src, spans)
    }

    proof fn lemma_line_diagnostics_append(
        &self,
        src: SourceFile,
        a: Seq<(int, int)>,
        b: Seq<(int, int)>,
    ) {
        lemma_inline_style_diagnostics_append(src, a, b);
    }

    proof fn lemma_line_diagnostics_spans(&self, src: SourceFile, spans: Seq<(int, int)>) {
    }

    fn push_line(&self, line: &Vec<char>, base: usize, src: &SourceFile, out: &mut Vec<RuleDiagnostic>) -> (ok: bool) {
        push_line_diagnostics(line, base, src, out)
    }
}

impl Rule for NoInlineStyle {
    open spec fn spec_name(&self) -> Seq<char> {
        "no-inline-style"@
    }

    open spec fn spec_id(&self) -> Seq<char> {
        "vue/performance/no-inline-style"@
    }

    open spec fn spec_description(&self) -> Seq<char> {
        "Disallow inline styles in templates"@
    }

    open spec fn accepts(&self, ctx: ScanContext) -> bool {
        block_accepted(*self, ctx.template, ctx.template_offset)
    }

    open spec fn findings(&self, ctx: ScanContext) -> Seq<RuleDiagnostic> {
        block_findings(*self, ctx.template, ctx.template_offset, ctx.named_source)
    }

    fn name(&self) -> (r: &'static str) {
        "no-inline-style"
    }

    fn id(&self) -> (r: &'static str) {
        "vue/performance/no-inline-style"
    }

    fn description(&self) -> (r: &'static str) {
        "Disallow inline styles in templates"
    }

    fn check(&self, ctx: &ScanContext) -> (r: Vec<RuleDiagnostic>) {
        match self.try_check(ctx) {
            Some(v) => v,
            None => Vec::new(),
        }
    }

    fn try_check(&self, ctx: &ScanContext) -> (r: Option<Vec<RuleDiagnostic>>) {
        scan_block(self, &ctx.template, ctx.template_offset, &ctx.named_source)
    }
}

/// Every index `style_matches` yields is a match of the pattern.
proof fn lemma_style_matches_are_matches(l: Seq<char>, pat: Seq<char>, from: int)
    requires
        from >= 0,
    ensures
        style_matches(l, pat, from) matches Some(ps) ==> forall|i: int|
            0 <= i < ps.len() ==> matches_at(l, #[trigger] ps[i], pat),
    decreases l.len() + 1 - from,
{
    lemma_find_from(l, pat, from);
    if let Some(p) = find_from(l, pat, from) {
        let next = (byte_len(l.take(p)) + pat.len() + 1) as int;
        if is_boundary(l, next) {
            let k = char_index_at(l, next);
            if k <= p {
                lemma_byte_len_take_mono(l, k, p);
            }
            lemma_style_matches_are_matches(l, pat, k);
            if let Some(rest) = style_matches(l, pat, k) {
                let ps = seq![p] + rest;
                assert forall|i: int| 0 <= i < ps.len() implies matches_at(l, #[trigger] ps[i], pat) by {
                    if i > 0 {
                        assert(ps[i] == rest[i - 1]);
                    }
                }
            }
        }
    }
}

/// The inline-style patterns, in the order they are scanned.
pub open spec fn inline_style_patterns() -> Seq<Seq<char>> {
    seq!["style=\""@, "style='"@, ":style=\""@, ":style='"@]
}

proof fn lemma_style_spans_at_matches(l: Seq<char>, q: int, b: int)
    requires
        0 <= q < 4,
    ensures
        style_spans(l, inline_style_patterns()[q], b) matches Some(h) ==> spans_at_matches(
            l,
            b,
            h,
            inline_style_patterns(),
        ),
{
    let pats = inline_style_patterns();
    let pat = pats[q];
    lemma_style_matches_are_matches(l, pat, 0);
    if let Some(ps) = style_matches(l, pat, 0) {
        let h = style_spans(l, pat, b)->Some_0;
        assert forall|m: int| 0 <= m < h.len() implies at_match(l, b, #[trigger] h[m].0, pats) by {
            assert(matches_at(l, ps[m], pats[q]));
        }
    }
}

/// `no-inline-style` reports spans that start at one of its patterns.
proof fn lemma_inline_style_scanner_reports()
    ensures
        scanner_reports_matches(inline_style_scanner(), inline_style_patterns()),
{
    let pats = inline_style_patterns();
    assert forall|l: Seq<char>, b: int| #[trigger]
        inline_style_scanner()(l, b) is Some implies spans_at_matches(
        l,
        b,
        inline_style_scanner()(l, b)->Some_0,
        pats,
    ) by {
        lemma_style_spans_at_matches(l, 0, b);
        lemma_style_spans_at_matches(l, 1, b);
        lemma_style_spans_at_matches(l, 2, b);
        lemma_style_spans_at_matches(l, 3, b);
        let s1 = style_spans(l, pats[0], b)->Some_0;
        let s2 = style_spans(l, pats[1], b)->Some_0;
        let s3 = style_spans(l, pats[2], b)->Some_0;
        let s4 = style_spans(l, pats[3], b)->Some_0;
        lemma_spans_at_matches_append(l, b, s1, s2, pats);
        lemma_spans_at_matches_append(l, b, s1 + s2, s3, pats);
        lemma_spans_at_matches_append(l, b, s1 + s2 + s3, s4, pats);
    }
}

/// When the template was parsed out of the source, every span
/// `no-inline-style` reports starts at a `style="`, `style='`, `:style="` or
/// `:style='` of the source.
pub proof fn law_inline_style_spans_point_into_source(ctx: ScanContext)
    requires
        template_from_source(ctx),
    ensures
        inline_style_spans(ctx) matches Some(spans) ==> spans_at_matches(
            ctx.source@,
            0,
            spans,
            inline_style_patterns(),
        ),
{
    let t = ctx.template->Some_0;
    let offset = ctx.template_offset as int;
    lemma_inline_style_scanner_reports();
    lemma_scan_text_located(t@, offset, 0, inline_style_scanner(), inline_style_patterns());
    law_block_contents_located(ctx.source@, "template"@);
    if let Some(spans) = inline_style_spans(ctx) {
        lemma_spans_relocated(ctx.source@, t@, offset, spans, inline_style_patterns());
    }
}

/// The occurrence of a pattern `pat_len` chars long at char index `p` of
/// `l` starts inside the stretch that one of the matches `ps` covers: from
/// that match's first byte to the byte the search resumes at.
pub open spec fn covered(l: Seq<char>, pat_len: int, ps: Seq<int>, p: int) -> bool {
    exists|m: int|
        0 <= m < ps.len() && byte_len(l.take(#[trigger] ps[m])) <= byte_len(l.take(p)) < byte_len(
            l.take(ps[m]),
        ) + pat_len + 1
}

/// Every occurrence of `pat` at or after char index `from` is covered by one
/// of the matches `style_matches` yields.
proof fn lemma_style_matches_complete(l: Seq<char>, pat: Seq<char>, from: int)
    requires
        from >= 0,
    ensures
        style_matches(l, pat, from) matches Some(ps) ==> forall|p: int|
            from <= p && #[trigger] matches_at(l, p, pat) ==> covered(l, pat.len() as int, ps, p),
    decreases l.len() + 1 - from,
{
    lemma_find_from(l, pat, from);
    if let Some(p0) = find_from(l, pat, from) {
        let next = (byte_len(l.take(p0)) + pat.len() + 1) as int;
        if is_boundary(l, next) {
            let k = char_index_at(l, next);
            if k <= p0 {
                lemma_byte_len_take_mono(l, k, p0);
            }
            lemma_style_matches_complete(l, pat, k);
            if let Some(rest) = style_matches(l, pat, k) {
                let ps = seq![p0] + rest;
                assert(style_matches(l, pat, from) == Some(ps));
                assert(byte_len(l.take(k)) == next);
                assert forall|p: int| from <= p && #[trigger] matches_at(l, p, pat) implies covered(
                    l,
                    pat.len() as int,
                    ps,
                    p,
                ) by {
                    assert(p >= p0);
                    lemma_byte_len_take_mono(l, p0, p);
                    if byte_len(l.take(p)) < next {
                        assert(ps[0] == p0);
                    } else {
                        if p < k {
                            lemma_byte_len_take_mono(l, p, k);
                        }
                        assert(covered(l, pat.len() as int, rest, p));
                        let m = choose|m: int|
                            0 <= m < rest.len() && byte_len(l.take(#[trigger] rest[m])) <= byte_len(
                                l.take(p),
                            ) < byte_len(l.take(rest[m])) + pat.len() + 1;
                        assert(ps[m + 1] == rest[m]);
                    }
                }
            }
        }
    }
}

proof fn lemma_style_spans_complete(l: Seq<char>, pat: Seq<char>, b: int, p: int)
    requires
        matches_at(l, p, pat),
    ensures
        style_spans(l, pat, b) matches Some(h) ==> exists|m: int, p0: int|
            #![trigger h[m], matches_at(l, p0, pat)]
            0 <= m < h.len() && matches_at(l, p0, pat) && h[m] == (
                b + byte_len(l.take(p0)),
                (pat.len() + 1) as int,
            ) && byte_len(l.take(p0)) <= byte_len(l.take(p)) < byte_len(l.take(p0)) + pat.len()
                + 1,
{
    lemma_style_matches_complete(l, pat, 0);
    lemma_style_matches_are_matches(l, pat, 0);
    if let Some(ps) = style_matches(l, pat, 0) {
        assert(0 <= p && matches_at(l, p, pat));
        assert(covered(l, pat.len() as int, ps, p));
        let m = choose|m: int|
            0 <= m < ps.len() && byte_len(l.take(#[trigger] ps[m])) <= byte_len(l.take(p)) < byte_len(
                l.take(ps[m]),
            ) + pat.len() + 1;
        let h = style_spans(l, pat, b)->Some_0;
        assert(h == ps.map_values(|q: int| (b + byte_len(l.take(q)), pat.len() + 1int)));
        assert(h.len() == ps.len());
        assert(matches_at(l, ps[m], pat));
        assert(h[m] == (b + byte_len(l.take(ps[m])), (pat.len() + 1) as int));
    }
}

/// `h`'s elements stand in `a + h + c` after those of `a`.
proof fn lemma_part_index(a: Seq<(int, int)>, h: Seq<(int, int)>, c: Seq<(int, int)>, m: int)
    requires
        0 <= m < h.len(),
    ensures
        (a + h + c)[a.len() + m] == h[m],
        a.len() + m < (a + h + c).len(),
{
}

/// A line's inline-style spans are those of the four patterns, in order.
proof fn lemma_inline_style_parts(l: Seq<char>, b: int)
    ensures
        NoInlineStyle.scanner()(l, b) matches Some(sp) ==> sp == style_spans(
            l,
            inline_style_patterns()[0],
            b,
        )->Some_0 + style_spans(l, inline_style_patterns()[1], b)->Some_0 + style_spans(
            l,
            inline_style_patterns()[2],
            b,
        )->Some_0 + style_spans(l, inline_style_patterns()[3], b)->Some_0 && style_spans(
            l,
            inline_style_patterns()[0],
            b,
        ) is Some && style_spans(l, inline_style_patterns()[1], b) is Some && style_spans(
            l,
            inline_style_patterns()[2],
            b,
        ) is Some && style_spans(l, inline_style_patterns()[3], b) is Some,
{
    let pats = inline_style_patterns();
    assert(pats[0] == "style=\""@);
    assert(pats[1] == "style='"@);
    assert(pats[2] == ":style=\""@);
    assert(pats[3] == ":style='"@);
}

/// Every occurrence in a template line of `style="`, `style='`, `:style="`
/// or `:style='` is found: a span reported for that same pattern, at one of
/// its occurrences and as long as the pattern plus one byte, covers its
/// first byte. An occurrence is reported itself unless it starts before the
/// byte the search resumed at after an earlier reported one, so a line with
/// several separate occurrences of a pattern yields a span for each.
pub proof fn law_inline_style_occurrences_found(l: Seq<char>, b: int, q: int, p: int)
    requires
        0 <= q < 4,
        matches_at(l, p, inline_style_patterns()[q]),
    ensures
        NoInlineStyle.scanner()(l, b) matches Some(sp) ==> exists|m: int, p0: int|
            0 <= m < sp.len() && matches_at(l, p0, inline_style_patterns()[q]) && sp[m] == (
                b + byte_len(l.take(p0)),
                (inline_style_patterns()[q].len() + 1) as int,
            ) && byte_len(l.take(p0)) <= byte_len(l.take(p)) < byte_len(l.take(p0))
                + inline_style_patterns()[q].len() + 1,
{
    let pats = inline_style_patterns();
    let pat = pats[q];
    lemma_style_spans_complete(l, pat, b, p);
    lemma_inline_style_parts(l, b);
    if let Some(sp) = NoInlineStyle.scanner()(l, b) {
        let s1 = style_spans(l, pats[0], b)->Some_0;
        let s2 = style_spans(l, pats[1], b)->Some_0;
        let s3 = style_spans(l, pats[2], b)->Some_0;
        let s4 = style_spans(l, pats[3], b)->Some_0;
        let h = style_spans(l, pat, b)->Some_0;
        let (m, p0) = choose|m: int, p0: int|
            #![trigger h[m], matches_at(l, p0, pat)]
            0 <= m < h.len() && matches_at(l, p0, pat) && h[m] == (
                b + byte_len(l.take(p0)),
                (pat.len() + 1) as int,
            ) && byte_len(l.take(p0)) <= byte_len(l.take(p)) < byte_len(l.take(p0)) + pat.len()
                + 1;
        if q == 0 {
            lemma_part_index(Seq::empty(), s1, s2 + s3 + s4, m);
            assert(sp =~= Seq::<(int, int)>::empty() + s1 + (s2 + s3 + s4));
        } else if q == 1 {
            lemma_part_index(s1, s2, s3 + s4, m);
            assert(sp =~= s1 + s2 + (s3 + s4));
        } else if q == 2 {
            lemma_part_index(s1 + s2, s3, s4, m);
        } else {
            lemma_part_index(s1 + s2 + s3, s4, Seq::empty(), m);
            assert(sp =~= s1 + s2 + s3 + s4 + Seq::<(int, int)>::empty());
        }
    }
}

} // verus!
