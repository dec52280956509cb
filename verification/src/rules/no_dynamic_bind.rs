//! `no-dynamic-bind-src`: a dynamic `src` binding can load untrusted resources.
use vstd::prelude::*;

use crate::context::{ScanContext, SourceFile, Span};
use crate::parser::law_block_contents_located;
use crate::rules::{
    at_match, block_accepted, block_findings, block_spans, copy_source, increasing_within,
    lemma_prepend_spans_assoc, lemma_scan_text_increasing, lemma_scan_text_located, prepend_spans,
    scanner_increasing,
    lemma_spans_relocated, scan_block, scanner_reports_matches, spans_at_matches,
    template_from_source, LineRule, LineScanner, Rule, RuleDiagnostic,
};
use crate::text::{
    byte_len, byte_len_between, char_index_at, char_index_of_byte, chars_of, find_from,
    find_from_exec, is_boundary, lemma_byte_len_split,
    lemma_byte_len_take_mono, lemma_find_from, matches_at, matches_at_exec,
};

verus! {

/// A `v-bind:src` or `:src` binding.
#[derive(Debug)]
pub struct NoDynamicBindSrcViolation {
    pub src: SourceFile,
    pub span: Span,
}

/// Flags every `v-bind:src` and `:src` binding in the template.
pub struct NoDynamicBindSrc;

/// `m` followed by `rest`, if `rest` is defined.
pub open spec fn prepend_one(m: (int, int), rest: Option<Seq<(int, int)>>) -> Option<
    Seq<(int, int)>,
> {
    match rest {
        Some(r) => Some(seq![m] + r),
        None => None,
    }
}

/// The bindings of `l` whose `:src` starts at char index `from` or later, in
/// order, as (char index, byte length). A `:src` that ends a `v-bind:src` is
/// that whole `v-bind:src` (10 bytes, from its `v`). Any other `:src` is a
/// bare binding (4 bytes), except that it is skipped when it starts at byte
/// 6 or later and the 5 bytes before it read `bind:`. `None` where those 5
/// bytes do not start on a character boundary (the byte slice would panic).
pub open spec fn dyn_src_matches(l: Seq<char>, from: int) -> Option<Seq<(int, int)>>
    decreases l.len() + 1 - from
    via dyn_src_matches_decreases
{
    match find_from(l, ":src"@, from) {
        None => Some(seq![]),
        Some(p) => {
            let abs = byte_len(l.take(p)) as int;
            if matches_at(l, p - 6, "v-bind:src"@) {
                prepend_one((p - 6, 10), dyn_src_matches(l, p + 4))
            } else if abs >= 6 && !is_boundary(l, abs - 5) {
                None
            } else if abs >= 6 && l.subrange(char_index_at(l, abs - 5), p) == "bind:"@ {
                dyn_src_matches(l, p + 4)
            } else {
                prepend_one((p, 4), dyn_src_matches(l, p + 4))
            }
        },
    }
}

#[via_fn]
proof fn dyn_src_matches_decreases(l: Seq<char>, from: int) {
    reveal_strlit(":src");
    if from >= 0 {
        lemma_find_from(l, ":src"@, from);
    }
}

/// The spans of the bindings of line `l`, scanned at byte offset `base`.
pub open spec fn dyn_src_line(l: Seq<char>, base: int) -> Option<Seq<(int, int)>> {
    match dyn_src_matches(l, 0) {
        Some(ms) => Some(binding_spans(l, base, ms)),
        None => None,
    }
}

pub open spec fn dyn_src_scanner() -> LineScanner {
    |l: Seq<char>, base: int| dyn_src_line(l, base)
}

/// The spans `no-dynamic-bind-src` reports for `ctx`.
pub open spec fn dyn_src_spans(ctx: ScanContext) -> Option<Seq<(int, int)>> {
    block_spans(NoDynamicBindSrc, ctx.template, ctx.template_offset)
}

/// The diagnostics for `spans` in `src`.
pub open spec fn dyn_src_diagnostics(src: SourceFile, spans: Seq<(int, int)>) -> Seq<
    RuleDiagnostic,
> {
    spans.map_values(
        |p: (int, int)|
            RuleDiagnostic::DynamicBindSrc(
                NoDynamicBindSrcViolation {
                    src,
                    span: Span { offset: p.0 as usize, len: p.1 as usize },
                },
            ),
    )
}

/// The spans of bindings `ms` of line `l` scanned at `base`.
pub open spec fn binding_spans(l: Seq<char>, base: int, ms: Seq<(int, int)>) -> Seq<(int, int)> {
    ms.map_values(|m: (int, int)| (base + byte_len(l.take(m.0)), m.1))
}

impl LineRule for NoDynamicBindSrc {
    open spec fn scanner(&self) -> LineScanner {
        dyn_src_scanner()
    }

    open spec fn line_diagnostics(&self, src: SourceFile, spans: Seq<(int, int)>) -> Seq<
        RuleDiagnostic,
    > {
        dyn_src_diagnostics(src, spans)
    }

    proof fn lemma_line_diagnostics_append(
        &self,
        src: SourceFile,
        a: Seq<(int, int)>,
        b: Seq<(int, int)>,
    ) {
        assert(dyn_src_diagnostics(src, a + b) =~= dyn_src_diagnostics(src, a)
            + dyn_src_diagnostics(src, b));
    }

    proof fn lemma_line_diagnostics_spans(&self, src: SourceFile, spans: Seq<(int, int)>) {
    }

    fn push_line(&self, line: &Vec<char>, base: usize, src: &SourceFile, out: &mut Vec<RuleDiagnostic>) -> (ok: bool) {
        let sp = chars_of(":src");
        let vb = chars_of("v-bind:src");
        let bind = chars_of("bind:");
        let ghost l = line@;
        let ghost start = out@;
        let ghost mut done: Seq<(int, int)> = seq![];
        proof {
            reveal_strlit(":src");
            reveal_strlit("v-bind:src");
            reveal_strlit("bind:");
            lemma_byte_len_split(l, l.len() as int);
            assert(l.take(l.len() as int) =~= l);
            assert(out@ =~= start + dyn_src_diagnostics(*src, binding_spans(l, base as int, done)));
            if let Some(x) = dyn_src_matches(l, 0) {
                assert(done + x =~= x);
            }
        }
        let mut from: usize = 0;
        loop
            invariant
                line@ == l,
                start == old(out)@,
                sp@ == ":src"@,
                vb@ == "v-bind:src"@,
                bind@ == "bind:"@,
                from <= l.len(),
                base + byte_len(l) <= usize::MAX,
                dyn_src_matches(l, 0) == prepend_spans(done, dyn_src_matches(l, from as int)),
                out@ == start + dyn_src_diagnostics(*src, binding_spans(l, base as int, done)),
            decreases l.len() + 1 - from,
        {
            proof {
                reveal_strlit(":src");
                reveal_strlit("v-bind:src");
                reveal_strlit("bind:");
                lemma_find_from(l, sp@, from as int);
            }
            match find_from_exec(line, &sp, from) {
                None => {
                    proof {
                        assert(done + Seq::<(int, int)>::empty() =~= done);
                    }
                    return true;
                },
                Some(p) => {
                    assert(p + 4 <= line.len());
                    proof {
                        lemma_byte_len_split(l, p as int);
                    }
                    let abs = byte_len_between(line, 0, p);
                    let whole = p >= 6 && matches_at_exec(line, p - 6, &vb);
                    let mut skip = false;
                    if !whole && abs >= 6 {
                        match char_index_of_byte(line, abs - 5) {
                            None => {
                                return false;
                            },
                            Some(k) => {
                                proof {
                                    if k >= p {
                                        lemma_byte_len_take_mono(l, p as int, k as int);
                                    }
                                }
                                let same = k <= p && p - k == 5 && matches_at_exec(line, k, &bind);
                                proof {
                                    if same {
                                        assert(l.subrange(k as int, p as int) =~= bind@);
                                    } else if l.subrange(k as int, p as int) == bind@ {
                                        assert(l.subrange(k as int, p as int).len() == 5);
                                    }
                                }
                                skip = same;
                            },
                        }
                    }
                    if skip {
                        from = p + 4;
                    } else {
                        let (q, n) = if whole {
                            (p - 6, 10usize)
                        } else {
                            (p, 4usize)
                        };
                        proof {
                            lemma_byte_len_split(l, q as int);
                        }
                        let at = base + byte_len_between(line, 0, q);
                        let d = RuleDiagnostic::DynamicBindSrc(
                            NoDynamicBindSrcViolation {
                                src: copy_source(src),
                                span: Span { offset: at, len: n },
                            },
                        );
                        out.push(d);
                        proof {
                            let old_done = done;
                            done = done.push((q as int, n as int));
                            let rest = dyn_src_matches(l, p + 4);
                            assert(dyn_src_matches(l, from as int) == prepend_one(
                                (q as int, n as int),
                                rest,
                            ));
                            lemma_prepend_spans_assoc(old_done, seq![(q as int, n as int)], rest);
                            assert(old_done + seq![(q as int, n as int)] =~= done);
                            assert(binding_spans(l, base as int, done) =~= binding_spans(
                                l,
                                base as int,
                                old_done,
                            ).push((at as int, n as int)));
                            assert(dyn_src_diagnostics(*src, binding_spans(l, base as int, done))
                                =~= dyn_src_diagnostics(
                                *src,
                                binding_spans(l, base as int, old_done),
                            ).push(d));
                        }
                        from = p + 4;
                    }
                },
            }
        }
    }
}

impl Rule for NoDynamicBindSrc {
    open spec fn spec_name(&self) -> Seq<char> {
        "no-dynamic-bind-src"@
    }

    open spec fn spec_id(&self) -> Seq<char> {
        "vue/security/no-dynamic-bind-src"@
    }

    open spec fn spec_description(&self) -> Seq<char> {
        "Disallow dynamic `v-bind:src` to prevent loading untrusted resources"@
    }

    open spec fn accepts(&self, ctx: ScanContext) -> bool {
        block_accepted(*self, ctx.template, ctx.template_offset)
    }

    open spec fn findings(&self, ctx: ScanContext) -> Seq<RuleDiagnostic> {
        block_findings(*self, ctx.template, ctx.template_offset, ctx.named_source)
    }

    fn name(&self) -> (r: &'static str) {
        "no-dynamic-bind-src"
    }

    fn id(&self) -> (r: &'static str) {
        "vue/security/no-dynamic-bind-src"
    }

    fn description(&self) -> (r: &'static str) {
        "Disallow dynamic `v-bind:src` to prevent loading untrusted resources"
    }

    fn check(&self, ctx: &ScanContext) -> (r: Vec<RuleDiagnostic>) {
        match self.try_check(ctx) {
            Some(v) => v,
            None => Vec::new(),
        }
    }

    fn try_check(&self, ctx: &ScanContext) -> (r: Option<Vec<RuleDiagnostic>>) {
        scan_block(self, &ctx.template, ctx.template_offset, &ctx.named_source)
    }
}

// ---------------------------------------------------------------------------
// Where reported spans point
// ---------------------------------------------------------------------------
/// The two bindings `no-dynamic-bind-src` reports.
pub open spec fn dyn_src_patterns() -> Seq<Seq<char>> {
    seq!["v-bind:src"@, ":src"@]
}

/// Every binding found in `l` from `from` on is a `v-bind:src` at its index
/// (10 bytes) or a `:src` at its index (4 bytes).
proof fn lemma_dyn_src_matches_found(l: Seq<char>, from: int)
    ensures
        dyn_src_matches(l, from) matches Some(ms) ==> forall|j: int|
            0 <= j < ms.len() ==> ((#[trigger] ms[j]).1 == 10 && matches_at(
                l,
                ms[j].0,
                "v-bind:src"@,
            )) || (ms[j].1 == 4 && matches_at(l, ms[j].0, ":src"@)),
    decreases l.len() + 1 - from,
{
    reveal_strlit(":src");
    if from >= 0 {
        lemma_find_from(l, ":src"@, from);
        if let Some(p) = find_from(l, ":src"@, from) {
            lemma_dyn_src_matches_found(l, p + 4);
            if let Some(r) = dyn_src_matches(l, p + 4) {
                if let Some(ms) = dyn_src_matches(l, from) {
                    assert forall|j: int| 0 <= j < ms.len() implies ((#[trigger] ms[j]).1 == 10
                        && matches_at(l, ms[j].0, "v-bind:src"@)) || (ms[j].1 == 4 && matches_at(
                        l,
                        ms[j].0,
                        ":src"@,
                    )) by {
                        if ms.len() > r.len() && j > 0 {
                            assert(ms[j] == r[j - 1]);
                        } else if ms.len() == r.len() {
                            assert(ms == r);
                        }
                    }
                }
            }
        }
    }
}

/// `no-dynamic-bind-src` reports spans that start at a binding of the line.
proof fn lemma_dyn_src_scanner_reports()
    ensures
        scanner_reports_matches(dyn_src_scanner(), dyn_src_patterns()),
{
    let pats = dyn_src_patterns();
    assert forall|l: Seq<char>, b: int| #[trigger]
        dyn_src_scanner()(l, b) is Some implies spans_at_matches(
        l,
        b,
        dyn_src_scanner()(l, b)->Some_0,
        pats,
    ) by {
        lemma_dyn_src_matches_found(l, 0);
        let ms = dyn_src_matches(l, 0)->Some_0;
        let h = dyn_src_scanner()(l, b)->Some_0;
        assert forall|m: int| 0 <= m < h.len() implies at_match(l, b, #[trigger] h[m].0, pats) by {
            let p = ms[m].0;
            assert(h[m].0 == b + byte_len(l.take(p)));
            if ms[m].1 == 10 && matches_at(l, p, "v-bind:src"@) {
                assert(pats[0] == "v-bind:src"@);
                assert(matches_at(l, p, pats[0]));
            } else {
                assert(pats[1] == ":src"@);
                assert(matches_at(l, p, pats[1]));
            }
        }
    }
}

/// The bindings found from `from` on start at strictly increasing char
/// indices inside `l`, none before `from`, when `from` is the start of the
/// line or just past a `:src`.
proof fn lemma_dyn_src_matches_increasing(l: Seq<char>, from: int)
    requires
        from == 0 || (from >= 4 && matches_at(l, from - 4, ":src"@)),
    ensures
        dyn_src_matches(l, from) matches Some(ms) ==> (forall|j: int|
            0 <= j < ms.len() ==> from <= (#[trigger] ms[j]).0 < l.len()) && (forall|i: int, j: int|
            0 <= i < j < ms.len() ==> (#[trigger] ms[i]).0 < (#[trigger] ms[j]).0),
    decreases l.len() + 1 - from,
{
    reveal_strlit(":src");
    reveal_strlit("v-bind:src");
    lemma_find_from(l, ":src"@, from);
    if let Some(p) = find_from(l, ":src"@, from) {
        lemma_dyn_src_matches_increasing(l, p + 4);
        if let Some(r) = dyn_src_matches(l, p + 4) {
            if let Some(ms) = dyn_src_matches(l, from) {
                if ms.len() == r.len() {
                    assert(ms == r);
                } else {
                    let first = ms[0];
                    assert(ms == seq![first] + r);
                    if matches_at(l, p - 6, "v-bind:src"@) {
                        assert(first == (p - 6, 10int));
                        if p - 6 < from {
                            assert(l.subrange(p - 6, p + 4)[from - 1 - (p - 6)] == l[from - 1]);
                            assert(l.subrange(from - 4, from)[3] == l[from - 1]);
                        }
                    } else {
                        assert(first == (p, 4int));
                    }
                    assert(from <= first.0 <= p);
                    assert forall|j: int| 0 <= j < ms.len() implies from <= (#[trigger] ms[j]).0
                        < l.len() by {
                        if j > 0 {
                            assert(ms[j] == r[j - 1]);
                        }
                    }
                    assert forall|i: int, j: int| 0 <= i < j < ms.len() implies (#[trigger] ms[i]).0
                        < (#[trigger] ms[j]).0 by {
                        assert(ms[j] == r[j - 1]);
                        if i > 0 {
                            assert(ms[i] == r[i - 1]);
                        }
                    }
                }
            }
        }
    }
}

/// `no-dynamic-bind-src` reports each line's bindings in order.
proof fn lemma_dyn_src_scanner_increasing()
    ensures
        scanner_increasing(dyn_src_scanner()),
{
    assert forall|l: Seq<char>, b: int| #[trigger]
        dyn_src_scanner()(l, b) is Some implies increasing_within(
        dyn_src_scanner()(l, b)->Some_0,
        b,
        b + byte_len(l),
    ) by {
        lemma_dyn_src_matches_increasing(l, 0);
        let ms = dyn_src_matches(l, 0)->Some_0;
        let h = dyn_src_scanner()(l, b)->Some_0;
        assert(l.take(l.len() as int) =~= l);
        assert forall|i: int| 0 <= i < h.len() implies b <= #[trigger] h[i].0 < b + byte_len(l) by {
            lemma_byte_len_take_mono(l, ms[i].0, l.len() as int);
        }
        assert forall|i: int, j: int| 0 <= i < j < h.len() implies #[trigger] h[i].0
            < #[trigger] h[j].0 by {
            assert(ms[i].0 < ms[j].0);
            lemma_byte_len_take_mono(l, ms[i].0, ms[j].0);
        }
    }
}

/// The spans `no-dynamic-bind-src` reports start at strictly increasing
/// offsets, in the block's bytes.
pub proof fn law_dyn_src_spans_increase(ctx: ScanContext)
    ensures
        dyn_src_spans(ctx) matches Some(spans) ==> forall|i: int, j: int|
            0 <= i < j < spans.len() ==> #[trigger] spans[i].0 < #[trigger] spans[j].0,
{
    if let Some(t) = ctx.template {
        lemma_dyn_src_scanner_increasing();
        lemma_scan_text_increasing(t@, ctx.template_offset as int, 0, dyn_src_scanner());
    }
}

/// When the template was parsed out of the source, every span
/// `no-dynamic-bind-src` reports starts at a `v-bind:src` or `:src` of the
/// source.
pub proof fn law_dyn_src_spans_point_into_source(ctx: ScanContext)
    requires
        template_from_source(ctx),
    ensures
        dyn_src_spans(ctx) matches Some(spans) ==> spans_at_matches(
            ctx.source@,
            0,
            spans,
            dyn_src_patterns(),
        ),
{
    let t = ctx.template->Some_0;
    let offset = ctx.template_offset as int;
    lemma_dyn_src_scanner_reports();
    lemma_scan_text_located(t@, offset, 0, dyn_src_scanner(), dyn_src_patterns());
    law_block_contents_located(ctx.source@, "template"@);
    if let Some(spans) = dyn_src_spans(ctx) {
        lemma_spans_relocated(ctx.source@, t@, offset, spans, dyn_src_patterns());
    }
}

/// Two occurrences of `:src` do not overlap.
proof fn lemma_src_apart(l: Seq<char>, p0: int, p: int)
    requires
        matches_at(l, p0, ":src"@),
        matches_at(l, p, ":src"@),
        p0 < p,
    ensures
        p0 + 4 <= p,
{
    reveal_strlit(":src");
    if p < p0 + 4 {
        assert(l[p] == l.subrange(p, p + 4)[0]);
        assert(l[p] == l.subrange(p0, p0 + 4)[p - p0]);
    }
}

/// Every `:src` at or after `from` is found: as the whole `v-bind:src` it
/// ends, or as a bare `:src` unless `bind:` stands right before it.
proof fn lemma_dyn_src_matches_complete(l: Seq<char>, from: int, p: int)
    requires
        0 <= from <= p,
        matches_at(l, p, ":src"@),
        from == 0 || (from >= 4 && matches_at(l, from - 4, ":src"@)),
    ensures
        dyn_src_matches(l, from) matches Some(ms) ==> (matches_at(l, p - 6, "v-bind:src"@)
            ==> ms.contains((p - 6, 10int))) && (!matches_at(l, p - 6, "v-bind:src"@) && !(p >= 5
            && l.subrange(p - 5, p) == "bind:"@) ==> ms.contains((p, 4int))),
    decreases l.len() + 1 - from,
{
    reveal_strlit(":src");
    reveal_strlit("bind:");
    lemma_find_from(l, ":src"@, from);
    let p0 = find_from(l, ":src"@, from)->Some_0;
    assert(p0 <= p);
    if p0 < p {
        lemma_src_apart(l, p0, p);
        lemma_dyn_src_matches_complete(l, p0 + 4, p);
    }
    if let Some(ms) = dyn_src_matches(l, from) {
        let abs = byte_len(l.take(p0)) as int;
        if let Some(r) = dyn_src_matches(l, p0 + 4) {
            if matches_at(l, p0 - 6, "v-bind:src"@) {
                assert(ms == seq![(p0 - 6, 10int)] + r);
                if p0 < p {
                    if r.contains((p - 6, 10int)) {
                        let j = choose|j: int| 0 <= j < r.len() && r[j] == (p - 6, 10int);
                        assert(ms[j + 1] == r[j]);
                    }
                    if r.contains((p, 4int)) {
                        let j = choose|j: int| 0 <= j < r.len() && r[j] == (p, 4int);
                        assert(ms[j + 1] == r[j]);
                    }
                } else {
                    assert(ms[0] == (p - 6, 10int));
                }
            } else if abs >= 6 && l.subrange(char_index_at(l, abs - 5), p0) == "bind:"@ {
                assert(ms == r);
                if p0 == p {
                    assert(is_boundary(l, abs - 5));
                    let k = char_index_at(l, abs - 5);
                    assert(0 <= k <= l.len() && byte_len(l.take(k)) == abs - 5);
                    if k >= p0 {
                        lemma_byte_len_take_mono(l, p0, k);
                    }
                    assert(l.subrange(k, p0).len() == 5);
                    assert(k == p - 5);
                }
            } else {
                assert(ms == seq![(p0, 4int)] + r);
                if p0 < p {
                    if r.contains((p - 6, 10int)) {
                        let j = choose|j: int| 0 <= j < r.len() && r[j] == (p - 6, 10int);
                        assert(ms[j + 1] == r[j]);
                    }
                    if r.contains((p, 4int)) {
                        let j = choose|j: int| 0 <= j < r.len() && r[j] == (p, 4int);
                        assert(ms[j + 1] == r[j]);
                    }
                } else {
                    assert(ms[0] == (p, 4int));
                }
            }
        }
    }
}

/// Every `:src` of a template line is reported: a `:src` that ends a
/// `v-bind:src` as that whole binding (10 bytes from its `v`), any other as
/// itself (4 bytes) unless `bind:` stands right before it. Each span is at
/// the line's scan offset plus the binding's byte offset in the line.
pub proof fn law_dyn_src_occurrences_found(l: Seq<char>, b: int, p: int)
    requires
        matches_at(l, p, ":src"@),
    ensures
        NoDynamicBindSrc.scanner()(l, b) matches Some(sp) ==> (matches_at(l, p - 6, "v-bind:src"@)
            ==> sp.contains((b + byte_len(l.take(p - 6)), 10int))) && (!matches_at(
            l,
            p - 6,
            "v-bind:src"@,
        ) && !(p >= 5 && l.subrange(p - 5, p) == "bind:"@) ==> sp.contains(
            (b + byte_len(l.take(p)), 4int),
        )),
{
    lemma_dyn_src_matches_complete(l, 0, p);
    if let Some(ms) = dyn_src_matches(l, 0) {
        let sp = binding_spans(l, b, ms);
        if ms.contains((p - 6, 10int)) && matches_at(l, p - 6, "v-bind:src"@) {
            let j = choose|j: int| 0 <= j < ms.len() && ms[j] == (p - 6, 10int);
            assert(sp[j] == (b + byte_len(l.take(p - 6)), 10int));
        }
        if ms.contains((p, 4int)) {
            let j = choose|j: int| 0 <= j < ms.len() && ms[j] == (p, 4int);
            assert(sp[j] == (b + byte_len(l.take(p)), 4int));
        }
    }
}

} // verus!
