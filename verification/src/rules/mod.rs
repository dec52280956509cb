//! The rules, the diagnostics they report, and the registry that holds them.
use vstd::prelude::*;

use crate::context::{ScanContext, SourceFile, Span};
use crate::rules::no_dynamic_bind::NoDynamicBindSrcViolation;
use crate::rules::no_inline_styles::NoInlineStyleViolation;
use crate::rules::no_v_html::NoVHtmlViolation;
use crate::rules::no_watch_with_callback::NoWatchWithCallbackViolation;
use crate::rules::no_dynamic_bind::NoDynamicBindSrc;
use crate::rules::no_inline_styles::NoInlineStyle;
use crate::rules::no_v_html::NoVHtml;
use crate::rules::no_watch_with_callback::NoWatchWithCallback;
use crate::parser::block_of;
use crate::text::{
    byte_len, byte_len_between, checked_byte_len, chars_of, lemma_byte_len_split,
    lemma_byte_len_append, lemma_byte_len_subrange, lemma_byte_len_take_mono, lemma_line_content, lemma_next_newline, line_content, matches_at,
    next_newline, next_newline_exec, slice_chars, str_eq,
};

pub mod no_dynamic_bind;
pub mod no_inline_styles;
pub mod no_v_html;
pub mod no_watch_with_callback;

verus! {

/// A rule name that no registered rule has.
#[derive(Debug)]
pub struct UnknownRuleError {
    pub name: String,
}

/// One finding of one rule.
#[derive(Debug)]
pub enum RuleDiagnostic {
    VHtml(NoVHtmlViolation),
    DynamicBindSrc(NoDynamicBindSrcViolation),
    InlineStyle(NoInlineStyleViolation),
    WatchWithCallback(NoWatchWithCallbackViolation),
}

impl RuleDiagnostic {
    /// The finding's severity: `Warning` for `v-html` and dynamic `src`
    /// bindings, `Advice` (shown as info) for inline styles and `watch` calls.
    pub open spec fn severity_of(&self) -> Severity {
        match self {
            RuleDiagnostic::VHtml(_) => Severity::Warning,
            RuleDiagnostic::DynamicBindSrc(_) => Severity::Warning,
            RuleDiagnostic::InlineStyle(_) => Severity::Advice,
            RuleDiagnostic::WatchWithCallback(_) => Severity::Advice,
        }
    }

    /// The source the finding is reported against.
    pub open spec fn source_of(&self) -> SourceFile {
        match self {
            RuleDiagnostic::VHtml(v) => v.src,
            RuleDiagnostic::DynamicBindSrc(v) => v.src,
            RuleDiagnostic::InlineStyle(v) => v.src,
            RuleDiagnostic::WatchWithCallback(v) => v.src,
        }
    }

    /// The source span the finding labels.
    pub open spec fn span_of(&self) -> Span {
        match self {
            RuleDiagnostic::VHtml(v) => v.span,
            RuleDiagnostic::DynamicBindSrc(v) => v.span,
            RuleDiagnostic::InlineStyle(v) => v.span,
            RuleDiagnostic::WatchWithCallback(v) => v.span,
        }
    }

    /// The finding's severity.
    pub fn severity(&self) -> (r: Severity)
        ensures
            r == self.severity_of(),
    {
        match self {
            RuleDiagnostic::VHtml(_) => Severity::Warning,
            RuleDiagnostic::DynamicBindSrc(_) => Severity::Warning,
            RuleDiagnostic::InlineStyle(_) => Severity::Advice,
            RuleDiagnostic::WatchWithCallback(_) => Severity::Advice,
        }
    }

    /// The source span the finding labels.
    pub fn span(&self) -> (r: Span)
        ensures
            r == self.span_of(),
    {
        match self {
            RuleDiagnostic::VHtml(v) => v.span,
            RuleDiagnostic::DynamicBindSrc(v) => v.span,
            RuleDiagnostic::InlineStyle(v) => v.span,
            RuleDiagnostic::WatchWithCallback(v) => v.span,
        }
    }
}

/// A line scanner: given one line and the byte offset the scan has reached
/// for it, the (byte offset, byte length) spans it reports on that line, or
/// `None` where the scan would slice a string inside a character.
pub type LineScanner = spec_fn(Seq<char>, int) -> Option<Seq<(int, int)>>;

/// `acc` followed by `rest`, if `rest` is defined.
pub open spec fn prepend_spans<T>(acc: Seq<T>, rest: Option<Seq<T>>) -> Option<Seq<T>> {
    match rest {
        Some(r) => Some(acc + r),
        None => None,
    }
}

/// Runs `f` on the lines of `t` from char index `start` on, as `str::lines`
/// yields them. Each line is scanned at `offset` plus the byte offset at which
/// it starts in `t`.
pub open spec fn scan_text(t: Seq<char>, start: int, offset: int, f: LineScanner) -> Option<
    Seq<(int, int)>,
>
    decreases t.len() + 1 - start
    via scan_text_decreases
{
    if start < 0 || start >= t.len() {
        Some(seq![])
    } else {
        match f(line_content(t, start), offset + byte_len(t.take(start))) {
            None => None,
            Some(here) => prepend_spans(here, scan_text(t, next_newline(t, start) + 1, offset, f)),
        }
    }
}

#[via_fn]
proof fn scan_text_decreases(t: Seq<char>, start: int, offset: int, f: LineScanner) {
    if 0 <= start < t.len() {
        lemma_next_newline(t, start);
    }
}

pub proof fn lemma_prepend_spans_assoc<T>(a: Seq<T>, b: Seq<T>, rest: Option<Seq<T>>)
    ensures
        prepend_spans(a, prepend_spans(b, rest)) == prepend_spans(a + b, rest),
{
    if let Some(r) = rest {
        assert(a + (b + r) =~= (a + b) + r);
    }
}

/// The block `text`, whose contents start at byte `offset`, is small enough
/// that every byte offset a rule computes for it fits in a `usize`.
pub open spec fn block_fits(text: Option<String>, offset: usize) -> bool {
    match text {
        Some(t) => offset + byte_len(t@) < usize::MAX,
        None => true,
    }
}

/// The chars of block `t`, whose contents start at byte `offset`, when
/// `block_fits` holds for it.
pub fn fitting_chars(t: &String, offset: usize) -> (r: Option<Vec<char>>)
    ensures
        r is Some <==> offset + byte_len(t@) < usize::MAX,
        r matches Some(v) ==> v@ == t@,
{
    let v = chars_of(t.as_str());
    match checked_byte_len(&v) {
        Some(n) => {
            if offset < usize::MAX - n {
                Some(v)
            } else {
                None
            }
        },
        None => None,
    }
}

/// A copy of `s`.
pub fn copy_source(s: &SourceFile) -> (r: SourceFile)
    ensures
        r == *s,
{
    SourceFile { name: s.name.clone(), text: s.text.clone() }
}

/// A rule that looks at one block of a component line by line.
pub trait LineRule {
    /// What the rule reports for one line, scanned at a byte offset.
    spec fn scanner(&self) -> LineScanner;

    /// The diagnostics for the spans `spans` of source `src`.
    spec fn line_diagnostics(&self, src: SourceFile, spans: Seq<(int, int)>) -> Seq<
        RuleDiagnostic,
    >;

    proof fn lemma_line_diagnostics_append(
        &self,
        src: SourceFile,
        a: Seq<(int, int)>,
        b: Seq<(int, int)>,
    )
        ensures
            self.line_diagnostics(src, a + b) == self.line_diagnostics(src, a)
                + self.line_diagnostics(src, b),
    ;

    /// One diagnostic per span, in order, each reported against `src` and
    /// labelling its span.
    proof fn lemma_line_diagnostics_spans(&self, src: SourceFile, spans: Seq<(int, int)>)
        ensures
            self.line_diagnostics(src, spans).len() == spans.len(),
            forall|i: int|
                0 <= i < spans.len() ==> (#[trigger] self.line_diagnostics(src, spans)[i]).span_of()
                    == (Span { offset: spans[i].0 as usize, len: spans[i].1 as usize }) && self.line_diagnostics(
                    src,
                    spans,
                )[i].source_of() == src,
    ;

    /// Appends the diagnostics of `line`, scanned at byte offset `base`, to
    /// `out`; false where the scan of the line is undefined.
    fn push_line(&self, line: &Vec<char>, base: usize, src: &SourceFile, out: &mut Vec<RuleDiagnostic>) -> (ok: bool)
        requires
            base + byte_len(line@) <= usize::MAX,
        ensures
            ok == (self.scanner()(line@, base as int) is Some),
            ok ==> final(out)@ == old(out)@ + self.line_diagnostics(
                *src,
                self.scanner()(line@, base as int)->Some_0,
            ),
    ;
}

/// The spans `r` reports for `block`, whose contents start at byte `offset`.
pub open spec fn block_spans<R: LineRule>(r: R, block: Option<String>, offset: usize) -> Option<
    Seq<(int, int)>,
> {
    match block {
        Some(t) => scan_text(t@, 0, offset as int, r.scanner()),
        None => Some(seq![]),
    }
}

/// `r` can scan `block`: its offsets fit in a `usize` and every line's scan
/// is defined.
pub open spec fn block_accepted<R: LineRule>(r: R, block: Option<String>, offset: usize) -> bool {
    block_fits(block, offset) && block_spans(r, block, offset) is Some
}

/// The diagnostics `r` reports for `block` of source `src`.
pub open spec fn block_findings<R: LineRule>(
    r: R,
    block: Option<String>,
    offset: usize,
    src: SourceFile,
) -> Seq<RuleDiagnostic> {
    match block_spans(r, block, offset) {
        Some(spans) => r.line_diagnostics(src, spans),
        None => seq![],
    }
}

/// Scans `block` line by line with `r`: the diagnostics, or `None` where `r`
/// cannot scan it.
pub fn scan_block<R: LineRule>(r: &R, block: &Option<String>, offset: usize, src: &SourceFile) -> (res:
    Option<Vec<RuleDiagnostic>>)
    ensures
        res is Some <==> block_accepted(*r, *block, offset),
        res matches Some(v) ==> v@ == block_findings(*r, *block, offset, *src),
{
    let text = match block {
        Some(t) => t,
        None => {
            proof {
                r.lemma_line_diagnostics_append(*src, seq![], seq![]);
                assert(Seq::<(int, int)>::empty() + Seq::<(int, int)>::empty() =~= Seq::<(int, int)>::empty());
                assert(r.line_diagnostics(*src, seq![]).len() == 0);
            }
            return Some(Vec::new());
        },
    };
    let t = match fitting_chars(text, offset) {
        Some(t) => t,
        None => return None,
    };
    let ghost f = r.scanner();
    let ghost off = offset as int;
    let ghost mut acc: Seq<(int, int)> = seq![];
    let mut out: Vec<RuleDiagnostic> = Vec::new();
    let mut start: usize = 0;
    let mut base = offset;
    proof {
        assert(t@.take(0) =~= Seq::<char>::empty());
        r.lemma_line_diagnostics_append(*src, seq![], seq![]);
        assert(Seq::<(int, int)>::empty() + Seq::<(int, int)>::empty() =~= Seq::<(int, int)>::empty());
        assert(out@ =~= r.line_diagnostics(*src, acc));
        if let Some(x) = scan_text(t@, 0, off, f) {
            assert(acc + x =~= x);
        }
    }
    while start < t.len()
        invariant
            t@ == text@,
            *block == Some(*text),
            f == r.scanner(),
            off == offset as int,
            start <= t.len(),
            offset + byte_len(t@) < usize::MAX,
            base == offset + byte_len(t@.take(start as int)),
            scan_text(t@, 0, off, f) == prepend_spans(acc, scan_text(t@, start as int, off, f)),
            out@ == r.line_diagnostics(*src, acc),
        decreases t.len() - start,
    {
        let nl = next_newline_exec(&t, start);
        proof {
            lemma_next_newline(t@, start as int);
            lemma_line_content(t@, start as int);
        }
        let end = if nl < t.len() && nl > start && t[nl - 1] == '\r' {
            nl - 1
        } else {
            nl
        };
        let line = slice_chars(&t, start, end);
        proof {
            assert(line@ =~= line_content(t@, start as int));
            lemma_byte_len_subrange(t@, start as int, end as int);
            lemma_byte_len_split(t@, end as int);
        }
        let ghost here_opt = f(line@, base as int);
        if !r.push_line(&line, base, src, &mut out) {
            return None;
        }
        let stop = if nl < t.len() {
            nl + 1
        } else {
            t.len()
        };
        proof {
            let here = here_opt->Some_0;
            r.lemma_line_diagnostics_append(*src, acc, here);
            lemma_prepend_spans_assoc(acc, here, scan_text(t@, nl + 1, off, f));
            acc = acc + here;
            lemma_byte_len_subrange(t@, start as int, stop as int);
            lemma_byte_len_split(t@, stop as int);
        }
        base = base + byte_len_between(&t, start, stop);
        start = stop;
    }
    proof {
        assert(acc + Seq::<(int, int)>::empty() =~= acc);
    }
    Some(out)
}

/// How serious a finding is.
#[derive(Debug, Clone, Copy, PartialEq, Eq, Structural)]
pub enum Severity {
    Advice,
    Warning,
    Error,
}

/// A check that a Vue component can be scanned for.
pub trait Rule {
    /// The rule's name, as the `--rules` option spells it.
    spec fn spec_name(&self) -> Seq<char>;

    /// The rule's full, stable id (`vue/<category>/<name>`).
    spec fn spec_id(&self) -> Seq<char>;

    /// A one-line description of what the rule checks.
    spec fn spec_description(&self) -> Seq<char>;

    /// The contexts `check` accepts.
    spec fn accepts(&self, ctx: ScanContext) -> bool;

    /// What `check` reports for `ctx`.
    spec fn findings(&self, ctx: ScanContext) -> Seq<RuleDiagnostic>;

    fn name(&self) -> (r: &'static str)
        ensures
            r@ == self.spec_name(),
    ;

    fn id(&self) -> (r: &'static str)
        ensures
            r@ == self.spec_id(),
    ;

    fn description(&self) -> (r: &'static str)
        ensures
            r@ == self.spec_description(),
    ;

    /// The rule's findings for `ctx`, or `None` on the contexts it does not
    /// accept.
    fn try_check(&self, ctx: &ScanContext) -> (r: Option<Vec<RuleDiagnostic>>)
        ensures
            r is Some <==> self.accepts(*ctx),
            r matches Some(v) ==> v@ == self.findings(*ctx),
    ;

    /// The rule's findings for `ctx`.
    fn check(&self, ctx: &ScanContext) -> (r: Vec<RuleDiagnostic>)
        requires
            self.accepts(*ctx),
        ensures
            r@ == self.findings(*ctx),
    ;
}

/// One of the registered rules.
#[derive(Debug, Clone, Copy, PartialEq, Eq, Structural)]
pub enum RuleKind {
    VHtml,
    DynamicBindSrc,
    InlineStyle,
    WatchWithCallback,
}

impl Rule for RuleKind {
    open spec fn spec_name(&self) -> Seq<char> {
        match self {
            RuleKind::VHtml => NoVHtml.spec_name(),
            RuleKind::DynamicBindSrc => NoDynamicBindSrc.spec_name(),
            RuleKind::InlineStyle => NoInlineStyle.spec_name(),
            RuleKind::WatchWithCallback => NoWatchWithCallback.spec_name(),
        }
    }

    open spec fn spec_id(&self) -> Seq<char> {
        match self {
            RuleKind::VHtml => NoVHtml.spec_id(),
            RuleKind::DynamicBindSrc => NoDynamicBindSrc.spec_id(),
            RuleKind::InlineStyle => NoInlineStyle.spec_id(),
            RuleKind::WatchWithCallback => NoWatchWithCallback.spec_id(),
        }
    }

    open spec fn spec_description(&self) -> Seq<char> {
        match self {
            RuleKind::VHtml => NoVHtml.spec_description(),
            RuleKind::DynamicBindSrc => NoDynamicBindSrc.spec_description(),
            RuleKind::InlineStyle => NoInlineStyle.spec_description(),
            RuleKind::WatchWithCallback => NoWatchWithCallback.spec_description(),
        }
    }

    open spec fn accepts(&self, ctx: ScanContext) -> bool {
        match self {
            RuleKind::VHtml => NoVHtml.accepts(ctx),
            RuleKind::DynamicBindSrc => NoDynamicBindSrc.accepts(ctx),
            RuleKind::InlineStyle => NoInlineStyle.accepts(ctx),
            RuleKind::WatchWithCallback => NoWatchWithCallback.accepts(ctx),
        }
    }

    open spec fn findings(&self, ctx: ScanContext) -> Seq<RuleDiagnostic> {
        match self {
            RuleKind::VHtml => NoVHtml.findings(ctx),
            RuleKind::DynamicBindSrc => NoDynamicBindSrc.findings(ctx),
            RuleKind::InlineStyle => NoInlineStyle.findings(ctx),
            RuleKind::WatchWithCallback => NoWatchWithCallback.findings(ctx),
        }
    }

    fn name(&self) -> (r: &'static str) {
        match self {
            RuleKind::VHtml => NoVHtml.name(),
            RuleKind::DynamicBindSrc => NoDynamicBindSrc.name(),
            RuleKind::InlineStyle => NoInlineStyle.name(),
            RuleKind::WatchWithCallback => NoWatchWithCallback.name(),
        }
    }

    fn id(&self) -> (r: &'static str) {
        match self {
            RuleKind::VHtml => NoVHtml.id(),
            RuleKind::DynamicBindSrc => NoDynamicBindSrc.id(),
            RuleKind::InlineStyle => NoInlineStyle.id(),
            RuleKind::WatchWithCallback => NoWatchWithCallback.id(),
        }
    }

    fn description(&self) -> (r: &'static str) {
        match self {
            RuleKind::VHtml => NoVHtml.description(),
            RuleKind::DynamicBindSrc => NoDynamicBindSrc.description(),
            RuleKind::InlineStyle => NoInlineStyle.description(),
            RuleKind::WatchWithCallback => NoWatchWithCallback.description(),
        }
    }

    fn try_check(&self, ctx: &ScanContext) -> (r: Option<Vec<RuleDiagnostic>>) {
        match self {
            RuleKind::VHtml => NoVHtml.try_check(ctx),
            RuleKind::DynamicBindSrc => NoDynamicBindSrc.try_check(ctx),
            RuleKind::InlineStyle => NoInlineStyle.try_check(ctx),
            RuleKind::WatchWithCallback => NoWatchWithCallback.try_check(ctx),
        }
    }

    fn check(&self, ctx: &ScanContext) -> (r: Vec<RuleDiagnostic>) {
        match self {
            RuleKind::VHtml => NoVHtml.check(ctx),
            RuleKind::DynamicBindSrc => NoDynamicBindSrc.check(ctx),
            RuleKind::InlineStyle => NoInlineStyle.check(ctx),
            RuleKind::WatchWithCallback => NoWatchWithCallback.check(ctx),
        }
    }
}

/// The rules a registry holds, in order.
pub open spec fn registered_rules() -> Seq<RuleKind> {
    seq![
        RuleKind::VHtml,
        RuleKind::DynamicBindSrc,
        RuleKind::InlineStyle,
        RuleKind::WatchWithCallback,
    ]
}

/// The first rule of `rs` whose name is `name`.
pub open spec fn first_named(rs: Seq<RuleKind>, name: Seq<char>) -> Option<RuleKind>
    decreases rs.len(),
{
    if rs.len() == 0 {
        None
    } else if rs[0].spec_name() == name {
        Some(rs[0])
    } else {
        first_named(rs.drop_first(), name)
    }
}

/// The contents of a sequence of strings.
pub open spec fn string_views(v: Seq<String>) -> Seq<Seq<char>> {
    v.map_values(|s: String| s@)
}

/// `names` holds the short name or the full id of rule `k`.
pub open spec fn names_contain(names: Seq<Seq<char>>, k: RuleKind) -> bool {
    names.contains(k.spec_name()) || names.contains(k.spec_id())
}

/// The rules of `rs` selected by `names`: all of them when no name is given,
/// else those whose short name or full id is among `names`, in order.
pub open spec fn selected(rs: Seq<RuleKind>, names: Seq<Seq<char>>) -> Seq<RuleKind> {
    if names.len() == 0 {
        rs
    } else {
        rs.filter(|k: RuleKind| names_contain(names, k))
    }
}

/// The set of available rules.
pub struct RuleRegistry {
    rules: Vec<RuleKind>,
}

impl View for RuleRegistry {
    type V = Seq<RuleKind>;

    /// The rules the registry holds, in order.
    closed spec fn view(&self) -> Seq<RuleKind> {
        self.rules@
    }
}

impl RuleRegistry {
    #[verifier::type_invariant]
    spec fn holds_registered_rules(self) -> bool {
        self.rules@ == registered_rules()
    }

    /// A registry with every rule, in the order `registered_rules` gives.
    pub fn new() -> (r: Self)
        ensures
            r@ == registered_rules(),
    {
        let mut rules: Vec<RuleKind> = Vec::new();
        rules.push(RuleKind::VHtml);
        rules.push(RuleKind::DynamicBindSrc);
        rules.push(RuleKind::InlineStyle);
        rules.push(RuleKind::WatchWithCallback);
        assert(rules@ =~= registered_rules());
        RuleRegistry { rules }
    }

    /// Every rule.
    pub fn get_all(&self) -> (r: &[RuleKind])
        ensures
            r@ == self@,
            r@ == registered_rules(),
    {
        proof {
            use_type_invariant(self);
        }
        self.rules.as_slice()
    }

    /// The rule named `name`, if there is one.
    pub fn get_by_name(&self, name: &str) -> (r: Option<RuleKind>)
        ensures
            r == first_named(registered_rules(), name@),
    {
        proof {
            use_type_invariant(self);
        }
        let mut i: usize = 0;
        assert(registered_rules().skip(0) =~= registered_rules());
        while i < self.rules.len()
            invariant
                self.rules@ == registered_rules(),
                i <= self.rules.len(),
                first_named(registered_rules(), name@) == first_named(
                    registered_rules().skip(i as int),
                    name@,
                ),
            decreases self.rules.len() - i,
        {
            let k = self.rules[i];
            proof {
                let rest = registered_rules().skip(i as int);
                assert(rest[0] == k);
                assert(rest.drop_first() =~= registered_rules().skip(i + 1));
            }
            if str_eq(k.name(), name) {
                return Some(k);
            }
            i = i + 1;
        }
        None
    }

    /// The rules named in `enabled_rules`, in registry order; every rule when
    /// `enabled_rules` is empty.
    pub fn get_enabled(&self, enabled_rules: &[String]) -> (r: Vec<RuleKind>)
        ensures
            r@ == selected(registered_rules(), string_views(enabled_rules@)),
    {
        proof {
            use_type_invariant(self);
        }
        let ghost names = string_views(enabled_rules@);
        if enabled_rules.len() == 0 {
            let mut all: Vec<RuleKind> = Vec::new();
            let mut i: usize = 0;
            while i < self.rules.len()
                invariant
                    i <= self.rules.len(),
                    all@ == self.rules@.take(i as int),
                decreases self.rules.len() - i,
            {
                all.push(self.rules[i]);
                proof {
                    assert(self.rules@.take(i + 1) =~= self.rules@.take(i as int).push(
                        self.rules@[i as int],
                    ));
                }
                i = i + 1;
            }
            assert(self.rules@.take(self.rules.len() as int) =~= self.rules@);
            return all;
        }
        let ghost pred = |k: RuleKind| names_contain(names, k);
        let mut picked: Vec<RuleKind> = Vec::new();
        let mut i: usize = 0;
        proof {
            assert(self.rules@.take(0) =~= Seq::<RuleKind>::empty());
            reveal_with_fuel(Seq::<_>::filter, 1);
        }
        while i < self.rules.len()
            invariant
                self.rules@ == registered_rules(),
                names == string_views(enabled_rules@),
                pred == (|k: RuleKind| names_contain(names, k)),
                i <= self.rules.len(),
                picked@ == self.rules@.take(i as int).filter(pred),
            decreases self.rules.len() - i,
        {
            let k = self.rules[i];
            let name = k.name();
            let id = k.id();
            let mut found = false;
            let mut j: usize = 0;
            while j < enabled_rules.len()
                invariant
                    names == string_views(enabled_rules@),
                    j <= enabled_rules.len(),
                    found == exists|m: int|
                        0 <= m < j && (#[trigger] names[m] == name@ || names[m] == id@),
                decreases enabled_rules.len() - j,
            {
                let same = str_eq(enabled_rules[j].as_str(), name) || str_eq(
                    enabled_rules[j].as_str(),
                    id,
                );
                proof {
                    assert(names[j as int] == enabled_rules@[j as int]@);
                    if !same {
                        assert forall|m: int|
                            0 <= m < j + 1 && (#[trigger] names[m] == name@ || names[m]
                                == id@) implies 0 <= m < j by {}
                    }
                }
                if same {
                    found = true;
                }
                j = j + 1;
            }
            proof {
                if names.contains(k.spec_name()) {
                    let m = choose|m: int| 0 <= m < names.len() && names[m] == k.spec_name();
                    assert(names[m] == name@);
                }
                if names.contains(k.spec_id()) {
                    let m = choose|m: int| 0 <= m < names.len() && names[m] == k.spec_id();
                    assert(names[m] == id@);
                }
                assert(found == names_contain(names, k));
                assert(self.rules@.take(i + 1).drop_last() =~= self.rules@.take(i as int));
                assert(self.rules@.take(i + 1).last() == k);
            }
            let ghost before = self.rules@.take(i as int).filter(pred);
            proof {
                reveal_with_fuel(Seq::<_>::filter, 1);
                assert(self.rules@.take(i + 1).filter(pred) == (if pred(k) {
                    before.push(k)
                } else {
                    before
                }));
            }
            if found {
                picked.push(k);
            }
            i = i + 1;
        }
        assert(self.rules@.take(self.rules.len() as int) =~= self.rules@);
        picked
    }
}

impl Default for RuleRegistry {
    fn default() -> (r: Self)
        ensures
            r@ == registered_rules(),
    {
        Self::new()
    }
}

/// The registered rules have pairwise different names.
pub proof fn law_rule_names_distinct(i: int, j: int)
    requires
        0 <= i < registered_rules().len(),
        0 <= j < registered_rules().len(),
        i != j,
    ensures
        registered_rules()[i].spec_name() != registered_rules()[j].spec_name(),
{
    reveal_strlit("no-v-html");
    reveal_strlit("no-dynamic-bind-src");
    reveal_strlit("no-inline-style");
    reveal_strlit("no-watch-with-callback");
    let a = registered_rules()[i].spec_name();
    let b = registered_rules()[j].spec_name();
    if a == b {
        assert(a.len() == b.len());
        assert(a[3] == b[3]);
    }
}

/// The registered rules have pairwise different full ids.
pub proof fn law_rule_ids_distinct(i: int, j: int)
    requires
        0 <= i < registered_rules().len(),
        0 <= j < registered_rules().len(),
        i != j,
    ensures
        registered_rules()[i].spec_id() != registered_rules()[j].spec_id(),
{
    reveal_strlit("vue/security/no-v-html");
    reveal_strlit("vue/security/no-dynamic-bind-src");
    reveal_strlit("vue/performance/no-inline-style");
    reveal_strlit("vue/best-practices/no-watch-with-callback");
    let a = registered_rules()[i].spec_id();
    let b = registered_rules()[j].spec_id();
    if a == b {
        assert(a.len() == b.len());
        assert(a[17] == b[17]);
    }
}

/// Looking a name up finds the registered rule of that name, and nothing
/// when no registered rule has it.
pub proof fn law_lookup_by_name(name: Seq<char>, k: RuleKind)
    ensures
        first_named(registered_rules(), name) == Some(k) <==> (registered_rules().contains(k)
            && k.spec_name() == name),
{
    let r = registered_rules();
    assert(r.drop_first() =~= seq![r[1], r[2], r[3]]);
    assert(r.drop_first().drop_first() =~= seq![r[2], r[3]]);
    assert(r.drop_first().drop_first().drop_first() =~= seq![r[3]]);
    assert(r.drop_first().drop_first().drop_first().drop_first() =~= Seq::<RuleKind>::empty());
    reveal_with_fuel(first_named, 5);
    if r.contains(k) && k.spec_name() == name {
        let i = choose|i: int| 0 <= i < r.len() && r[i] == k;
        assert forall|j: int| 0 <= j < r.len() && j != i implies r[j].spec_name() != name by {
            law_rule_names_distinct(i, j);
        }
    }
    if first_named(r, name) == Some(k) {
        assert(r[0] == k || r[1] == k || r[2] == k || r[3] == k);
    }
}

/// With a non-empty selection, a rule is enabled exactly when one of the
/// given names looks it up, or is its full id.
pub proof fn law_enabled_iff_looked_up(names: Seq<Seq<char>>, k: RuleKind)
    requires
        names.len() > 0,
    ensures
        selected(registered_rules(), names).contains(k) <==> exists|i: int|
            0 <= i < names.len() && (first_named(registered_rules(), #[trigger] names[i]) == Some(
                k,
            ) || names[i] == k.spec_id()),
{
    let r = registered_rules();
    let pred = |x: RuleKind| names_contain(names, x);
    broadcast use vstd::seq_lib::group_filter_ensures;

    if selected(r, names).contains(k) {
        r.lemma_filter_contains_rev(pred, k);
        let j = choose|j: int| 0 <= j < r.filter(pred).len() && r.filter(pred)[j] == k;
        assert(pred(r.filter(pred)[j]));
        if names.contains(k.spec_name()) {
            let i = choose|i: int| 0 <= i < names.len() && names[i] == k.spec_name();
            law_lookup_by_name(names[i], k);
        } else {
            let i = choose|i: int| 0 <= i < names.len() && names[i] == k.spec_id();
            assert(names[i] == k.spec_id());
        }
    }
    if exists|i: int|
        0 <= i < names.len() && (first_named(r, #[trigger] names[i]) == Some(k) || names[i]
            == k.spec_id()) {
        let i = choose|i: int|
            0 <= i < names.len() && (first_named(r, #[trigger] names[i]) == Some(k) || names[i]
                == k.spec_id());
        law_lookup_by_name(names[i], k);
        let m = choose|m: int| 0 <= m < r.len() && r[m] == k;
        assert(names[i] == k.spec_name() || names[i] == k.spec_id());
        assert(pred(r[m]));
    }
}

// ---------------------------------------------------------------------------
// Where reported spans point
// ---------------------------------------------------------------------------
/// Byte offset `o` is `base` plus the byte offset of a match in `s` of one
/// of `pats`.
pub open spec fn at_match(s: Seq<char>, base: int, o: int, pats: Seq<Seq<char>>) -> bool {
    exists|p: int, q: int|
        #![trigger matches_at(s, p, pats[q])]
        0 <= q < pats.len() && matches_at(s, p, pats[q]) && o == base + byte_len(s.take(p))
}

/// Every span of `spans` starts at a match in `s` of one of `pats`.
pub open spec fn spans_at_matches(
    s: Seq<char>,
    base: int,
    spans: Seq<(int, int)>,
    pats: Seq<Seq<char>>,
) -> bool {
    forall|m: int| 0 <= m < spans.len() ==> at_match(s, base, #[trigger] spans[m].0, pats)
}

/// Everything `f` reports for a line starts at a match of one of `pats`.
pub open spec fn scanner_reports_matches(f: LineScanner, pats: Seq<Seq<char>>) -> bool {
    forall|l: Seq<char>, b: int|
        #[trigger] f(l, b) is Some ==> spans_at_matches(l, b, f(l, b)->Some_0, pats)
}

pub proof fn lemma_spans_at_matches_append(
    s: Seq<char>,
    base: int,
    a: Seq<(int, int)>,
    b: Seq<(int, int)>,
    pats: Seq<Seq<char>>,
)
    requires
        spans_at_matches(s, base, a, pats),
        spans_at_matches(s, base, b, pats),
    ensures
        spans_at_matches(s, base, a + b, pats),
{
    assert forall|m: int| 0 <= m < (a + b).len() implies at_match(
        s,
        base,
        #[trigger] (a + b)[m].0,
        pats,
    ) by {
        if m < a.len() {
            assert((a + b)[m] == a[m]);
        } else {
            assert((a + b)[m] == b[m - a.len()]);
        }
    }
}

/// A match in line `s[start..end]` is a match in `s`, at the byte offset of
/// the line's start plus its offset in the line.
proof fn lemma_line_spans_in_text(
    s: Seq<char>,
    start: int,
    end: int,
    base: int,
    h: Seq<(int, int)>,
    pats: Seq<Seq<char>>,
)
    requires
        0 <= start <= end <= s.len(),
        spans_at_matches(s.subrange(start, end), base + byte_len(s.take(start)), h, pats),
    ensures
        spans_at_matches(s, base, h, pats),
{
    let l = s.subrange(start, end);
    assert forall|m: int| 0 <= m < h.len() implies at_match(s, base, #[trigger] h[m].0, pats) by {
        let (p, q) = choose|p: int, q: int|
            #![trigger matches_at(l, p, pats[q])]
            0 <= q < pats.len() && matches_at(l, p, pats[q]) && h[m].0 == base + byte_len(
                s.take(start),
            ) + byte_len(l.take(p));
        assert(s.subrange(start + p, start + p + pats[q].len()) =~= l.subrange(
            p,
            p + pats[q].len(),
        ));
        lemma_byte_len_subrange(s, start, start + p);
        assert(s.subrange(start, start + p) =~= l.take(p));
        assert(matches_at(s, start + p, pats[q]));
    }
}

/// Scanning the lines of a text reports spans that start at matches in the
/// text itself.
pub proof fn lemma_scan_text_located(
    t: Seq<char>,
    offset: int,
    start: int,
    f: LineScanner,
    pats: Seq<Seq<char>>,
)
    requires
        0 <= start <= t.len(),
        scanner_reports_matches(f, pats),
    ensures
        scan_text(t, start, offset, f) matches Some(spans) ==> spans_at_matches(
            t,
            offset,
            spans,
            pats,
        ),
    decreases t.len() - start,
{
    if start < t.len() {
        lemma_next_newline(t, start);
        lemma_line_content(t, start);
        let nl = next_newline(t, start);
        let l = line_content(t, start);
        let base = offset + byte_len(t.take(start));
        if f(l, base) is Some {
            let h = f(l, base)->Some_0;
            assert(spans_at_matches(l, base, h, pats));
            lemma_line_spans_in_text(t, start, start + l.len(), offset, h, pats);
            if nl < t.len() {
                lemma_scan_text_located(t, offset, nl + 1, f, pats);
            }
            if let Some(r) = scan_text(t, nl + 1, offset, f) {
                lemma_spans_at_matches_append(t, offset, h, r, pats);
            }
        }
    }
}

// ---------------------------------------------------------------------------
// Scanning visits every line
// ---------------------------------------------------------------------------
proof fn lemma_next_newline_shift(p: Seq<char>, q: Seq<char>, j: int)
    requires
        0 <= j <= q.len(),
    ensures
        next_newline(p + q, p.len() + j) == p.len() + next_newline(q, j),
    decreases q.len() - j,
{
    if j < q.len() {
        assert((p + q)[p.len() + j] == q[j]);
        if q[j] != '\n' {
            lemma_next_newline_shift(p, q, j + 1);
        }
    }
}

/// Scanning the part `q` of the text `p + q` is scanning `q` alone, at an
/// offset moved by the bytes of `p`.
proof fn lemma_scan_text_shift(p: Seq<char>, q: Seq<char>, j: int, offset: int, f: LineScanner)
    requires
        0 <= j <= q.len(),
    ensures
        scan_text(p + q, p.len() + j, offset, f) == scan_text(q, j, offset + byte_len(p), f),
    decreases q.len() - j,
{
    let t = p + q;
    if j < q.len() {
        lemma_next_newline_shift(p, q, j);
        lemma_next_newline(q, j);
        let nl = next_newline(q, j);
        assert(t.subrange(p.len() + j, p.len() + nl) =~= q.subrange(j, nl));
        assert(line_content(t, p.len() + j) == line_content(q, j));
        assert(t.take(p.len() + j) =~= p + q.take(j));
        lemma_byte_len_append(p, q.take(j));
        if nl < q.len() {
            lemma_scan_text_shift(p, q, nl + 1, offset, f);
        }
    }
}

/// The text `a + sep + b`, where `a` holds no `\n`, starts with the line `a`
/// and the next line starts right after `sep`.
proof fn lemma_first_line(a: Seq<char>, sep: Seq<char>, b: Seq<char>)
    requires
        forall|i: int| 0 <= i < a.len() ==> a[i] != '\n',
        sep == "\n"@ || sep == "\r\n"@,
        sep == "\r\n"@ || a.len() == 0 || a.last() != '\r',
    ensures
        next_newline(a + sep + b, 0) == a.len() + sep.len() - 1,
        line_content(a + sep + b, 0) == a,
{
    reveal_strlit("\n");
    reveal_strlit("\r\n");
    let t = a + sep + b;
    let nl = a.len() + sep.len() - 1;
    assert(t[nl] == '\n');
    assert forall|i: int| 0 <= i < nl implies t[i] != '\n' by {
        if i < a.len() {
            assert(t[i] == a[i]);
        } else {
            assert(t[i] == '\r');
        }
    }
    lemma_next_newline(t, 0);
    assert(next_newline(t, 0) == nl) by {
        if next_newline(t, 0) < nl {
            assert(t[next_newline(t, 0)] == '\n');
        }
    }
    if sep == "\r\n"@ {
        assert(t.subrange(0, nl).drop_last() =~= a);
    } else {
        assert(t.subrange(0, nl) =~= a);
    }
}

/// Scanning a text scans every line that `str::lines` yields, empty ones
/// included: a text whose first line is `a` (no `\n` in it, not ending in
/// `\r`), ended by `\n`, is scanned as `a` at `offset`, then the rest `b` at
/// `offset` plus the bytes of `a` and the newline. Each line's spans are
/// those of the line scanner for that line alone.
pub proof fn law_scan_text_first_line(a: Seq<char>, b: Seq<char>, offset: int, f: LineScanner)
    requires
        forall|i: int| 0 <= i < a.len() ==> a[i] != '\n',
        a.len() == 0 || a.last() != '\r',
    ensures
        scan_text(a + "\n"@ + b, 0, offset, f) == match f(a, offset) {
            None => None,
            Some(h) => prepend_spans(h, scan_text(b, 0, offset + byte_len(a) + 1, f)),
        },
{
    reveal_strlit("\n");
    let p = a + "\n"@;
    lemma_first_line(a, "\n"@, b);
    assert((a + "\n"@ + b).take(0) =~= Seq::<char>::empty());
    lemma_scan_text_shift(p, b, 0, offset, f);
    lemma_byte_len_append(a, "\n"@);
    assert("\n"@.drop_last() =~= Seq::<char>::empty());
}

/// The same for a first line ended by `\r\n`: the line is scanned without
/// the `\r`, and the rest starts two bytes after it.
pub proof fn law_scan_text_first_crlf_line(a: Seq<char>, b: Seq<char>, offset: int, f: LineScanner)
    requires
        forall|i: int| 0 <= i < a.len() ==> a[i] != '\n',
    ensures
        scan_text(a + "\r\n"@ + b, 0, offset, f) == match f(a, offset) {
            None => None,
            Some(h) => prepend_spans(h, scan_text(b, 0, offset + byte_len(a) + 2, f)),
        },
{
    reveal_strlit("\r\n");
    let p = a + "\r\n"@;
    lemma_first_line(a, "\r\n"@, b);
    assert((a + "\r\n"@ + b).take(0) =~= Seq::<char>::empty());
    lemma_scan_text_shift(p, b, 0, offset, f);
    lemma_byte_len_append(a, "\r\n"@);
    assert("\r\n"@.drop_last() =~= seq!['\r']);
    assert(seq!['\r'].drop_last() =~= Seq::<char>::empty());
    assert(byte_len(seq!['\r']) == 1);
    assert(byte_len("\r\n"@) == 2);
}

/// A last line without a newline is scanned as it is, and an empty text
/// yields no span.
pub proof fn law_scan_text_last_line(a: Seq<char>, offset: int, f: LineScanner)
    requires
        forall|i: int| 0 <= i < a.len() ==> a[i] != '\n',
    ensures
        a.len() == 0 ==> scan_text(a, 0, offset, f) == Some(Seq::<(int, int)>::empty()),
        a.len() > 0 ==> scan_text(a, 0, offset, f) == match f(a, offset) {
            None => None,
            Some(h) => Some(h),
        },
{
    if a.len() > 0 {
        lemma_next_newline(a, 0);
        assert(next_newline(a, 0) == a.len()) by {
            if next_newline(a, 0) < a.len() {
                assert(a[next_newline(a, 0)] == '\n');
            }
        }
        assert(a.subrange(0, a.len() as int) =~= a);
        assert(line_content(a, 0) == a);
        assert(a.take(0) =~= Seq::<char>::empty());
        assert(byte_len(a.take(0)) == 0);
        assert(scan_text(a, a.len() + 1int, offset, f) == Some(Seq::<(int, int)>::empty()));
        if let Some(h) = f(a, offset) {
            assert(h + Seq::<(int, int)>::empty() =~= h);
        }
    }
}

// ---------------------------------------------------------------------------
// Order of reported spans
// ---------------------------------------------------------------------------
/// The spans start at strictly increasing offsets, all in `[lo, hi)`.
pub open spec fn increasing_within(spans: Seq<(int, int)>, lo: int, hi: int) -> bool {
    &&& forall|i: int| 0 <= i < spans.len() ==> lo <= #[trigger] spans[i].0 < hi
    &&& forall|i: int, j: int|
        0 <= i < j < spans.len() ==> #[trigger] spans[i].0 < #[trigger] spans[j].0
}

/// For every line, `f` reports spans in increasing order that start inside
/// the line's bytes.
pub open spec fn scanner_increasing(f: LineScanner) -> bool {
    forall|l: Seq<char>, b: int|
        #[trigger] f(l, b) is Some ==> increasing_within(f(l, b)->Some_0, b, b + byte_len(l))
}

proof fn lemma_increasing_append(a: Seq<(int, int)>, b: Seq<(int, int)>, lo: int, mid: int, hi: int)
    requires
        increasing_within(a, lo, mid),
        increasing_within(b, mid, hi),
        lo <= mid <= hi,
    ensures
        increasing_within(a + b, lo, hi),
{
    let s = a + b;
    assert forall|i: int| 0 <= i < s.len() implies lo <= #[trigger] s[i].0 < hi by {
        if i < a.len() {
            assert(s[i] == a[i]);
        } else {
            assert(s[i] == b[i - a.len()]);
        }
    }
    assert forall|i: int, j: int| 0 <= i < j < s.len() implies #[trigger] s[i].0 < #[trigger] s[j].0 by {
        if j < a.len() {
            assert(s[i] == a[i] && s[j] == a[j]);
        } else if i >= a.len() {
            assert(s[i] == b[i - a.len()] && s[j] == b[j - a.len()]);
        } else {
            assert(s[i] == a[i] && s[j] == b[j - a.len()]);
        }
    }
}

/// With a scanner that reports in order within each line, scanning a text
/// reports spans at strictly increasing offsets.
pub proof fn lemma_scan_text_increasing(t: Seq<char>, offset: int, start: int, f: LineScanner)
    requires
        0 <= start <= t.len(),
        scanner_increasing(f),
    ensures
        scan_text(t, start, offset, f) matches Some(spans) ==> increasing_within(
            spans,
            offset + byte_len(t.take(start)),
            offset + byte_len(t),
        ),
    decreases t.len() - start,
{
    assert(t.take(t.len() as int) =~= t);
    if start < t.len() {
        lemma_next_newline(t, start);
        lemma_line_content(t, start);
        let nl = next_newline(t, start);
        let l = line_content(t, start);
        let base = offset + byte_len(t.take(start));
        if f(l, base) is Some {
            let h = f(l, base)->Some_0;
            assert(increasing_within(h, base, base + byte_len(l)));
            lemma_byte_len_subrange(t, start, start + l.len());
            let mid = if nl < t.len() {
                nl + 1
            } else {
                t.len() as int
            };
            lemma_byte_len_take_mono(t, start + l.len(), mid);
            lemma_byte_len_take_mono(t, mid, t.len() as int);
            if nl < t.len() {
                lemma_scan_text_increasing(t, offset, nl + 1, f);
            }
            if let Some(r) = scan_text(t, nl + 1, offset, f) {
                if nl >= t.len() {
                    assert(r =~= Seq::<(int, int)>::empty());
                }
                lemma_increasing_append(
                    h,
                    r,
                    base,
                    offset + byte_len(t.take(mid)),
                    offset + byte_len(t),
                );
            }
        }
    } else {
        assert(scan_text(t, start, offset, f) == Some(Seq::<(int, int)>::empty()));
    }
}

/// Spans that start at matches in `t`, where `t` stands at byte `offset`
/// of `src`, start at matches in `src`.
pub proof fn lemma_spans_relocated(
    src: Seq<char>,
    t: Seq<char>,
    offset: int,
    spans: Seq<(int, int)>,
    pats: Seq<Seq<char>>,
)
    requires
        spans_at_matches(t, offset, spans, pats),
        exists|c: int|
            0 <= c && c + t.len() <= src.len() && byte_len(src.take(c)) == offset && src.subrange(
                c,
                c + t.len(),
            ) == t,
    ensures
        spans_at_matches(src, 0, spans, pats),
{
    let c = choose|c: int|
        0 <= c && c + t.len() <= src.len() && byte_len(src.take(c)) == offset && src.subrange(
            c,
            c + t.len(),
        ) == t;
    assert(src.subrange(c, c + t.len()) == t);
    lemma_line_spans_in_text(src, c, c + t.len(), 0, spans, pats);
}

/// `ctx`'s template is the `<template>` block of its source, at the offset
/// the block reports (what `parse_sfc` leaves when it finds one).
pub open spec fn template_from_source(ctx: ScanContext) -> bool {
    match block_of(ctx.source@, "template"@) {
        Some(b) => ctx.template matches Some(t) && t@ == b.1 && ctx.template_offset == b.3,
        None => false,
    }
}

/// `ctx`'s script is the `<script>` block of its source, at the offset the
/// block reports.
pub open spec fn script_from_source(ctx: ScanContext) -> bool {
    match block_of(ctx.source@, "script"@) {
        Some(b) => ctx.script matches Some(t) && t@ == b.1 && ctx.script_offset == b.3,
        None => false,
    }
}

} // verus!
