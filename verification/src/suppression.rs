//! Inline suppression comments.
//!
//! A `<script>` or `<template>` line can carry a comment that silences rules
//! for that line and the line below it:
//!
//! ```text
//! // vuer-ignore[no-v-html]
//! <!-- vuer-ignore[no-v-html] -->
//! ```
//!
//! The comment opener must be followed by whitespace; `vuer` and `ignore`
//! are joined by `-` or `:` and optional whitespace. The bracketed list is
//! split at commas; each entry is trimmed, and an entry names a rule when it
//! equals the rule's short name or its full id. Empty entries (from extra or
//! trailing commas) name nothing.
//!
//! Every ignore comment of a line counts. The match is textual: the phrase
//! inside a string literal or a block comment suppresses just the same.
use vstd::prelude::*;
use vstd::string::StrSliceExecFns;

use crate::rules::{Rule, RuleDiagnostic, RuleKind};
use crate::text::{
    matches_at, byte_len, byte_len_between, char_index_at, char_index_of_byte, chars_eq, chars_of, is_boundary,
    lemma_next_index_of, lemma_next_newline, lemma_line_start, line_start, line_start_exec,
    next_index_of, next_index_of_exec, next_newline, next_newline_exec, slice_chars, trim,
    trim_exec, is_whitespace, skip_ws, skip_ws_back, lemma_skip_ws, lemma_skip_ws_back,
};

verus! {

/// What the `regex` crate yields for `text`: for each successive
/// non-overlapping leftmost-first match of `pattern`, the text of its capture
/// group `group` (`None` where the group took no part); empty when the
/// pattern does not compile.
pub uninterp spec fn regex_captures(pattern: Seq<char>, text: Seq<char>, group: nat) -> Seq<
    Option<Seq<char>>,
>;

/// The texts held by `v`.
pub open spec fn option_views(v: Seq<Option<String>>) -> Seq<Option<Seq<char>>> {
    v.map_values(
        |o: Option<String>|
            match o {
                Some(s) => Some(s@),
                None => None,
            },
    )
}

/// Where an ignore comment starts at char index `i` of `s`: `//` or `<!--`,
/// at least one whitespace char, `vuer`, `-` or `:`, any whitespace,
/// `ignore[`, then a non-empty rule list that runs to the first `]`. The
/// (start, end) char indices of the rule list, or `None`.
pub open spec fn comment_at(s: Seq<char>, i: int) -> Option<(int, int)> {
    let j = if matches_at(s, i, "//"@) {
        i + 2
    } else if matches_at(s, i, "<!--"@) {
        i + 4
    } else {
        -1
    };
    if j < 0 {
        None
    } else {
        let w = skip_ws(s, j);
        if w > j && (matches_at(s, w, "vuer-"@) || matches_at(s, w, "vuer:"@)) {
            let g = skip_ws(s, w + 5);
            if matches_at(s, g, "ignore["@) {
                let a = g + 7;
                let b = next_index_of(s, ']', a);
                if a < b < s.len() {
                    Some((a, b))
                } else {
                    None
                }
            } else {
                None
            }
        } else {
            None
        }
    }
}

proof fn lemma_comment_at(s: Seq<char>, i: int)
    ensures
        comment_at(s, i) matches Some(c) ==> 0 <= i < c.0 < c.1 < s.len(),
{
    reveal_strlit("//");
    reveal_strlit("<!--");
    reveal_strlit("vuer-");
    reveal_strlit("vuer:");
    let j = if matches_at(s, i, "//"@) {
        i + 2
    } else if matches_at(s, i, "<!--"@) {
        i + 4
    } else {
        -1
    };
    if j >= 0 {
        lemma_skip_ws(s, j);
        let w = skip_ws(s, j);
        if w > j && (matches_at(s, w, "vuer-"@) || matches_at(s, w, "vuer:"@)) {
            lemma_skip_ws(s, w + 5);
        }
    }
}

/// The rule lists of the ignore comments of `s` found from char index `i`
/// on: the leftmost comment, then the leftmost one after its `]`, and so on.
pub open spec fn comment_lists_from(s: Seq<char>, i: int) -> Seq<Seq<char>>
    decreases s.len() + 1 - i
    via comment_lists_from_decreases
{
    if i < 0 || i > s.len() {
        seq![]
    } else {
        match comment_at(s, i) {
            Some(c) => seq![s.subrange(c.0, c.1)] + comment_lists_from(s, c.1 + 1),
            None => comment_lists_from(s, i + 1),
        }
    }
}

#[via_fn]
proof fn comment_lists_from_decreases(s: Seq<char>, i: int) {
    lemma_comment_at(s, i);
}

/// Each rule list as a present capture.
pub open spec fn present(lists: Seq<Seq<char>>) -> Seq<Option<Seq<char>>> {
    lists.map_values(|l: Seq<char>| Some(l))
}

/// Compiles `pattern` with `regex::Regex::new`, walks the matches in `text`
/// with `Regex::captures_iter` and returns, for each, the text of capture
/// group `group` (`Captures::get`, `Match::as_str`); no matches when the
/// pattern does not compile. For any pattern the contract claims that the
/// result depends on `pattern`, `text` and `group` alone (it is named
/// `regex_captures`). For the ignore-comment pattern and group 1 it states
/// the result: the rule lists of `comment_lists_from(text, 0)`, each
/// present. That follows from the crate's documented semantics: successive
/// non-overlapping leftmost-first matches, greedy repetition, `\s` as
/// Unicode `White_Space` (`is_whitespace`), and `[^\]]` as any char but `]`.
/// Greedy `\s+` and `\s*` can only stop before the letter that follows them,
/// `[^\]]+` only before the first `]`, and no match can start inside a
/// closing `-->`, so the next search may as well resume after the `]`.
#[verifier::external_body]
fn regex_capture_groups(pattern: &str, text: &str, group: usize) -> (r: Vec<Option<String>>)
    ensures
        option_views(r@) == regex_captures(pattern@, text@, group as nat),
        pattern@ == ignore_pattern() && group == 1 ==> option_views(r@) == present(
            comment_lists_from(text@, 0),
        ),
{
    match regex::Regex::new(pattern) {
        Ok(re) => re.captures_iter(text).map(|c| c.get(group).map(|m| m.as_str().to_string())).collect(),
        Err(_) => Vec::new(),
    }
}

/// The pattern of an ignore comment; capture group 1 is the rule list.
pub open spec fn ignore_pattern() -> Seq<char> {
    "(?://|<!--)\\s+vuer[-:]\\s*ignore\\[([^\\]]+)\\](?:-->)?"@
}

/// The pattern of an ignore comment.
fn ignore_expr() -> (r: &'static str)
    ensures
        r@ == ignore_pattern(),
{
    "(?://|<!--)\\s+vuer[-:]\\s*ignore\\[([^\\]]+)\\](?:-->)?"
}

/// The fields of `s` from index `start` on, split at commas (`str::split(',')`).
pub open spec fn comma_fields_from(s: Seq<char>, start: int) -> Seq<Seq<char>>
    decreases s.len() + 1 - start
    via comma_fields_from_decreases
{
    if start < 0 || start > s.len() {
        seq![]
    } else {
        let c = next_index_of(s, ',', start);
        if c < s.len() {
            seq![s.subrange(start, c)] + comma_fields_from(s, c + 1)
        } else {
            seq![s.subrange(start, s.len() as int)]
        }
    }
}

#[via_fn]
proof fn comma_fields_from_decreases(s: Seq<char>, start: int) {
    if 0 <= start <= s.len() {
        lemma_next_index_of(s, ',', start);
    }
}

/// The comma-separated fields of `s`; an empty `s` has one empty field.
pub open spec fn comma_fields(s: Seq<char>) -> Seq<Seq<char>> {
    comma_fields_from(s, 0)
}

/// Some field of the rule list `list`, trimmed, is non-empty and equals
/// `rule_name` or `rule_id`.
pub open spec fn names_rule(list: Seq<char>, rule_name: Seq<char>, rule_id: Seq<char>) -> bool {
    exists|j: int|
        0 <= j < comma_fields(list).len() && {
            let t = trim(#[trigger] comma_fields(list)[j]);
            t.len() > 0 && (t == rule_name || t == rule_id)
        }
}

/// Some ignore comment of `line` has a rule list that names the rule.
pub open spec fn ignores(line: Seq<char>, rule_name: Seq<char>, rule_id: Seq<char>) -> bool {
    let lists = comment_lists_from(line, 0);
    exists|j: int| 0 <= j < lists.len() && names_rule(#[trigger] lists[j], rule_name, rule_id)
}

/// Whether the rule list `list` of an ignore comment names the rule
/// `rule_name` (short name) or `rule_id` (full id).
pub fn list_names_rule(list: &str, rule_name: &str, rule_id: &str) -> (r: bool)
    ensures
        r == names_rule(list@, rule_name@, rule_id@),
{
    let s = chars_of(list);
    let name = chars_of(rule_name);
    let id = chars_of(rule_id);
    let ghost fields = comma_fields(s@);
    let ghost mut seen: nat = 0;
    let mut start: usize = 0;
    loop
        invariant
            start <= s.len(),
            fields == comma_fields(s@),
            s@ == list@,
            name@ == rule_name@,
            id@ == rule_id@,
            seen <= fields.len(),
            fields.skip(seen as int) == comma_fields_from(s@, start as int),
            forall|j: int|
                0 <= j < seen ==> {
                    let t = trim(#[trigger] fields[j]);
                    !(t.len() > 0 && (t == rule_name@ || t == rule_id@))
                },
        decreases s.len() + 1 - start,
    {
        let c = next_index_of_exec(&s, ',', start);
        proof {
            lemma_next_index_of(s@, ',', start as int);
            let rest = comma_fields_from(s@, start as int);
            assert(rest[0] == s@.subrange(start as int, c as int));
            assert(rest.len() >= 1);
            assert(seen < fields.len());
            assert(fields[seen as int] == rest[0]) by {
                assert(fields.skip(seen as int)[0] == fields[seen as int]);
            }
        }
        let field = slice_chars(&s, start, c);
        let t = trim_exec(&field);
        if t.len() > 0 && (chars_eq(&t, &name) || chars_eq(&t, &id)) {
            proof {
                assert(field@ == comma_fields(list@)[seen as int]);
            }
            return true;
        }
        if c >= s.len() {
            proof {
                assert(comma_fields_from(s@, start as int).len() == 1);
                assert(fields.len() == seen + 1);
                assert forall|j: int| 0 <= j < fields.len() implies {
                    let t = trim(#[trigger] fields[j]);
                    !(t.len() > 0 && (t == rule_name@ || t == rule_id@))
                } by {}
            }
            return false;
        }
        proof {
            assert(fields.skip(seen + 1int) =~= fields.skip(seen as int).drop_first());
            assert(comma_fields_from(s@, start as int).drop_first() =~= comma_fields_from(
                s@,
                c + 1,
            ));
            seen = seen + 1;
        }
        start = c + 1;
    }
}

/// Returns true when `line` holds a vuer-ignore comment (any of them, where
/// there are several) that lists either `rule_name` (e.g. `no-v-html`) or
/// `rule_id` (e.g. `vue/security/no-v-html`).
pub fn line_ignores(line: &str, rule_name: &str, rule_id: &str) -> (r: bool)
    ensures
        r == ignores(line@, rule_name@, rule_id@),
{
    let lists = regex_capture_groups(ignore_expr(), line, 1);
    let ghost found = comment_lists_from(line@, 0);
    let mut j: usize = 0;
    while j < lists.len()
        invariant
            option_views(lists@) == present(found),
            found == comment_lists_from(line@, 0),
            j <= lists.len(),
            forall|m: int| 0 <= m < j ==> !names_rule(#[trigger] found[m], rule_name@, rule_id@),
        decreases lists.len() - j,
    {
        proof {
            assert(option_views(lists@).len() == present(found).len());
            assert(option_views(lists@)[j as int] == present(found)[j as int]);
        }
        match &lists[j] {
            Some(list) => {
                if list_names_rule(list.as_str(), rule_name, rule_id) {
                    return true;
                }
            },
            None => {},
        }
        j = j + 1;
    }
    proof {
        assert(option_views(lists@).len() == present(found).len());
    }
    false
}

/// The violation at byte `span_offset` of `source` is ignored: the line that
/// holds that byte (offsets past the end count as the end), or the line just
/// above it, carries an ignore comment naming the rule.
pub open spec fn ignored_at(
    source: Seq<char>,
    span_offset: int,
    rule_name: Seq<char>,
    rule_id: Seq<char>,
) -> bool {
    let b = if span_offset < byte_len(source) {
        span_offset
    } else {
        byte_len(source) as int
    };
    let k = char_index_at(source, b);
    let start = line_start(source, k);
    let end = next_newline(source, start);
    ||| ignores(source.subrange(start, end), rule_name, rule_id)
    ||| start > 0 && ignores(
        source.subrange(line_start(source, start - 1), start - 1),
        rule_name,
        rule_id,
    )
}

/// The byte offset `span_offset`, capped at the end of `source`, falls on a
/// character boundary.
pub open spec fn offset_on_boundary(source: Seq<char>, span_offset: int) -> bool {
    is_boundary(
        source,
        if span_offset < byte_len(source) {
            span_offset
        } else {
            byte_len(source) as int
        },
    )
}

/// Returns true if the line at `span_offset` (or the line immediately
/// above) contains a vuer-ignore comment that lists `rule_name` or
/// `rule_id`. `source` is the full file; `span_offset` is a byte offset.
pub fn violation_is_ignored(source: &str, span_offset: usize, rule_name: &str, rule_id: &str) -> (r:
    bool)
    requires
        byte_len(source@) <= usize::MAX,
        offset_on_boundary(source@, span_offset as int),
    ensures
        r == ignored_at(source@, span_offset as int, rule_name@, rule_id@),
{
    let s = chars_of(source);
    let total = byte_len_between(&s, 0, s.len());
    proof {
        assert(s@.subrange(0, s@.len() as int) =~= s@);
    }
    let offset = if span_offset < total {
        span_offset
    } else {
        total
    };
    let k = match char_index_of_byte(&s, offset) {
        Some(k) => k,
        None => return false,
    };
    let start = line_start_exec(&s, k);
    proof {
        lemma_line_start(s@, k as int);
    }
    let end = next_newline_exec(&s, start);
    proof {
        lemma_next_newline(s@, start as int);
    }
    let current_text = source.substring_char(start, end);
    if line_ignores(current_text, rule_name, rule_id) {
        return true;
    }
    if start == 0 {
        return false;
    }
    let prev_end = start - 1;
    let prev_start = line_start_exec(&s, prev_end);
    proof {
        lemma_line_start(s@, prev_end as int);
    }
    let prev_text = source.substring_char(prev_start, prev_end);
    line_ignores(prev_text, rule_name, rule_id)
}

/// Whether byte `span_offset` of `source`, capped at its end, falls on a
/// character boundary.
fn on_boundary(s: &Vec<char>, span_offset: usize) -> (r: bool)
    requires
        byte_len(s@) <= usize::MAX,
    ensures
        r == offset_on_boundary(s@, span_offset as int),
{
    let total = byte_len_between(s, 0, s.len());
    proof {
        assert(s@.subrange(0, s@.len() as int) =~= s@);
    }
    let capped = if span_offset < total {
        span_offset
    } else {
        total
    };
    char_index_of_byte(s, capped).is_some()
}

/// `d`, a finding of `rule` in `source`, is not silenced by an ignore comment.
pub open spec fn kept(source: Seq<char>, rule: RuleKind, d: RuleDiagnostic) -> bool {
    !ignored_at(source, d.span_of().offset as int, rule.spec_name(), rule.spec_id())
}

/// The findings of `rule` in `source` that no ignore comment silences (on
/// the finding's line or the line above it, by the rule's short name or
/// full id), in order. `None` when a finding's offset, capped at the end of
/// `source`, falls inside a character.
pub fn unsuppressed(source: &str, rule: RuleKind, found: Vec<RuleDiagnostic>) -> (r: Option<
    Vec<RuleDiagnostic>,
>)
    requires
        byte_len(source@) <= usize::MAX,
    ensures
        r is Some <==> forall|i: int|
            0 <= i < found.len() ==> offset_on_boundary(
                source@,
                (#[trigger] found@[i]).span_of().offset as int,
            ),
        r matches Some(v) ==> v@ == found@.filter(|d: RuleDiagnostic| kept(source@, rule, d)),
{
    let s = chars_of(source);
    assert(found@.len() == found.len());
    let ghost orig = found@;
    let ghost pred = |d: RuleDiagnostic| kept(source@, rule, d);
    let mut rest = found;
    let mut out: Vec<RuleDiagnostic> = Vec::new();
    let mut i: usize = 0;
    proof {
        assert(orig.take(0) =~= Seq::<RuleDiagnostic>::empty());
        assert(orig.skip(0) =~= orig);
        reveal_with_fuel(Seq::<_>::filter, 1);
    }
    while rest.len() > 0
        invariant
            s@ == source@,
            byte_len(source@) <= usize::MAX,
            pred == (|d: RuleDiagnostic| kept(source@, rule, d)),
            i <= orig.len(),
            orig == found@,
            orig.len() <= usize::MAX,
            rest@ == orig.skip(i as int),
            out@ == orig.take(i as int).filter(pred),
            forall|j: int|
                0 <= j < i ==> offset_on_boundary(source@, (#[trigger] orig[j]).span_of().offset as int),
        decreases rest.len(),
    {
        let d = rest.remove(0);
        proof {
            assert(d == orig[i as int]);
            assert(rest@ =~= orig.skip(i + 1));
        }
        let offset = d.span().offset;
        if !on_boundary(&s, offset) {
            proof {
                assert(found@[i as int] == d);
            }
            return None;
        }
        let ignored = violation_is_ignored(source, offset, rule.name(), rule.id());
        proof {
            assert(orig.take(i + 1).drop_last() =~= orig.take(i as int));
            assert(orig.take(i + 1).last() == d);
            reveal_with_fuel(Seq::<_>::filter, 1);
            assert(pred(d) == !ignored);
        }
        if !ignored {
            out.push(d);
        }
        i = i + 1;
    }
    proof {
        assert(orig.take(i as int) =~= orig);
    }
    Some(out)
}

/// With no ignore comment starting in `[k, i)`, the lists found from `k` are
/// those found from `i`.
proof fn lemma_comment_lists_skip(line: Seq<char>, k: int, i: int)
    requires
        0 <= k <= i <= line.len(),
        forall|m: int| k <= m < i ==> comment_at(line, m) is None,
    ensures
        comment_lists_from(line, k) == comment_lists_from(line, i),
    decreases i - k,
{
    if k < i {
        lemma_comment_lists_skip(line, k + 1, i);
    }
}

/// A line whose first ignore comment names the rule is ignored for it: the
/// comment starts at `i` with `//` or `<!--`, whitespace, `vuer-` or
/// `vuer:`, optional whitespace and `ignore[`, and its rule list, up to the
/// first `]`, names the rule by short name or full id.
pub proof fn law_first_comment_ignores(
    line: Seq<char>,
    i: int,
    rule_name: Seq<char>,
    rule_id: Seq<char>,
)
    requires
        0 <= i,
        comment_at(line, i) matches Some(c) && names_rule(line.subrange(c.0, c.1), rule_name, rule_id),
        forall|k: int| 0 <= k < i ==> comment_at(line, k) is None,
    ensures
        ignores(line, rule_name, rule_id),
{
    lemma_comment_at(line, i);
    lemma_comment_lists_skip(line, 0, i);
    let c = comment_at(line, i)->Some_0;
    let lists = comment_lists_from(line, 0);
    assert(lists[0] == line.subrange(c.0, c.1));
}

proof fn lemma_skip_ws_at(s: Seq<char>, i: int, e: int)
    requires
        0 <= i <= e <= s.len(),
        forall|k: int| i <= k < e ==> is_whitespace(s[k]),
        e == s.len() || !is_whitespace(s[e]),
    ensures
        skip_ws(s, i) == e,
{
    lemma_skip_ws(s, i);
    let w = skip_ws(s, i);
    if w < e {
        assert(is_whitespace(s[w]));
    }
    if w > e {
        assert(is_whitespace(s[e]));
    }
}

/// The documented comment syntax: a line that starts with `//` or `<!--`,
/// then at least one whitespace char, `vuer`, `-` or `:`, any whitespace,
/// `ignore[`, a non-empty rule list without `]`, and `]`, is ignored for
/// every rule that list names, whatever follows.
pub proof fn law_comment_syntax(
    opener: Seq<char>,
    ws: Seq<char>,
    sep: Seq<char>,
    ws2: Seq<char>,
    list: Seq<char>,
    rest: Seq<char>,
    rule_name: Seq<char>,
    rule_id: Seq<char>,
)
    requires
        opener == "//"@ || opener == "<!--"@,
        ws.len() > 0,
        forall|k: int| 0 <= k < ws.len() ==> is_whitespace(ws[k]),
        sep == "-"@ || sep == ":"@,
        forall|k: int| 0 <= k < ws2.len() ==> is_whitespace(ws2[k]),
        list.len() > 0,
        forall|k: int| 0 <= k < list.len() ==> list[k] != ']',
        names_rule(list, rule_name, rule_id),
    ensures
        ignores(
            opener + ws + "vuer"@ + sep + ws2 + "ignore["@ + list + "]"@ + rest,
            rule_name,
            rule_id,
        ),
{
    reveal_strlit("//");
    reveal_strlit("<!--");
    reveal_strlit("vuer");
    reveal_strlit("-");
    reveal_strlit(":");
    reveal_strlit("ignore[");
    reveal_strlit("]");
    reveal_strlit("vuer-");
    reveal_strlit("vuer:");
    let line = opener + ws + "vuer"@ + sep + ws2 + "ignore["@ + list + "]"@ + rest;
    let j = opener.len() as int;
    let w = j + ws.len();
    let g = w + 5 + ws2.len();
    let a = g + 7;
    let b = a + list.len();
    assert(line.subrange(0, j) =~= opener);
    assert(matches_at(line, 0, opener));
    if opener == "<!--"@ {
        assert(line[0] == '<');
        assert(!matches_at(line, 0, "//"@)) by {
            assert(line.subrange(0, 2)[0] == line[0]);
        }
    }
    assert forall|k: int| j <= k < w implies is_whitespace(line[k]) by {
        assert(line[k] == ws[k - j]);
    }
    assert(line[w] == 'v');
    lemma_skip_ws_at(line, j, w);
    if sep == "-"@ {
        assert(line.subrange(w, w + 5) =~= "vuer-"@);
    } else {
        assert(line.subrange(w, w + 5) =~= "vuer:"@);
    }
    assert forall|k: int| w + 5 <= k < g implies is_whitespace(line[k]) by {
        assert(line[k] == ws2[k - w - 5]);
    }
    assert(line[g] == 'i');
    lemma_skip_ws_at(line, w + 5, g);
    assert(line.subrange(g, g + 7) =~= "ignore["@);
    assert forall|k: int| a <= k < b implies line[k] != ']' by {
        assert(line[k] == list[k - a]);
    }
    assert(line[b] == ']');
    lemma_next_index_of(line, ']', a);
    assert(next_index_of(line, ']', a) == b) by {
        let n = next_index_of(line, ']', a);
        if n < b {
            assert(line[n] == ']');
        }
    }
    assert(line.subrange(a, b) =~= list);
    assert(comment_at(line, 0) == Some((a, b)));
    law_first_comment_ignores(line, 0, rule_name, rule_id);
}

/// A line that starts `//v` and holds no other `/` or `<` has no ignore
/// comment anywhere.
proof fn lemma_no_comment_in(line: Seq<char>)
    requires
        line.len() >= 3,
        line[0] == '/' && line[1] == '/' && line[2] == 'v',
        forall|k: int| 2 <= k < line.len() ==> line[k] != '/' && line[k] != '<',
    ensures
        forall|i: int| 0 <= i <= line.len() ==> comment_at(line, i) is None,
{
    reveal_strlit("//");
    reveal_strlit("<!--");
    assert forall|i: int| 0 <= i <= line.len() implies comment_at(line, i) is None by {
        if matches_at(line, i, "//"@) {
            assert(line[i] == line.subrange(i, i + 2)[0]);
            assert(line[i + 1] == line.subrange(i, i + 2)[1]);
            assert(i == 0);
            assert(!is_whitespace(line[2]));
            lemma_skip_ws(line, 2);
        } else if matches_at(line, i, "<!--"@) {
            assert(line[i] == line.subrange(i, i + 4)[0]);
        }
    }
}

/// Without whitespace after the opener there is no ignore comment: a line
/// `//vuer-ignore[...]` (or with `:`), whose other chars hold no `/` or `<`,
/// is ignored for no rule.
pub proof fn law_comment_needs_space(
    sep: Seq<char>,
    ws2: Seq<char>,
    list: Seq<char>,
    rule_name: Seq<char>,
    rule_id: Seq<char>,
)
    requires
        sep == "-"@ || sep == ":"@,
        forall|k: int| 0 <= k < ws2.len() ==> ws2[k] != '/' && ws2[k] != '<',
        forall|k: int| 0 <= k < list.len() ==> list[k] != '/' && list[k] != '<',
    ensures
        !ignores("//vuer"@ + sep + ws2 + "ignore["@ + list + "]"@, rule_name, rule_id),
{
    reveal_strlit("//vuer");
    reveal_strlit("-");
    reveal_strlit(":");
    reveal_strlit("ignore[");
    reveal_strlit("]");
    reveal_strlit("//");
    reveal_strlit("<!--");
    let line = "//vuer"@ + sep + ws2 + "ignore["@ + list + "]"@;
    assert forall|k: int| 2 <= k < line.len() implies line[k] != '/' && line[k] != '<' by {
        if k < 6 {
            assert(line[k] == "//vuer"@[k]);
        } else if k < 7 {
            assert(line[k] == sep[0]);
        } else if k < 7 + ws2.len() {
            assert(line[k] == ws2[k - 7]);
        } else if k < 14 + ws2.len() {
            assert(line[k] == "ignore["@[k - 7 - ws2.len()]);
        } else if k < 14 + ws2.len() + list.len() {
            assert(line[k] == list[k - 14 - ws2.len()]);
        } else {
            assert(line[k] == ']');
        }
    }
    assert(line[0] == '/' && line[1] == '/' && line[2] == 'v');
    lemma_no_comment_in(line);
    lemma_comment_lists_skip(line, 0, line.len() as int);
    assert(comment_at(line, line.len() as int) is None);
    assert(comment_lists_from(line, line.len() + 1int) =~= Seq::<Seq<char>>::empty());
    assert(comment_lists_from(line, line.len() as int) =~= Seq::<Seq<char>>::empty());
}

/// A rule list of one entry (no comma) names exactly the rules its trimmed,
/// non-empty text equals by short name or full id.
pub proof fn law_single_entry(e: Seq<char>, rule_name: Seq<char>, rule_id: Seq<char>)
    requires
        forall|i: int| 0 <= i < e.len() ==> e[i] != ',',
    ensures
        names_rule(e, rule_name, rule_id) == (trim(e).len() > 0 && (trim(e) == rule_name || trim(e)
            == rule_id)),
{
    lemma_fields_single(e);
    assert(comma_fields(e)[0] == e);
}

// ---------------------------------------------------------------------------
// Which lines an ignore comment covers
// ---------------------------------------------------------------------------
proof fn lemma_line_start_at(s: Seq<char>, m: int, i: int)
    requires
        0 <= m <= i <= s.len(),
        m == 0 || s[m - 1] == '\n',
        forall|j: int| m <= j < i ==> s[j] != '\n',
    ensures
        line_start(s, i) == m,
{
    lemma_line_start(s, i);
    let ls = line_start(s, i);
    if ls < m {
        assert(s[m - 1] == '\n');
    }
    if ls > m {
        assert(s[ls - 1] == '\n');
    }
}

proof fn lemma_next_newline_at(s: Seq<char>, i: int, e: int)
    requires
        0 <= i <= e <= s.len(),
        forall|j: int| i <= j < e ==> s[j] != '\n',
        e == s.len() || s[e] == '\n',
    ensures
        next_newline(s, i) == e,
{
    lemma_next_newline(s, i);
    let n = next_newline(s, i);
    if n < e {
        assert(s[n] == '\n');
    }
}

/// A finding on the first line `cur` of `s` (the line ends at a `\n` or at
/// the end) is ignored exactly when that line holds an ignore comment naming
/// the rule.
pub proof fn law_ignored_on_first_line(
    cur: Seq<char>,
    rest: Seq<char>,
    j: int,
    rule_name: Seq<char>,
    rule_id: Seq<char>,
)
    requires
        forall|i: int| 0 <= i < cur.len() ==> cur[i] != '\n',
        rest.len() == 0 || rest[0] == '\n',
        0 <= j <= cur.len(),
    ensures
        ignored_at(cur + rest, byte_len(cur.take(j)) as int, rule_name, rule_id) == ignores(
            cur,
            rule_name,
            rule_id,
        ),
{
    let s = cur + rest;
    assert(s.take(j) =~= cur.take(j));
    crate::text::lemma_byte_len_split(s, j);
    crate::text::lemma_char_index_at(s, j);
    lemma_line_start_at(s, 0, j);
    if rest.len() > 0 {
        assert(s[cur.len() as int] == '\n');
    }
    lemma_next_newline_at(s, 0, cur.len() as int);
    assert(s.subrange(0, cur.len() as int) =~= cur);
}

/// A finding on a later line `cur` (between a `\n` and the next `\n` or the
/// end) is ignored exactly when that line, or the line `prev` just above it,
/// holds an ignore comment naming the rule.
pub proof fn law_ignored_on_later_line(
    pre: Seq<char>,
    prev: Seq<char>,
    cur: Seq<char>,
    rest: Seq<char>,
    j: int,
    rule_name: Seq<char>,
    rule_id: Seq<char>,
)
    requires
        pre.len() == 0 || pre.last() == '\n',
        forall|i: int| 0 <= i < prev.len() ==> prev[i] != '\n',
        forall|i: int| 0 <= i < cur.len() ==> cur[i] != '\n',
        rest.len() == 0 || rest[0] == '\n',
        0 <= j <= cur.len(),
    ensures
        ignored_at(
            pre + prev + "\n"@ + cur + rest,
            byte_len((pre + prev + "\n"@ + cur).take(pre.len() + prev.len() + 1 + j)) as int,
            rule_name,
            rule_id,
        ) == (ignores(cur, rule_name, rule_id) || ignores(prev, rule_name, rule_id)),
{
    reveal_strlit("\n");
    let p = pre + prev + "\n"@;
    let s = p + cur + rest;
    let k = p.len() + j;
    assert(pre + prev + "\n"@ + cur + rest =~= s);
    assert((pre + prev + "\n"@ + cur).take(k) =~= s.take(k));
    crate::text::lemma_byte_len_split(s, k);
    crate::text::lemma_char_index_at(s, k);
    assert(s[p.len() - 1] == '\n');
    assert forall|i: int| p.len() <= i < k implies s[i] != '\n' by {
        assert(s[i] == cur[i - p.len()]);
    }
    lemma_line_start_at(s, p.len() as int, k);
    assert forall|i: int| p.len() <= i < p.len() + cur.len() implies s[i] != '\n' by {
        assert(s[i] == cur[i - p.len()]);
    }
    if rest.len() > 0 {
        assert(s[(p.len() + cur.len()) as int] == '\n');
    }
    lemma_next_newline_at(s, p.len() as int, (p.len() + cur.len()) as int);
    assert(s.subrange(p.len() as int, (p.len() + cur.len()) as int) =~= cur);
    if pre.len() > 0 {
        assert(s[pre.len() - 1] == pre.last());
    }
    assert forall|i: int| pre.len() <= i < p.len() - 1 implies s[i] != '\n' by {
        assert(s[i] == prev[i - pre.len()]);
    }
    lemma_line_start_at(s, pre.len() as int, p.len() - 1);
    assert(s.subrange(pre.len() as int, p.len() - 1) =~= prev);
}

// ---------------------------------------------------------------------------
// Laws of rule lists
// ---------------------------------------------------------------------------
proof fn lemma_next_comma_shift(p: Seq<char>, q: Seq<char>, j: int)
    requires
        0 <= j <= q.len(),
    ensures
        next_index_of(p + q, ',', p.len() + j) == p.len() + next_index_of(q, ',', j),
    decreases q.len() - j,
{
    if j < q.len() {
        assert((p + q)[p.len() + j] == q[j]);
        if q[j] != ',' {
            lemma_next_comma_shift(p, q, j + 1);
        }
    }
}

/// Fields found past a prefix are the fields of the rest.
proof fn lemma_fields_shift(p: Seq<char>, q: Seq<char>, j: int)
    requires
        0 <= j <= q.len(),
    ensures
        comma_fields_from(p + q, p.len() + j) == comma_fields_from(q, j),
    decreases q.len() - j,
{
    lemma_next_comma_shift(p, q, j);
    lemma_next_index_of(q, ',', j);
    let c = next_index_of(q, ',', j);
    assert((p + q).subrange(p.len() + j, p.len() + c) =~= q.subrange(j, c));
    if c < q.len() {
        lemma_fields_shift(p, q, c + 1);
    } else {
        assert((p + q).subrange(p.len() + j, (p + q).len() as int) =~= q.subrange(
            j,
            q.len() as int,
        ));
    }
}

proof fn lemma_next_comma_split(a: Seq<char>, b: Seq<char>, i: int)
    requires
        0 <= i <= a.len(),
    ensures
        next_index_of(a + ","@ + b, ',', i) == next_index_of(a, ',', i),
    decreases a.len() - i,
{
    reveal_strlit(",");
    if i < a.len() {
        assert((a + ","@ + b)[i] == a[i]);
        if a[i] != ',' {
            lemma_next_comma_split(a, b, i + 1);
        }
    } else {
        assert((a + ","@ + b)[i] == ',');
    }
}

/// Fields of `a` from `i` on, then the fields of `b`: what the fields of
/// `a + "," + b` from `i` on are.
proof fn lemma_fields_split_from(a: Seq<char>, b: Seq<char>, i: int)
    requires
        0 <= i <= a.len(),
    ensures
        comma_fields_from(a + ","@ + b, i) == comma_fields_from(a, i) + comma_fields(b),
    decreases a.len() - i,
{
    reveal_strlit(",");
    let s = a + ","@ + b;
    lemma_next_comma_split(a, b, i);
    lemma_next_index_of(a, ',', i);
    let c = next_index_of(a, ',', i);
    assert(s.subrange(i, c) =~= a.subrange(i, c));
    if c < a.len() {
        lemma_fields_split_from(a, b, c + 1);
        assert(seq![a.subrange(i, c)] + (comma_fields_from(a, c + 1) + comma_fields(b)) =~= (seq![
            a.subrange(i, c),
        ] + comma_fields_from(a, c + 1)) + comma_fields(b));
    } else {
        lemma_fields_shift(a + ","@, b, 0);
        assert(a + ","@ + b =~= (a + ","@) + b);
    }
}

/// The fields of `a + "," + b` are the fields of `a`, then those of `b`.
pub proof fn lemma_fields_split(a: Seq<char>, b: Seq<char>)
    ensures
        comma_fields(a + ","@ + b) == comma_fields(a) + comma_fields(b),
{
    lemma_fields_split_from(a, b, 0);
}

/// A text without commas is a single field.
pub proof fn lemma_fields_single(e: Seq<char>)
    requires
        forall|i: int| 0 <= i < e.len() ==> e[i] != ',',
    ensures
        comma_fields(e) == seq![e],
{
    lemma_next_index_of(e, ',', 0);
    assert(e.subrange(0, e.len() as int) =~= e);
}

/// Every field of `s` from `i` on is a comma-free piece `s[x..y]`.
proof fn lemma_fields_are_pieces(s: Seq<char>, i: int, j: int)
    requires
        0 <= i <= s.len(),
        0 <= j < comma_fields_from(s, i).len(),
    ensures
        exists|x: int, y: int|
            i <= x <= y <= s.len() && comma_fields_from(s, i)[j] == s.subrange(x, y),
    decreases s.len() - i,
{
    lemma_next_index_of(s, ',', i);
    let c = next_index_of(s, ',', i);
    if j == 0 {
        if c < s.len() {
            assert(comma_fields_from(s, i)[0] == s.subrange(i, c));
        } else {
            assert(comma_fields_from(s, i)[0] == s.subrange(i, s.len() as int));
        }
    } else {
        lemma_fields_are_pieces(s, c + 1, j - 1);
        assert(comma_fields_from(s, i)[j] == comma_fields_from(s, c + 1)[j - 1]);
    }
}

/// Whether some field of `fs`, trimmed, names the rule.
pub open spec fn some_field_names(fs: Seq<Seq<char>>, rule_name: Seq<char>, rule_id: Seq<char>) -> bool {
    exists|j: int|
        0 <= j < fs.len() && {
            let t = trim(#[trigger] fs[j]);
            t.len() > 0 && (t == rule_name || t == rule_id)
        }
}

proof fn lemma_some_field_names_append(
    a: Seq<Seq<char>>,
    b: Seq<Seq<char>>,
    rule_name: Seq<char>,
    rule_id: Seq<char>,
)
    ensures
        some_field_names(a + b, rule_name, rule_id) == (some_field_names(a, rule_name, rule_id)
            || some_field_names(b, rule_name, rule_id)),
{
    if some_field_names(a + b, rule_name, rule_id) {
        let j = choose|j: int|
            0 <= j < (a + b).len() && {
                let t = trim(#[trigger] (a + b)[j]);
                t.len() > 0 && (t == rule_name || t == rule_id)
            };
        if j < a.len() {
            assert(a[j] == (a + b)[j]);
        } else {
            assert(b[j - a.len()] == (a + b)[j]);
        }
    }
    if some_field_names(a, rule_name, rule_id) {
        let j = choose|j: int|
            0 <= j < a.len() && {
                let t = trim(#[trigger] a[j]);
                t.len() > 0 && (t == rule_name || t == rule_id)
            };
        assert(a[j] == (a + b)[j]);
    }
    if some_field_names(b, rule_name, rule_id) {
        let j = choose|j: int|
            0 <= j < b.len() && {
                let t = trim(#[trigger] b[j]);
                t.len() > 0 && (t == rule_name || t == rule_id)
            };
        assert(b[j] == (a + b)[a.len() + j]);
    }
}

proof fn lemma_trim_empty(rule_name: Seq<char>, rule_id: Seq<char>)
    ensures
        !some_field_names(seq![Seq::<char>::empty()], rule_name, rule_id),
        comma_fields(Seq::<char>::empty()) == seq![Seq::<char>::empty()],
{
    lemma_fields_single(Seq::<char>::empty());
    assert(seq![Seq::<char>::empty()][0] == Seq::<char>::empty());
}

/// A trailing comma changes nothing: the empty field it adds names no rule.
pub proof fn law_trailing_comma_ignored(list: Seq<char>, rule_name: Seq<char>, rule_id: Seq<char>)
    ensures
        names_rule(list + ","@, rule_name, rule_id) == names_rule(list, rule_name, rule_id),
{
    lemma_fields_split(list, Seq::<char>::empty());
    assert(list + ","@ + Seq::<char>::empty() =~= list + ","@);
    lemma_trim_empty(rule_name, rule_id);
    lemma_some_field_names_append(
        comma_fields(list),
        comma_fields(Seq::<char>::empty()),
        rule_name,
        rule_id,
    );
}

/// A doubled comma changes nothing: the empty field between the two names
/// no rule.
pub proof fn law_repeated_comma_ignored(
    a: Seq<char>,
    b: Seq<char>,
    rule_name: Seq<char>,
    rule_id: Seq<char>,
)
    ensures
        names_rule(a + ",,"@ + b, rule_name, rule_id) == names_rule(a + ","@ + b, rule_name, rule_id),
{
    reveal_strlit(",");
    reveal_strlit(",,");
    let e = Seq::<char>::empty();
    assert(a + ",,"@ + b =~= a + ","@ + (e + ","@ + b));
    lemma_fields_split(a, e + ","@ + b);
    lemma_fields_split(e, b);
    lemma_fields_split(a, b);
    lemma_trim_empty(rule_name, rule_id);
    lemma_some_field_names_append(comma_fields(e), comma_fields(b), rule_name, rule_id);
    lemma_some_field_names_append(comma_fields(a), comma_fields(e + ","@ + b), rule_name, rule_id);
    lemma_some_field_names_append(comma_fields(a), comma_fields(b), rule_name, rule_id);
}

/// A list whose every char is a comma or whitespace names no rule.
pub proof fn law_blank_list_names_nothing(list: Seq<char>, rule_name: Seq<char>, rule_id: Seq<char>)
    requires
        forall|i: int| 0 <= i < list.len() ==> list[i] == ',' || crate::text::is_whitespace(list[i]),
    ensures
        !names_rule(list, rule_name, rule_id),
{
    assert forall|j: int| 0 <= j < comma_fields(list).len() implies trim(
        #[trigger] comma_fields(list)[j],
    ).len() == 0 by {
        lemma_fields_are_pieces(list, 0, j);
        let f = comma_fields(list)[j];
        let (x, y) = choose|x: int, y: int|
            0 <= x <= y <= list.len() && comma_fields(list)[j] == list.subrange(x, y);
        lemma_fields_no_comma(list, 0, j);
        assert forall|k: int| 0 <= k < f.len() implies crate::text::is_whitespace(f[k]) by {
            assert(f[k] == list[x + k]);
        }
        lemma_all_ws_skip(f, 0);
    }
}

/// No field holds a comma.
proof fn lemma_fields_no_comma(s: Seq<char>, i: int, j: int)
    requires
        0 <= i <= s.len(),
        0 <= j < comma_fields_from(s, i).len(),
    ensures
        forall|k: int|
            0 <= k < comma_fields_from(s, i)[j].len() ==> comma_fields_from(s, i)[j][k] != ',',
    decreases s.len() - i,
{
    lemma_next_index_of(s, ',', i);
    let c = next_index_of(s, ',', i);
    if j == 0 {
        if c < s.len() {
            assert(comma_fields_from(s, i)[0] == s.subrange(i, c));
        } else {
            assert(comma_fields_from(s, i)[0] == s.subrange(i, s.len() as int));
        }
    } else {
        lemma_fields_no_comma(s, c + 1, j - 1);
        assert(comma_fields_from(s, i)[j] == comma_fields_from(s, c + 1)[j - 1]);
    }
}

/// Skipping whitespace in a text of whitespace only reaches its end.
proof fn lemma_all_ws_skip_from(f: Seq<char>, i: int)
    requires
        0 <= i <= f.len(),
        forall|k: int| 0 <= k < f.len() ==> crate::text::is_whitespace(f[k]),
    ensures
        crate::text::skip_ws(f, i) == f.len(),
    decreases f.len() - i,
{
    if i < f.len() {
        lemma_all_ws_skip_from(f, i + 1);
    }
}

/// A text of whitespace only trims to nothing.
proof fn lemma_all_ws_skip(f: Seq<char>, i: int)
    requires
        0 <= i <= f.len(),
        forall|k: int| 0 <= k < f.len() ==> crate::text::is_whitespace(f[k]),
    ensures
        trim(f).len() == 0,
{
    lemma_all_ws_skip_from(f, 0);
    crate::text::lemma_skip_ws_back(f, f.len() as int);
}

/// An entry equal, once trimmed, to a rule's short name or full id names
/// that rule, wherever it stands in the list.
pub proof fn law_entry_names_rule(
    a: Seq<char>,
    e: Seq<char>,
    b: Seq<char>,
    rule_name: Seq<char>,
    rule_id: Seq<char>,
)
    requires
        forall|i: int| 0 <= i < e.len() ==> e[i] != ',',
        trim(e).len() > 0,
        trim(e) == rule_name || trim(e) == rule_id,
    ensures
        names_rule(a + ","@ + e + ","@ + b, rule_name, rule_id),
        names_rule(e, rule_name, rule_id),
{
    lemma_fields_split(a, e + ","@ + b);
    lemma_fields_split(e, b);
    lemma_fields_single(e);
    assert(a + ","@ + e + ","@ + b =~= a + ","@ + (e + ","@ + b));
    assert(seq![e][0] == e);
    lemma_some_field_names_append(seq![e], comma_fields(b), rule_name, rule_id);
    lemma_some_field_names_append(comma_fields(a), comma_fields(e + ","@ + b), rule_name, rule_id);
}

proof fn lemma_skip_ws_prefix(w1: Seq<char>, rest: Seq<char>, i: int)
    requires
        0 <= i <= w1.len(),
        forall|k: int| 0 <= k < w1.len() ==> is_whitespace(w1[k]),
    ensures
        skip_ws(w1 + rest, i) == skip_ws(w1 + rest, w1.len() as int),
    decreases w1.len() - i,
{
    if i < w1.len() {
        assert((w1 + rest)[i] == w1[i]);
        lemma_skip_ws_prefix(w1, rest, i + 1);
    }
}

proof fn lemma_skip_ws_middle(w1: Seq<char>, e: Seq<char>, w2: Seq<char>, i: int)
    requires
        0 <= i <= e.len(),
        exists|k: int| i <= k < e.len() && !is_whitespace(e[k]),
    ensures
        skip_ws(w1 + e + w2, w1.len() + i) == w1.len() + skip_ws(e, i),
    decreases e.len() - i,
{
    let s = w1 + e + w2;
    assert(s[w1.len() + i] == e[i]);
    if is_whitespace(e[i]) {
        let k = choose|k: int| i <= k < e.len() && !is_whitespace(e[k]);
        assert(k != i);
        lemma_skip_ws_middle(w1, e, w2, i + 1);
    }
}

proof fn lemma_skip_ws_back_suffix(front: Seq<char>, w2: Seq<char>, j: int)
    requires
        front.len() <= j <= front.len() + w2.len(),
        forall|k: int| 0 <= k < w2.len() ==> is_whitespace(w2[k]),
    ensures
        skip_ws_back(front + w2, j) == skip_ws_back(front + w2, front.len() as int),
    decreases j,
{
    if j > front.len() {
        assert((front + w2)[j - 1] == w2[j - 1 - front.len()]);
        lemma_skip_ws_back_suffix(front, w2, j - 1);
    }
}

proof fn lemma_skip_ws_back_middle(w1: Seq<char>, e: Seq<char>, w2: Seq<char>, j: int)
    requires
        0 <= j <= e.len(),
        exists|k: int| 0 <= k < j && !is_whitespace(e[k]),
    ensures
        skip_ws_back(w1 + e + w2, w1.len() + j) == w1.len() + skip_ws_back(e, j),
    decreases j,
{
    let s = w1 + e + w2;
    assert(s[w1.len() + j - 1] == e[j - 1]);
    if is_whitespace(e[j - 1]) {
        let k = choose|k: int| 0 <= k < j && !is_whitespace(e[k]);
        assert(k != j - 1);
        lemma_skip_ws_back_middle(w1, e, w2, j - 1);
    }
}

/// Whitespace around a text does not change what it trims to.
pub proof fn lemma_trim_padded(w1: Seq<char>, e: Seq<char>, w2: Seq<char>)
    requires
        forall|k: int| 0 <= k < w1.len() ==> is_whitespace(w1[k]),
        forall|k: int| 0 <= k < w2.len() ==> is_whitespace(w2[k]),
    ensures
        trim(w1 + e + w2) == trim(e),
{
    let s = w1 + e + w2;
    lemma_skip_ws(e, 0);
    lemma_skip_ws_back(e, e.len() as int);
    lemma_skip_ws(s, 0);
    lemma_skip_ws_back(s, s.len() as int);
    lemma_skip_ws_prefix(w1, e + w2, 0);
    assert(w1 + (e + w2) =~= s);
    assert(s =~= (w1 + e) + w2);
    lemma_skip_ws_back_suffix(w1 + e, w2, s.len() as int);
    if exists|k: int| 0 <= k < e.len() && !is_whitespace(e[k]) {
        lemma_skip_ws_middle(w1, e, w2, 0);
        lemma_skip_ws_back_middle(w1, e, w2, e.len() as int);
        let a = skip_ws(e, 0);
        let b = skip_ws_back(e, e.len() as int);
        assert(a < e.len());
        assert(b > 0);
        assert(a < b) by {
            if a >= b {
                assert(!is_whitespace(e[b - 1]));
                assert(is_whitespace(e[b - 1]));
            }
        }
        assert(s.subrange(w1.len() + a, w1.len() + b) =~= e.subrange(a, b));
    } else {
        lemma_all_ws_skip(e, 0);
        assert forall|k: int| 0 <= k < s.len() implies is_whitespace(s[k]) by {
            if k < w1.len() {
                assert(s[k] == w1[k]);
            } else if k < w1.len() + e.len() {
                assert(s[k] == e[k - w1.len()]);
            } else {
                assert(s[k] == w2[k - w1.len() - e.len()]);
            }
        }
        lemma_all_ws_skip(s, 0);
    }
}

/// Whitespace around an entry does not change which rules the list names.
pub proof fn law_entry_whitespace_ignored(
    a: Seq<char>,
    w1: Seq<char>,
    e: Seq<char>,
    w2: Seq<char>,
    b: Seq<char>,
    rule_name: Seq<char>,
    rule_id: Seq<char>,
)
    requires
        forall|k: int| 0 <= k < w1.len() ==> is_whitespace(w1[k]),
        forall|k: int| 0 <= k < w2.len() ==> is_whitespace(w2[k]),
        forall|k: int| 0 <= k < e.len() ==> e[k] != ',',
    ensures
        names_rule(a + ","@ + (w1 + e + w2) + ","@ + b, rule_name, rule_id) == names_rule(
            a + ","@ + e + ","@ + b,
            rule_name,
            rule_id,
        ),
{
    let p = w1 + e + w2;
    assert forall|k: int| 0 <= k < p.len() implies p[k] != ',' by {
        if k < w1.len() {
            assert(p[k] == w1[k]);
        } else if k < w1.len() + e.len() {
            assert(p[k] == e[k - w1.len()]);
        } else {
            assert(p[k] == w2[k - w1.len() - e.len()]);
        }
    }
    lemma_trim_padded(w1, e, w2);
    lemma_fields_single(p);
    lemma_fields_single(e);
    lemma_fields_split(a, p + ","@ + b);
    lemma_fields_split(p, b);
    lemma_fields_split(a, e + ","@ + b);
    lemma_fields_split(e, b);
    assert(a + ","@ + p + ","@ + b =~= a + ","@ + (p + ","@ + b));
    assert(a + ","@ + e + ","@ + b =~= a + ","@ + (e + ","@ + b));
    assert(seq![p][0] == p);
    assert(seq![e][0] == e);
    lemma_some_field_names_append(seq![p], comma_fields(b), rule_name, rule_id);
    lemma_some_field_names_append(seq![e], comma_fields(b), rule_name, rule_id);
    lemma_some_field_names_append(comma_fields(a), comma_fields(p + ","@ + b), rule_name, rule_id);
    lemma_some_field_names_append(comma_fields(a), comma_fields(e + ","@ + b), rule_name, rule_id);
}

} // verus!
