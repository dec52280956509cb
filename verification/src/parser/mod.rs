//! Splitting a single-file component into its `<template>` and `<script>` blocks.
use vstd::prelude::*;
use vstd::string::StrSliceExecFns;

use crate::context::{ScanContext, ScriptLang};
use crate::text::{
    byte_len, byte_len_between, chars_of, concat_chars, contains, contains_exec, find_from, matches_at,
    find_from_exec, lemma_byte_len_split, lemma_find_from, lemma_skip_ws, lemma_skip_ws_back,
    skip_ws, skip_ws_back, skip_ws_back_exec, skip_ws_exec, trim,
};

verus! {

/// The blocks a component can have.
#[derive(Debug, Clone, Copy, PartialEq, Eq, Structural)]
pub enum BlockKind {
    Template,
    Script,
    Style,
}

/// The tag name of a block kind.
pub open spec fn tag_of(kind: BlockKind) -> Seq<char> {
    match kind {
        BlockKind::Template => "template"@,
        BlockKind::Script => "script"@,
        BlockKind::Style => "style"@,
    }
}

/// The tag name of a block kind.
pub fn tag_name(kind: BlockKind) -> (r: &'static str)
    ensures
        r@ == tag_of(kind),
{
    match kind {
        BlockKind::Template => "template",
        BlockKind::Script => "script",
        BlockKind::Style => "style",
    }
}

/// Script attributes select TypeScript when they hold `lang="ts"`,
/// `lang='ts'`, `lang="typescript"` or `lang='typescript'`.
pub open spec fn is_typescript_attrs(attrs: Seq<char>) -> bool {
    contains(attrs, "lang=\"ts\""@) || contains(attrs, "lang='ts'"@) || contains(
        attrs,
        "lang=\"typescript\""@,
    ) || contains(attrs, "lang='typescript'"@)
}

/// The script language the attributes `attrs` select.
pub open spec fn lang_of(attrs: Seq<char>) -> ScriptLang {
    if is_typescript_attrs(attrs) {
        ScriptLang::TypeScript
    } else {
        ScriptLang::JavaScript
    }
}

/// The script language the attributes of a `<script>` tag select:
/// TypeScript for a `lang` of `ts` or `typescript`, else JavaScript.
pub fn detect_lang(attrs: &str) -> (r: ScriptLang)
    ensures
        r == lang_of(attrs@),
{
    let a = chars_of(attrs);
    if contains_exec(&a, &chars_of("lang=\"ts\"")) || contains_exec(&a, &chars_of("lang='ts'"))
        || contains_exec(&a, &chars_of("lang=\"typescript\"")) || contains_exec(
        &a,
        &chars_of("lang='typescript'"),
    ) {
        ScriptLang::TypeScript
    } else {
        ScriptLang::JavaScript
    }
}

/// The first `tag` block of `h`: its opening tag `<tag` is the first
/// occurrence of `<tag`; its attributes run to the next `>`; its raw contents
/// run from there to the next `</tag>`. The result holds the attributes, the
/// trimmed contents, the byte offset of the opening tag and the byte offset
/// at which the trimmed contents start. `None` when any of the three
/// searches fails.
pub open spec fn block_of(h: Seq<char>, tag: Seq<char>) -> Option<
    (Seq<char>, Seq<char>, int, int),
> {
    let open_tag = "<"@ + tag;
    let close_tag = "</"@ + tag + ">"@;
    match find_from(h, open_tag, 0) {
        None => None,
        Some(open) => {
            let after = open + open_tag.len();
            match find_from(h, ">"@, after) {
                None => None,
                Some(gt) => match find_from(h, close_tag, gt + 1) {
                    None => None,
                    Some(close) => {
                        let raw = h.subrange(gt + 1, close);
                        Some(
                            (
                                h.subrange(after, gt),
                                trim(raw),
                                byte_len(h.take(open)) as int,
                                (byte_len(h.take(gt + 1)) + byte_len(raw.take(skip_ws(raw, 0)))) as int,
                            ),
                        )
                    },
                },
            }
        },
    }
}

/// The first block of kind `kind` in `html` (see `block_of`): its
/// attributes, its trimmed contents, the byte offset of its opening tag and
/// the byte offset of its trimmed contents.
pub fn extract_block(html: &str, kind: BlockKind) -> (r: Option<(String, String, usize, usize)>)
    requires
        byte_len(html@) <= usize::MAX,
    ensures
        match block_of(html@, tag_of(kind)) {
            Some(b) => r matches Some(x) && x.0@ == b.0 && x.1@ == b.1 && x.2 == b.2 && x.3
                == b.3,
            None => r is None,
        },
{
    let h = chars_of(html);
    let tag = chars_of(tag_name(kind));
    let open_tag = concat_chars(&chars_of("<"), &tag);
    let close_tag = concat_chars(&concat_chars(&chars_of("</"), &tag), &chars_of(">"));
    let gt_pat = chars_of(">");
    let open = match find_from_exec(&h, &open_tag, 0) {
        Some(p) => p,
        None => return None,
    };
    proof {
        lemma_find_from(h@, open_tag@, 0);
        assert(open + open_tag@.len() <= h@.len());
    }
    let after = open + open_tag.len();
    let gt = match find_from_exec(&h, &gt_pat, after) {
        Some(p) => p,
        None => return None,
    };
    proof {
        lemma_find_from(h@, gt_pat@, after as int);
        reveal_strlit(">");
        assert(gt_pat@.len() == 1);
        assert(gt + 1 <= h@.len());
    }
    let close = match find_from_exec(&h, &close_tag, gt + 1) {
        Some(p) => p,
        None => return None,
    };
    proof {
        lemma_find_from(h@, close_tag@, gt + 1);
    }
    let ghost raw = h@.subrange(gt + 1, close as int);
    let ghost tail = h@.subrange(gt + 1, h.len() as int);
    let attrs = html.substring_char(after, gt).to_owned();
    let raw_v = crate::text::slice_chars(&h, gt + 1, close);
    let a = skip_ws_exec(&raw_v, 0);
    let b = skip_ws_back_exec(&raw_v, raw_v.len());
    proof {
        lemma_skip_ws(raw, 0);
        lemma_skip_ws_back(raw, raw.len() as int);
        lemma_byte_len_split(h@, open as int);
        lemma_byte_len_split(h@, gt + 1);
        lemma_byte_len_split(raw, a as int);
        lemma_byte_len_split(h@.take(gt + 1), gt + 1);
        assert(h@.subrange(0, gt + 1) =~= h@.take(gt + 1));
        assert(h@.subrange(0, open as int) =~= h@.take(open as int));
        assert(raw.subrange(0, a as int) =~= raw.take(a as int));
        assert(h@.subrange(gt + 1, close as int) =~= raw);
        lemma_byte_len_split(h@.subrange(gt + 1, h.len() as int), close - gt - 1);
        assert(h@.subrange(gt + 1, h.len() as int).take(close - gt - 1) =~= raw);
    }
    let content = if a < b {
        html.substring_char(gt + 1 + a, gt + 1 + b).to_owned()
    } else {
        String::new()
    };
    proof {
        if a < b {
            assert(h@.subrange(gt + 1 + a, gt + 1 + b) =~= raw.subrange(a as int, b as int));
        }
    }
    let open_pos = byte_len_between(&h, 0, open);
    let block_start = byte_len_between(&h, 0, gt + 1);
    let lead = byte_len_between(&raw_v, 0, a);
    assert(byte_len(h@.take(gt + 1)) + byte_len(raw.take(a as int)) <= byte_len(h@)) by {
        lemma_byte_len_split(h@, close as int);
        crate::text::lemma_byte_len_subrange(h@, gt + 1, close as int);
        assert(h@.take(close as int).subrange(0, gt + 1) =~= h@.take(gt + 1));
    }
    Some((attrs, content, open_pos, block_start + lead))
}

/// Fills in `ctx`'s template and script from its source: a `<template>`
/// block sets `template` and `template_offset`; a `<script>` block sets
/// `script`, `script_offset` and `lang`. Where a block is missing those
/// fields keep their values.
pub fn parse_sfc(ctx: &mut ScanContext)
    requires
        byte_len(old(ctx).source@) <= usize::MAX,
    ensures
        final(ctx).file_path == old(ctx).file_path,
        final(ctx).source == old(ctx).source,
        final(ctx).named_source == old(ctx).named_source,
        match block_of(old(ctx).source@, "template"@) {
            Some(b) => final(ctx).template matches Some(t) && t@ == b.1
                && final(ctx).template_offset == b.3,
            None => final(ctx).template == old(ctx).template && final(ctx).template_offset == old(
                ctx,
            ).template_offset,
        },
        match block_of(old(ctx).source@, "script"@) {
            Some(b) => final(ctx).script matches Some(s) && s@ == b.1 && final(ctx).script_offset
                == b.3 && final(ctx).lang == lang_of(b.0),
            None => final(ctx).script == old(ctx).script && final(ctx).script_offset == old(
                ctx,
            ).script_offset && final(ctx).lang == old(ctx).lang,
        },
{
    match extract_block(ctx.source.as_str(), BlockKind::Template) {
        Some((_attrs, content, _open, content_offset)) => {
            ctx.template = Some(content);
            ctx.template_offset = content_offset;
        },
        None => {},
    }
    match extract_block(ctx.source.as_str(), BlockKind::Script) {
        Some((attrs, content, _open, content_offset)) => {
            ctx.lang = detect_lang(attrs.as_str());
            ctx.script = Some(content);
            ctx.script_offset = content_offset;
        },
        None => {},
    }
}

/// The trimmed contents of a block stand in the component at the byte
/// offset the block reports for them.
pub proof fn law_block_contents_located(h: Seq<char>, tag: Seq<char>)
    ensures
        block_of(h, tag) matches Some(b) ==> exists|c: int|
            0 <= c && c + b.1.len() <= h.len() && byte_len(h.take(c)) == b.3 && h.subrange(
                c,
                c + b.1.len(),
            ) == b.1,
{
    if let Some(b) = block_of(h, tag) {
        reveal_strlit(">");
        let open_tag = "<"@ + tag;
        let close_tag = "</"@ + tag + ">"@;
        let open = find_from(h, open_tag, 0)->Some_0;
        lemma_find_from(h, open_tag, 0);
        let after = open + open_tag.len();
        let gt = find_from(h, ">"@, after)->Some_0;
        lemma_find_from(h, ">"@, after);
        let close = find_from(h, close_tag, gt + 1)->Some_0;
        lemma_find_from(h, close_tag, gt + 1);
        let raw = h.subrange(gt + 1, close);
        let a = skip_ws(raw, 0);
        let e = skip_ws_back(raw, raw.len() as int);
        lemma_skip_ws(raw, 0);
        lemma_skip_ws_back(raw, raw.len() as int);
        let c = gt + 1 + a;
        crate::text::lemma_byte_len_subrange(h, gt + 1, c);
        assert(h.subrange(gt + 1, c) =~= raw.take(a));
        if a < e {
            assert(h.subrange(c, c + b.1.len()) =~= b.1);
        } else {
            assert(h.subrange(c, c + b.1.len()) =~= b.1);
        }
        assert(0 <= c && c + b.1.len() <= h.len() && byte_len(h.take(c)) == b.3 && h.subrange(
            c,
            c + b.1.len(),
        ) == b.1);
    }
}

/// `pat` occurs in `a + pat + b`.
proof fn lemma_contains_middle(a: Seq<char>, pat: Seq<char>, b: Seq<char>)
    ensures
        contains(a + pat + b, pat),
{
    assert((a + pat + b).subrange(a.len() as int, (a.len() + pat.len()) as int) =~= pat);
    assert(matches_at(a + pat + b, a.len() as int, pat));
}

/// Script attributes that hold `lang="ts"`, `lang='ts'`, `lang="typescript"`
/// or `lang='typescript'` anywhere select TypeScript, whatever surrounds
/// them.
pub proof fn law_typescript_attrs_select_typescript(a: Seq<char>, b: Seq<char>)
    ensures
        lang_of(a + "lang=\"ts\""@ + b) == ScriptLang::TypeScript,
        lang_of(a + "lang='ts'"@ + b) == ScriptLang::TypeScript,
        lang_of(a + "lang=\"typescript\""@ + b) == ScriptLang::TypeScript,
        lang_of(a + "lang='typescript'"@ + b) == ScriptLang::TypeScript,
{
    lemma_contains_middle(a, "lang=\"ts\""@, b);
    lemma_contains_middle(a, "lang='ts'"@, b);
    lemma_contains_middle(a, "lang=\"typescript\""@, b);
    lemma_contains_middle(a, "lang='typescript'"@, b);
}

/// Script attributes that hold none of those four forms select JavaScript.
pub proof fn law_other_attrs_select_javascript(attrs: Seq<char>)
    requires
        forall|i: int|
            !matches_at(attrs, i, "lang=\"ts\""@) && !matches_at(attrs, i, "lang='ts'"@)
                && !matches_at(attrs, i, "lang=\"typescript\""@) && !matches_at(
                attrs,
                i,
                "lang='typescript'"@,
            ),
    ensures
        lang_of(attrs) == ScriptLang::JavaScript,
{
}

/// The first `kind` block of a component: with its opening tag `<tag` first
/// occurring at `open`, the first `>` after the tag name at `gt`, and the
/// first `</tag>` after that at `close`, the block's attributes are the text
/// between the tag name and `>`, its contents are the text between `>` and
/// `</tag>` with surrounding whitespace trimmed, and its tag stands at the
/// byte offset of `open`.
pub proof fn law_first_block(h: Seq<char>, tag: Seq<char>, open: int, gt: int, close: int)
    requires
        matches_at(h, open, "<"@ + tag),
        forall|i: int| 0 <= i < open ==> !matches_at(h, i, "<"@ + tag),
        open + 1 + tag.len() <= gt < h.len(),
        h[gt] == '>',
        forall|i: int| open + 1 + tag.len() <= i < gt ==> h[i] != '>',
        gt + 1 <= close,
        matches_at(h, close, "</"@ + tag + ">"@),
        forall|i: int| gt + 1 <= i < close ==> !matches_at(h, i, "</"@ + tag + ">"@),
    ensures
        block_of(h, tag) matches Some(b) && b.0 == h.subrange(open + 1 + tag.len(), gt) && b.1
            == trim(h.subrange(gt + 1, close)) && b.2 == byte_len(h.take(open)),
{
    reveal_strlit("<");
    reveal_strlit(">");
    let open_tag = "<"@ + tag;
    let close_tag = "</"@ + tag + ">"@;
    lemma_find_from(h, open_tag, 0);
    let o = find_from(h, open_tag, 0)->Some_0;
    assert(o == open) by {
        if o < open {
            assert(!matches_at(h, o, open_tag));
        }
        if o > open {
            assert(!matches_at(h, open, open_tag));
        }
    }
    let after = open + open_tag.len();
    assert(after == open + 1 + tag.len());
    assert(matches_at(h, gt, ">"@)) by {
        assert(h.subrange(gt, gt + 1) =~= ">"@);
    }
    lemma_find_from(h, ">"@, after);
    let g = find_from(h, ">"@, after)->Some_0;
    assert(g == gt) by {
        if g < gt {
            assert(h.subrange(g, g + 1)[0] == h[g]);
        }
    }
    lemma_find_from(h, close_tag, gt + 1);
    let c = find_from(h, close_tag, gt + 1)->Some_0;
    assert(c == close) by {
        if c < close {
            assert(!matches_at(h, c, close_tag));
        }
    }
}

} // verus!
