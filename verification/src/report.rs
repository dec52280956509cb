//! Placing a diagnostic's byte offset in its file, for display.
use vstd::prelude::*;

use crate::text::{
    byte_len, byte_len_between, char_index_at, lemma_byte_len_append, char_index_of_byte, chars_of, is_boundary,
    lemma_byte_len_ge_len, lemma_byte_len_split, lemma_byte_len_take_mono, lemma_line_start,
    line_start, line_start_exec,
};

verus! {

/// The number of `\n` in `s`.
pub open spec fn count_newlines(s: Seq<char>) -> nat
    decreases s.len(),
{
    if s.len() == 0 {
        0
    } else {
        count_newlines(s.drop_last()) + if s.last() == '\n' {
            1nat
        } else {
            0nat
        }
    }
}

proof fn lemma_count_newlines_bound(s: Seq<char>)
    ensures
        count_newlines(s) <= s.len(),
    decreases s.len(),
{
    if s.len() > 0 {
        lemma_count_newlines_bound(s.drop_last());
    }
}

/// The line (1-based) and column (1-based, in bytes) of byte `offset` of
/// `content`: one more than the number of newlines before the offset, and
/// one more than the offset's distance in bytes from the start of its line.
pub fn label_position(content: &str, offset: usize) -> (r: (usize, usize))
    requires
        byte_len(content@) < usize::MAX,
        is_boundary(content@, offset as int),
    ensures
        ({
            let s = content@;
            let k = char_index_at(s, offset as int);
            r.0 == count_newlines(s.take(k)) + 1 && r.1 == offset - byte_len(
                s.take(line_start(s, k)),
            ) + 1
        }),
{
    let s = chars_of(content);
    let k = match char_index_of_byte(&s, offset) {
        Some(k) => k,
        None => return (0, 0),
    };
    let mut lines: usize = 0;
    let mut i: usize = 0;
    proof {
        assert(s@.take(0) =~= Seq::<char>::empty());
        lemma_byte_len_ge_len(s@);
    }
    while i < k
        invariant
            i <= k <= s.len(),
            s.len() <= byte_len(s@) < usize::MAX,
            lines == count_newlines(s@.take(i as int)),
            lines <= i,
        decreases k - i,
    {
        proof {
            assert(s@.take(i + 1).drop_last() =~= s@.take(i as int));
        }
        if s[i] == '\n' {
            lines = lines + 1;
        }
        i = i + 1;
    }
    let start = line_start_exec(&s, k);
    proof {
        lemma_line_start(s@, k as int);
        lemma_byte_len_split(s@, s.len() as int);
        assert(s@.subrange(0, s.len() as int) =~= s@);
        lemma_byte_len_take_mono(s@, start as int, k as int);
        lemma_byte_len_take_mono(s@, k as int, s.len() as int);
        assert(s@.take(s.len() as int) =~= s@);
    }
    let before = byte_len_between(&s, 0, start);
    (lines + 1, offset - before + 1)
}

proof fn lemma_count_newlines_append(x: Seq<char>, y: Seq<char>)
    ensures
        count_newlines(x + y) == count_newlines(x) + count_newlines(y),
    decreases y.len(),
{
    if y.len() > 0 {
        assert((x + y).drop_last() =~= x + y.drop_last());
        lemma_count_newlines_append(x, y.drop_last());
    } else {
        assert(x + y =~= x);
    }
}

proof fn lemma_count_newlines_none(x: Seq<char>)
    requires
        forall|i: int| 0 <= i < x.len() ==> x[i] != '\n',
    ensures
        count_newlines(x) == 0,
    decreases x.len(),
{
    if x.len() > 0 {
        lemma_count_newlines_none(x.drop_last());
    }
}

proof fn lemma_line_start_none(s: Seq<char>, k: int)
    requires
        0 <= k <= s.len(),
        forall|i: int| 0 <= i < k ==> s[i] != '\n',
    ensures
        line_start(s, k) == 0,
    decreases k,
{
    if k > 0 {
        lemma_line_start_none(s, k - 1);
    }
}

proof fn lemma_line_start_shift(a: Seq<char>, b: Seq<char>, k: int)
    requires
        0 <= k <= b.len(),
    ensures
        line_start(a + "\n"@ + b, a.len() + 1 + k) == a.len() + 1 + line_start(b, k),
    decreases k,
{
    reveal_strlit("\n");
    let s = a + "\n"@ + b;
    if k == 0 {
        assert(s[a.len() as int] == '\n');
    } else {
        assert(s[a.len() + k] == b[k - 1]);
        if b[k - 1] != '\n' {
            lemma_line_start_shift(a, b, k - 1);
        }
    }
}

/// A place on the first line (no `\n` before it) is on line 1, in the column
/// one more than its byte offset.
pub proof fn law_position_on_first_line(s: Seq<char>, k: int)
    requires
        0 <= k <= s.len(),
        forall|i: int| 0 <= i < k ==> s[i] != '\n',
    ensures
        count_newlines(s.take(k)) + 1 == 1,
        byte_len(s.take(k)) - byte_len(s.take(line_start(s, k))) + 1 == byte_len(s.take(k)) + 1,
{
    lemma_count_newlines_none(s.take(k));
    lemma_line_start_none(s, k);
    assert(s.take(0) =~= Seq::<char>::empty());
}

/// A place after the first line's `\n` is one line further down than the
/// same place in the text that follows that `\n`, in the same column.
pub proof fn law_position_after_first_line(a: Seq<char>, b: Seq<char>, k: int)
    requires
        0 <= k <= b.len(),
        forall|i: int| 0 <= i < a.len() ==> a[i] != '\n',
    ensures
        count_newlines((a + "\n"@ + b).take(a.len() + 1 + k)) + 1 == (count_newlines(b.take(k)) + 1)
            + 1,
        byte_len((a + "\n"@ + b).take(a.len() + 1 + k)) - byte_len(
            (a + "\n"@ + b).take(line_start(a + "\n"@ + b, a.len() + 1 + k)),
        ) == byte_len(b.take(k)) - byte_len(b.take(line_start(b, k))),
{
    reveal_strlit("\n");
    let s = a + "\n"@ + b;
    let p = a + "\n"@;
    lemma_line_start_shift(a, b, k);
    lemma_line_start(b, k);
    let ls = line_start(b, k);
    assert(s.take(a.len() + 1 + k) =~= p + b.take(k));
    assert(s.take(a.len() + 1 + ls) =~= p + b.take(ls));
    lemma_count_newlines_append(p, b.take(k));
    lemma_count_newlines_append(a, "\n"@);
    lemma_count_newlines_none(a);
    assert("\n"@.drop_last() =~= Seq::<char>::empty());
    assert(count_newlines(Seq::<char>::empty()) == 0);
    assert("\n"@.last() == '\n');
    assert(count_newlines("\n"@) == 1);
    lemma_byte_len_append(p, b.take(k));
    lemma_byte_len_append(p, b.take(ls));
}

} // verus!
