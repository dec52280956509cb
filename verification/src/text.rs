//! Character-level text utilities shared by the SFC parser, the rules and
//! the suppression scanner. Positions are char indices into a `Seq<char>`;
//! the byte offsets that diagnostics report are the UTF-8 length of a prefix.
use vstd::prelude::*;

verus! {

// ---------------------------------------------------------------------------
// UTF-8 lengths
// ---------------------------------------------------------------------------
/// Number of bytes in the UTF-8 encoding of `c`.
pub open spec fn char_width(c: char) -> nat {
    if (c as u32) < 0x80 {
        1
    } else if (c as u32) < 0x800 {
        2
    } else if (c as u32) < 0x10000 {
        3
    } else {
        4
    }
}

/// Number of bytes in the UTF-8 encoding of `s`.
pub open spec fn byte_len(s: Seq<char>) -> nat
    decreases s.len(),
{
    if s.len() == 0 {
        0
    } else {
        byte_len(s.drop_last()) + char_width(s.last())
    }
}

pub proof fn lemma_byte_len_append(a: Seq<char>, b: Seq<char>)
    ensures
        byte_len(a + b) == byte_len(a) + byte_len(b),
    decreases b.len(),
{
    if b.len() == 0 {
        assert(a + b =~= a);
    } else {
        assert((a + b).drop_last() =~= a + b.drop_last());
        lemma_byte_len_append(a, b.drop_last());
    }
}

pub proof fn lemma_byte_len_ge_len(s: Seq<char>)
    ensures
        byte_len(s) >= s.len(),
    decreases s.len(),
{
    if s.len() > 0 {
        lemma_byte_len_ge_len(s.drop_last());
    }
}

/// Splitting `s` at `i` splits its byte length.
pub proof fn lemma_byte_len_split(s: Seq<char>, i: int)
    requires
        0 <= i <= s.len(),
    ensures
        byte_len(s) == byte_len(s.take(i)) + byte_len(s.subrange(i, s.len() as int)),
        byte_len(s.take(i)) <= byte_len(s),
{
    assert(s =~= s.take(i) + s.subrange(i, s.len() as int));
    lemma_byte_len_append(s.take(i), s.subrange(i, s.len() as int));
}

/// Byte length of the subrange `[i, j)` is the difference of prefix lengths.
pub proof fn lemma_byte_len_subrange(s: Seq<char>, i: int, j: int)
    requires
        0 <= i <= j <= s.len(),
    ensures
        byte_len(s.take(j)) == byte_len(s.take(i)) + byte_len(s.subrange(i, j)),
{
    assert(s.take(j) =~= s.take(i) + s.subrange(i, j));
    lemma_byte_len_append(s.take(i), s.subrange(i, j));
}

pub proof fn lemma_byte_len_take_step(s: Seq<char>, i: int)
    requires
        0 <= i < s.len(),
    ensures
        byte_len(s.take(i + 1)) == byte_len(s.take(i)) + char_width(s[i]),
{
    assert(s.take(i + 1).drop_last() =~= s.take(i));
}

/// Prefix byte lengths grow strictly with the prefix.
pub proof fn lemma_byte_len_take_strict(s: Seq<char>, i: int, j: int)
    requires
        0 <= i < j <= s.len(),
    ensures
        byte_len(s.take(i)) + (j - i) <= byte_len(s.take(j)),
{
    lemma_byte_len_subrange(s, i, j);
    lemma_byte_len_ge_len(s.subrange(i, j));
}

/// UTF-8 width of one char.
pub fn char_width_exec(c: char) -> (w: usize)
    ensures
        w == char_width(c),
        1 <= w <= 4,
{
    let u = c as u32;
    if u < 0x80 {
        1
    } else if u < 0x800 {
        2
    } else if u < 0x10000 {
        3
    } else {
        4
    }
}

/// Byte length of `s`, or `None` if it does not fit in a `usize`.
pub fn checked_byte_len(s: &Vec<char>) -> (r: Option<usize>)
    ensures
        r matches Some(n) ==> n == byte_len(s@),
        r is None ==> byte_len(s@) > usize::MAX,
{
    let mut n: usize = 0;
    let mut i: usize = 0;
    proof {
        assert(s@.take(0) =~= Seq::<char>::empty());
    }
    while i < s.len()
        invariant
            i <= s.len(),
            n == byte_len(s@.take(i as int)),
        decreases s.len() - i,
    {
        proof {
            lemma_byte_len_take_step(s@, i as int);
        }
        let w = char_width_exec(s[i]);
        if n > usize::MAX - w {
            proof {
                lemma_byte_len_split(s@, i + 1);
                assert(s@.take(s.len() as int) =~= s@);
                lemma_byte_len_take_mono(s@, i + 1, s.len() as int);
            }
            return None;
        }
        n = n + w;
        i = i + 1;
    }
    assert(s@.take(s.len() as int) =~= s@);
    Some(n)
}

/// Byte length of `s[from..to]`.
pub fn byte_len_between(s: &Vec<char>, from: usize, to: usize) -> (n: usize)
    requires
        from <= to <= s.len(),
        byte_len(s@) <= usize::MAX,
    ensures
        n == byte_len(s@.subrange(from as int, to as int)),
{
    let mut n: usize = 0;
    let mut i = from;
    proof {
        lemma_byte_len_split(s@, to as int);
        lemma_byte_len_subrange(s@, from as int, to as int);
    }
    while i < to
        invariant
            from <= i <= to <= s.len(),
            byte_len(s@) <= usize::MAX,
            n == byte_len(s@.subrange(from as int, i as int)),
            byte_len(s@.subrange(from as int, to as int)) <= byte_len(s@),
        decreases to - i,
    {
        proof {
            let t = s@.subrange(from as int, to as int);
            lemma_byte_len_take_step(t, i - from);
            assert(t.take(i - from) =~= s@.subrange(from as int, i as int));
            assert(t.take(i - from + 1) =~= s@.subrange(from as int, i + 1));
            lemma_byte_len_split(t, i - from + 1);
        }
        n = n + char_width_exec(s[i]);
        i = i + 1;
    }
    n
}

// ---------------------------------------------------------------------------
// Characters of a string
// ---------------------------------------------------------------------------
/// The characters of `s`, in order.
pub fn chars_of(s: &str) -> (v: Vec<char>)
    ensures
        v@ == s@,
{
    let mut v: Vec<char> = Vec::new();
    for c in iter: s.chars()
        invariant
            v@ == iter.seq().take(iter.index() as int),
            iter.seq() == s@,
    {
        v.push(c);
    }
    v
}

/// `a` followed by `b`.
pub fn concat_chars(a: &Vec<char>, b: &Vec<char>) -> (r: Vec<char>)
    ensures
        r@ == a@ + b@,
{
    let mut r = slice_chars(a, 0, a.len());
    assert(a@.subrange(0, a.len() as int) =~= a@);
    let mut i: usize = 0;
    while i < b.len()
        invariant
            i <= b.len(),
            r@ == a@ + b@.take(i as int),
        decreases b.len() - i,
    {
        r.push(b[i]);
        assert(a@ + b@.take(i + 1) =~= (a@ + b@.take(i as int)).push(b@[i as int]));
        i = i + 1;
    }
    assert(b@.take(b.len() as int) =~= b@);
    r
}

/// `x` and `y` hold the same chars.
pub fn chars_eq(x: &Vec<char>, y: &Vec<char>) -> (r: bool)
    ensures
        r == (x@ == y@),
{
    if x.len() != y.len() {
        return false;
    }
    let mut i: usize = 0;
    while i < x.len()
        invariant
            x.len() == y.len(),
            i <= x.len(),
            forall|k: int| 0 <= k < i ==> x@[k] == y@[k],
        decreases x.len() - i,
    {
        if x[i] != y[i] {
            return false;
        }
        i = i + 1;
    }
    assert(x@ =~= y@);
    true
}

/// `a` and `b` are the same string.
pub fn str_eq(a: &str, b: &str) -> (r: bool)
    ensures
        r == (a@ == b@),
{
    let x = chars_of(a);
    let y = chars_of(b);
    chars_eq(&x, &y)
}

/// The chars `s[from..to]` as a new vector.
pub fn slice_chars(s: &Vec<char>, from: usize, to: usize) -> (r: Vec<char>)
    requires
        from <= to <= s.len(),
    ensures
        r@ == s@.subrange(from as int, to as int),
{
    let mut r: Vec<char> = Vec::new();
    let mut i = from;
    while i < to
        invariant
            from <= i <= to <= s.len(),
            r@ == s@.subrange(from as int, i as int),
        decreases to - i,
    {
        r.push(s[i]);
        i = i + 1;
    }
    r
}

// ---------------------------------------------------------------------------
// Substring search
// ---------------------------------------------------------------------------
/// `pat` occurs in `s` starting at index `i`.
pub open spec fn matches_at(s: Seq<char>, i: int, pat: Seq<char>) -> bool {
    0 <= i && i + pat.len() <= s.len() && s.subrange(i, i + pat.len()) == pat
}

/// Index of the first occurrence of `pat` in `s` at or after `from`
/// (`str::find` on the suffix that starts at `from`).
pub open spec fn find_from(s: Seq<char>, pat: Seq<char>, from: int) -> Option<int>
    decreases s.len() + 1 - from,
{
    if from < 0 || from + pat.len() > s.len() {
        None
    } else if matches_at(s, from, pat) {
        Some(from)
    } else {
        find_from(s, pat, from + 1)
    }
}

/// `pat` occurs somewhere in `s`.
pub open spec fn contains(s: Seq<char>, pat: Seq<char>) -> bool {
    exists|i: int| matches_at(s, i, pat)
}

/// `s` begins with `pat`.
pub open spec fn starts_with(s: Seq<char>, pat: Seq<char>) -> bool {
    matches_at(s, 0, pat)
}

/// `find_from` gives the first occurrence at or after `from`, and `None`
/// exactly when there is none.
pub proof fn lemma_find_from(s: Seq<char>, pat: Seq<char>, from: int)
    requires
        0 <= from,
    ensures
        find_from(s, pat, from) matches Some(k) ==> from <= k && k + pat.len() <= s.len()
            && matches_at(s, k, pat) && forall|j: int| from <= j < k ==> !matches_at(s, j, pat),
        find_from(s, pat, from) is None ==> forall|j: int| from <= j ==> !matches_at(s, j, pat),
    decreases s.len() + 1 - from,
{
    if from + pat.len() > s.len() {
    } else if matches_at(s, from, pat) {
    } else {
        lemma_find_from(s, pat, from + 1);
        assert forall|j: int| from <= j && j < from + 1 implies !matches_at(s, j, pat) by {}
    }
}

/// `find_from(s, pat, 0)` is `Some` exactly when `pat` occurs in `s`.
pub proof fn lemma_find_contains(s: Seq<char>, pat: Seq<char>)
    ensures
        find_from(s, pat, 0) is Some <==> contains(s, pat),
{
    lemma_find_from(s, pat, 0);
    if find_from(s, pat, 0) is None {
        assert forall|j: int| !matches_at(s, j, pat) by {
            if j >= 0 {
            }
        }
    }
}

/// `pat` occurs in `s` at `i`.
pub fn matches_at_exec(s: &Vec<char>, i: usize, pat: &Vec<char>) -> (r: bool)
    ensures
        r == matches_at(s@, i as int, pat@),
{
    if i > s.len() || pat.len() > s.len() - i {
        return false;
    }
    let mut j: usize = 0;
    while j < pat.len()
        invariant
            i + pat.len() <= s.len(),
            j <= pat.len(),
            forall|k: int| 0 <= k < j ==> s@[i + k] == pat@[k],
        decreases pat.len() - j,
    {
        if s[i + j] != pat[j] {
            assert(s@.subrange(i as int, i + pat.len())[j as int] != pat@[j as int]);
            return false;
        }
        j = j + 1;
    }
    assert(s@.subrange(i as int, i + pat.len()) =~= pat@);
    true
}

/// First occurrence of `pat` in `s` at or after `from`.
pub fn find_from_exec(s: &Vec<char>, pat: &Vec<char>, from: usize) -> (r: Option<usize>)
    ensures
        match r {
            Some(k) => find_from(s@, pat@, from as int) == Some(k as int),
            None => find_from(s@, pat@, from as int) is None,
        },
{
    let mut i = from;
    while i <= s.len() && pat.len() <= s.len() - i
        invariant
            from <= i,
            find_from(s@, pat@, from as int) == find_from(s@, pat@, i as int),
        decreases s.len() + 1 - i,
    {
        if matches_at_exec(s, i, pat) {
            return Some(i);
        }
        if i == s.len() {
            assert(s@.subrange(i as int, i as int) =~= pat@);
        }
        i = i + 1;
    }
    None
}

/// `str::contains`.
pub fn contains_exec(s: &Vec<char>, pat: &Vec<char>) -> (r: bool)
    ensures
        r == contains(s@, pat@),
{
    proof {
        lemma_find_contains(s@, pat@);
    }
    find_from_exec(s, pat, 0).is_some()
}

// ---------------------------------------------------------------------------
// Lines
// ---------------------------------------------------------------------------
/// Index of the first `\n` in `s` at or after `i`, or `s.len()` if none.
pub open spec fn next_newline(s: Seq<char>, i: int) -> int
    decreases s.len() - i,
{
    if i < 0 || i >= s.len() {
        s.len() as int
    } else if s[i] == '\n' {
        i
    } else {
        next_newline(s, i + 1)
    }
}

/// Index of the first `c` in `s` at or after `i`, or `s.len()` if none.
pub open spec fn next_index_of(s: Seq<char>, c: char, i: int) -> int
    decreases s.len() - i,
{
    if i < 0 || i >= s.len() {
        s.len() as int
    } else if s[i] == c {
        i
    } else {
        next_index_of(s, c, i + 1)
    }
}

pub proof fn lemma_next_index_of(s: Seq<char>, c: char, i: int)
    requires
        0 <= i <= s.len(),
    ensures
        i <= next_index_of(s, c, i) <= s.len(),
        next_index_of(s, c, i) < s.len() ==> s[next_index_of(s, c, i)] == c,
        forall|j: int| i <= j < next_index_of(s, c, i) ==> s[j] != c,
    decreases s.len() - i,
{
    if i < s.len() && s[i] != c {
        lemma_next_index_of(s, c, i + 1);
    }
}

/// Index of the first `c` at or after `i`, or `s.len()`.
pub fn next_index_of_exec(s: &Vec<char>, c: char, i: usize) -> (r: usize)
    requires
        i <= s.len(),
    ensures
        r == next_index_of(s@, c, i as int),
{
    let mut j = i;
    while j < s.len() && s[j] != c
        invariant
            i <= j <= s.len(),
            next_index_of(s@, c, i as int) == next_index_of(s@, c, j as int),
        decreases s.len() - j,
    {
        j = j + 1;
    }
    j
}

/// One past the index of the last `\n` in `s` before `i`, or 0 if none:
/// the start of the line that holds index `i`.
pub open spec fn line_start(s: Seq<char>, i: int) -> int
    decreases i,
{
    if i <= 0 {
        0
    } else if s[i - 1] == '\n' {
        i
    } else {
        line_start(s, i - 1)
    }
}

pub proof fn lemma_next_newline(s: Seq<char>, i: int)
    requires
        0 <= i <= s.len(),
    ensures
        i <= next_newline(s, i) <= s.len(),
        next_newline(s, i) < s.len() ==> s[next_newline(s, i)] == '\n',
        forall|j: int| i <= j < next_newline(s, i) ==> s[j] != '\n',
    decreases s.len() - i,
{
    if i < s.len() && s[i] != '\n' {
        lemma_next_newline(s, i + 1);
    }
}

pub proof fn lemma_line_start(s: Seq<char>, i: int)
    requires
        0 <= i <= s.len(),
    ensures
        0 <= line_start(s, i) <= i,
        line_start(s, i) > 0 ==> s[line_start(s, i) - 1] == '\n',
        forall|j: int| line_start(s, i) <= j < i ==> s[j] != '\n',
    decreases i,
{
    if i > 0 && s[i - 1] != '\n' {
        lemma_line_start(s, i - 1);
    }
}

/// The content of the line that starts at `start`: up to the next `\n`,
/// without a `\r` just before that `\n` (what `str::lines` yields).
pub open spec fn line_content(s: Seq<char>, start: int) -> Seq<char> {
    let nl = next_newline(s, start);
    let raw = s.subrange(start, nl);
    if nl < s.len() && raw.len() > 0 && raw.last() == '\r' {
        raw.drop_last()
    } else {
        raw
    }
}

/// The content of the line at `start` is the piece of `s` that starts there
/// and stops at or before the next `\n`.
pub proof fn lemma_line_content(s: Seq<char>, start: int)
    requires
        0 <= start <= s.len(),
    ensures
        start + line_content(s, start).len() <= next_newline(s, start) <= s.len(),
        line_content(s, start) == s.subrange(start, start + line_content(s, start).len()),
{
    lemma_next_newline(s, start);
    let nl = next_newline(s, start);
    let raw = s.subrange(start, nl);
    if nl < s.len() && raw.len() > 0 && raw.last() == '\r' {
        assert(raw.drop_last() =~= s.subrange(start, nl - 1));
    } else {
        assert(raw =~= s.subrange(start, start + raw.len()));
    }
}

/// Index of the first `\n` at or after `i`, or `s.len()`.
pub fn next_newline_exec(s: &Vec<char>, i: usize) -> (r: usize)
    requires
        i <= s.len(),
    ensures
        r == next_newline(s@, i as int),
{
    let mut j = i;
    while j < s.len() && s[j] != '\n'
        invariant
            i <= j <= s.len(),
            next_newline(s@, i as int) == next_newline(s@, j as int),
        decreases s.len() - j,
    {
        j = j + 1;
    }
    j
}

/// Start of the line holding index `i`.
pub fn line_start_exec(s: &Vec<char>, i: usize) -> (r: usize)
    requires
        i <= s.len(),
    ensures
        r == line_start(s@, i as int),
{
    let mut j = i;
    while j > 0 && s[j - 1] != '\n'
        invariant
            j <= i <= s.len(),
            line_start(s@, i as int) == line_start(s@, j as int),
        decreases j,
    {
        j = j - 1;
    }
    j
}

// ---------------------------------------------------------------------------
// Whitespace and trimming
// ---------------------------------------------------------------------------
/// `c` has the Unicode `White_Space` property (`char::is_whitespace`).
pub open spec fn is_whitespace(c: char) -> bool {
    let u = c as u32;
    (0x09 <= u <= 0x0D) || u == 0x20 || u == 0x85 || u == 0xA0 || u == 0x1680 || (0x2000 <= u
        <= 0x200A) || u == 0x2028 || u == 0x2029 || u == 0x202F || u == 0x205F || u == 0x3000
}

/// `char::is_whitespace`.
pub fn is_whitespace_exec(c: char) -> (r: bool)
    ensures
        r == is_whitespace(c),
{
    let u = c as u32;
    (0x09 <= u && u <= 0x0D) || u == 0x20 || u == 0x85 || u == 0xA0 || u == 0x1680 || (0x2000 <= u
        && u <= 0x200A) || u == 0x2028 || u == 0x2029 || u == 0x202F || u == 0x205F || u == 0x3000
}

/// First index at or after `i` whose char is not whitespace (or `s.len()`).
pub open spec fn skip_ws(s: Seq<char>, i: int) -> int
    decreases s.len() - i,
{
    if 0 <= i < s.len() && is_whitespace(s[i]) {
        skip_ws(s, i + 1)
    } else {
        i
    }
}

/// Smallest `k <= j` such that `s[k..j]` is all whitespace.
pub open spec fn skip_ws_back(s: Seq<char>, j: int) -> int
    decreases j,
{
    if 0 < j <= s.len() && is_whitespace(s[j - 1]) {
        skip_ws_back(s, j - 1)
    } else {
        j
    }
}

/// `str::trim`: `s` without leading and trailing whitespace.
pub open spec fn trim(s: Seq<char>) -> Seq<char> {
    let a = skip_ws(s, 0);
    let b = skip_ws_back(s, s.len() as int);
    if a < b {
        s.subrange(a, b)
    } else {
        seq![]
    }
}

pub proof fn lemma_skip_ws(s: Seq<char>, i: int)
    requires
        0 <= i <= s.len(),
    ensures
        i <= skip_ws(s, i) <= s.len(),
        forall|k: int| i <= k < skip_ws(s, i) ==> is_whitespace(s[k]),
        skip_ws(s, i) < s.len() ==> !is_whitespace(s[skip_ws(s, i)]),
    decreases s.len() - i,
{
    if i < s.len() && is_whitespace(s[i]) {
        lemma_skip_ws(s, i + 1);
    }
}

pub proof fn lemma_skip_ws_back(s: Seq<char>, j: int)
    requires
        0 <= j <= s.len(),
    ensures
        0 <= skip_ws_back(s, j) <= j,
        forall|k: int| skip_ws_back(s, j) <= k < j ==> is_whitespace(s[k]),
        skip_ws_back(s, j) > 0 ==> !is_whitespace(s[skip_ws_back(s, j) - 1]),
    decreases j,
{
    if j > 0 && is_whitespace(s[j - 1]) {
        lemma_skip_ws_back(s, j - 1);
    }
}

/// First index at or after `i` whose char is not whitespace.
pub fn skip_ws_exec(s: &Vec<char>, i: usize) -> (r: usize)
    requires
        i <= s.len(),
    ensures
        r == skip_ws(s@, i as int),
{
    let mut k = i;
    while k < s.len() && is_whitespace_exec(s[k])
        invariant
            i <= k <= s.len(),
            skip_ws(s@, i as int) == skip_ws(s@, k as int),
        decreases s.len() - k,
    {
        k = k + 1;
    }
    k
}

/// Smallest `k <= j` with `s[k..j]` all whitespace.
pub fn skip_ws_back_exec(s: &Vec<char>, j: usize) -> (r: usize)
    requires
        j <= s.len(),
    ensures
        r == skip_ws_back(s@, j as int),
{
    let mut k = j;
    while k > 0 && is_whitespace_exec(s[k - 1])
        invariant
            k <= j <= s.len(),
            skip_ws_back(s@, j as int) == skip_ws_back(s@, k as int),
        decreases k,
    {
        k = k - 1;
    }
    k
}

/// `str::trim` on a vector of chars.
pub fn trim_exec(s: &Vec<char>) -> (r: Vec<char>)
    ensures
        r@ == trim(s@),
{
    let a = skip_ws_exec(s, 0);
    let b = skip_ws_back_exec(s, s.len());
    proof {
        lemma_skip_ws(s@, 0);
        lemma_skip_ws_back(s@, s.len() as int);
    }
    if a < b {
        slice_chars(s, a, b)
    } else {
        Vec::new()
    }
}

// ---------------------------------------------------------------------------
// Byte offsets and char indices
// ---------------------------------------------------------------------------
/// Byte offset `b` falls on a character boundary of `s` (the end included).
pub open spec fn is_boundary(s: Seq<char>, b: int) -> bool {
    exists|k: int| 0 <= k <= s.len() && byte_len(s.take(k)) == b
}

/// The char index at byte offset `b`, when `b` is a boundary of `s`.
pub open spec fn char_index_at(s: Seq<char>, b: int) -> int {
    choose|k: int| 0 <= k <= s.len() && byte_len(s.take(k)) == b
}

/// Prefix byte lengths are monotonic in the prefix length.
pub proof fn lemma_byte_len_take_mono(s: Seq<char>, i: int, j: int)
    requires
        0 <= i <= j <= s.len(),
    ensures
        byte_len(s.take(i)) <= byte_len(s.take(j)),
        i < j ==> byte_len(s.take(i)) < byte_len(s.take(j)),
{
    if i < j {
        lemma_byte_len_take_strict(s, i, j);
    }
}

/// At most one char index has a given byte offset.
pub proof fn lemma_char_index_unique(s: Seq<char>, k1: int, k2: int)
    requires
        0 <= k1 <= s.len(),
        0 <= k2 <= s.len(),
        byte_len(s.take(k1)) == byte_len(s.take(k2)),
    ensures
        k1 == k2,
{
    if k1 < k2 {
        lemma_byte_len_take_mono(s, k1, k2);
    } else if k2 < k1 {
        lemma_byte_len_take_mono(s, k2, k1);
    }
}

/// `char_index_at` is the char index whose prefix has `b` bytes.
pub proof fn lemma_char_index_at(s: Seq<char>, k: int)
    requires
        0 <= k <= s.len(),
    ensures
        is_boundary(s, byte_len(s.take(k)) as int),
        char_index_at(s, byte_len(s.take(k)) as int) == k,
{
    let b = byte_len(s.take(k)) as int;
    assert(0 <= k <= s.len() && byte_len(s.take(k)) == b);
    let c = char_index_at(s, b);
    lemma_char_index_unique(s, c, k);
}

/// The char index at byte offset `b` of `s`, or `None` if `b` is not on a
/// character boundary (or is past the end).
pub fn char_index_of_byte(s: &Vec<char>, b: usize) -> (r: Option<usize>)
    requires
        byte_len(s@) <= usize::MAX,
    ensures
        r is Some <==> is_boundary(s@, b as int),
        r matches Some(k) ==> k <= s.len() && k == char_index_at(s@, b as int) && byte_len(
            s@.take(k as int),
        ) == b,
{
    let mut i: usize = 0;
    let mut acc: usize = 0;
    proof {
        assert(s@.take(0) =~= Seq::<char>::empty());
    }
    while i < s.len() && acc < b
        invariant
            i <= s.len(),
            byte_len(s@) <= usize::MAX,
            acc == byte_len(s@.take(i as int)),
            forall|k: int| 0 <= k < i ==> byte_len(#[trigger] s@.take(k)) < b,
        decreases s.len() - i,
    {
        proof {
            lemma_byte_len_take_step(s@, i as int);
            lemma_byte_len_split(s@, i + 1);
            assert(s@.take(i + 1).take(i as int) =~= s@.take(i as int));
        }
        acc = acc + char_width_exec(s[i]);
        i = i + 1;
    }
    if acc == b {
        proof {
            lemma_char_index_at(s@, i as int);
        }
        Some(i)
    } else {
        proof {
            assert forall|k: int| 0 <= k <= s.len() implies byte_len(#[trigger] s@.take(k)) != b by {
                if k > i {
                    lemma_byte_len_take_mono(s@, i as int, k);
                }
            }
        }
        None
    }
}

} // verus!
