//! Byte-level text handling shared by the parsers: searching, splitting into
//! fields and lines, trimming and number parsing.
use vstd::prelude::*;
use vstd::string::StringSliceAdditionalSpecFns;

verus! {

// ---------------------------------------------------------------------------
// Searching
// ---------------------------------------------------------------------------

/// The first index at or after `i` that holds `c`, or `s.len()` when there is none.
pub open spec fn find_from(s: Seq<u8>, c: u8, i: int) -> int
    decreases s.len() - i,
{
    if i >= s.len() {
        s.len() as int
    } else if s[i] == c {
        i
    } else {
        find_from(s, c, i + 1)
    }
}

pub proof fn lemma_find_from(s: Seq<u8>, c: u8, i: int)
    requires
        0 <= i <= s.len(),
    ensures
        i <= find_from(s, c, i) <= s.len(),
        find_from(s, c, i) < s.len() ==> s[find_from(s, c, i)] == c,
        forall|j: int| i <= j < find_from(s, c, i) ==> s[j] != c,
    decreases s.len() - i,
{
    if i < s.len() && s[i] != c {
        lemma_find_from(s, c, i + 1);
    }
}

/// A position that holds `c` and has no `c` between `i` and it is `find_from(s, c, i)`.
pub proof fn lemma_find_from_is(s: Seq<u8>, c: u8, i: int, k: int)
    requires
        0 <= i <= k <= s.len(),
        k < s.len() ==> s[k] == c,
        forall|j: int| i <= j < k ==> s[j] != c,
    ensures
        find_from(s, c, i) == k,
    decreases k - i,
{
    if i < k {
        lemma_find_from_is(s, c, i + 1, k);
    }
}

/// The first index at or after `start` that holds `c`, or `s.len()`.
pub fn find_byte_from(s: &[u8], c: u8, start: usize) -> (r: usize)
    requires
        start <= s@.len(),
    ensures
        r == find_from(s@, c, start as int),
        start <= r <= s@.len(),
{
    let mut i = start;
    while i < s.len() && s[i] != c
        invariant
            start <= i <= s@.len(),
            find_from(s@, c, start as int) == find_from(s@, c, i as int),
        decreases s@.len() - i,
    {
        i = i + 1;
    }
    proof {
        lemma_find_from(s@, c, start as int);
    }
    i
}

/// Whether `c` occurs in `s`.
pub open spec fn contains_byte(s: Seq<u8>, c: u8) -> bool {
    exists|i: int| 0 <= i < s.len() && s[i] == c
}

/// The last index that holds `c`, if any.
pub open spec fn rfind(s: Seq<u8>, c: u8) -> Option<int> {
    if contains_byte(s, c) {
        Some(choose|i: int| 0 <= i < s.len() && s[i] == c && forall|j: int| i < j < s.len() ==> s[j] != c)
    } else {
        None
    }
}

/// The last position of `c` in `s`.
pub fn rfind_byte(s: &[u8], c: u8) -> (r: Option<usize>)
    ensures
        r matches Some(k) ==> k < s@.len() && s@[k as int] == c && forall|j: int|
            k < j < s@.len() ==> s@[j] != c,
        r is None ==> !contains_byte(s@, c),
        r matches Some(k) ==> rfind(s@, c) == Some(k as int),
        r is None ==> rfind(s@, c) is None,
{
    let mut i = s.len();
    while i > 0
        invariant
            i <= s@.len(),
            forall|j: int| i <= j < s@.len() ==> s@[j] != c,
        decreases i,
    {
        if s[i - 1] == c {
            proof {
                let k = (i - 1) as int;
                let w = choose|w: int|
                    0 <= w < s@.len() && s@[w] == c && forall|j: int| w < j < s@.len() ==> s@[j] != c;
                assert(0 <= k < s@.len() && s@[k] == c && forall|j: int| k < j < s@.len() ==> s@[j] != c);
                if w < k {
                } else if k < w {
                }
            }
            return Some(i - 1);
        }
        i = i - 1;
    }
    None
}

// ---------------------------------------------------------------------------
// Copying and comparing
// ---------------------------------------------------------------------------

/// A copy of `s[a..b]`.
pub fn copy_range(s: &[u8], a: usize, b: usize) -> (r: Vec<u8>)
    requires
        a <= b <= s@.len(),
    ensures
        r@ == s@.subrange(a as int, b as int),
{
    let mut r: Vec<u8> = Vec::new();
    let mut i = a;
    while i < b
        invariant
            a <= i <= b <= s@.len(),
            r@ == s@.subrange(a as int, i as int),
        decreases b - i,
    {
        r.push(s[i]);
        i = i + 1;
    }
    r
}

/// Appends `s[a..b]` to `out`.
pub fn extend_range(out: &mut Vec<u8>, s: &[u8], a: usize, b: usize)
    requires
        a <= b <= s@.len(),
    ensures
        final(out)@ == old(out)@ + s@.subrange(a as int, b as int),
{
    let ghost start = out@;
    let mut i = a;
    while i < b
        invariant
            a <= i <= b <= s@.len(),
            out@ == start + s@.subrange(a as int, i as int),
        decreases b - i,
    {
        out.push(s[i]);
        i = i + 1;
        proof {
            assert(s@.subrange(a as int, i as int) == s@.subrange(a as int, i - 1) + seq![s@[i - 1]]);
        }
    }
}

/// Whether `s[a..b]` equals `t`.
pub fn range_eq(s: &[u8], a: usize, b: usize, t: &[u8]) -> (r: bool)
    requires
        a <= b <= s@.len(),
    ensures
        r == (s@.subrange(a as int, b as int) == t@),
{
    if b - a != t.len() {
        proof {
            assert(s@.subrange(a as int, b as int).len() != t@.len());
        }
        return false;
    }
    let mut i: usize = 0;
    while i < t.len()
        invariant
            b - a == t@.len(),
            a <= b <= s@.len(),
            i <= t@.len(),
            forall|j: int| 0 <= j < i ==> s@[a + j] == t@[j],
        decreases t@.len() - i,
    {
        if s[a + i] != t[i] {
            proof {
                assert(s@.subrange(a as int, b as int)[i as int] != t@[i as int]);
            }
            return false;
        }
        i = i + 1;
    }
    proof {
        assert(s@.subrange(a as int, b as int) =~= t@);
    }
    true
}

/// Whether two byte strings are equal.
pub fn bytes_eq(s: &[u8], t: &[u8]) -> (r: bool)
    ensures
        r == (s@ == t@),
{
    let r = range_eq(s, 0, s.len(), t);
    proof {
        assert(s@.subrange(0, s@.len() as int) =~= s@);
    }
    r
}

/// Whether `s[a..]` starts with `t`.
pub fn starts_with_at(s: &[u8], a: usize, t: &[u8]) -> (r: bool)
    requires
        a <= s@.len(),
    ensures
        r == (a + t@.len() <= s@.len() && s@.subrange(a as int, a + t@.len()) == t@),
{
    if s.len() - a < t.len() {
        return false;
    }
    range_eq(s, a, a + t.len(), t)
}

/// Whether `s` ends with `t`.
pub fn ends_with(s: &[u8], t: &[u8]) -> (r: bool)
    ensures
        r == (t@.len() <= s@.len() && s@.subrange(s@.len() - t@.len(), s@.len() as int) == t@),
{
    if s.len() < t.len() {
        return false;
    }
    range_eq(s, s.len() - t.len(), s.len(), t)
}

// ---------------------------------------------------------------------------
// Splitting into fields
// ---------------------------------------------------------------------------

/// The contents of a sequence of byte vectors.
pub open spec fn views(v: Seq<Vec<u8>>) -> Seq<Seq<u8>> {
    v.map_values(|x: Vec<u8>| x@)
}

/// The pieces of `s[i..]` between occurrences of `sep`, as `str::split` yields them.
pub open spec fn fields_from(s: Seq<u8>, sep: u8, i: int) -> Seq<Seq<u8>>
    decreases s.len() - i + 1,
{
    if i < 0 || i > s.len() {
        seq![]
    } else {
        let k = find_from(s, sep, i);
        if k >= s.len() || k < i {
            seq![s.subrange(i, s.len() as int)]
        } else {
            seq![s.subrange(i, k)] + fields_from(s, sep, k + 1)
        }
    }
}

/// The pieces of `s` between occurrences of `sep` (`str::split` with one separator).
pub open spec fn split_on(s: Seq<u8>, sep: u8) -> Seq<Seq<u8>> {
    fields_from(s, sep, 0)
}

/// Splits `s` on `sep` into owned pieces.
pub fn split_bytes(s: &[u8], sep: u8) -> (r: Vec<Vec<u8>>)
    ensures
        views(r@) == split_on(s@, sep),
        r@.len() >= 1,
{
    let mut out: Vec<Vec<u8>> = Vec::new();
    let mut i: usize = 0;
    loop
        invariant
            i <= s@.len(),
            views(out@) + fields_from(s@, sep, i as int) == split_on(s@, sep),
        decreases s@.len() - i,
    {
        let k = find_byte_from(s, sep, i);
        let piece = copy_range(s, i, k);
        if k >= s.len() {
            let ghost before = views(out@);
            out.push(piece);
            proof {
                assert(views(out@) =~= before + seq![piece@]);
                assert(fields_from(s@, sep, i as int) == seq![piece@]);
            }
            return out;
        }
        let ghost before = views(out@);
        out.push(piece);
        proof {
            assert(views(out@) =~= before + seq![piece@]);
            assert(fields_from(s@, sep, i as int) == seq![piece@] + fields_from(s@, sep, k + 1));
            assert(before + (seq![piece@] + fields_from(s@, sep, k + 1)) =~= (before + seq![piece@])
                + fields_from(s@, sep, k + 1));
        }
        i = k + 1;
    }
}

/// Whether one of the pieces of `s` between `sep` equals `target`.
pub open spec fn has_piece(s: Seq<u8>, sep: u8, target: Seq<u8>) -> bool {
    split_on(s, sep).contains(target)
}

/// Whether one of the pieces of `s` between `sep` equals `target`
/// (`s.split(sep).any(|p| p == target)`).
pub fn any_piece_eq(s: &[u8], sep: u8, target: &[u8]) -> (r: bool)
    ensures
        r == has_piece(s@, sep, target@),
{
    let pieces = split_bytes(s, sep);
    let mut i: usize = 0;
    while i < pieces.len()
        invariant
            i <= pieces@.len(),
            views(pieces@) == split_on(s@, sep),
            forall|j: int| 0 <= j < i ==> views(pieces@)[j] != target@,
        decreases pieces@.len() - i,
    {
        if bytes_eq(pieces[i].as_slice(), target) {
            proof {
                assert(views(pieces@)[i as int] == target@);
            }
            return true;
        }
        i = i + 1;
    }
    proof {
        if split_on(s@, sep).contains(target@) {
            let j = choose|j: int| 0 <= j < split_on(s@, sep).len() && split_on(s@, sep)[j] == target@;
            assert(views(pieces@)[j] == target@);
        }
    }
    false
}

// ---------------------------------------------------------------------------
// Lines
// ---------------------------------------------------------------------------

/// `s` without one trailing carriage return.
pub open spec fn strip_cr(s: Seq<u8>) -> Seq<u8> {
    if s.len() > 0 && s.last() == 0x0du8 {
        s.drop_last()
    } else {
        s
    }
}

/// The lines of `s[i..]`, as `str::lines` yields them: split at `\n`, a `\r`
/// before a `\n` dropped, and no empty line after a final `\n`.
pub open spec fn lines_from(s: Seq<u8>, i: int) -> Seq<Seq<u8>>
    decreases s.len() - i,
{
    if i < 0 || i >= s.len() {
        seq![]
    } else {
        let k = find_from(s, 0x0au8, i);
        if k >= s.len() || k < i {
            seq![s.subrange(i, s.len() as int)]
        } else {
            seq![strip_cr(s.subrange(i, k))] + lines_from(s, k + 1)
        }
    }
}

/// The lines of `s` (`str::lines`).
pub open spec fn spec_lines(s: Seq<u8>) -> Seq<Seq<u8>> {
    lines_from(s, 0)
}

/// Splits `s` into its lines.
pub fn lines(s: &[u8]) -> (r: Vec<Vec<u8>>)
    ensures
        views(r@) == spec_lines(s@),
{
    let mut out: Vec<Vec<u8>> = Vec::new();
    let mut i: usize = 0;
    while i < s.len()
        invariant
            i <= s@.len(),
            views(out@) + lines_from(s@, i as int) == spec_lines(s@),
        decreases s@.len() - i,
    {
        let k = find_byte_from(s, 0x0a, i);
        let ghost before = views(out@);
        if k >= s.len() {
            let piece = copy_range(s, i, k);
            out.push(piece);
            proof {
                assert(views(out@) =~= before + seq![piece@]);
                assert(lines_from(s@, k as int) == Seq::<Seq<u8>>::empty());
                assert(lines_from(s@, i as int) == seq![piece@]);
            }
            i = k;
        } else {
            let mut end = k;
            if end > i && s[end - 1] == 0x0d {
                end = end - 1;
            }
            let piece = copy_range(s, i, end);
            out.push(piece);
            proof {
                assert(piece@ == strip_cr(s@.subrange(i as int, k as int)));
                assert(views(out@) =~= before + seq![piece@]);
                assert(lines_from(s@, i as int) == seq![piece@] + lines_from(s@, k + 1));
                assert(before + (seq![piece@] + lines_from(s@, k + 1)) =~= (before + seq![piece@])
                    + lines_from(s@, k + 1));
            }
            i = k + 1;
        }
    }
    proof {
        assert(views(out@) + Seq::<Seq<u8>>::empty() =~= views(out@));
    }
    out
}

/// The text `a`, a newline, then the text `b`.
pub open spec fn joined(a: Seq<u8>, b: Seq<u8>) -> Seq<u8> {
    a + seq![0x0au8] + b
}

/// The empty line that joining adds between the lines of `a` and of `b`: one when
/// `a` is empty or ends with a newline, none otherwise.
pub open spec fn join_extra(a: Seq<u8>) -> Seq<Seq<u8>> {
    if a.len() == 0 || a.last() == 0x0au8 {
        seq![Seq::<u8>::empty()]
    } else {
        seq![]
    }
}

proof fn lemma_find_from_shift(p: Seq<u8>, q: Seq<u8>, c: u8, j: int)
    requires
        0 <= j <= q.len(),
    ensures
        find_from(p + q, c, p.len() + j) == p.len() + find_from(q, c, j),
    decreases q.len() - j,
{
    if j < q.len() {
        assert((p + q)[p.len() + j] == q[j]);
        if q[j] != c {
            lemma_find_from_shift(p, q, c, j + 1);
        }
    }
}

proof fn lemma_find_from_prefix(a: Seq<u8>, b: Seq<u8>, i: int)
    requires
        0 <= i <= a.len(),
    ensures
        find_from(joined(a, b), 0x0au8, i) == (if find_from(a, 0x0au8, i) < a.len() {
            find_from(a, 0x0au8, i)
        } else {
            a.len() as int
        }),
    decreases a.len() - i,
{
    let c = joined(a, b);
    if i < a.len() {
        assert(c[i] == a[i]);
        if a[i] != 0x0au8 {
            lemma_find_from_prefix(a, b, i + 1);
        }
    } else {
        assert(c[a.len() as int] == 0x0au8);
    }
}

proof fn lemma_lines_from_shift(a: Seq<u8>, b: Seq<u8>, j: int)
    requires
        0 <= j <= b.len(),
    ensures
        lines_from(joined(a, b), a.len() + 1 + j) == lines_from(b, j),
    decreases b.len() - j,
{
    let p = a + seq![0x0au8];
    let c = joined(a, b);
    assert(c == p + b);
    if j < b.len() {
        lemma_find_from_shift(p, b, 0x0au8, j);
        lemma_find_from(b, 0x0au8, j);
        let k = find_from(b, 0x0au8, j);
        if k >= b.len() {
            assert(c.subrange(p.len() + j, c.len() as int) =~= b.subrange(j, b.len() as int));
        } else {
            assert(c.subrange(p.len() + j, p.len() + k) =~= b.subrange(j, k));
            lemma_lines_from_shift(a, b, k + 1);
        }
    }
}

proof fn lemma_lines_from_join(a: Seq<u8>, b: Seq<u8>, i: int)
    requires
        0 <= i <= a.len(),
        a.len() == 0 || a.last() != 0x0du8,
        i == a.len() ==> (a.len() == 0 || a.last() == 0x0au8),
    ensures
        lines_from(joined(a, b), i) == (if i == a.len() {
            seq![Seq::<u8>::empty()]
        } else {
            lines_from(a, i) + join_extra(a)
        }) + lines_from(b, 0),
    decreases a.len() - i,
{
    let c = joined(a, b);
    lemma_find_from_prefix(a, b, i);
    lemma_find_from(a, 0x0au8, i);
    lemma_lines_from_shift(a, b, 0);
    if i == a.len() {
        assert(c[i] == 0x0au8);
        assert(c.subrange(i, i) =~= Seq::<u8>::empty());
        assert(strip_cr(Seq::<u8>::empty()) =~= Seq::<u8>::empty());
    } else {
        let k = find_from(a, 0x0au8, i);
        if k < a.len() {
            assert(c.subrange(i, k) =~= a.subrange(i, k));
            if k + 1 == a.len() {
                assert(a.last() == 0x0au8);
                lemma_lines_from_join(a, b, k + 1);
                assert(lines_from(a, k + 1) =~= Seq::<Seq<u8>>::empty());
            } else {
                lemma_lines_from_join(a, b, k + 1);
            }
        } else {
            assert(c.subrange(i, a.len() as int) =~= a.subrange(i, a.len() as int));
            assert(strip_cr(a.subrange(i, a.len() as int)) == a.subrange(i, a.len() as int));
            assert(a.last() != 0x0au8);
        }
    }
}

/// The lines of two texts joined by a newline are the lines of the first, then an
/// empty line when the first is empty or ends with a newline, then the lines of the
/// second; the first must not end with a carriage return (which the newline would
/// take away).
pub proof fn lemma_lines_of_joined(a: Seq<u8>, b: Seq<u8>)
    requires
        a.len() == 0 || a.last() != 0x0du8,
    ensures
        spec_lines(joined(a, b)) == spec_lines(a) + join_extra(a) + spec_lines(b),
{
    lemma_lines_from_join(a, b, 0);
    if a.len() == 0 {
        assert(spec_lines(a) =~= Seq::<Seq<u8>>::empty());
    }
}

// ---------------------------------------------------------------------------
// Whitespace
// ---------------------------------------------------------------------------

/// Whether `b` is ASCII whitespace as `u8::is_ascii_whitespace` defines it.
pub open spec fn is_ascii_ws(b: u8) -> bool {
    b == 0x20u8 || b == 0x09u8 || b == 0x0au8 || b == 0x0cu8 || b == 0x0du8
}

/// The length of the UTF-8 encoding of a `White_Space` character (`char::is_whitespace`)
/// at the start of `s`, or 0 when `s` does not start with one.
pub open spec fn ws_prefix_len(s: Seq<u8>) -> int {
    if s.len() >= 1 && (0x09 <= s[0] <= 0x0d || s[0] == 0x20) {
        1
    } else if s.len() >= 2 && s[0] == 0xc2 && (s[1] == 0x85 || s[1] == 0xa0) {
        2
    } else if s.len() >= 3 && ((s[0] == 0xe1 && s[1] == 0x9a && s[2] == 0x80) || (s[0] == 0xe2
        && s[1] == 0x80 && (s[2] <= 0x8a && s[2] >= 0x80 || s[2] == 0xa8 || s[2] == 0xa9 || s[2]
        == 0xaf)) || (s[0] == 0xe2 && s[1] == 0x81 && s[2] == 0x9f) || (s[0] == 0xe3 && s[1] == 0x80
        && s[2] == 0x80)) {
        3
    } else {
        0
    }
}

/// The length of the UTF-8 encoding of a `White_Space` character at the end of `s`,
/// or 0 when `s` does not end with one.
pub open spec fn ws_suffix_len(s: Seq<u8>) -> int {
    let n = s.len() as int;
    if n >= 1 && (0x09 <= s[n - 1] <= 0x0d || s[n - 1] == 0x20) {
        1
    } else if n >= 2 && s[n - 2] == 0xc2 && (s[n - 1] == 0x85 || s[n - 1] == 0xa0) {
        2
    } else if n >= 3 && ws_prefix_len(s.subrange(n - 3, n)) == 3 {
        3
    } else {
        0
    }
}

/// `s` without its leading whitespace (`str::trim_start`).
pub open spec fn trim_start(s: Seq<u8>) -> Seq<u8>
    decreases s.len(),
{
    let k = ws_prefix_len(s);
    if k > 0 && k <= s.len() {
        trim_start(s.subrange(k, s.len() as int))
    } else {
        s
    }
}

/// `s` without its trailing whitespace (`str::trim_end`).
pub open spec fn trim_end(s: Seq<u8>) -> Seq<u8>
    decreases s.len(),
{
    let k = ws_suffix_len(s);
    if k > 0 && k <= s.len() {
        trim_end(s.subrange(0, s.len() - k))
    } else {
        s
    }
}

/// `s` without leading and trailing whitespace (`str::trim`).
pub open spec fn trim(s: Seq<u8>) -> Seq<u8> {
    trim_end(trim_start(s))
}

pub fn ws_prefix_len_at(s: &[u8], i: usize, b: usize) -> (r: usize)
    requires
        i <= b <= s@.len(),
    ensures
        r == ws_prefix_len(s@.subrange(i as int, b as int)),
{
    let ghost t = s@.subrange(i as int, b as int);
    let n = b - i;
    if n >= 1 && ((0x09 <= s[i] && s[i] <= 0x0d) || s[i] == 0x20) {
        return 1;
    }
    if n >= 2 && s[i] == 0xc2 && (s[i + 1] == 0x85 || s[i + 1] == 0xa0) {
        return 2;
    }
    if n >= 3 {
        let (a, b, c) = (s[i], s[i + 1], s[i + 2]);
        if (a == 0xe1 && b == 0x9a && c == 0x80) || (a == 0xe2 && b == 0x80 && ((c <= 0x8a && c
            >= 0x80) || c == 0xa8 || c == 0xa9 || c == 0xaf)) || (a == 0xe2 && b == 0x81 && c
            == 0x9f) || (a == 0xe3 && b == 0x80 && c == 0x80) {
            return 3;
        }
    }
    0
}

/// The index of the first whitespace character of `s` at or after `i`, or its length
/// when there is none.
pub open spec fn first_ws_from(s: Seq<u8>, i: int) -> int
    decreases s.len() - i,
{
    if i < 0 || i >= s.len() {
        s.len() as int
    } else if ws_prefix_len(s.subrange(i, s.len() as int)) > 0 {
        i
    } else {
        first_ws_from(s, i + 1)
    }
}

/// The first whitespace at or after `i` lies between `i` and the end.
pub proof fn lemma_first_ws_from_bounds(s: Seq<u8>, i: int)
    requires
        0 <= i <= s.len(),
    ensures
        i <= first_ws_from(s, i) <= s.len(),
    decreases s.len() - i,
{
    if i < s.len() && ws_prefix_len(s.subrange(i, s.len() as int)) == 0 {
        lemma_first_ws_from_bounds(s, i + 1);
    }
}

/// The fields of `s[i..]` between runs of whitespace (`str::split_whitespace`).
pub open spec fn ws_fields_from(s: Seq<u8>, i: int) -> Seq<Seq<u8>>
    decreases s.len() - i,
{
    if i < 0 || i >= s.len() {
        seq![]
    } else {
        let k = ws_prefix_len(s.subrange(i, s.len() as int));
        if k > 0 {
            ws_fields_from(s, i + k)
        } else {
            proof {
                lemma_first_ws_from_bounds(s, i + 1);
            }
            let e = first_ws_from(s, i + 1);
            seq![s.subrange(i, e)] + ws_fields_from(s, e)
        }
    }
}

/// The fields of `s` between runs of whitespace (`str::split_whitespace`).
pub open spec fn ws_fields(s: Seq<u8>) -> Seq<Seq<u8>> {
    ws_fields_from(s, 0)
}

/// Splits `s` at runs of whitespace, dropping the whitespace.
pub fn split_whitespace(s: &[u8]) -> (r: Vec<Vec<u8>>)
    ensures
        views(r@) == ws_fields(s@),
{
    let n = s.len();
    let mut out: Vec<Vec<u8>> = Vec::new();
    let mut i: usize = 0;
    while i < n
        invariant
            i <= n == s@.len(),
            views(out@) + ws_fields_from(s@, i as int) == ws_fields(s@),
        decreases n - i,
    {
        let k = ws_prefix_len_at(s, i, n);
        if k > 0 {
            i = i + k;
        } else {
            let mut e = i + 1;
            while e < n
                invariant
                    i + 1 <= e <= n == s@.len(),
                    first_ws_from(s@, e as int) == first_ws_from(s@, i + 1),
                ensures
                    i + 1 <= e <= n,
                    first_ws_from(s@, e as int) == first_ws_from(s@, i + 1),
                    e < n ==> ws_prefix_len(s@.subrange(e as int, n as int)) > 0,
                decreases n - e,
            {
                if ws_prefix_len_at(s, e, n) > 0 {
                    break;
                }
                e = e + 1;
            }
            assert(e == first_ws_from(s@, i + 1));
            let ghost before = views(out@);
            let piece = copy_range(s, i, e);
            out.push(piece);
            proof {
                assert(views(out@) =~= before.push(piece@));
                assert(ws_fields_from(s@, i as int) == seq![piece@] + ws_fields_from(s@, e as int));
                assert(before + (seq![piece@] + ws_fields_from(s@, e as int)) =~= before.push(piece@)
                    + ws_fields_from(s@, e as int));
            }
            i = e;
        }
    }
    proof {
        assert(views(out@) + Seq::<Seq<u8>>::empty() =~= views(out@));
    }
    out
}

/// Whether `b` is a space or a tab.
pub open spec fn is_blank(b: u8) -> bool {
    b == 0x20u8 || b == 0x09u8
}

/// The index of the first space or tab of `s` at or after `i`, or its length.
pub open spec fn blank_from(s: Seq<u8>, i: int) -> int
    decreases s.len() - i,
{
    if i < 0 || i >= s.len() {
        s.len() as int
    } else if is_blank(s[i]) {
        i
    } else {
        blank_from(s, i + 1)
    }
}

/// The first space or tab at or after `i` lies between `i` and the end.
pub proof fn lemma_blank_from_bounds(s: Seq<u8>, i: int)
    requires
        0 <= i <= s.len(),
    ensures
        i <= blank_from(s, i) <= s.len(),
    decreases s.len() - i,
{
    if i < s.len() && !is_blank(s[i]) {
        lemma_blank_from_bounds(s, i + 1);
    }
}

/// The non-empty pieces of `s[i..]` between spaces and tabs
/// (`s.split(|c| c == ' ' || c == '\t').filter(|p| !p.is_empty())`).
pub open spec fn blank_tokens_from(s: Seq<u8>, i: int) -> Seq<Seq<u8>>
    decreases s.len() - i,
{
    if i < 0 || i >= s.len() {
        seq![]
    } else if is_blank(s[i]) {
        blank_tokens_from(s, i + 1)
    } else {
        proof {
            lemma_blank_from_bounds(s, i + 1);
        }
        let e = blank_from(s, i + 1);
        seq![s.subrange(i, e)] + blank_tokens_from(s, e)
    }
}

/// Splits `s` at spaces and tabs, keeping the non-empty pieces.
pub fn blank_tokens(s: &[u8]) -> (r: Vec<Vec<u8>>)
    ensures
        views(r@) == blank_tokens_from(s@, 0),
{
    let n = s.len();
    let mut out: Vec<Vec<u8>> = Vec::new();
    let mut i: usize = 0;
    while i < n
        invariant
            i <= n == s@.len(),
            views(out@) + blank_tokens_from(s@, i as int) == blank_tokens_from(s@, 0),
        decreases n - i,
    {
        if s[i] == 0x20 || s[i] == 0x09 {
            i = i + 1;
        } else {
            let mut e = i + 1;
            while e < n && !(s[e] == 0x20 || s[e] == 0x09)
                invariant
                    i + 1 <= e <= n == s@.len(),
                    blank_from(s@, e as int) == blank_from(s@, i + 1),
                decreases n - e,
            {
                e = e + 1;
            }
            assert(e == blank_from(s@, i + 1));
            let ghost before = views(out@);
            let piece = copy_range(s, i, e);
            out.push(piece);
            proof {
                assert(views(out@) =~= before.push(piece@));
                assert(blank_tokens_from(s@, i as int) == seq![piece@] + blank_tokens_from(
                    s@,
                    e as int,
                ));
                assert(before + (seq![piece@] + blank_tokens_from(s@, e as int)) =~= before.push(
                    piece@,
                ) + blank_tokens_from(s@, e as int));
            }
            i = e;
        }
    }
    proof {
        assert(views(out@) + Seq::<Seq<u8>>::empty() =~= views(out@));
    }
    out
}

/// The index of the first ASCII whitespace byte of `s` at or after `i`, or its length.
pub open spec fn ascii_ws_from(s: Seq<u8>, i: int) -> int
    decreases s.len() - i,
{
    if i < 0 || i >= s.len() {
        s.len() as int
    } else if is_ascii_ws(s[i]) {
        i
    } else {
        ascii_ws_from(s, i + 1)
    }
}

/// The first ASCII whitespace at or after `i` lies between `i` and the end.
pub proof fn lemma_ascii_ws_from_bounds(s: Seq<u8>, i: int)
    requires
        0 <= i <= s.len(),
    ensures
        i <= ascii_ws_from(s, i) <= s.len(),
    decreases s.len() - i,
{
    if i < s.len() && !is_ascii_ws(s[i]) {
        lemma_ascii_ws_from_bounds(s, i + 1);
    }
}

/// The non-empty pieces of `s[i..]` between ASCII whitespace bytes
/// (`s.split(u8::is_ascii_whitespace).filter(|p| !p.is_empty())`).
pub open spec fn ascii_tokens_from(s: Seq<u8>, i: int) -> Seq<Seq<u8>>
    decreases s.len() - i,
{
    if i < 0 || i >= s.len() {
        seq![]
    } else if is_ascii_ws(s[i]) {
        ascii_tokens_from(s, i + 1)
    } else {
        proof {
            lemma_ascii_ws_from_bounds(s, i + 1);
        }
        let e = ascii_ws_from(s, i + 1);
        seq![s.subrange(i, e)] + ascii_tokens_from(s, e)
    }
}

/// Splits `s` at ASCII whitespace, keeping the non-empty pieces.
pub fn ascii_tokens(s: &[u8]) -> (r: Vec<Vec<u8>>)
    ensures
        views(r@) == ascii_tokens_from(s@, 0),
{
    let n = s.len();
    let mut out: Vec<Vec<u8>> = Vec::new();
    let mut i: usize = 0;
    while i < n
        invariant
            i <= n == s@.len(),
            views(out@) + ascii_tokens_from(s@, i as int) == ascii_tokens_from(s@, 0),
        decreases n - i,
    {
        if is_ascii_ws_exec(s[i]) {
            i = i + 1;
        } else {
            let mut e = i + 1;
            while e < n && !is_ascii_ws_exec(s[e])
                invariant
                    i + 1 <= e <= n == s@.len(),
                    ascii_ws_from(s@, e as int) == ascii_ws_from(s@, i + 1),
                decreases n - e,
            {
                e = e + 1;
            }
            assert(e == ascii_ws_from(s@, i + 1));
            let ghost before = views(out@);
            let piece = copy_range(s, i, e);
            out.push(piece);
            proof {
                assert(views(out@) =~= before.push(piece@));
                assert(ascii_tokens_from(s@, i as int) == seq![piece@] + ascii_tokens_from(
                    s@,
                    e as int,
                ));
                assert(before + (seq![piece@] + ascii_tokens_from(s@, e as int)) =~= before.push(
                    piece@,
                ) + ascii_tokens_from(s@, e as int));
            }
            i = e;
        }
    }
    proof {
        assert(views(out@) + Seq::<Seq<u8>>::empty() =~= views(out@));
    }
    out
}

fn is_ascii_ws_exec(b: u8) -> (r: bool)
    ensures
        r == is_ascii_ws(b),
{
    b == 0x20 || b == 0x09 || b == 0x0a || b == 0x0c || b == 0x0d
}

/// The index where `s[a..b]` starts once its leading whitespace is removed.
pub fn trim_start_index(s: &[u8], a: usize, b: usize) -> (r: usize)
    requires
        a <= b <= s@.len(),
    ensures
        a <= r <= b,
        s@.subrange(r as int, b as int) == trim_start(s@.subrange(a as int, b as int)),
{
    let mut i = a;
    loop
        invariant
            a <= i <= b <= s@.len(),
            trim_start(s@.subrange(i as int, b as int)) == trim_start(s@.subrange(a as int, b as int)),
        decreases b - i,
    {
        let ghost t = s@.subrange(i as int, b as int);
        let k = ws_prefix_len_at(s, i, b);
        if k == 0 {
            return i;
        }
        proof {
            assert(t.subrange(k as int, t.len() as int) =~= s@.subrange(i + k, b as int));
        }
        i = i + k;
    }
}

/// The index where `s[a..b]` ends once its trailing whitespace is removed.
pub fn trim_end_index(s: &[u8], a: usize, b: usize) -> (r: usize)
    requires
        a <= b <= s@.len(),
    ensures
        a <= r <= b,
        s@.subrange(a as int, r as int) == trim_end(s@.subrange(a as int, b as int)),
{
    let mut j = b;
    loop
        invariant
            a <= j <= b <= s@.len(),
            trim_end(s@.subrange(a as int, j as int)) == trim_end(s@.subrange(a as int, b as int)),
        decreases j - a,
    {
        let ghost t = s@.subrange(a as int, j as int);
        let n = j - a;
        let mut k: usize = 0;
        if n >= 1 && ((0x09 <= s[j - 1] && s[j - 1] <= 0x0d) || s[j - 1] == 0x20) {
            k = 1;
        } else if n >= 2 && s[j - 2] == 0xc2 && (s[j - 1] == 0x85 || s[j - 1] == 0xa0) {
            k = 2;
        } else if n >= 3 {
            let w = ws_prefix_len_at(s, j - 3, j);
            proof {
                assert(s@.subrange(j - 3, j as int) =~= t.subrange(t.len() - 3, t.len() as int));
            }
            if w == 3 {
                k = 3;
            }
        }
        assert(k == ws_suffix_len(t));
        if k == 0 {
            return j;
        }
        proof {
            assert(t.subrange(0, t.len() - k) =~= s@.subrange(a as int, j - k));
        }
        j = j - k;
    }
}

/// The bounds of `s[a..b]` once trimmed on both sides.
pub fn trim_range(s: &[u8], a: usize, b: usize) -> (r: (usize, usize))
    requires
        a <= b <= s@.len(),
    ensures
        a <= r.0 <= r.1 <= b,
        s@.subrange(r.0 as int, r.1 as int) == trim(s@.subrange(a as int, b as int)),
{
    let x = trim_start_index(s, a, b);
    let y = trim_end_index(s, x, b);
    (x, y)
}

// ---------------------------------------------------------------------------
// Numbers
// ---------------------------------------------------------------------------

/// Whether `b` is an ASCII decimal digit.
pub open spec fn is_digit(b: u8) -> bool {
    0x30 <= b <= 0x39
}

/// The value of a string of decimal digits.
pub open spec fn dec_value(s: Seq<u8>) -> nat
    decreases s.len(),
{
    if s.len() == 0 {
        0
    } else {
        dec_value(s.drop_last()) * 10 + (s.last() - 0x30) as nat
    }
}

/// Whether all bytes of `s` are decimal digits.
pub open spec fn all_digits(s: Seq<u8>) -> bool {
    forall|i: int| 0 <= i < s.len() ==> is_digit(#[trigger] s[i])
}

/// `s` without one leading `+`, the sign that `u64::from_str` accepts.
pub open spec fn unsigned_digits(s: Seq<u8>) -> Seq<u8> {
    if s.len() > 0 && s[0] == 0x2bu8 {
        s.drop_first()
    } else {
        s
    }
}

/// The value that `u64::from_str` parses from `s`, or `None` when it refuses it:
/// an optional `+` followed by at least one decimal digit, fitting in 64 bits.
pub open spec fn spec_parse_u64(s: Seq<u8>) -> Option<u64> {
    let d = unsigned_digits(s);
    if d.len() > 0 && all_digits(d) && dec_value(d) <= u64::MAX {
        Some(dec_value(d) as u64)
    } else {
        None
    }
}

/// Parses the decimal number in `s[a..b]` as `u64::from_str` does.
pub fn parse_u64_range(s: &[u8], a: usize, b: usize) -> (r: Option<u64>)
    requires
        a <= b <= s@.len(),
    ensures
        r == spec_parse_u64(s@.subrange(a as int, b as int)),
{
    let ghost t = s@.subrange(a as int, b as int);
    let mut i = a;
    if i < b && s[i] == 0x2b {
        i = i + 1;
    }
    let ghost d = unsigned_digits(t);
    assert(d =~= s@.subrange(i as int, b as int));
    if i == b {
        return None;
    }
    let start = i;
    let mut v: u64 = 0;
    while i < b
        invariant
            a <= start <= i <= b <= s@.len(),
            d == s@.subrange(start as int, b as int),
            d == unsigned_digits(s@.subrange(a as int, b as int)),
            all_digits(s@.subrange(start as int, i as int)),
            v as nat == dec_value(s@.subrange(start as int, i as int)),
        decreases b - i,
    {
        let c = s[i];
        let ghost pre = s@.subrange(start as int, i as int);
        let ghost next = s@.subrange(start as int, i + 1);
        assert(next.drop_last() =~= pre);
        if !(0x30 <= c && c <= 0x39) {
            proof {
                assert(d[i - start] == c);
                assert(!is_digit(d[i - start]));
            }
            return None;
        }
        if v > 1844674407370955161 || (v == 1844674407370955161 && c > 0x35) {
            proof {
                lemma_dec_value_grows(d, (i + 1 - start) as int);
                assert(d.subrange(0, i + 1 - start) =~= next);
                assert(dec_value(next) == v * 10 + (c - 0x30));
                if v > 1844674407370955161 {
                    assert(v * 10 >= 1844674407370955162 * 10) by (nonlinear_arith)
                        requires
                            v > 1844674407370955161,
                    ;
                }
            }
            return None;
        }
        v = v * 10 + (c - 0x30) as u64;
        i = i + 1;
    }
    proof {
        assert(s@.subrange(start as int, b as int) == d);
    }
    Some(v)
}

/// A prefix of digits never has a larger value than the whole string.
pub proof fn lemma_dec_value_grows(d: Seq<u8>, k: int)
    requires
        0 <= k <= d.len(),
    ensures
        all_digits(d) ==> dec_value(d.subrange(0, k)) <= dec_value(d),
    decreases d.len() - k,
{
    if k < d.len() && all_digits(d) {
        lemma_dec_value_grows(d, k + 1);
        let p = d.subrange(0, k + 1);
        assert(p.drop_last() =~= d.subrange(0, k));
        assert(is_digit(d[k]));
        if dec_value(d.subrange(0, k)) > 0 {
            assert(dec_value(p) >= dec_value(d.subrange(0, k)) * 10);
        }
    } else if k == d.len() {
        assert(d.subrange(0, k) =~= d);
    }
}

/// Parses a decimal `u64` from all of `s`, as `u64::from_str` does.
pub fn parse_u64(s: &[u8]) -> (r: Option<u64>)
    ensures
        r == spec_parse_u64(s@),
{
    let r = parse_u64_range(s, 0, s.len());
    proof {
        assert(s@.subrange(0, s@.len() as int) =~= s@);
    }
    r
}

/// The value of a hexadecimal digit, if `b` is one.
pub open spec fn hex_digit_value(b: u8) -> Option<nat> {
    if 0x30 <= b <= 0x39 {
        Some((b - 0x30) as nat)
    } else if 0x61 <= b <= 0x66 {
        Some((b - 0x61 + 10) as nat)
    } else if 0x41 <= b <= 0x46 {
        Some((b - 0x41 + 10) as nat)
    } else {
        None
    }
}

/// Whether all bytes of `s` are hexadecimal digits.
pub open spec fn all_hex(s: Seq<u8>) -> bool {
    forall|i: int| 0 <= i < s.len() ==> #[trigger] hex_digit_value(s[i]) is Some
}

/// The value of a string of hexadecimal digits.
pub open spec fn hex_value(s: Seq<u8>) -> nat
    decreases s.len(),
{
    if s.len() == 0 {
        0
    } else {
        hex_value(s.drop_last()) * 16 + hex_digit_value(s.last()).unwrap_or(0)
    }
}

/// The value that `u32::from_str_radix(s, 16)` parses from `s`, or `None` when it
/// refuses it: an optional `+` then at least one hexadecimal digit, fitting in 32 bits.
pub open spec fn spec_parse_hex_u32(s: Seq<u8>) -> Option<u32> {
    let d = unsigned_digits(s);
    if d.len() > 0 && all_hex(d) && hex_value(d) <= u32::MAX {
        Some(hex_value(d) as u32)
    } else {
        None
    }
}

proof fn lemma_hex_value_grows(d: Seq<u8>, k: int)
    requires
        0 <= k <= d.len(),
    ensures
        all_hex(d) ==> hex_value(d.subrange(0, k)) <= hex_value(d),
    decreases d.len() - k,
{
    if k < d.len() && all_hex(d) {
        lemma_hex_value_grows(d, k + 1);
        let p = d.subrange(0, k + 1);
        assert(p.drop_last() =~= d.subrange(0, k));
        assert(hex_value(p) >= hex_value(d.subrange(0, k)) * 16);
    } else if k == d.len() {
        assert(d.subrange(0, k) =~= d);
    }
}

/// Parses the hexadecimal number in `s[a..b]` as `u32::from_str_radix(.., 16)` does.
pub fn parse_hex_u32_range(s: &[u8], a: usize, b: usize) -> (r: Option<u32>)
    requires
        a <= b <= s@.len(),
    ensures
        r == spec_parse_hex_u32(s@.subrange(a as int, b as int)),
{
    let ghost t = s@.subrange(a as int, b as int);
    let mut i = a;
    if i < b && s[i] == 0x2b {
        i = i + 1;
    }
    let ghost d = unsigned_digits(t);
    assert(d =~= s@.subrange(i as int, b as int));
    if i == b {
        return None;
    }
    let start = i;
    let mut v: u32 = 0;
    while i < b
        invariant
            a <= start <= i <= b <= s@.len(),
            d == s@.subrange(start as int, b as int),
            d == unsigned_digits(s@.subrange(a as int, b as int)),
            all_hex(s@.subrange(start as int, i as int)),
            v as nat == hex_value(s@.subrange(start as int, i as int)),
        decreases b - i,
    {
        let c = s[i];
        let ghost pre = s@.subrange(start as int, i as int);
        let ghost next = s@.subrange(start as int, i + 1);
        assert(next.drop_last() =~= pre);
        let dv: u32;
        if 0x30 <= c && c <= 0x39 {
            dv = (c - 0x30) as u32;
        } else if 0x61 <= c && c <= 0x66 {
            dv = (c - 0x61 + 10) as u32;
        } else if 0x41 <= c && c <= 0x46 {
            dv = (c - 0x41 + 10) as u32;
        } else {
            proof {
                assert(d[i - start] == c);
                assert(hex_digit_value(d[i - start]) is None);
            }
            return None;
        }
        if v > 0x0fff_ffff {
            proof {
                lemma_hex_value_grows(d, (i + 1 - start) as int);
                assert(d.subrange(0, i + 1 - start) =~= next);
                assert(hex_value(next) == v * 16 + dv);
                assert(v * 16 >= 0x1000_0000 * 16) by (nonlinear_arith)
                    requires
                        v > 0x0fff_ffff,
                ;
            }
            return None;
        }
        v = v * 16 + dv;
        i = i + 1;
    }
    proof {
        assert(s@.subrange(start as int, b as int) == d);
    }
    Some(v)
}

// ---------------------------------------------------------------------------
// ASCII trimming and non-empty pieces
// ---------------------------------------------------------------------------

/// `s` without leading ASCII whitespace.
pub open spec fn trim_ascii_start(s: Seq<u8>) -> Seq<u8>
    decreases s.len(),
{
    if s.len() > 0 && is_ascii_ws(s[0]) {
        trim_ascii_start(s.drop_first())
    } else {
        s
    }
}

/// `s` without trailing ASCII whitespace.
pub open spec fn trim_ascii_end(s: Seq<u8>) -> Seq<u8>
    decreases s.len(),
{
    if s.len() > 0 && is_ascii_ws(s.last()) {
        trim_ascii_end(s.drop_last())
    } else {
        s
    }
}

/// `s` without leading and trailing ASCII whitespace (`<[u8]>::trim_ascii`).
pub open spec fn trim_ascii(s: Seq<u8>) -> Seq<u8> {
    trim_ascii_end(trim_ascii_start(s))
}

/// The bounds of `s[a..b]` without its leading and trailing ASCII whitespace.
pub fn trim_ascii_range(s: &[u8], a: usize, b: usize) -> (r: (usize, usize))
    requires
        a <= b <= s@.len(),
    ensures
        a <= r.0 <= r.1 <= b,
        s@.subrange(r.0 as int, r.1 as int) == trim_ascii(s@.subrange(a as int, b as int)),
{
    let mut i = a;
    while i < b && (s[i] == 0x20 || s[i] == 0x09 || s[i] == 0x0a || s[i] == 0x0c || s[i] == 0x0d)
        invariant
            a <= i <= b <= s@.len(),
            trim_ascii_start(s@.subrange(i as int, b as int)) == trim_ascii_start(
                s@.subrange(a as int, b as int),
            ),
        decreases b - i,
    {
        proof {
            assert(s@.subrange(i as int, b as int).drop_first() =~= s@.subrange(i + 1, b as int));
        }
        i = i + 1;
    }
    let mut j = b;
    proof {
        assert(trim_ascii_start(s@.subrange(a as int, b as int)) == s@.subrange(i as int, b as int));
    }
    while j > i && (s[j - 1] == 0x20 || s[j - 1] == 0x09 || s[j - 1] == 0x0a || s[j - 1] == 0x0c
        || s[j - 1] == 0x0d)
        invariant
            a <= i <= j <= b <= s@.len(),
            trim_ascii_end(s@.subrange(i as int, j as int)) == trim_ascii(s@.subrange(a as int, b as int)),
        decreases j - i,
    {
        proof {
            assert(s@.subrange(i as int, j as int).drop_last() =~= s@.subrange(i as int, j - 1));
        }
        j = j - 1;
    }
    (i, j)
}

/// The non-empty pieces of `f`, in order.
pub open spec fn nonempty_pieces(f: Seq<Seq<u8>>) -> Seq<Seq<u8>>
    decreases f.len(),
{
    if f.len() == 0 {
        seq![]
    } else {
        let rest = nonempty_pieces(f.drop_last());
        if f.last().len() > 0 {
            rest.push(f.last())
        } else {
            rest
        }
    }
}

/// The non-empty pieces of `s` between occurrences of `sep`
/// (`s.split(sep).filter(|p| !p.is_empty())`).
pub fn nonempty_split(s: &[u8], sep: u8) -> (r: Vec<Vec<u8>>)
    ensures
        views(r@) == nonempty_pieces(split_on(s@, sep)),
{
    let pieces = split_bytes(s, sep);
    let ghost pv = views(pieces@);
    let mut out: Vec<Vec<u8>> = Vec::new();
    let mut i: usize = 0;
    while i < pieces.len()
        invariant
            i <= pieces@.len(),
            pv == views(pieces@),
            pv == split_on(s@, sep),
            views(out@) == nonempty_pieces(pv.take(i as int)),
        decreases pieces@.len() - i,
    {
        proof {
            let t = pv.take(i + 1);
            assert(t.drop_last() =~= pv.take(i as int));
            assert(t.last() == pv[i as int]);
        }
        if pieces[i].len() > 0 {
            let ghost before = views(out@);
            let piece = copy_range(pieces[i].as_slice(), 0, pieces[i].len());
            proof {
                assert(piece@ =~= pv[i as int]);
            }
            out.push(piece);
            proof {
                assert(views(out@) =~= before.push(piece@));
            }
        }
        i = i + 1;
    }
    proof {
        assert(pv.take(pieces@.len() as int) =~= pv);
    }
    out
}

/// The value that `i32::from_str` parses from `s`: an optional sign, then at least one
/// decimal digit, within the range of `i32`.
pub open spec fn spec_parse_i32(s: Seq<u8>) -> Option<i32> {
    if s.len() > 0 && s[0] == 0x2du8 {
        let d = s.drop_first();
        if d.len() > 0 && all_digits(d) && dec_value(d) <= 0x8000_0000 {
            Some((0 - dec_value(d)) as i32)
        } else {
            None
        }
    } else {
        let d = unsigned_digits(s);
        if d.len() > 0 && all_digits(d) && dec_value(d) <= i32::MAX {
            Some(dec_value(d) as i32)
        } else {
            None
        }
    }
}

/// Parses the decimal number in `s[a..b]` as `i32::from_str` does.
pub fn parse_i32_range(s: &[u8], a: usize, b: usize) -> (r: Option<i32>)
    requires
        a <= b <= s@.len(),
    ensures
        r == spec_parse_i32(s@.subrange(a as int, b as int)),
{
    let ghost t = s@.subrange(a as int, b as int);
    let negative = a < b && s[a] == 0x2d;
    let start = if negative { a + 1 } else { a };
    proof {
        if negative {
            assert(t.drop_first() =~= s@.subrange(start as int, b as int));
        }
        assert(t.len() > 0 && t[0] == 0x2du8 <==> negative);
    }
    if negative {
        if start == b {
            return None;
        }
        // Parse the magnitude as unsigned; it must not exceed 2^31.
        match parse_u64_range(s, start, b) {
            Some(v) => {
                let ghost d = s@.subrange(start as int, b as int);
                proof {
                    assert(unsigned_digits(d) == d || (d.len() > 0 && d[0] == 0x2bu8));
                }
                if s[start] == 0x2b || v > 0x8000_0000 {
                    proof {
                        if s@[start as int] == 0x2b {
                            assert(!is_digit(d[0]));
                        }
                    }
                    return None;
                }
                proof {
                    assert(unsigned_digits(d) =~= d);
                }
                Some((0 - (v as i64)) as i32)
            },
            None => {
                proof {
                    let d = s@.subrange(start as int, b as int);
                    if d.len() > 0 && all_digits(d) {
                        assert(is_digit(d[0]));
                        assert(unsigned_digits(d) =~= d);
                    }
                }
                None
            },
        }
    } else {
        match parse_u64_range(s, a, b) {
            Some(v) => {
                if v > 0x7fff_ffff {
                    return None;
                }
                Some(v as i32)
            },
            None => None,
        }
    }
}

// ---------------------------------------------------------------------------
// UTF-8
// ---------------------------------------------------------------------------

/// `std::str::from_utf8`, trusted to accept exactly the byte strings that are
/// well-formed UTF-8 (as `vstd::utf8::valid_utf8` defines it).
#[verifier::external_body]
pub fn is_valid_utf8(b: &[u8]) -> (r: bool)
    ensures
        r == vstd::utf8::valid_utf8(b@),
{
    std::str::from_utf8(b).is_ok()
}

/// Whether `i` is the start or the end of `b`, or holds a byte that starts a character.
pub open spec fn starts_char(b: Seq<u8>, i: int) -> bool {
    i == 0 || i == b.len() || (0 <= i < b.len() && !vstd::utf8::is_continuation_byte(b[i]))
}

/// A piece of well-formed UTF-8 cut where characters start is well-formed UTF-8.
pub proof fn lemma_valid_utf8_subrange(b: Seq<u8>, i: int, j: int)
    requires
        vstd::utf8::valid_utf8(b),
        0 <= i <= j <= b.len(),
        starts_char(b, i),
        starts_char(b, j),
    ensures
        vstd::utf8::valid_utf8(b.subrange(i, j)),
{
    vstd::utf8::is_char_boundary_start_end_of_seq(b);
    if 0 < j < b.len() {
        vstd::utf8::is_char_boundary_iff_not_is_continuation_byte(b, j);
    }
    vstd::utf8::valid_utf8_split(b, j);
    let p = b.subrange(0, j);
    vstd::utf8::is_char_boundary_start_end_of_seq(p);
    if 0 < i < j {
        vstd::utf8::is_char_boundary_iff_not_is_continuation_byte(p, i);
    }
    vstd::utf8::valid_utf8_split(p, i);
    assert(p.subrange(i, p.len() as int) =~= b.subrange(i, j));
}

/// Whether every byte of `b` is ASCII.
pub open spec fn all_ascii(b: Seq<u8>) -> bool {
    forall|i: int| 0 <= i < b.len() ==> #[trigger] b[i] < 0x80
}

/// The characters of ASCII bytes.
pub open spec fn ascii_chars(b: Seq<u8>) -> Seq<char> {
    b.map_values(|x: u8| x as char)
}

/// ASCII bytes are well-formed UTF-8 and encode the characters with the same numbers.
pub proof fn lemma_ascii_utf8(b: Seq<u8>)
    requires
        all_ascii(b),
    ensures
        vstd::utf8::valid_utf8(b),
        vstd::utf8::decode_utf8(b) == ascii_chars(b),
    decreases b.len(),
{
    if b.len() > 0 {
        let b0 = b[0];
        assert(b0 < 0x80);
        assert((b0 & 0x7f) == b0) by (bit_vector)
            requires
                b0 < 0x80,
        ;
        let rest = b.subrange(1, b.len() as int);
        assert(vstd::utf8::pop_first_scalar(b) =~= rest);
        assert forall|i: int| 0 <= i < rest.len() implies #[trigger] rest[i] < 0x80 by {
            assert(rest[i] == b[i + 1]);
        }
        lemma_ascii_utf8(rest);
        assert(ascii_chars(b) =~= seq![b0 as char] + ascii_chars(rest));
    } else {
        assert(ascii_chars(b) =~= Seq::<char>::empty());
    }
}

/// `String::from_utf8`: the bytes as a string when they are well-formed UTF-8, their
/// characters being the ones the bytes encode; `None` otherwise.
#[verifier::external_body]
pub fn string_from_utf8(b: Vec<u8>) -> (r: Option<String>)
    ensures
        r is Some <==> vstd::utf8::valid_utf8(b@),
        r matches Some(s) ==> s@ == vstd::utf8::decode_utf8(b@),
{
    String::from_utf8(b).ok()
}

/// The length of the UTF-8 sequence that the byte `b` leads (0 for a byte that leads
/// none).
pub open spec fn utf8_width(b: u8) -> int {
    if b < 0x80 {
        1
    } else if 0xc2 <= b <= 0xdf {
        2
    } else if 0xe0 <= b <= 0xef {
        3
    } else if 0xf0 <= b <= 0xf4 {
        4
    } else {
        0
    }
}

/// Whether `b1` may follow the leading byte `b0` in a well-formed UTF-8 sequence (the
/// ranges of the Unicode standard, which leave out overlong forms, surrogates and
/// values past U+10FFFF).
pub open spec fn utf8_second_ok(b0: u8, b1: u8) -> bool {
    if b0 == 0xe0 {
        0xa0 <= b1 <= 0xbf
    } else if b0 == 0xed {
        0x80 <= b1 <= 0x9f
    } else if b0 == 0xf0 {
        0x90 <= b1 <= 0xbf
    } else if b0 == 0xf4 {
        0x80 <= b1 <= 0x8f
    } else {
        0x80 <= b1 <= 0xbf
    }
}

/// How many bytes of `b` from `i` on (`i` in range) begin a well-formed UTF-8 sequence:
/// the whole sequence when it is complete, else its longest well-formed start, at
/// least one byte.
pub open spec fn utf8_prefix_len(b: Seq<u8>, i: int) -> int {
    let n = utf8_width(b[i]);
    let cont = |k: int| i + k < b.len() && 0x80 <= b[i + k] <= 0xbf;
    if n <= 1 || !(i + 1 < b.len() && utf8_second_ok(b[i], b[i + 1])) {
        1
    } else if n == 2 || !cont(2) {
        2
    } else if n == 3 || !cont(3) {
        3
    } else {
        4
    }
}

/// The character that the complete sequence of `n` bytes at `i` encodes.
pub open spec fn utf8_char_at(b: Seq<u8>, i: int, n: int) -> char {
    (if n == 1 {
        vstd::utf8::codepoint_width_1(b[i])
    } else if n == 2 {
        vstd::utf8::codepoint_width_2(b[i], b[i + 1])
    } else if n == 3 {
        vstd::utf8::codepoint_width_3(b[i], b[i + 1], b[i + 2])
    } else {
        vstd::utf8::codepoint_width_4(b[i], b[i + 1], b[i + 2], b[i + 3])
    }) as char
}

/// The characters of `b` from `i` on, read as UTF-8 where each ill-formed part (the
/// longest start of a well-formed sequence, or a single byte) becomes one U+FFFD.
pub open spec fn utf8_lossy_from(b: Seq<u8>, i: int) -> Seq<char>
    decreases b.len() - i,
{
    if i < 0 || i >= b.len() {
        seq![]
    } else {
        let k = utf8_prefix_len(b, i);
        if k == utf8_width(b[i]) {
            seq![utf8_char_at(b, i, k)] + utf8_lossy_from(b, i + k)
        } else {
            seq!['\u{FFFD}'] + utf8_lossy_from(b, i + k)
        }
    }
}

/// The characters that `String::from_utf8_lossy` makes of `b`: the UTF-8 text, each
/// ill-formed part replaced by U+FFFD (the substitution of maximal subparts of the
/// Unicode standard).
pub open spec fn utf8_lossy(b: Seq<u8>) -> Seq<char> {
    utf8_lossy_from(b, 0)
}

/// `String::from_utf8_lossy`, trusted to give the characters `utf8_lossy(b)`, which are
/// the decoded text when `b` is well-formed UTF-8.
#[verifier::external_body]
pub(crate) fn string_from_utf8_lossy(b: &[u8]) -> (r: String)
    ensures
        r@ == utf8_lossy(b@),
        vstd::utf8::valid_utf8(b@) ==> r@ == vstd::utf8::decode_utf8(b@),
{
    String::from_utf8_lossy(b).into_owned()
}

/// `str::trim`, trusted to remove exactly the leading and trailing `White_Space`
/// characters.
#[verifier::external_body]
pub(crate) fn trim_str(s: &str) -> (r: &str)
    ensures
        r.spec_bytes() == trim(s.spec_bytes()),
{
    s.trim()
}

/// A copy of each piece of `v`.
pub fn copy_pieces(v: &Vec<Vec<u8>>) -> (r: Vec<Vec<u8>>)
    ensures
        views(r@) == views(v@),
{
    let mut out: Vec<Vec<u8>> = Vec::new();
    let mut i: usize = 0;
    while i < v.len()
        invariant
            i <= v@.len(),
            views(out@) == views(v@).take(i as int),
        decreases v@.len() - i,
    {
        let ghost before = views(out@);
        let p = copy_range(v[i].as_slice(), 0, v[i].len());
        proof {
            assert(v@[i as int]@.subrange(0, v@[i as int]@.len() as int) =~= v@[i as int]@);
            assert(views(v@)[i as int] == v@[i as int]@);
        }
        out.push(p);
        proof {
            assert(views(out@) =~= before.push(p@));
            assert(views(v@).take(i + 1) =~= views(v@).take(i as int).push(views(v@)[i as int]));
        }
        i = i + 1;
    }
    proof {
        assert(views(v@).take(v@.len() as int) =~= views(v@));
    }
    out
}

/// The decimal digits of `n`, most significant first.
pub open spec fn decimal(n: nat) -> Seq<u8>
    decreases n,
{
    if n < 10 {
        seq![(0x30 + n) as u8]
    } else {
        decimal(n / 10).push((0x30 + n % 10) as u8)
    }
}

/// Decimal digits are ASCII.
pub proof fn lemma_decimal_ascii(n: nat)
    ensures
        all_ascii(decimal(n)),
        decimal(n).len() >= 1,
    decreases n,
{
    if n >= 10 {
        lemma_decimal_ascii(n / 10);
        let d = decimal(n / 10);
        assert forall|i: int| 0 <= i < decimal(n).len() implies #[trigger] decimal(n)[i] < 0x80 by {
            if i < d.len() {
                assert(decimal(n)[i] == d[i]);
            }
        }
    }
}

/// Appends the decimal digits of `n` to `out`.
pub fn push_decimal(out: &mut Vec<u8>, n: u64)
    ensures
        final(out)@ == old(out)@ + decimal(n as nat),
    decreases n,
{
    if n >= 10 {
        push_decimal(out, n / 10);
    }
    let d: u8 = (n % 10) as u8;
    out.push(0x30 + d);
    proof {
        if n >= 10 {
            assert(final(out)@ =~= old(out)@ + decimal(n as nat));
        } else {
            assert(final(out)@ =~= old(out)@ + decimal(n as nat));
        }
    }
}

} // verus!
