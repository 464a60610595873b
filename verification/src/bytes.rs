//! Byte-text helpers shared by the parsers and formatters.

use vstd::prelude::*;

verus! {

/// Appends all of `src` to `out`.
pub fn push_all(out: &mut Vec<u8>, src: &[u8])
    ensures
        final(out)@ == old(out)@ + src@,
{
    let ghost start = out@;
    let mut i: usize = 0;
    while i < src.len()
        invariant
            0 <= i <= src@.len(),
            out@ == start + src@.subrange(0, i as int),
        decreases src.len() - i,
    {
        out.push(src[i]);
        i = i + 1;
        assert(out@ == start + src@.subrange(0, i as int));
    }
    assert(src@.subrange(0, src@.len() as int) == src@);
}

/// A copy of `src[from..to]`.
pub fn copy_range(src: &[u8], from: usize, to: usize) -> (r: Vec<u8>)
    requires
        from <= to <= src@.len(),
    ensures
        r@ == src@.subrange(from as int, to as int),
{
    let mut out: Vec<u8> = Vec::new();
    let mut i: usize = from;
    while i < to
        invariant
            from <= i <= to,
            to <= src@.len(),
            out@ == src@.subrange(from as int, i as int),
        decreases to - i,
    {
        out.push(src[i]);
        i = i + 1;
        assert(out@ == src@.subrange(from as int, i as int));
    }
    out
}

} // verus!

verus! {

/// Whether `pat` occurs in `s` at `i`.
pub open spec fn matches_at(s: Seq<u8>, i: int, pat: Seq<u8>) -> bool {
    0 <= i && i + pat.len() <= s.len() && s.subrange(i, i + pat.len()) == pat
}

/// First occurrence of `pat` in `s` at or after `from`.
pub open spec fn find_from(s: Seq<u8>, from: int, pat: Seq<u8>) -> Option<int>
    decreases s.len() + 1 - from,
{
    if from < 0 || from + pat.len() > s.len() {
        None
    } else if matches_at(s, from, pat) {
        Some(from)
    } else {
        find_from(s, from + 1, pat)
    }
}

/// Where no position from `i` up to `k` holds the first byte of `pat`, a
/// search from `i` finds what a search from `k` finds.
pub proof fn lemma_find_skips(s: Seq<u8>, i: int, k: int, pat: Seq<u8>)
    requires
        0 <= i <= k,
        pat.len() > 0,
        forall|p: int| i <= p < k && p < s.len() ==> s[p] != pat[0],
    ensures
        find_from(s, i, pat) == find_from(s, k, pat),
    decreases k - i,
{
    if i < k {
        if i + pat.len() <= s.len() {
            assert(s.subrange(i, i + pat.len())[0] == s[i]);
        }
        lemma_find_skips(s, i + 1, k, pat);
    }
}

/// Where `pat` stands at `k`, a search from `k` finds it there.
pub proof fn lemma_found_at(s: Seq<u8>, k: int, pat: Seq<u8>)
    requires
        matches_at(s, k, pat),
    ensures
        find_from(s, k, pat) == Some(k),
{
}

/// Where `pat` stands at `k`, it is found from any earlier position on.
pub proof fn lemma_found_where_it_stands(s: Seq<u8>, from: int, k: int, pat: Seq<u8>)
    requires
        0 <= from <= k,
        matches_at(s, k, pat),
    ensures
        find_from(s, from, pat) is Some,
    decreases k - from,
{
    if !matches_at(s, from, pat) {
        lemma_found_where_it_stands(s, from + 1, k, pat);
    }
}

pub open spec fn contains_seq(s: Seq<u8>, pat: Seq<u8>) -> bool {
    find_from(s, 0, pat) is Some
}

/// Whether `pat` occurs at `i` of `s`.
pub fn matches_at_exec(s: &[u8], i: usize, pat: &[u8]) -> (r: bool)
    ensures
        r == matches_at(s@, i as int, pat@),
{
    let n: usize = s.len();
    if i > n || pat.len() > n - i {
        return false;
    }
    let mut k: usize = 0;
    while k < pat.len()
        invariant
            0 <= k <= pat@.len(),
            n == s@.len(),
            i <= s@.len(),
            pat@.len() <= s@.len() - i,
            forall|m: int| 0 <= m < k ==> s@[i + m] == pat@[m],
        decreases pat.len() - k,
    {
        if s[i + k] != pat[k] {
            assert(s@.subrange(i as int, i + pat@.len())[k as int] != pat@[k as int]);
            return false;
        }
        k = k + 1;
    }
    assert(s@.subrange(i as int, i + pat@.len()) =~= pat@);
    true
}

/// First occurrence of `pat` in `s` at or after `from`.
pub fn find(s: &[u8], from: usize, pat: &[u8]) -> (r: Option<usize>)
    ensures
        r == (match find_from(s@, from as int, pat@) {
            Some(i) => Some(i as usize),
            None => None::<usize>,
        }),
        r matches Some(i) ==> from <= i && i + pat@.len() <= s@.len() && find_from(
            s@,
            from as int,
            pat@,
        ) == Some(i as int),
        r is None ==> find_from(s@, from as int, pat@) is None,
{
    if pat.len() > s.len() || from > s.len() - pat.len() {
        return None;
    }
    let last: usize = s.len() - pat.len();
    let mut i: usize = from;
    loop
        invariant
            from <= i <= last,
            last + pat@.len() == s@.len(),
            find_from(s@, from as int, pat@) == find_from(s@, i as int, pat@),
        decreases last - i,
    {
        if matches_at_exec(s, i, pat) {
            return Some(i);
        }
        if i == last {
            assert(find_from(s@, i + 1, pat@) is None);
            return None;
        }
        i = i + 1;
    }
}

pub fn contains(s: &[u8], pat: &[u8]) -> (r: bool)
    ensures
        r == contains_seq(s@, pat@),
{
    find(s, 0, pat).is_some()
}

pub open spec fn starts_with(s: Seq<u8>, pat: Seq<u8>) -> bool {
    pat.len() <= s.len() && s.subrange(0, pat.len() as int) == pat
}

pub open spec fn ends_with(s: Seq<u8>, pat: Seq<u8>) -> bool {
    pat.len() <= s.len() && s.subrange(s.len() - pat.len(), s.len() as int) == pat
}

pub fn starts_with_exec(s: &[u8], pat: &[u8]) -> (r: bool)
    ensures
        r == starts_with(s@, pat@),
{
    matches_at_exec(s, 0, pat)
}

pub fn ends_with_exec(s: &[u8], pat: &[u8]) -> (r: bool)
    ensures
        r == ends_with(s@, pat@),
{
    if pat.len() > s.len() {
        return false;
    }
    matches_at_exec(s, s.len() - pat.len(), pat)
}

/// Whether `w`, one to three bytes, is the UTF-8 encoding of a character
/// with the Unicode `White_Space` property.
pub open spec fn is_whitespace_seq(w: Seq<u8>) -> bool {
    ||| (w.len() == 1 && (w[0] == 0x20 || (0x09 <= w[0] <= 0x0D)))
    ||| (w.len() == 2 && w[0] == 0xC2 && (w[1] == 0x85 || w[1] == 0xA0))
    ||| (w.len() == 3 && w[0] == 0xE1 && w[1] == 0x9A && w[2] == 0x80)
    ||| (w.len() == 3 && w[0] == 0xE2 && w[1] == 0x80 && ((0x80 <= w[2] <= 0x8A) || w[2] == 0xA8
        || w[2] == 0xA9 || w[2] == 0xAF))
    ||| (w.len() == 3 && w[0] == 0xE2 && w[1] == 0x81 && w[2] == 0x9F)
    ||| (w.len() == 3 && w[0] == 0xE3 && w[1] == 0x80 && w[2] == 0x80)
}

/// Length of the whitespace character starting at `i`, or zero.
pub open spec fn ws_len_at(s: Seq<u8>, i: int) -> int {
    if i + 1 <= s.len() && is_whitespace_seq(s.subrange(i, i + 1)) {
        1
    } else if i + 2 <= s.len() && is_whitespace_seq(s.subrange(i, i + 2)) {
        2
    } else if i + 3 <= s.len() && is_whitespace_seq(s.subrange(i, i + 3)) {
        3
    } else {
        0
    }
}

/// Length of the whitespace character ending at `j`, or zero.
pub open spec fn ws_len_before(s: Seq<u8>, j: int) -> int {
    if j - 1 >= 0 && is_whitespace_seq(s.subrange(j - 1, j)) {
        1
    } else if j - 2 >= 0 && is_whitespace_seq(s.subrange(j - 2, j)) {
        2
    } else if j - 3 >= 0 && is_whitespace_seq(s.subrange(j - 3, j)) {
        3
    } else {
        0
    }
}

/// Start of `s[from..to]` once leading whitespace is dropped.
pub open spec fn trim_start_at(s: Seq<u8>, from: int, to: int) -> int
    decreases to - from,
{
    if from >= to {
        to
    } else {
        let w = ws_len_at(s.subrange(0, to), from);
        if w <= 0 || from + w > to { from } else { trim_start_at(s, from + w, to) }
    }
}

/// End of `s[from..to]` once trailing whitespace is dropped.
pub open spec fn trim_end_at(s: Seq<u8>, from: int, to: int) -> int
    decreases to - from,
{
    if to <= from {
        from
    } else {
        let w = ws_len_before(s.subrange(from, s.len() as int), to - from);
        if w <= 0 || to - w < from { to } else { trim_end_at(s, from, to - w) }
    }
}

/// `s` with leading and trailing whitespace dropped, as `str::trim` does.
pub open spec fn trim_seq(s: Seq<u8>) -> Seq<u8> {
    let a = trim_start_at(s, 0, s.len() as int);
    let b = trim_end_at(s, a, s.len() as int);
    s.subrange(a, b)
}

fn is_ws_exec(s: &[u8], i: usize, n: usize) -> (r: bool)
    requires
        1 <= n <= 3,
        i + n <= s@.len(),
    ensures
        r == is_whitespace_seq(s@.subrange(i as int, i + n)),
{
    let ghost w = s@.subrange(i as int, i + n);
    if n == 1 {
        s[i] == 0x20 || (0x09 <= s[i] && s[i] <= 0x0D)
    } else if n == 2 {
        s[i] == 0xC2 && (s[i + 1] == 0x85 || s[i + 1] == 0xA0)
    } else {
        let a = s[i];
        let b = s[i + 1];
        let c = s[i + 2];
        (a == 0xE1 && b == 0x9A && c == 0x80) || (a == 0xE2 && b == 0x80 && ((0x80 <= c && c
            <= 0x8A) || c == 0xA8 || c == 0xA9 || c == 0xAF)) || (a == 0xE2 && b == 0x81 && c
            == 0x9F) || (a == 0xE3 && b == 0x80 && c == 0x80)
    }
}

/// Bounds of `s[from..to]` with surrounding whitespace dropped.
pub fn trim_range(s: &[u8], from: usize, to: usize) -> (r: (usize, usize))
    requires
        from <= to <= s@.len(),
    ensures
        r.0 == trim_start_at(s@, from as int, to as int),
        r.1 == trim_end_at(s@, r.0 as int, to as int),
        from <= r.0 <= r.1 <= to,
{
    let mut a: usize = from;
    loop
        invariant
            from <= a <= to,
            to <= s@.len(),
            trim_start_at(s@, from as int, to as int) == trim_start_at(s@, a as int, to as int),
        ensures
            from <= a <= to,
            a == trim_start_at(s@, from as int, to as int),
        decreases to - a,
    {
        if a >= to {
            break;
        }
        let ghost pre = s@.subrange(0, to as int);
        assert(pre.subrange(a as int, a + 1) == s@.subrange(a as int, a + 1));
        let w: usize = if is_ws_exec(s, a, 1) {
            1
        } else if to - a >= 2 && is_ws_exec(s, a, 2) {
            assert(pre.subrange(a as int, a + 2) == s@.subrange(a as int, a + 2));
            2
        } else if to - a >= 3 && is_ws_exec(s, a, 3) {
            assert(pre.subrange(a as int, a + 2) == s@.subrange(a as int, a + 2));
            assert(pre.subrange(a as int, a + 3) == s@.subrange(a as int, a + 3));
            3
        } else {
            proof {
                if a + 2 <= to {
                    assert(pre.subrange(a as int, a + 2) == s@.subrange(a as int, a + 2));
                }
                if a + 3 <= to {
                    assert(pre.subrange(a as int, a + 3) == s@.subrange(a as int, a + 3));
                }
            }
            0
        };
        assert(w == ws_len_at(pre, a as int));
        if w == 0 {
            break;
        }
        a = a + w;
    }
    let b = trim_end_index(s, a, to);
    (a, b)
}

/// End of `s[from..to]` once trailing whitespace is dropped.
pub fn trim_end_index(s: &[u8], from: usize, to: usize) -> (r: usize)
    requires
        from <= to <= s@.len(),
    ensures
        r == trim_end_at(s@, from as int, to as int),
        from <= r <= to,
{
    let a = from;
    let mut b: usize = to;
    loop
        invariant
            a <= b <= to,
            to <= s@.len(),
            trim_end_at(s@, a as int, to as int) == trim_end_at(s@, a as int, b as int),
        ensures
            a <= b <= to,
            b == trim_end_at(s@, a as int, to as int),
        decreases b - a,
    {
        if b <= a {
            break;
        }
        let ghost post = s@.subrange(a as int, s@.len() as int);
        let ghost j = (b - a) as int;
        assert(post.subrange(j - 1, j) == s@.subrange(b - 1, b as int));
        let w: usize = if is_ws_exec(s, b - 1, 1) {
            1
        } else if b - a >= 2 && is_ws_exec(s, b - 2, 2) {
            assert(post.subrange(j - 2, j) == s@.subrange(b - 2, b as int));
            2
        } else if b - a >= 3 && is_ws_exec(s, b - 3, 3) {
            assert(post.subrange(j - 2, j) == s@.subrange(b - 2, b as int));
            assert(post.subrange(j - 3, j) == s@.subrange(b - 3, b as int));
            3
        } else {
            proof {
                if b - a >= 2 {
                    assert(post.subrange(j - 2, j) == s@.subrange(b - 2, b as int));
                }
                if b - a >= 3 {
                    assert(post.subrange(j - 3, j) == s@.subrange(b - 3, b as int));
                }
            }
            0
        };
        assert(w == ws_len_before(post, j));
        if w == 0 {
            break;
        }
        b = b - w;
    }
    b
}

/// `s` with surrounding whitespace dropped.
pub fn trim(s: &[u8]) -> (r: Vec<u8>)
    ensures
        r@ == trim_seq(s@),
{
    let (a, b) = trim_range(s, 0, s.len());
    copy_range(s, a, b)
}


/// Whether `a` and `b` hold the same bytes.
pub fn eq_bytes(a: &[u8], b: &[u8]) -> (r: bool)
    ensures
        r == (a@ == b@),
{
    if a.len() != b.len() {
        return false;
    }
    let mut i: usize = 0;
    while i < a.len()
        invariant
            0 <= i <= a@.len(),
            a@.len() == b@.len(),
            forall|k: int| 0 <= k < i ==> a@[k] == b@[k],
        decreases a.len() - i,
    {
        if a[i] != b[i] {
            return false;
        }
        i = i + 1;
    }
    assert(a@ =~= b@);
    true
}

/// Lexicographic order of byte strings, the order of `str` and `String`.
pub open spec fn bytes_le(a: Seq<u8>, b: Seq<u8>) -> bool
    decreases a.len(),
{
    if a.len() == 0 {
        true
    } else if b.len() == 0 {
        false
    } else if a[0] != b[0] {
        a[0] < b[0]
    } else {
        bytes_le(a.drop_first(), b.drop_first())
    }
}

/// Whether `a` comes no later than `b` in lexicographic order.
pub fn bytes_le_exec(a: &[u8], b: &[u8]) -> (r: bool)
    ensures
        r == bytes_le(a@, b@),
{
    let mut i: usize = 0;
    assert(a@.subrange(0, a@.len() as int) == a@);
    assert(b@.subrange(0, b@.len() as int) == b@);
    while i < a.len() && i < b.len() && a[i] == b[i]
        invariant
            0 <= i <= a@.len(),
            i <= b@.len(),
            bytes_le(a@, b@) == bytes_le(a@.subrange(i as int, a@.len() as int), b@.subrange(i as int, b@.len() as int)),
        decreases a.len() - i,
    {
        assert(a@.subrange(i as int, a@.len() as int).drop_first() =~= a@.subrange(i + 1, a@.len() as int));
        assert(b@.subrange(i as int, b@.len() as int).drop_first() =~= b@.subrange(i + 1, b@.len() as int));
        i = i + 1;
    }
    if i == a.len() {
        true
    } else if i == b.len() {
        false
    } else {
        a[i] < b[i]
    }
}


/// Length of the whitespace character of `s` that starts at `i`, or zero.
pub fn ws_len_at_exec(s: &[u8], i: usize) -> (r: usize)
    requires
        i <= s@.len(),
    ensures
        r == ws_len_at(s@, i as int),
        r <= 3,
{
    let n: usize = s.len();
    if n - i >= 1 && is_ws_exec(s, i, 1) {
        1
    } else if n - i >= 2 && is_ws_exec(s, i, 2) {
        2
    } else if n - i >= 3 && is_ws_exec(s, i, 3) {
        3
    } else {
        0
    }
}

} // verus!
