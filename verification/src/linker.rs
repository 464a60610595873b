//! Reading back the `MEMORY { }` regions of a generated `memory.x`, and what
//! the host tools decide from them: how full the application partition is,
//! and where a panic dump lies.

use vstd::prelude::*;
use vstd::string::StringSliceAdditionalSpecFns;
use crate::bytes::{push_all, copy_range, find, find_from, trim, trim_seq, starts_with,
    starts_with_exec, contains_seq, contains, eq_bytes, ws_len_at, ws_len_at_exec};
use crate::numtext::{parse_unsigned, parse_unsigned_exec, decimal, hex, pad_left, digits_value,
    all_digits, lemma_decimal_reads_back, lemma_hex_reads_back, lemma_leading_zeros,
    lemma_parse_digits};
use crate::memtext::{size_text, addr_text, region_line_text, pad_chars};
use crate::bytes::{trim_start_at, trim_end_at, ws_len_before, is_whitespace_seq};
use crate::chipgen::{line_end, content_end};

verus! {

/// `s` without its trailing commas.
pub open spec fn drop_trailing_commas(s: Seq<u8>) -> Seq<u8>
    decreases s.len(),
{
    if s.len() > 0 && s.last() == 0x2C {
        drop_trailing_commas(s.drop_last())
    } else {
        s
    }
}

/// The number a linker script writes for a size or an address (`128K`,
/// `1M`, `528`, `0x08020000`), as a mathematical value.
pub open spec fn size_value(raw: Seq<u8>) -> Option<int> {
    let s = trim_seq(drop_trailing_commas(trim_seq(raw)));
    if s.len() >= 2 && s[0] == 0x30 && (s[1] == 0x78 || s[1] == 0x58) {
        match parse_unsigned(s.subrange(2, s.len() as int), 16) {
            None => None,
            Some(v) => Some(v as int),
        }
    } else if s.len() == 0 {
        None
    } else {
        let last = s.last();
        let (digits, multiplier) = if last == 0x4B || last == 0x6B {
            (s.drop_last(), 1024int)
        } else if last == 0x4D || last == 0x6D {
            (s.drop_last(), 1048576int)
        } else {
            (s, 1int)
        };
        match parse_unsigned(trim_seq(digits), 10) {
            None => None,
            Some(v) => Some(v * multiplier),
        }
    }
}

/// Whether the value that `raw` writes, if any, fits 64 bits. Hex and
/// plain numbers beyond 64 bits already read as `None`; only a `K` or `M`
/// size can overflow, where the host tools multiply without a check and
/// stop: such text is left out.
pub open spec fn size_fits(raw: Seq<u8>) -> bool {
    size_value(raw) matches Some(v) ==> v <= u64::MAX
}

/// Reads a size or an address written as a linker script writes it.
pub fn parse_size(raw: &[u8]) -> (r: Option<u64>)
    requires
        size_fits(raw@),
    ensures
        r == (match size_value(raw@) {
            Some(v) => Some(v as u64),
            None => None::<u64>,
        }),
{
    let first = trim(raw);
    let mut end: usize = first.len();
    assert(first@.subrange(0, first@.len() as int) == first@);
    while end > 0 && first[end - 1] == 0x2C
        invariant
            end <= first@.len(),
            drop_trailing_commas(first@) == drop_trailing_commas(first@.subrange(0, end as int)),
        decreases end,
    {
        assert(first@.subrange(0, end as int).drop_last() =~= first@.subrange(0, end - 1));
        end = end - 1;
    }
    assert(first@.subrange(0, first@.len() as int) == first@);
    assert(drop_trailing_commas(first@.subrange(0, end as int)) == first@.subrange(0, end as int));
    let s = trim(&first.as_slice()[0..end]);
    let n = s.len();
    if n >= 2 && s[0] == 0x30 && (s[1] == 0x78 || s[1] == 0x58) {
        return parse_unsigned_exec(&s.as_slice()[2..n], 16);
    }
    if n == 0 {
        return None;
    }
    let last = s[n - 1];
    let (digits_end, multiplier): (usize, u64) = if last == 0x4B || last == 0x6B {
        (n - 1, 1024)
    } else if last == 0x4D || last == 0x6D {
        (n - 1, 1024 * 1024)
    } else {
        (n, 1)
    };
    assert(s@.drop_last() =~= s@.subrange(0, n - 1));
    assert(s@.subrange(0, n as int) == s@);
    let digits = trim(&s.as_slice()[0..digits_end]);
    match parse_unsigned_exec(digits.as_slice(), 10) {
        None => None,
        Some(v) => {
            assert(v * multiplier <= u64::MAX);
            Some(v * multiplier)
        },
    }
}

/// Origin and length of a region of `memory.x`.
#[derive(Clone, Copy, Debug, PartialEq, Eq, Structural)]
pub struct Region {
    pub origin: u64,
    pub length: u64,
}

impl DeepView for Region {
    type V = Region;

    open spec fn deep_view(&self) -> Region {
        *self
    }
}

/// `s` without its leading spaces and equals signs.
pub open spec fn drop_space_eq(s: Seq<u8>) -> Seq<u8>
    decreases s.len(),
{
    if s.len() > 0 && (s[0] == 0x20 || s[0] == 0x3D) {
        drop_space_eq(s.drop_first())
    } else {
        s
    }
}

/// The parts of a `memory.x` line that name a region: its name, and the
/// texts of its origin and length; `None` for a comment or a line that is no
/// region.
pub open spec fn region_parts(line: Seq<u8>) -> Option<(Seq<u8>, Seq<u8>, Seq<u8>)> {
    let l = trim_seq(line);
    if starts_with(l, "/*".spec_bytes()) || !contains_seq(l, "ORIGIN".spec_bytes()) || !contains_seq(
        l,
        "LENGTH".spec_bytes(),
    ) {
        None
    } else {
        match find_from(l, 0, "(".spec_bytes()) {
            None => None,
            Some(p) => {
                let rest = l.subrange(p + "(".spec_bytes().len(), l.len() as int);
                match find_from(rest, 0, "LENGTH".spec_bytes()) {
                    None => None,
                    Some(q) => {
                        let origin_part = rest.subrange(0, q);
                        let length_part = rest.subrange(
                            q + "LENGTH".spec_bytes().len(),
                            rest.len() as int,
                        );
                        match find_from(origin_part, 0, "ORIGIN".spec_bytes()) {
                            None => None,
                            Some(o) => Some(
                                (
                                    l.subrange(0, p),
                                    trim_seq(
                                        drop_space_eq(
                                            origin_part.subrange(
                                                o + "ORIGIN".spec_bytes().len(),
                                                origin_part.len() as int,
                                            ),
                                        ),
                                    ),
                                    trim_seq(drop_space_eq(length_part)),
                                ),
                            ),
                        }
                    },
                }
            },
        }
    }
}

/// The region that a `memory.x` line declares, if it declares one whose
/// origin and length are numbers.
pub open spec fn region_of_line(line: Seq<u8>) -> Option<(Seq<u8>, int, int)> {
    match region_parts(line) {
        None => None,
        Some((name, origin, length)) => match (size_value(origin), size_value(length)) {
            (Some(o), Some(l)) => Some((trim_seq(name), o, l)),
            _ => None,
        },
    }
}

/// Whether the numbers of a line fit 64 bits.
pub open spec fn line_fits(line: Seq<u8>) -> bool {
    match region_parts(line) {
        None => true,
        Some((_, origin, length)) => size_fits(origin) && size_fits(length),
    }
}

/// The regions declared by the lines of `t` from `i` on.
pub open spec fn regions_from(t: Seq<u8>, i: int) -> Seq<(Seq<u8>, int, int)>
    decreases t.len() - i,
{
    if i < 0 || i >= t.len() {
        Seq::empty()
    } else {
        let e = line_end(t, i);
        let line = t.subrange(i, content_end(t, i, e));
        let here = match region_of_line(line) {
            None => Seq::empty(),
            Some(r) => seq![r],
        };
        if e < i || e >= t.len() {
            here
        } else {
            here + regions_from(t, e + 1)
        }
    }
}

/// Whether every line of `t` from `i` on has numbers that fit 64 bits.
pub open spec fn lines_fit(t: Seq<u8>, i: int) -> bool
    decreases t.len() - i,
{
    if i < 0 || i >= t.len() {
        true
    } else {
        let e = line_end(t, i);
        line_fits(t.subrange(i, content_end(t, i, e))) && (e < i || e >= t.len() || lines_fit(
            t,
            e + 1,
        ))
    }
}

/// The regions of `memory.x` as `(name, origin, length)`, in order.
pub open spec fn memory_regions(t: Seq<u8>) -> Seq<(Seq<u8>, int, int)> {
    regions_from(t, 0)
}

fn drop_space_eq_from(s: &[u8], from: usize) -> (r: usize)
    requires
        from <= s@.len(),
    ensures
        from <= r <= s@.len(),
        s@.subrange(r as int, s@.len() as int) == drop_space_eq(
            s@.subrange(from as int, s@.len() as int),
        ),
{
    let mut a: usize = from;
    while a < s.len() && (s[a] == 0x20 || s[a] == 0x3D)
        invariant
            from <= a <= s@.len(),
            drop_space_eq(s@.subrange(from as int, s@.len() as int)) == drop_space_eq(
                s@.subrange(a as int, s@.len() as int),
            ),
        decreases s.len() - a,
    {
        assert(s@.subrange(a as int, s@.len() as int).drop_first() =~= s@.subrange(
            a + 1,
            s@.len() as int,
        ));
        a = a + 1;
    }
    a
}

/// The parts of a `memory.x` line that name a region.
fn region_parts_exec(line: &[u8]) -> (r: Option<(Vec<u8>, Vec<u8>, Vec<u8>)>)
    ensures
        match (r, region_parts(line@)) {
            (Some(x), Some(y)) => x.0@ == y.0 && x.1@ == y.1 && x.2@ == y.2,
            (None, None) => true,
            _ => false,
        },
{
    let l = trim(line);
    let lv = l.as_slice();
    if starts_with_exec(lv, "/*".as_bytes()) || !contains(lv, "ORIGIN".as_bytes()) || !contains(
        lv,
        "LENGTH".as_bytes(),
    ) {
        return None;
    }
    let lv_len: usize = lv.len();
    let open = "(".as_bytes();
    let p = match find(lv, 0, open) {
        None => {
            return None;
        },
        Some(p) => p,
    };
    let rest = copy_range(lv, p + open.len(), lv.len());
    let rv = rest.as_slice();
    let length_key = "LENGTH".as_bytes();
    let q = match find(rv, 0, length_key) {
        None => {
            return None;
        },
        Some(q) => q,
    };
    let origin_part = copy_range(rv, 0, q);
    let length_part = copy_range(rv, q + length_key.len(), rv.len());
    let origin_key = "ORIGIN".as_bytes();
    let o = match find(origin_part.as_slice(), 0, origin_key) {
        None => {
            return None;
        },
        Some(o) => o,
    };
    let oa = drop_space_eq_from(origin_part.as_slice(), o + origin_key.len());
    let origin = trim(&origin_part.as_slice()[oa..origin_part.len()]);
    let la = drop_space_eq_from(length_part.as_slice(), 0);
    assert(length_part@.subrange(0, length_part@.len() as int) == length_part@);
    let length = trim(&length_part.as_slice()[la..length_part.len()]);
    let name = copy_range(lv, 0, p);
    Some((name, origin, length))
}

/// The regions that the lines of a `memory.x` declare, in order: name,
/// origin and length of every line outside a comment that has a name before
/// `(`, then `ORIGIN` and `LENGTH` with numbers.
pub fn parse_memory_regions(text: &[u8]) -> (r: Vec<(Vec<u8>, Region)>)
    requires
        lines_fit(text@, 0),
    ensures
        r@.len() == memory_regions(text@).len(),
        forall|k: int|
            0 <= k < r@.len() ==> (#[trigger] r@[k]).0@ == memory_regions(text@)[k].0
                && r@[k].1.origin == memory_regions(text@)[k].1 && r@[k].1.length
                == memory_regions(text@)[k].2,
{
    let t_len: usize = text.len();
    let mut out: Vec<(Vec<u8>, Region)> = Vec::new();
    let ghost mut done: Seq<(Seq<u8>, int, int)> = Seq::empty();
    let mut i: usize = 0;
    while i < t_len
        invariant_except_break
            lines_fit(text@, i as int),
            memory_regions(text@) == done + regions_from(text@, i as int),
        invariant
            i <= text@.len(),
            t_len == text@.len(),
            out@.len() == done.len(),
            forall|k: int|
                0 <= k < out@.len() ==> (#[trigger] out@[k]).0@ == done[k].0 && out@[k].1.origin
                    == done[k].1 && out@[k].1.length == done[k].2,
        ensures
            memory_regions(text@) == done,
        decreases t_len - i,
    {
        let mut e: usize = i;
        while e < t_len && text[e] != 0x0A
            invariant
                i <= e <= t_len,
                t_len == text@.len(),
                line_end(text@, i as int) == line_end(text@, e as int),
            decreases t_len - e,
        {
            e = e + 1;
        }
        let c: usize = if e > i && e < text.len() && text[e - 1] == 0x0D { e - 1 } else { e };
        let line = &text[i..c];
        let ghost here = match region_of_line(line@) {
            None => Seq::<(Seq<u8>, int, int)>::empty(),
            Some(r) => seq![r],
        };
        let ghost rest = if e >= t_len {
            Seq::<(Seq<u8>, int, int)>::empty()
        } else {
            regions_from(text@, e + 1)
        };
        assert(regions_from(text@, i as int) == here + rest);
        assert(line_fits(line@));
        let ghost old_done = done;
        match region_parts_exec(line) {
            None => {
                assert(here =~= Seq::<(Seq<u8>, int, int)>::empty());
            },
            Some((name, origin, length)) => {
                let o = parse_size(origin.as_slice());
                let l = parse_size(length.as_slice());
                if let (Some(o), Some(l)) = (o, l) {
                    let trimmed = trim(name.as_slice());
                    out.push((trimmed, Region { origin: o, length: l }));
                    proof {
                        done = done.push((trimmed@, o as int, l as int));
                        assert(here == seq![(trimmed@, o as int, l as int)]);
                        assert forall|k: int| 0 <= k < out@.len() implies (#[trigger] out@[k]).0@ == done[k].0 && out@[k].1.origin == done[k].1 && out@[k].1.length == done[k].2 by {
                            if k < old_done.len() {
                                assert(done[k] == old_done[k]);
                            }
                        }
                    }
                } else {
                    assert(here =~= Seq::<(Seq<u8>, int, int)>::empty());
                }
            },
        }
        assert(done == old_done + here);
        assert(memory_regions(text@) == done + rest);
        if e >= t_len {
            assert(done + rest =~= done);
            break;
        }
        i = e + 1;
    }
    out
}


/// The value `raw` writes, with `None` also where it does not fit 64 bits.
fn size_value_checked(raw: &[u8]) -> (r: (bool, Option<u64>))
    ensures
        r.0 == size_fits(raw@),
        r.0 ==> r.1 == (match size_value(raw@) {
            Some(v) => Some(v as u64),
            None => None::<u64>,
        }),
{
    let first = trim(raw);
    let mut end: usize = first.len();
    assert(first@.subrange(0, first@.len() as int) == first@);
    while end > 0 && first[end - 1] == 0x2C
        invariant
            end <= first@.len(),
            drop_trailing_commas(first@) == drop_trailing_commas(first@.subrange(0, end as int)),
        decreases end,
    {
        assert(first@.subrange(0, end as int).drop_last() =~= first@.subrange(0, end - 1));
        end = end - 1;
    }
    assert(drop_trailing_commas(first@.subrange(0, end as int)) == first@.subrange(0, end as int));
    let s = trim(&first.as_slice()[0..end]);
    let n = s.len();
    if n >= 2 && s[0] == 0x30 && (s[1] == 0x78 || s[1] == 0x58) {
        return (true, parse_unsigned_exec(&s.as_slice()[2..n], 16));
    }
    if n == 0 {
        return (true, None);
    }
    let last = s[n - 1];
    let (digits_end, multiplier): (usize, u64) = if last == 0x4B || last == 0x6B {
        (n - 1, 1024)
    } else if last == 0x4D || last == 0x6D {
        (n - 1, 1024 * 1024)
    } else {
        (n, 1)
    };
    assert(s@.drop_last() =~= s@.subrange(0, n - 1));
    assert(s@.subrange(0, n as int) == s@);
    let digits = trim(&s.as_slice()[0..digits_end]);
    match parse_unsigned_exec(digits.as_slice(), 10) {
        None => (true, None),
        Some(v) => match v.checked_mul(multiplier) {
            None => (false, None),
            Some(x) => (true, Some(x)),
        },
    }
}

/// Whether every region line of a `memory.x` text writes numbers that fit
/// 64 bits; `parse_memory_regions` reads only such texts.
pub fn memory_text_fits(text: &[u8]) -> (r: bool)
    ensures
        r == lines_fit(text@, 0),
{
    let t_len: usize = text.len();
    let mut i: usize = 0;
    while i < t_len
        invariant
            i <= text@.len(),
            t_len == text@.len(),
            lines_fit(text@, 0) == lines_fit(text@, i as int),
        decreases t_len - i,
    {
        let mut e: usize = i;
        while e < t_len && text[e] != 0x0A
            invariant
                i <= e <= t_len,
                t_len == text@.len(),
                line_end(text@, i as int) == line_end(text@, e as int),
            decreases t_len - e,
        {
            e = e + 1;
        }
        let c: usize = if e > i && e < text.len() && text[e - 1] == 0x0D { e - 1 } else { e };
        let line = &text[i..c];
        if let Some((_, origin, length)) = region_parts_exec(line) {
            let (fits_origin, _) = size_value_checked(origin.as_slice());
            let (fits_length, _) = size_value_checked(length.as_slice());
            if !fits_origin || !fits_length {
                return false;
            }
        }
        if e >= t_len {
            return true;
        }
        i = e + 1;
    }
    true
}

/// The first region named `name`.
pub open spec fn region_named(regions: Seq<(Seq<u8>, Region)>, name: Seq<u8>) -> Option<Region>
    decreases regions.len(),
{
    if regions.len() == 0 {
        None
    } else if regions[0].0 == name {
        Some(regions[0].1)
    } else {
        region_named(regions.drop_first(), name)
    }
}

/// The first region of `regions` called `name`.
pub fn region(regions: &[(Vec<u8>, Region)], name: &[u8]) -> (r: Option<Region>)
    ensures
        r == region_named(regions.deep_view(), name@),
{
    let ghost rv = regions.deep_view();
    let mut i: usize = 0;
    assert(rv.subrange(0, rv.len() as int) == rv);
    while i < regions.len()
        invariant
            0 <= i <= regions@.len(),
            rv == regions.deep_view(),
            region_named(rv, name@) == region_named(rv.subrange(i as int, rv.len() as int), name@),
        decreases regions.len() - i,
    {
        let ghost tail = rv.subrange(i as int, rv.len() as int);
        assert(tail[0] == (regions@[i as int].0@, regions@[i as int].1));
        assert(tail.drop_first() =~= rv.subrange(i + 1, rv.len() as int));
        if eq_bytes(regions[i].0.as_slice(), name) {
            return Some(regions[i].1);
        }
        i = i + 1;
    }
    None
}

/// Under which name the application's partition is reported.
#[derive(Clone, Copy, Debug, PartialEq, Eq, Structural)]
pub enum PartitionName {
    Active,
    Flash,
}

/// How full the application's partition is.
#[derive(Clone, Copy, Debug, PartialEq, Eq, Structural)]
pub struct SizeReport {
    pub name: PartitionName,
    pub capacity: u64,
    /// Whole percent of the partition the image takes.
    pub percent: u64,
    /// Less than a tenth of the partition is left.
    pub near_limit: bool,
}

/// The partition an image of `size` bytes is linked into and how full it
/// is: `ACTIVE`, else `FLASH` (which is `ACTIVE` where a `DFU` exists); `None`
/// where neither region is there.
pub open spec fn size_report(regions: Seq<(Seq<u8>, Region)>, size: u64) -> Option<SizeReport> {
    let partitioned = region_named(regions, "DFU".spec_bytes()) is Some;
    let target = match region_named(regions, "ACTIVE".spec_bytes()) {
        Some(a) => Some((PartitionName::Active, a.length)),
        None => match region_named(regions, "FLASH".spec_bytes()) {
            Some(f) => Some(
                (if partitioned { PartitionName::Active } else { PartitionName::Flash }, f.length),
            ),
            None => None,
        },
    };
    match target {
        None => None,
        Some((name, capacity)) => {
            let percent = size * 100 / (if capacity > 1 { capacity as int } else { 1 });
            Some(SizeReport { name, capacity, percent: percent as u64, near_limit: percent >= 90 })
        },
    }
}

/// How full the application's partition of `memory.x` is with an image of
/// `size` bytes.
pub fn image_size_report(regions: &[(Vec<u8>, Region)], size: u64) -> (r: Option<SizeReport>)
    requires
        size <= u64::MAX / 100,
    ensures
        r == size_report(regions.deep_view(), size),
{
    let partitioned = region(regions, "DFU".as_bytes()).is_some();
    let target = match region(regions, "ACTIVE".as_bytes()) {
        Some(a) => Some((PartitionName::Active, a.length)),
        None => match region(regions, "FLASH".as_bytes()) {
            Some(f) => Some(
                (if partitioned { PartitionName::Active } else { PartitionName::Flash }, f.length),
            ),
            None => None,
        },
    };
    match target {
        None => None,
        Some((name, capacity)) => {
            let divisor = if capacity > 1 { capacity } else { 1 };
            let percent = size * 100 / divisor;
            Some(SizeReport { name, capacity, percent, near_limit: percent >= 90 })
        },
    }
}

/// A hex word as `probe-rs read` prints it, zero where it is none.
pub open spec fn hex_word(w: Seq<u8>) -> u32 {
    match parse_unsigned(w, 16) {
        Some(v) => if v <= u32::MAX { v as u32 } else { 0 },
        None => 0,
    }
}

/// Reads a hex word of `probe-rs read`; zero where it is none.
pub fn parse_hex(word: &[u8]) -> (r: u32)
    ensures
        r == hex_word(word@),
{
    match parse_unsigned_exec(word, 16) {
        Some(v) => if v <= 0xFFFF_FFFF { v as u32 } else { 0 },
        None => 0,
    }
}

/// End of the word of `t` that starts at `a`: the next whitespace, or the
/// end.
pub open spec fn word_end(t: Seq<u8>, a: int) -> int
    decreases t.len() - a,
{
    if a < 0 || a >= t.len() || ws_len_at(t, a) > 0 {
        a
    } else {
        word_end(t, a + 1)
    }
}

/// A word ends no earlier than it starts and within the text.
pub proof fn lemma_word_end(t: Seq<u8>, a: int)
    requires
        0 <= a <= t.len(),
    ensures
        a <= word_end(t, a) <= t.len(),
    decreases t.len() - a,
{
    if a < t.len() && ws_len_at(t, a) == 0 {
        lemma_word_end(t, a + 1);
    }
}

/// The words of `t` from `i` on, as `str::split_whitespace` cuts them.
pub open spec fn words_from(t: Seq<u8>, i: int) -> Seq<Seq<u8>>
    decreases t.len() - i,
{
    if i < 0 || i >= t.len() {
        Seq::empty()
    } else if ws_len_at(t, i) > 0 {
        words_from(t, i + ws_len_at(t, i))
    } else {
        proof {
            lemma_word_end(t, i + 1);
        }
        seq![t.subrange(i, word_end(t, i + 1))] + words_from(t, word_end(t, i + 1))
    }
}

/// The words of `t`.
pub open spec fn words(t: Seq<u8>) -> Seq<Seq<u8>> {
    words_from(t, 0)
}

/// The words of `t`, as byte ranges.
fn word_ranges(t: &[u8]) -> (r: Vec<(usize, usize)>)
    ensures
        r@.len() == words(t@).len(),
        forall|k: int|
            0 <= k < r@.len() ==> (#[trigger] r@[k]).0 <= r@[k].1 <= t@.len() && t@.subrange(
                r@[k].0 as int,
                r@[k].1 as int,
            ) == words(t@)[k],
{
    let n: usize = t.len();
    let mut out: Vec<(usize, usize)> = Vec::new();
    let ghost mut done: Seq<Seq<u8>> = Seq::empty();
    let mut i: usize = 0;
    while i < n
        invariant
            i <= n,
            n == t@.len(),
            words(t@) == done + words_from(t@, i as int),
            out@.len() == done.len(),
            forall|k: int|
                0 <= k < out@.len() ==> (#[trigger] out@[k]).0 <= out@[k].1 <= t@.len()
                    && t@.subrange(out@[k].0 as int, out@[k].1 as int) == done[k],
        decreases n - i,
    {
        let w = ws_len_at_exec(t, i);
        if w > 0 {
            i = i + w;
        } else {
            let mut j: usize = i + 1;
            proof {
                lemma_word_end(t@, i + 1);
            }
            while j < n && ws_len_at_exec(t, j) == 0
                invariant
                    i < j <= n,
                    n == t@.len(),
                    word_end(t@, i + 1) == word_end(t@, j as int),
                decreases n - j,
            {
                j = j + 1;
            }
            out.push((i, j));
            proof {
                let old_done = done;
                done = done.push(t@.subrange(i as int, j as int));
                assert(words_from(t@, i as int) == seq![t@.subrange(i as int, j as int)] + words_from(t@, j as int));
                assert(words(t@) =~= done + words_from(t@, j as int));
                assert forall|k: int| 0 <= k < out@.len() implies (#[trigger] out@[k]).0 <= out@[k].1 <= t@.len() && t@.subrange(out@[k].0 as int, out@[k].1 as int) == done[k] by {
                    if k < old_done.len() {
                        assert(done[k] == old_done[k]);
                    }
                }
            }
            i = j;
        }
    }
    assert(words(t@) =~= done);
    out
}

/// What the magic tells of the panic region's header.
#[derive(Clone, Copy, Debug, PartialEq, Eq, Structural)]
pub enum PanicPlan {
    /// No dump: the first word is not the magic of `panic-persist`.
    NoDump { magic: u32 },
    /// The magic is there but the length does not fit the region.
    Corrupt { length: u32, available: u64 },
    /// The message is `length` bytes from `start`.
    Read { start: u64, length: u32 },
}

/// What `panic-persist` marks a kept dump with.
pub const PANIC_MAGIC: u32 = 0x0FAC_ADE0;

/// The `i`-th word of `header` as a hex word, zero where there is none.
pub open spec fn header_word(header: Seq<u8>, i: int) -> u32 {
    if i < words(header).len() { hex_word(words(header)[i]) } else { 0 }
}

/// What to do with the first two words read from the panic region: the
/// magic and the length of the message behind the eight-byte header.
pub open spec fn panic_plan(panic: Region, header: Seq<u8>) -> PanicPlan {
    let magic = header_word(header, 0);
    let length = header_word(header, 1);
    let available = if panic.length >= 8 { panic.length - 8 } else { 0 };
    if magic != PANIC_MAGIC {
        PanicPlan::NoDump { magic }
    } else if length == 0 || length > available {
        PanicPlan::Corrupt { length, available: available as u64 }
    } else {
        PanicPlan::Read { start: (panic.origin + 8) as u64, length }
    }
}

/// Decides from the header words read from the panic region whether there
/// is a dump and where its message lies.
pub fn panic_dump_plan(panic: Region, header: &[u8]) -> (r: PanicPlan)
    requires
        panic.origin + 8 <= u64::MAX,
    ensures
        r == panic_plan(panic, header@),
{
    let ranges = word_ranges(header);
    let magic = if ranges.len() > 0 {
        let (a, b) = ranges[0];
        parse_hex(&header[a..b])
    } else {
        0
    };
    let length = if ranges.len() > 1 {
        let (a, b) = ranges[1];
        parse_hex(&header[a..b])
    } else {
        0
    };
    let available = panic.length.saturating_sub(8);
    if magic != PANIC_MAGIC {
        PanicPlan::NoDump { magic }
    } else if length == 0 || (length as u64) > available {
        PanicPlan::Corrupt { length, available }
    } else {
        PanicPlan::Read { start: panic.origin + 8, length }
    }
}

/// The bytes of a dump as `probe-rs read b8` prints them: every word as a
/// hex number, cut to its low byte.
pub open spec fn dump_bytes_spec(body: Seq<u8>) -> Seq<u8> {
    Seq::new(words(body).len(), |k: int| (hex_word(words(body)[k]) % 256) as u8)
}

/// Reads the bytes of a dump printed by `probe-rs read b8`.
pub fn dump_bytes(body: &[u8]) -> (r: Vec<u8>)
    ensures
        r@ == dump_bytes_spec(body@),
{
    let ranges = word_ranges(body);
    let mut out: Vec<u8> = Vec::new();
    let mut k: usize = 0;
    while k < ranges.len()
        invariant
            0 <= k <= ranges@.len(),
            ranges@.len() == words(body@).len(),
            forall|m: int|
                0 <= m < ranges@.len() ==> (#[trigger] ranges@[m]).0 <= ranges@[m].1 <= body@.len()
                    && body@.subrange(ranges@[m].0 as int, ranges@[m].1 as int) == words(body@)[m],
            out@ == dump_bytes_spec(body@).subrange(0, k as int),
        decreases ranges.len() - k,
    {
        let (a, b) = ranges[k];
        let v = parse_hex(&body[a..b]);
        out.push((v % 256) as u8);
        k = k + 1;
        assert(out@ =~= dump_bytes_spec(body@).subrange(0, k as int));
    }
    assert(dump_bytes_spec(body@).subrange(0, k as int) =~= dump_bytes_spec(body@));
    out
}

} // verus!

verus! {

proof fn lemma_literals()
    ensures
        "0x".spec_bytes() == seq![0x30u8, 0x78u8],
        "K".spec_bytes() == seq![0x4Bu8],
{
    reveal_strlit("0x");
    reveal_strlit("K");
    vstd::string::is_ascii_spec_bytes("0x");
    vstd::string::is_ascii_spec_bytes("K");
    assert("0x".spec_bytes() =~= seq![0x30u8, 0x78u8]);
    assert("K".spec_bytes() =~= seq![0x4Bu8]);
}


/// A visible ASCII character, no space.
pub open spec fn plain(b: u8) -> bool {
    0x21 <= b <= 0x7E
}

/// `n` spaces.
pub open spec fn spaces(n: nat) -> Seq<u8> {
    Seq::new(n, |i: int| 0x20u8)
}

/// Trimming from `from` skips spaces and stops at a visible character.
proof fn lemma_trim_start_spaces(s: Seq<u8>, from: int, k: int, to: int)
    requires
        0 <= from,
        from + k < to <= s.len(),
        0 <= k,
        forall|p: int| from <= p < from + k ==> s[p] == 0x20u8,
        plain(s[from + k]),
    ensures
        trim_start_at(s, from, to) == from + k,
    decreases k,
{
    let t = s.subrange(0, to);
    assert(t.subrange(from, from + 1) == seq![s[from]]);
    if from + 2 <= to {
        assert(t.subrange(from, from + 2)[0] == s[from]);
    }
    if from + 3 <= to {
        assert(t.subrange(from, from + 3)[0] == s[from]);
    }
    if k > 0 {
        assert(ws_len_at(t, from) == 1);
        lemma_trim_start_spaces(s, from + 1, k - 1, to);
    } else {
        assert(ws_len_at(t, from) == 0);
    }
}

/// Trimming the end before `to` drops spaces and stops after a visible
/// character.
proof fn lemma_trim_end_spaces(s: Seq<u8>, from: int, k: int, to: int)
    requires
        0 <= from < to - k,
        to <= s.len(),
        0 <= k,
        forall|p: int| to - k <= p < to ==> s[p] == 0x20u8,
        plain(s[to - k - 1]),
    ensures
        trim_end_at(s, from, to) == to - k,
    decreases k,
{
    let t = s.subrange(from, s.len() as int);
    let j = to - from;
    assert(t.subrange(j - 1, j) == seq![s[to - 1]]);
    if j - 2 >= 0 {
        assert(t.subrange(j - 2, j)[1] == s[to - 1]);
    }
    if j - 3 >= 0 {
        assert(t.subrange(j - 3, j)[2] == s[to - 1]);
    }
    if k > 0 {
        assert(ws_len_before(t, j) == 1);
        lemma_trim_end_spaces(s, from, k - 1, to - 1);
    } else {
        assert(ws_len_before(t, j) == 0);
    }
}

/// Spaces around a text that starts and ends visibly are trimmed away.
proof fn lemma_trim_spaces(a: nat, x: Seq<u8>, b: nat)
    requires
        x.len() >= 1,
        plain(x[0]),
        plain(x.last()),
    ensures
        trim_seq(spaces(a) + x + spaces(b)) == x,
{
    let s = spaces(a) + x + spaces(b);
    let n = s.len() as int;
    lemma_trim_start_spaces(s, 0, a as int, n);
    lemma_trim_end_spaces(s, a as int, b as int, n);
    assert(s.subrange(a as int, n - b) =~= x);
}

/// A text that starts and ends with a visible ASCII character is its own
/// trimmed text.
proof fn lemma_trim_noop(s: Seq<u8>)
    requires
        s.len() >= 1,
        0x21 <= s[0] <= 0x7E,
        0x21 <= s.last() <= 0x7E,
    ensures
        trim_seq(s) == s,
{
    let n = s.len() as int;
    assert(s.subrange(0, n) == s);
    assert(s.subrange(0, 1) == seq![s[0]]);
    if n >= 2 {
        assert(s.subrange(0, 2)[0] == s[0]);
    }
    if n >= 3 {
        assert(s.subrange(0, 3)[0] == s[0]);
    }
    assert(ws_len_at(s.subrange(0, n), 0) == 0);
    assert(trim_start_at(s, 0, n) == 0);
    assert(s.subrange(n - 1, n) == seq![s.last()]);
    if n >= 2 {
        assert(s.subrange(n - 2, n)[1] == s.last());
    }
    if n >= 3 {
        assert(s.subrange(n - 3, n)[2] == s.last());
    }
    assert(ws_len_before(s.subrange(0, n), n) == 0);
    assert(trim_end_at(s, 0, n) == n);
}

/// Every size the generator writes into a linker script is read back as
/// the same number by the host tools.
#[verifier::spinoff_prover]
pub proof fn lemma_size_text_reads_back(v: u64)
    ensures
        size_value(size_text(v)) == Some(v as int),
{
    lemma_literals();
    let raw = size_text(v);
    if v % 1024 == 0 {
        let m = (v / 1024) as nat;
        lemma_decimal_reads_back(m);
        let d = decimal(m);
        assert(raw == d + seq![0x4Bu8]);
        assert(raw[0] == d[0]);
        assert(raw.last() == 0x4Bu8);
        lemma_trim_noop(raw);
        assert(drop_trailing_commas(raw) == raw);
        if raw.len() >= 2 {
            if d.len() >= 2 {
                assert(raw[1] == d[1]);
            } else {
                assert(raw[1] == 0x4Bu8);
            }
        }
        assert(raw.drop_last() == d);
        lemma_trim_noop(d);
        lemma_parse_digits(d, 10);
        assert(m * 1024 == v) by {
            vstd::arithmetic::div_mod::lemma_fundamental_div_mod(v as int, 1024);
        }
    } else {
        lemma_decimal_reads_back(v as nat);
        let d = decimal(v as nat);
        assert(raw == d);
        lemma_trim_noop(raw);
        assert(drop_trailing_commas(raw) == raw);
        if raw.len() >= 2 {
            assert(0x30 <= raw[1] <= 0x39);
        }
        lemma_parse_digits(d, 10);
    }
}

/// Every address the generator writes into a linker script is read back as
/// the same number by the host tools.
pub proof fn lemma_addr_text_reads_back(v: u64)
    ensures
        size_value(addr_text(v)) == Some(v as int),
{
    lemma_literals();
    lemma_hex_reads_back(v as nat);
    let h = hex(v as nat);
    let padded = pad_left(h, 8, 0x30);
    let z: nat = if h.len() >= 8 { 0 } else { (8 - h.len()) as nat };
    assert(padded == Seq::new(z, |i: int| 0x30u8) + h) by {
        if h.len() >= 8 {
            assert(Seq::new(0, |i: int| 0x30u8) + h =~= h);
        }
    }
    lemma_leading_zeros(z, h, 16);
    let raw = addr_text(v);
    assert(raw == seq![0x30u8, 0x78u8] + padded);
    assert(raw.last() == h.last());
    lemma_trim_noop(raw);
    assert(drop_trailing_commas(raw) == raw);
    assert(raw.subrange(2, raw.len() as int) == padded);
    if z > 0 {
        assert(padded[0] == 0x30u8);
    } else {
        assert(padded[0] == h[0]);
    }
    lemma_parse_digits(padded, 16);
}


/// A number as `{:#x}` writes it: `0x` and lower-case hex digits.
pub open spec fn hex_lower_text(v: u64) -> Seq<u8> {
    "0x".spec_bytes() + crate::pinout::lower(hex(v as nat))
}

/// The environment of the full update cycle test on the board: where the
/// partitions and the top of RAM are, the write size and the erase page
/// size. Empty, so that the test skips itself, without the bootloader
/// scheme (a partition or RAM missing) or without a page size, which a
/// layout written by hand leaves unknown.
pub open spec fn ota_env_of(
    active: Option<Region>,
    dfu: Option<Region>,
    state: Option<Region>,
    ram: Option<Region>,
    write_size: Seq<u8>,
    page_size: Seq<u8>,
) -> Seq<(Seq<u8>, Seq<u8>)> {
    match (active, dfu, state, ram) {
        (Some(a), Some(d), Some(s), Some(m)) => if page_size.len() == 0 {
            Seq::empty()
        } else {
            seq![
                ("HOST_TARGET_ACTIVE_ADDR".spec_bytes(), hex_lower_text(a.origin)),
                ("HOST_TARGET_DFU_ADDR".spec_bytes(), hex_lower_text(d.origin)),
                ("HOST_TARGET_STATE_ADDR".spec_bytes(), hex_lower_text(s.origin)),
                ("HOST_TARGET_STATE_LEN".spec_bytes(), decimal(s.length as nat)),
                ("HOST_TARGET_RAM_END".spec_bytes(), hex_lower_text((m.origin + m.length) as u64)),
                ("HOST_TARGET_WRITE_SIZE".spec_bytes(), write_size),
                ("HOST_TARGET_PAGE_SIZE".spec_bytes(), page_size),
            ]
        },
        _ => Seq::empty(),
    }
}

/// The variables as plain values.
pub open spec fn env_view(vars: Seq<(Vec<u8>, Vec<u8>)>) -> Seq<(Seq<u8>, Seq<u8>)> {
    Seq::new(vars.len(), |i: int| (vars[i].0@, vars[i].1@))
}

fn hex_lower_exec(v: u64) -> (r: Vec<u8>)
    ensures
        r@ == hex_lower_text(v),
{
    let mut digits: Vec<u8> = Vec::new();
    crate::numtext::push_hex(&mut digits, v);
    let mut out: Vec<u8> = Vec::new();
    push_all(&mut out, "0x".as_bytes());
    crate::pinout::push_lower(&mut out, digits.as_slice());
    out
}

fn push_var(vars: &mut Vec<(Vec<u8>, Vec<u8>)>, name: &str, value: Vec<u8>)
    ensures
        env_view(final(vars)@) == env_view(old(vars)@).push((name.spec_bytes(), value@)),
{
    let ghost before = env_view(vars@);
    let ghost vv = value@;
    vars.push((name.as_bytes_vec(), value));
    assert(env_view(vars@) =~= before.push((name.spec_bytes(), vv)));
}

/// The environment of the full update cycle test on the board.
pub fn ota_env(
    active: Option<Region>,
    dfu: Option<Region>,
    state: Option<Region>,
    ram: Option<Region>,
    write_size: &[u8],
    page_size: &[u8],
) -> (r: Vec<(Vec<u8>, Vec<u8>)>)
    requires
        (active is Some && dfu is Some && state is Some && page_size@.len() > 0) ==> (ram matches Some(m)
            ==> m.origin + m.length <= u64::MAX),
    ensures
        env_view(r@) == ota_env_of(active, dfu, state, ram, write_size@, page_size@),
{
    let mut vars: Vec<(Vec<u8>, Vec<u8>)> = Vec::new();
    let (a, d, s, m) = match (active, dfu, state, ram) {
        (Some(a), Some(d), Some(s), Some(m)) => (a, d, s, m),
        _ => {
            assert(env_view(vars@) =~= Seq::<(Seq<u8>, Seq<u8>)>::empty());
            return vars;
        },
    };
    if page_size.len() == 0 {
        assert(env_view(vars@) =~= Seq::<(Seq<u8>, Seq<u8>)>::empty());
        return vars;
    }
    let ghost empty = env_view(vars@);
    assert(empty =~= Seq::<(Seq<u8>, Seq<u8>)>::empty());
    push_var(&mut vars, "HOST_TARGET_ACTIVE_ADDR", hex_lower_exec(a.origin));
    push_var(&mut vars, "HOST_TARGET_DFU_ADDR", hex_lower_exec(d.origin));
    push_var(&mut vars, "HOST_TARGET_STATE_ADDR", hex_lower_exec(s.origin));
    push_var(&mut vars, "HOST_TARGET_STATE_LEN", crate::numtext::decimal_exec(s.length));
    push_var(&mut vars, "HOST_TARGET_RAM_END", hex_lower_exec(m.origin + m.length));
    push_var(&mut vars, "HOST_TARGET_WRITE_SIZE", copy_range(write_size, 0, write_size.len()));
    push_var(&mut vars, "HOST_TARGET_PAGE_SIZE", copy_range(page_size, 0, page_size.len()));
    assert(write_size@.subrange(0, write_size@.len() as int) =~= write_size@);
    assert(page_size@.subrange(0, page_size@.len() as int) =~= page_size@);
    assert(env_view(vars@) =~= ota_env_of(active, dfu, state, ram, write_size@, page_size@));
    vars
}

} // verus!

verus! {

proof fn lemma_region_literals()
    ensures
        "    ".spec_bytes() == spaces(4),
        "(".spec_bytes() == seq![0x28u8],
        ")".spec_bytes() == seq![0x29u8],
        ": ORIGIN = ".spec_bytes() == seq![0x3Au8, 0x20u8, 0x4Fu8, 0x52u8, 0x49u8, 0x47u8, 0x49u8, 0x4Eu8, 0x20u8, 0x3Du8, 0x20u8],
        ", LENGTH = ".spec_bytes() == seq![0x2Cu8, 0x20u8, 0x4Cu8, 0x45u8, 0x4Eu8, 0x47u8, 0x54u8, 0x48u8, 0x20u8, 0x3Du8, 0x20u8],
        "ORIGIN".spec_bytes() == seq![0x4Fu8, 0x52u8, 0x49u8, 0x47u8, 0x49u8, 0x4Eu8],
        "LENGTH".spec_bytes() == seq![0x4Cu8, 0x45u8, 0x4Eu8, 0x47u8, 0x54u8, 0x48u8],
        "/*".spec_bytes() == seq![0x2Fu8, 0x2Au8],
{
    reveal_strlit("    ");
    reveal_strlit("(");
    reveal_strlit(")");
    reveal_strlit(": ORIGIN = ");
    reveal_strlit(", LENGTH = ");
    reveal_strlit("ORIGIN");
    reveal_strlit("LENGTH");
    reveal_strlit("/*");
    vstd::string::is_ascii_spec_bytes("    ");
    vstd::string::is_ascii_spec_bytes("(");
    vstd::string::is_ascii_spec_bytes(")");
    vstd::string::is_ascii_spec_bytes(": ORIGIN = ");
    vstd::string::is_ascii_spec_bytes(", LENGTH = ");
    vstd::string::is_ascii_spec_bytes("ORIGIN");
    vstd::string::is_ascii_spec_bytes("LENGTH");
    vstd::string::is_ascii_spec_bytes("/*");
    assert("    ".spec_bytes() =~= spaces(4));
    assert("(".spec_bytes() =~= seq![0x28u8]);
    assert(")".spec_bytes() =~= seq![0x29u8]);
    assert(": ORIGIN = ".spec_bytes() =~= seq![0x3Au8, 0x20u8, 0x4Fu8, 0x52u8, 0x49u8, 0x47u8, 0x49u8, 0x4Eu8, 0x20u8, 0x3Du8, 0x20u8]);
    assert(", LENGTH = ".spec_bytes() =~= seq![0x2Cu8, 0x20u8, 0x4Cu8, 0x45u8, 0x4Eu8, 0x47u8, 0x54u8, 0x48u8, 0x20u8, 0x3Du8, 0x20u8]);
    assert("ORIGIN".spec_bytes() =~= seq![0x4Fu8, 0x52u8, 0x49u8, 0x47u8, 0x49u8, 0x4Eu8]);
    assert("LENGTH".spec_bytes() =~= seq![0x4Cu8, 0x45u8, 0x4Eu8, 0x47u8, 0x54u8, 0x48u8]);
    assert("/*".spec_bytes() =~= seq![0x2Fu8, 0x2Au8]);
}

/// ASCII text has as many characters as bytes.
proof fn lemma_ascii_char_count(s: Seq<u8>)
    requires
        forall|i: int| 0 <= i < s.len() ==> #[trigger] s[i] < 0x80,
    ensures
        crate::memtext::char_count(s) == s.len(),
    decreases s.len(),
{
    if s.len() > 0 {
        lemma_ascii_char_count(s.drop_last());
    }
}

/// The bytes of an address as the generator writes it: `0x`, then upper-case
/// hex digits.
proof fn lemma_addr_bytes(v: u64)
    ensures
        addr_text(v).len() >= 3,
        addr_text(v)[0] == 0x30u8,
        addr_text(v)[1] == 0x78u8,
        forall|i: int| 2 <= i < addr_text(v).len() ==> (0x30 <= #[trigger] addr_text(v)[i] <= 0x39
            || 0x41 <= addr_text(v)[i] <= 0x46),
{
    lemma_literals();
    lemma_hex_reads_back(v as nat);
    let h = hex(v as nat);
    let padded = pad_left(h, 8, 0x30);
    assert(addr_text(v) == seq![0x30u8, 0x78u8] + padded);
    assert forall|i: int| 0 <= i < padded.len() implies (0x30 <= #[trigger] padded[i] <= 0x39 || 0x41
        <= padded[i] <= 0x46) by {
        if h.len() < 8 {
            let z = (8 - h.len()) as nat;
            if i >= z {
                assert(padded[i] == h[i - z]);
            }
        }
    }
}

/// The bytes of a size as the generator writes it: decimal digits, then
/// possibly `K`.
proof fn lemma_size_bytes(v: u64)
    ensures
        size_text(v).len() >= 1,
        0x30 <= size_text(v)[0] <= 0x39,
        plain(size_text(v).last()),
        forall|i: int| 0 <= i < size_text(v).len() ==> (0x30 <= #[trigger] size_text(v)[i] <= 0x39
            || size_text(v)[i] == 0x4Bu8),
{
    lemma_literals();
    if v % 1024 == 0 {
        lemma_decimal_reads_back((v / 1024) as nat);
        let d = decimal((v / 1024) as nat);
        assert(size_text(v) == d + seq![0x4Bu8]);
        assert(size_text(v)[0] == d[0]);
    } else {
        lemma_decimal_reads_back(v as nat);
    }
}

/// The names a `MEMORY { }` line can read back: upper-case letters, digits
/// and underscores.
pub open spec fn region_name_ok(name: Seq<u8>) -> bool {
    &&& name.len() >= 1
    &&& forall|i: int| 0 <= i < name.len() ==> (0x41 <= #[trigger] name[i] <= 0x5A || 0x30 <= name[i]
        <= 0x39 || name[i] == 0x5F)
}

/// The attributes a `MEMORY { }` line can read back: lower-case letters.
pub open spec fn region_attrs_ok(attrs: Seq<u8>) -> bool {
    forall|i: int| 0 <= i < attrs.len() ==> 0x61 <= #[trigger] attrs[i] <= 0x7A
}

/// What `drop_space_eq` does to ` = ` before a text that starts otherwise.
proof fn lemma_drop_assign(y: Seq<u8>)
    requires
        y.len() >= 1,
        y[0] != 0x20u8,
        y[0] != 0x3Du8,
    ensures
        drop_space_eq(seq![0x20u8, 0x3Du8, 0x20u8] + y) == y,
{
    let s = seq![0x20u8, 0x3Du8, 0x20u8] + y;
    let s1 = seq![0x3Du8, 0x20u8] + y;
    let s2 = seq![0x20u8] + y;
    assert(s.drop_first() =~= s1);
    assert(s1.drop_first() =~= s2);
    assert(s2.drop_first() =~= y);
    assert(drop_space_eq(y) == y);
    assert(drop_space_eq(s2) == drop_space_eq(y));
    assert(drop_space_eq(s1) == drop_space_eq(s2));
    assert(drop_space_eq(s) == drop_space_eq(s1));
}

/// `region_parts` of a line, from where its keys are found.
proof fn lemma_parts_from_finds(line: Seq<u8>, l: Seq<u8>, open_at: int, q: int, o: int)
    requires
        trim_seq(line) == l,
        !starts_with(l, seq![0x2Fu8, 0x2Au8]),
        contains_seq(l, seq![0x4Fu8, 0x52u8, 0x49u8, 0x47u8, 0x49u8, 0x4Eu8]),
        contains_seq(l, seq![0x4Cu8, 0x45u8, 0x4Eu8, 0x47u8, 0x54u8, 0x48u8]),
        find_from(l, 0, seq![0x28u8]) == Some(open_at),
        0 <= open_at < l.len(),
        find_from(l.subrange(open_at + 1, l.len() as int), 0, seq![0x4Cu8, 0x45u8, 0x4Eu8, 0x47u8, 0x54u8, 0x48u8]) == Some(q),
        0 <= q,
        q + 6 <= l.len() - open_at - 1,
        find_from(
            l.subrange(open_at + 1, l.len() as int).subrange(0, q),
            0,
            seq![0x4Fu8, 0x52u8, 0x49u8, 0x47u8, 0x49u8, 0x4Eu8],
        ) == Some(o),
        0 <= o,
        o + 6 <= q,
    ensures
        ({
            let rest = l.subrange(open_at + 1, l.len() as int);
            let origin_part = rest.subrange(0, q);
            region_parts(line) == Some(
                (
                    l.subrange(0, open_at),
                    trim_seq(drop_space_eq(origin_part.subrange(o + 6, origin_part.len() as int))),
                    trim_seq(drop_space_eq(rest.subrange(q + 6, rest.len() as int))),
                ),
            )
        }),
{
    lemma_region_literals();
}

/// The name column of a `MEMORY { }` line.
pub open spec fn name_column(name: Seq<u8>) -> Seq<u8> {
    name + spaces(if name.len() >= 18 { 0 } else { (18 - name.len()) as nat })
}

/// The attributes in brackets, in their column.
pub open spec fn attrs_column(attrs: Seq<u8>) -> Seq<u8> {
    let bracket = seq![0x28u8] + attrs + seq![0x29u8];
    bracket + spaces(if bracket.len() >= 6 { 0 } else { (6 - bracket.len()) as nat })
}

pub open spec fn origin_sep() -> Seq<u8> {
    seq![0x3Au8, 0x20u8, 0x4Fu8, 0x52u8, 0x49u8, 0x47u8, 0x49u8, 0x4Eu8, 0x20u8, 0x3Du8, 0x20u8]
}

pub open spec fn length_sep() -> Seq<u8> {
    seq![0x2Cu8, 0x20u8, 0x4Cu8, 0x45u8, 0x4Eu8, 0x47u8, 0x54u8, 0x48u8, 0x20u8, 0x3Du8, 0x20u8]
}

/// What follows the opening bracket of a region line.
pub open spec fn after_bracket(attrs: Seq<u8>, origin: u64, length: u64) -> Seq<u8> {
    let bracket_len = attrs.len() + 2;
    attrs + seq![0x29u8] + spaces(if bracket_len >= 6 { 0 } else { (6 - bracket_len) as nat })
        + origin_sep() + addr_text(origin) + length_sep() + size_text(length)
}

/// A region line without its indentation.
pub open spec fn line_body(name: Seq<u8>, attrs: Seq<u8>, origin: u64, length: u64) -> Seq<u8> {
    name_column(name) + attrs_column(attrs) + origin_sep() + addr_text(origin) + length_sep()
        + size_text(length)
}

proof fn lemma_line_trims(name: Seq<u8>, attrs: Seq<u8>, origin: u64, length: u64)
    requires
        region_name_ok(name),
        region_attrs_ok(attrs),
    ensures
        trim_seq(region_line_text(name, attrs, origin, length)) == line_body(name, attrs, origin, length),
        line_body(name, attrs, origin, length) == name_column(name) + seq![0x28u8] + after_bracket(
            attrs,
            origin,
            length,
        ),
{
    lemma_region_literals();
    lemma_size_bytes(length);
    lemma_ascii_char_count(name);
    let bracket = seq![0x28u8] + attrs + seq![0x29u8];
    assert forall|i: int| 0 <= i < bracket.len() implies #[trigger] bracket[i] < 0x80 by {
        if 0 < i < bracket.len() - 1 {
            assert(bracket[i] == attrs[i - 1]);
        }
    }
    lemma_ascii_char_count(bracket);
    assert(pad_chars(name, 18) =~= name_column(name));
    assert(pad_chars(bracket, 6) =~= attrs_column(attrs));
    let x = line_body(name, attrs, origin, length);
    let z = size_text(length);
    assert(region_line_text(name, attrs, origin, length) =~= spaces(4) + x + spaces(0));
    assert(x[0] == name[0]);
    assert(x.last() == z.last());
    lemma_trim_spaces(4, x, 0);
    assert(x =~= name_column(name) + seq![0x28u8] + after_bracket(attrs, origin, length));
}

proof fn lemma_bracket_found(name: Seq<u8>, attrs: Seq<u8>, origin: u64, length: u64)
    requires
        region_name_ok(name),
    ensures
        find_from(line_body(name, attrs, origin, length), 0, seq![0x28u8]) == Some(
            name_column(name).len() as int,
        ),
        line_body(name, attrs, origin, length) == name_column(name) + seq![0x28u8] + after_bracket(
            attrs,
            origin,
            length,
        ) ==> line_body(name, attrs, origin, length).subrange(
            name_column(name).len() + 1int,
            line_body(name, attrs, origin, length).len() as int,
        ) == after_bracket(attrs, origin, length),
{
    let l = line_body(name, attrs, origin, length);
    let open_at = name_column(name).len() as int;
    assert forall|p: int| 0 <= p < open_at && p < l.len() implies l[p] != 0x28u8 by {
        assert(l[p] == name_column(name)[p]);
        if p < name.len() {
            assert(name_column(name)[p] == name[p]);
        }
    }
    crate::bytes::lemma_find_skips(l, 0, open_at, seq![0x28u8]);
    assert(l[open_at] == 0x28u8);
    assert(l.subrange(open_at, open_at + 1) =~= seq![0x28u8]);
    crate::bytes::lemma_found_at(l, open_at, seq![0x28u8]);
    if l == name_column(name) + seq![0x28u8] + after_bracket(attrs, origin, length) {
        assert(l.subrange(open_at + 1, l.len() as int) =~= after_bracket(attrs, origin, length));
    }
}

proof fn lemma_keys_found(attrs: Seq<u8>, origin: u64, length: u64)
    requires
        region_attrs_ok(attrs),
    ensures
        ({
            let rest = after_bracket(attrs, origin, length);
            let n2: int = if attrs.len() + 2 >= 6 { 0 } else { 6 - (attrs.len() + 2) };
            let q = attrs.len() + 1 + n2 + 11 + addr_text(origin).len() + 2;
            let o = attrs.len() + 1 + n2 + 2;
            &&& find_from(rest, 0, seq![0x4Cu8, 0x45u8, 0x4Eu8, 0x47u8, 0x54u8, 0x48u8]) == Some(q)
            &&& q + 6 <= rest.len()
            &&& find_from(rest.subrange(0, q), 0, seq![0x4Fu8, 0x52u8, 0x49u8, 0x47u8, 0x49u8, 0x4Eu8]) == Some(o)
            &&& o + 6 <= q
            &&& rest.subrange(0, q).subrange(o + 6, q) == seq![0x20u8, 0x3Du8, 0x20u8] + (addr_text(origin)
                + seq![0x2Cu8] + seq![0x20u8])
            &&& rest.subrange(q + 6, rest.len() as int) == seq![0x20u8, 0x3Du8, 0x20u8] + size_text(length)
            &&& rest.subrange(q, q + 6) == seq![0x4Cu8, 0x45u8, 0x4Eu8, 0x47u8, 0x54u8, 0x48u8]
            &&& rest.subrange(0, q).subrange(o, o + 6) == seq![0x4Fu8, 0x52u8, 0x49u8, 0x47u8, 0x49u8, 0x4Eu8]
        }),
{
    lemma_addr_bytes(origin);
    let h = addr_text(origin);
    let z = size_text(length);
    let rest = after_bracket(attrs, origin, length);
    let n2: int = if attrs.len() + 2 >= 6 { 0 } else { 6 - (attrs.len() + 2) };
    let a = attrs.len() as int;
    let c1 = origin_sep();
    let c2 = length_sep();
    let q = a + 1 + n2 + 11 + h.len() + 2;
    let o = a + 1 + n2 + 2;
    assert(rest =~= attrs + seq![0x29u8] + spaces(n2 as nat) + c1 + h + c2 + z);
    let length_key = seq![0x4Cu8, 0x45u8, 0x4Eu8, 0x47u8, 0x54u8, 0x48u8];
    assert forall|p: int| 0 <= p < q && p < rest.len() implies rest[p] != length_key[0] by {
        if p < a {
            assert(rest[p] == attrs[p]);
        } else if p < a + 1 + n2 {
        } else if p < a + 1 + n2 + 11 {
            assert(rest[p] == c1[p - a - 1 - n2]);
        } else if p < a + 1 + n2 + 11 + h.len() {
            assert(rest[p] == h[p - a - 1 - n2 - 11]);
        } else {
            assert(rest[p] == c2[p - a - 1 - n2 - 11 - h.len()]);
        }
    }
    crate::bytes::lemma_find_skips(rest, 0, q, length_key);
    assert(rest.subrange(q, q + 6) =~= length_key);
    crate::bytes::lemma_found_at(rest, q, length_key);
    let origin_part = rest.subrange(0, q);
    let origin_key = seq![0x4Fu8, 0x52u8, 0x49u8, 0x47u8, 0x49u8, 0x4Eu8];
    assert forall|p: int| 0 <= p < o && p < origin_part.len() implies origin_part[p] != origin_key[0] by {
        if p < a {
            assert(origin_part[p] == attrs[p]);
        } else if p < a + 1 + n2 {
        } else {
            assert(origin_part[p] == c1[p - a - 1 - n2]);
        }
    }
    crate::bytes::lemma_find_skips(origin_part, 0, o, origin_key);
    assert(origin_part.subrange(o, o + 6) =~= origin_key);
    crate::bytes::lemma_found_at(origin_part, o, origin_key);
    assert(origin_part.subrange(o + 6, q) =~= seq![0x20u8, 0x3Du8, 0x20u8] + (h + seq![0x2Cu8] + seq![0x20u8]));
    assert(rest.subrange(q + 6, rest.len() as int) =~= seq![0x20u8, 0x3Du8, 0x20u8] + z);
}

/// A line that the generator writes for a region reads back as that region:
/// its name, its origin and its length, for names of upper-case letters,
/// digits and underscores and attributes of lower-case letters.
#[verifier::spinoff_prover]
#[verifier::rlimit(100)]
pub proof fn lemma_region_line_reads_back(name: Seq<u8>, attrs: Seq<u8>, origin: u64, length: u64)
    requires
        region_name_ok(name),
        region_attrs_ok(attrs),
    ensures
        region_of_line(region_line_text(name, attrs, origin, length)) == Some(
            (name, origin as int, length as int),
        ),
{
    let line = region_line_text(name, attrs, origin, length);
    let l = line_body(name, attrs, origin, length);
    let h = addr_text(origin);
    let z = size_text(length);
    lemma_line_trims(name, attrs, origin, length);
    lemma_bracket_found(name, attrs, origin, length);
    lemma_keys_found(attrs, origin, length);
    lemma_addr_bytes(origin);
    lemma_size_bytes(length);
    let open_at = name_column(name).len() as int;
    let rest = after_bracket(attrs, origin, length);
    let n2: int = if attrs.len() + 2 >= 6 { 0 } else { 6 - (attrs.len() + 2) };
    let q = attrs.len() + 1 + n2 + 11 + h.len() + 2;
    let o = attrs.len() + 1 + n2 + 2;
    assert(l.subrange(open_at + 1, l.len() as int) == rest);
    // not a comment, and both keys are there
    assert(!starts_with(l, seq![0x2Fu8, 0x2Au8])) by {
        if starts_with(l, seq![0x2Fu8, 0x2Au8]) {
            assert(l.subrange(0, 2)[0] == l[0]);
            assert(l[0] == name[0]);
        }
    }
    let origin_key = seq![0x4Fu8, 0x52u8, 0x49u8, 0x47u8, 0x49u8, 0x4Eu8];
    let length_key = seq![0x4Cu8, 0x45u8, 0x4Eu8, 0x47u8, 0x54u8, 0x48u8];
    assert(l.subrange(open_at + 1 + o, open_at + 1 + o + 6) =~= rest.subrange(0, q).subrange(o, o + 6));
    assert(l.subrange(open_at + 1 + q, open_at + 1 + q + 6) =~= rest.subrange(q, q + 6));
    crate::bytes::lemma_found_where_it_stands(l, 0, open_at + 1 + o, origin_key);
    crate::bytes::lemma_found_where_it_stands(l, 0, open_at + 1 + q, length_key);
    lemma_parts_from_finds(line, l, open_at, q, o);
    // the three texts
    let hc = h + seq![0x2Cu8];
    lemma_drop_assign(hc + seq![0x20u8]);
    assert(hc + seq![0x20u8] =~= spaces(0) + hc + spaces(1));
    lemma_trim_spaces(0, hc, 1);
    lemma_drop_assign(z);
    lemma_trim_noop(z);
    let n1: nat = if name.len() >= 18 { 0 } else { (18 - name.len()) as nat };
    assert(name_column(name) =~= spaces(0) + name + spaces(n1));
    assert(name.last() == name[name.len() - 1]);
    lemma_trim_spaces(0, name, n1);
    assert(l.subrange(0, open_at) =~= name_column(name));
    assert(region_parts(line) == Some((name_column(name), hc, z)));
    // the numbers
    lemma_size_text_reads_back(length);
    lemma_addr_text_reads_back(origin);
    lemma_trim_noop(hc);
    assert(hc.drop_last() =~= h);
    assert(drop_trailing_commas(hc) == drop_trailing_commas(h));
    lemma_trim_noop(h);
    assert(drop_trailing_commas(h) == h);
    assert(size_value(hc) == size_value(h));
}

/// Lines joined into a text, each ended by a line feed.
pub open spec fn lines_text(lines: Seq<Seq<u8>>) -> Seq<u8>
    decreases lines.len(),
{
    if lines.len() == 0 {
        Seq::empty()
    } else {
        lines[0] + seq![0x0Au8] + lines_text(lines.drop_first())
    }
}

/// The regions that `lines` declare, line by line, in order.
pub open spec fn regions_of_lines(lines: Seq<Seq<u8>>) -> Seq<(Seq<u8>, int, int)>
    decreases lines.len(),
{
    if lines.len() == 0 {
        Seq::empty()
    } else {
        (match region_of_line(lines[0]) {
            None => Seq::empty(),
            Some(r) => seq![r],
        }) + regions_of_lines(lines.drop_first())
    }
}

/// Whether `line` can stand as one line of a text: no line feed in it, and
/// no carriage return at its end.
pub open spec fn single_line(line: Seq<u8>) -> bool {
    &&& forall|k: int| 0 <= k < line.len() ==> #[trigger] line[k] != 0x0Au8
    &&& line.len() > 0 ==> line.last() != 0x0Du8
}

proof fn lemma_line_end_shift(a: Seq<u8>, b: Seq<u8>, i: int)
    requires
        0 <= i,
    ensures
        line_end(a + b, a.len() + i) == a.len() + line_end(b, i),
    decreases b.len() - i,
{
    if i < b.len() {
        assert((a + b)[a.len() + i] == b[i]);
        if b[i] != 0x0Au8 {
            lemma_line_end_shift(a, b, i + 1);
        }
    }
}

proof fn lemma_line_end_bounds(t: Seq<u8>, i: int)
    requires
        0 <= i,
    ensures
        i <= line_end(t, i),
        i < t.len() ==> line_end(t, i) <= t.len(),
        line_end(t, i) < t.len() ==> t[line_end(t, i)] == 0x0Au8,
    decreases t.len() - i,
{
    if i < t.len() && t[i] != 0x0Au8 {
        lemma_line_end_bounds(t, i + 1);
    }
}

/// The regions of a text from a line start on do not depend on what stands
/// before it.
proof fn lemma_regions_shift(a: Seq<u8>, b: Seq<u8>, i: int)
    requires
        0 <= i,
    ensures
        regions_from(a + b, a.len() + i) == regions_from(b, i),
    decreases b.len() - i,
{
    if i < b.len() {
        let s = a + b;
        let k = a.len() as int;
        lemma_line_end_shift(a, b, i);
        lemma_line_end_bounds(b, i);
        let e = line_end(b, i);
        if e > i && e < b.len() {
            assert(s[k + e - 1] == b[e - 1]);
        }
        assert(content_end(s, k + i, k + e) == k + content_end(b, i, e));
        assert(s.subrange(k + i, k + content_end(b, i, e)) =~= b.subrange(i, content_end(b, i, e)));
        if e < b.len() {
            lemma_regions_shift(a, b, e + 1);
        }
    }
}

/// The line at the start of a text of lines is its first line.
proof fn lemma_first_line(lines: Seq<Seq<u8>>)
    requires
        lines.len() > 0,
        single_line(lines[0]),
    ensures
        line_end(lines_text(lines), 0) == lines[0].len(),
        content_end(lines_text(lines), 0, lines[0].len() as int) == lines[0].len(),
        lines_text(lines).subrange(0, lines[0].len() as int) == lines[0],
        lines_text(lines) == (lines[0] + seq![0x0Au8]) + lines_text(lines.drop_first()),
{
    let t = lines_text(lines);
    let first = lines[0];
    assert(t =~= (first + seq![0x0Au8]) + lines_text(lines.drop_first()));
    assert forall|k: int| 0 <= k < first.len() implies t[k] != 0x0Au8 by {
        assert(t[k] == first[k]);
    }
    assert(t[first.len() as int] == 0x0Au8);
    lemma_line_end_upto(t, 0, first.len() as int);
    if first.len() > 0 {
        assert(t[first.len() - 1] == first.last());
    }
    assert(t.subrange(0, first.len() as int) =~= first);
}

proof fn lemma_line_end_upto(t: Seq<u8>, i: int, e: int)
    requires
        0 <= i <= e < t.len(),
        forall|k: int| i <= k < e ==> t[k] != 0x0Au8,
        t[e] == 0x0Au8,
    ensures
        line_end(t, i) == e,
    decreases e - i,
{
    if i < e {
        lemma_line_end_upto(t, i + 1, e);
    }
}

/// A text of lines reads as the regions its lines declare, in order: every
/// line is read on its own, whatever stands around it.
pub proof fn lemma_lines_read_one_by_one(lines: Seq<Seq<u8>>)
    requires
        forall|k: int| 0 <= k < lines.len() ==> single_line(#[trigger] lines[k]),
    ensures
        memory_regions(lines_text(lines)) == regions_of_lines(lines),
    decreases lines.len(),
{
    if lines.len() > 0 {
        let t = lines_text(lines);
        let first = lines[0];
        assert(single_line(lines[0]));
        lemma_first_line(lines);
        let rest = lines.drop_first();
        assert forall|k: int| 0 <= k < rest.len() implies single_line(#[trigger] rest[k]) by {
            assert(rest[k] == lines[k + 1]);
        }
        lemma_lines_read_one_by_one(rest);
        lemma_regions_shift(first + seq![0x0Au8], lines_text(rest), 0);
        assert(t.len() > first.len());
    }
}

/// A `memory.x` whose region lines the generator wrote reads back as those
/// regions, in order: each region line gives its name, origin and length,
/// and the lines that declare no region (comments, `MEMORY {`, `}`) give
/// none.
pub proof fn lemma_memory_x_reads_back(lines: Seq<Seq<u8>>)
    requires
        forall|k: int| 0 <= k < lines.len() ==> single_line(#[trigger] lines[k]),
    ensures
        memory_regions(lines_text(lines)) == regions_of_lines(lines),
        forall|name: Seq<u8>, attrs: Seq<u8>, origin: u64, length: u64|
            region_name_ok(name) && region_attrs_ok(attrs) ==> #[trigger] region_of_line(
                region_line_text(name, attrs, origin, length),
            ) == Some((name, origin as int, length as int)),
{
    lemma_lines_read_one_by_one(lines);
    assert forall|name: Seq<u8>, attrs: Seq<u8>, origin: u64, length: u64|
        region_name_ok(name) && region_attrs_ok(attrs) implies #[trigger] region_of_line(
            region_line_text(name, attrs, origin, length),
        ) == Some((name, origin as int, length as int)) by {
        lemma_region_line_reads_back(name, attrs, origin, length);
    }
}

} // verus!
