//! The raw image of a firmware: its loadable segments laid out from the lowest
//! address on, the gaps filled with erased flash.

use vstd::prelude::*;
use crate::bytes::copy_range;

verus! {

/// Erased NOR flash: what fills the gaps between segments, so that the hash
/// of the image matches the hash of the partition on the device.
pub const ERASED_FLASH: u8 = 0xFF;

/// Why segments do not make an image.
#[derive(Clone, Copy, Debug, PartialEq, Eq)]
pub enum ImageError {
    /// There is no loadable segment at all.
    NoSegments,
    /// Two segments describe the byte at this address.
    Overlap { address: u64 },
}

/// The segments as address and bytes.
pub open spec fn seg_views(segments: Seq<(u64, Vec<u8>)>) -> Seq<(u64, Seq<u8>)> {
    Seq::new(segments.len(), |k: int| (segments[k].0, segments[k].1@))
}

/// Whether segment `s` holds the byte at `a`.
pub open spec fn covers(s: (u64, Seq<u8>), a: int) -> bool {
    s.0 <= a < s.0 + s.1.len()
}

/// Whether one of the first `n` segments holds the byte at `a`.
pub open spec fn covered_by_prefix(segs: Seq<(u64, Seq<u8>)>, n: int, a: int) -> bool {
    exists|k: int| 0 <= k < n && covers(#[trigger] segs[k], a)
}

/// The byte at `a` of the first of the first `n` segments that holds it.
pub open spec fn value_from_prefix(segs: Seq<(u64, Seq<u8>)>, n: int, a: int) -> u8
    decreases n,
{
    if n <= 0 {
        ERASED_FLASH
    } else if covered_by_prefix(segs, n - 1, a) {
        value_from_prefix(segs, n - 1, a)
    } else if covers(segs[n - 1], a) {
        segs[n - 1].1[a - segs[n - 1].0]
    } else {
        ERASED_FLASH
    }
}

/// First byte, from the `j`-th on, of segment `i` that an earlier segment
/// already holds.
pub open spec fn first_covered_byte(segs: Seq<(u64, Seq<u8>)>, i: int, j: int) -> Option<int>
    decreases segs[i].1.len() - j,
{
    if j < 0 || j >= segs[i].1.len() {
        None
    } else if covered_by_prefix(segs, i, segs[i].0 + j) {
        Some(segs[i].0 + j)
    } else {
        first_covered_byte(segs, i, j + 1)
    }
}

/// Address of the first overlap, from segment `i` on.
pub open spec fn overlap_from(segs: Seq<(u64, Seq<u8>)>, i: int) -> Option<int>
    decreases segs.len() - i,
{
    if i < 0 || i >= segs.len() {
        None
    } else {
        match first_covered_byte(segs, i, 0) {
            Some(a) => Some(a),
            None => overlap_from(segs, i + 1),
        }
    }
}

/// Lowest address among the first `n` segments.
pub open spec fn min_address(segs: Seq<(u64, Seq<u8>)>, n: int) -> int
    decreases n,
{
    if n <= 1 {
        segs[0].0 as int
    } else {
        let rest = min_address(segs, n - 1);
        if segs[n - 1].0 < rest { segs[n - 1].0 as int } else { rest }
    }
}

/// Highest end among the first `n` segments, and at least `floor`.
pub open spec fn max_end(segs: Seq<(u64, Seq<u8>)>, n: int, floor: int) -> int
    decreases n,
{
    if n <= 0 {
        floor
    } else {
        let rest = max_end(segs, n - 1, floor);
        let end = segs[n - 1].0 + segs[n - 1].1.len();
        if end > rest { end } else { rest }
    }
}

/// The image of non-overlapping segments.
pub open spec fn image_of(segs: Seq<(u64, Seq<u8>)>) -> Seq<u8> {
    let base = min_address(segs, segs.len() as int);
    let end = max_end(segs, segs.len() as int, base);
    Seq::new(
        (end - base) as nat,
        |p: int|
            if covered_by_prefix(segs, segs.len() as int, base + p) {
                value_from_prefix(segs, segs.len() as int, base + p)
            } else {
                ERASED_FLASH
            },
    )
}

proof fn lemma_prefix_step(segs: Seq<(u64, Seq<u8>)>, n: int, a: int)
    requires
        0 <= n < segs.len(),
    ensures
        covered_by_prefix(segs, n + 1, a) == (covered_by_prefix(segs, n, a) || covers(segs[n], a)),
{
    if covers(segs[n], a) {
        assert(covered_by_prefix(segs, n + 1, a));
    }
    if covered_by_prefix(segs, n, a) {
        let k = choose|k: int| 0 <= k < n && covers(#[trigger] segs[k], a);
        assert(0 <= k < n + 1 && covers(segs[k], a));
    }
}

proof fn lemma_no_covered_byte(segs: Seq<(u64, Seq<u8>)>, i: int, j: int, m: int)
    requires
        0 <= i < segs.len(),
        0 <= j <= m < segs[i].1.len(),
        first_covered_byte(segs, i, j) is None,
    ensures
        !covered_by_prefix(segs, i, segs[i].0 + m),
    decreases m - j,
{
    if j < m {
        lemma_no_covered_byte(segs, i, j + 1, m);
    }
}

proof fn lemma_no_overlap_segment(segs: Seq<(u64, Seq<u8>)>, i: int, k: int)
    requires
        0 <= i <= k < segs.len(),
        overlap_from(segs, i) is None,
    ensures
        first_covered_byte(segs, k, 0) is None,
    decreases k - i,
{
    if i < k {
        lemma_no_overlap_segment(segs, i + 1, k);
    }
}

/// A byte of a segment is the byte of the image when nothing overlaps.
proof fn lemma_value_of_segment(segs: Seq<(u64, Seq<u8>)>, k: int, j: int)
    requires
        overlap_from(segs, 0) is None,
        0 <= k < segs.len(),
        0 <= j < segs[k].1.len(),
    ensures
        covered_by_prefix(segs, segs.len() as int, segs[k].0 + j),
        value_from_prefix(segs, segs.len() as int, segs[k].0 + j) == segs[k].1[j],
{
    let a = segs[k].0 + j;
    lemma_no_overlap_segment(segs, 0, k);
    lemma_no_covered_byte(segs, k, 0, j);
    lemma_value_stable(segs, k, a);
    assert(covers(segs[k], a));
    assert(covered_by_prefix(segs, segs.len() as int, a));
}

/// The first segment holding `a` is `k` when none before it does.
proof fn lemma_value_stable(segs: Seq<(u64, Seq<u8>)>, k: int, a: int)
    requires
        0 <= k < segs.len(),
        covers(segs[k], a),
        !covered_by_prefix(segs, k, a),
    ensures
        forall|n: int|
            k < n <= segs.len() ==> #[trigger] value_from_prefix(segs, n, a) == segs[k].1[a
                - segs[k].0],
    decreases segs.len() - k,
{
    assert forall|n: int| k < n <= segs.len() implies #[trigger] value_from_prefix(segs, n, a)
        == segs[k].1[a - segs[k].0] by {
        lemma_value_upto(segs, k, a, n);
    }
}

proof fn lemma_value_upto(segs: Seq<(u64, Seq<u8>)>, k: int, a: int, n: int)
    requires
        0 <= k < n <= segs.len(),
        covers(segs[k], a),
        !covered_by_prefix(segs, k, a),
    ensures
        value_from_prefix(segs, n, a) == segs[k].1[a - segs[k].0],
    decreases n,
{
    if n == k + 1 {
    } else {
        lemma_value_upto(segs, k, a, n - 1);
        assert(0 <= k < n - 1 && covers(segs[k], a));
        assert(covered_by_prefix(segs, n - 1, a));
    }
}

proof fn lemma_min_max(segs: Seq<(u64, Seq<u8>)>, n: int, floor: int)
    requires
        1 <= n <= segs.len(),
    ensures
        forall|k: int| 0 <= k < n ==> min_address(segs, n) <= #[trigger] segs[k].0,
        forall|k: int| 0 <= k < n ==> #[trigger] segs[k].0 + segs[k].1.len() <= max_end(segs, n, floor),
        max_end(segs, n, floor) >= floor,
        exists|k: int| 0 <= k < n && min_address(segs, n) == #[trigger] segs[k].0,
    decreases n,
{
    if n > 1 {
        lemma_min_max(segs, n - 1, floor);
        let k = choose|k: int| 0 <= k < n - 1 && min_address(segs, n - 1) == #[trigger] segs[k].0;
        if segs[n - 1].0 < min_address(segs, n - 1) {
            assert(min_address(segs, n) == segs[n - 1].0);
        } else {
            assert(min_address(segs, n) == segs[k].0);
        }
    } else {
        assert(min_address(segs, n) == segs[0].0);
        assert(max_end(segs, 0, floor) == floor);
    }
}

/// Whether the segments can be laid out: every segment ends within 64 bits,
/// and the image spans no more than memory can hold.
pub open spec fn segments_fit(segs: Seq<(u64, Seq<u8>)>) -> bool {
    &&& forall|k: int| 0 <= k < segs.len() ==> #[trigger] segs[k].0 + segs[k].1.len() <= u64::MAX
    &&& segs.len() > 0 ==> max_end(segs, segs.len() as int, min_address(segs, segs.len() as int))
        - min_address(segs, segs.len() as int) <= usize::MAX
}

/// What laying `segs` out gives: no segment at all, the first overlap, or
/// the image.
pub open spec fn layout_outcome(segs: Seq<(u64, Seq<u8>)>, r: Result<Vec<u8>, ImageError>) -> bool {
    if segs.len() == 0 {
        r == Err::<Vec<u8>, ImageError>(ImageError::NoSegments)
    } else {
        match overlap_from(segs, 0) {
            Some(a) => r == Err::<Vec<u8>, ImageError>(ImageError::Overlap { address: a as u64 }),
            None => r matches Ok(image) && image@ == image_of(segs),
        }
    }
}

/// Every byte of every segment stands in `image` at its address from `base`.
pub open spec fn keeps_segments(segs: Seq<(u64, Seq<u8>)>, image: Seq<u8>, base: int) -> bool {
    forall|k: int, j: int|
        0 <= k < segs.len() && 0 <= j < segs[k].1.len() ==> image[segs[k].0 + j - base]
            == #[trigger] segs[k].1[j]
}

/// Lays the segments out in one image from the lowest address on, gaps
/// filled with `ERASED_FLASH`. Overlapping segments are refused, at the first
/// byte, in segment order, that an earlier segment already holds.
pub fn image_from_segments(segments: &[(u64, Vec<u8>)]) -> (r: Result<Vec<u8>, ImageError>)
    requires
        segments_fit(seg_views(segments@)),
    ensures
        layout_outcome(seg_views(segments@), r),
        r matches Ok(image) ==> keeps_segments(
            seg_views(segments@),
            image@,
            min_address(seg_views(segments@), segments@.len() as int),
        ),
{
    let ghost segs = seg_views(segments@);
    let n_segs = segments.len();
    if n_segs == 0 {
        return Err(ImageError::NoSegments);
    }
    let mut base: u64 = segments[0].0;
    let mut i: usize = 1;
    while i < n_segs
        invariant
            1 <= i <= n_segs,
            n_segs == segs.len(),
            segs == seg_views(segments@),
            base == min_address(segs, i as int),
        decreases n_segs - i,
    {
        if segments[i].0 < base {
            base = segments[i].0;
        }
        i = i + 1;
    }
    let mut end: u64 = base;
    let mut i: usize = 0;
    while i < n_segs
        invariant
            0 <= i <= n_segs,
            n_segs == segs.len(),
            segs == seg_views(segments@),
            forall|k: int|
                0 <= k < segs.len() ==> #[trigger] segs[k].0 + segs[k].1.len() <= u64::MAX,
            end == max_end(segs, i as int, base as int),
        decreases n_segs - i,
    {
        assert(segs[i as int] == (segments@[i as int].0, segments@[i as int].1@));
        assert(segs[i as int].0 + segs[i as int].1.len() <= u64::MAX);
        let seg_end: u64 = segments[i].0 + segments[i].1.len() as u64;
        if seg_end > end {
            end = seg_end;
        }
        i = i + 1;
    }
    proof {
        lemma_min_max(segs, segs.len() as int, base as int);
    }
    let size: usize = (end - base) as usize;
    let mut image: Vec<u8> = vec![ERASED_FLASH; size];
    let mut filled: Vec<bool> = vec![false; size];
    let mut i: usize = 0;
    while i < n_segs
        invariant
            0 <= i <= n_segs,
            n_segs == segs.len(),
            segs == seg_views(segments@),
            base == min_address(segs, segs.len() as int),
            end == max_end(segs, segs.len() as int, base as int),
            size == end - base,
            image@.len() == size,
            filled@.len() == size,
            forall|k: int| 0 <= k < segs.len() ==> base <= #[trigger] segs[k].0,
            forall|k: int|
                0 <= k < segs.len() ==> #[trigger] segs[k].0 + segs[k].1.len() <= end,
            forall|p: int|
                0 <= p < size ==> #[trigger] filled@[p] == covered_by_prefix(segs, i as int, base + p),
            forall|p: int|
                0 <= p < size ==> #[trigger] image@[p] == (if covered_by_prefix(
                    segs,
                    i as int,
                    base + p,
                ) {
                    value_from_prefix(segs, i as int, base + p)
                } else {
                    ERASED_FLASH
                }),
            overlap_from(segs, 0) == overlap_from(segs, i as int),
        decreases n_segs - i,
    {
        let address: u64 = segments[i].0;
        let offset: usize = (address - base) as usize;
        let len: usize = segments[i].1.len();
        let mut j: usize = 0;
        while j < len
            invariant
                0 <= i < n_segs,
                n_segs == segs.len(),
                segs == seg_views(segments@),
                address == segs[i as int].0,
                len == segs[i as int].1.len(),
                offset == address - base,
                offset + len <= size,
                address + len <= u64::MAX,
                0 <= j <= len,
                image@.len() == size,
                filled@.len() == size,
                forall|p: int|
                    0 <= p < size ==> #[trigger] filled@[p] == (covered_by_prefix(
                        segs,
                        i as int,
                        base + p,
                    ) || (offset <= p < offset + j)),
                forall|p: int|
                    0 <= p < size ==> #[trigger] image@[p] == (if covered_by_prefix(
                        segs,
                        i as int,
                        base + p,
                    ) {
                        value_from_prefix(segs, i as int, base + p)
                    } else if offset <= p < offset + j {
                        segs[i as int].1[p - offset]
                    } else {
                        ERASED_FLASH
                    }),
                first_covered_byte(segs, i as int, 0) == first_covered_byte(segs, i as int, j as int),
                overlap_from(segs, 0) == overlap_from(segs, i as int),
            decreases len - j,
        {
            if filled[offset + j] {
                assert(covered_by_prefix(segs, i as int, address + j));
                assert(overlap_from(segs, i as int) == Some(address + j));
                return Err(ImageError::Overlap { address: address + j as u64 });
            }
            image.set(offset + j, segments[i].1[j]);
            filled.set(offset + j, true);
            j = j + 1;
        }
        proof {
            assert(first_covered_byte(segs, i as int, len as int) is None);
            assert(overlap_from(segs, i as int) == overlap_from(segs, i + 1));
            assert forall|p: int| 0 <= p < size implies #[trigger] filled@[p]
                == covered_by_prefix(segs, i + 1, base + p) by {
                lemma_prefix_step(segs, i as int, base + p);
            }
            assert forall|p: int| 0 <= p < size implies #[trigger] image@[p] == (
            if covered_by_prefix(segs, i + 1, base + p) {
                value_from_prefix(segs, i + 1, base + p)
            } else {
                ERASED_FLASH
            }) by {
                lemma_prefix_step(segs, i as int, base + p);
            }
        }
        i = i + 1;
    }
    proof {
        assert(image@ =~= image_of(segs));
        assert forall|k: int, j: int|
            0 <= k < segs.len() && 0 <= j < segs[k].1.len() implies image@[segs[k].0 + j - base]
            == #[trigger] segs[k].1[j] by {
            lemma_value_of_segment(segs, k, j);
        }
    }
    Ok(image)
}

// ---------------------------------------------------------------------
// The image of an ELF file
// ---------------------------------------------------------------------

/// Type of a loadable segment in an ELF program header.
pub const PT_LOAD: u32 = 1;

/// One program header of an ELF file: its type, its physical address, and
/// the bytes it holds in the file; `None` where its offset and size fall
/// outside the file.
#[derive(Debug)]
pub struct ProgramHeader {
    pub kind: u32,
    pub paddr: u32,
    pub data: Option<Vec<u8>>,
}

pub open spec fn header_view(h: ProgramHeader) -> (u32, u32, Option<Seq<u8>>) {
    (
        h.kind,
        h.paddr,
        match h.data {
            Some(d) => Some(d@),
            None => None,
        },
    )
}

pub open spec fn headers_view(hs: Seq<ProgramHeader>) -> Seq<(u32, u32, Option<Seq<u8>>)> {
    Seq::new(hs.len(), |i: int| header_view(hs[i]))
}

/// The program headers of `bytes` read as a 32-bit ELF file, each as its
/// type, physical address and file bytes; `None` where the bytes cannot be
/// read as such a file.
pub uninterp spec fn elf32_program_headers(bytes: Seq<u8>) -> Option<Seq<(u32, u32, Option<Seq<u8>>)>>;

/// The error `object` gives for a file it cannot read.
#[verifier::external_type_specification]
#[verifier::external_body]
pub struct ExObjectError(object::read::Error);

/// `object::read::elf::ElfFile32::parse` on `bytes`, and the program headers
/// it read (`elf_program_headers`), each as its `p_type`, its `p_paddr` and
/// its bytes in the file (`ProgramHeader::data`), in the file's own byte
/// order. With `object`'s `unaligned` feature, which this crate turns on,
/// the header types are byte arrays, so the read does not depend on where
/// the bytes lie in memory. The contract ties the headers to the bytes
/// alone, by the name
/// `elf32_program_headers`; what they are, and which error comes back, is
/// not stated.
#[verifier::external_body]
fn read_program_headers(bytes: &[u8]) -> (r: Result<Vec<ProgramHeader>, object::read::Error>)
    ensures
        match r {
            Ok(hs) => elf32_program_headers(bytes@) == Some(headers_view(hs@)),
            Err(_) => elf32_program_headers(bytes@) is None,
        },
{
    let file = object::read::elf::ElfFile32::<object::Endianness>::parse(bytes)?;
    let endian = file.endian();
    Ok(file.elf_program_headers().iter().map(|h| ProgramHeader {
        kind: object::read::elf::ProgramHeader::p_type(h, endian),
        paddr: object::read::elf::ProgramHeader::p_paddr(h, endian),
        data: object::read::elf::ProgramHeader::data(h, endian, bytes).ok().map(|d| d.to_vec()),
    }).collect())
}

/// The segments that go to flash, in header order: the loadable headers with
/// bytes in the file, at their physical addresses (what `.bss` adds in
/// memory is not in the file and not written); `None` when a loadable header
/// points outside the file.
pub open spec fn flash_segments(hs: Seq<(u32, u32, Option<Seq<u8>>)>) -> Option<Seq<(u64, Seq<u8>)>>
    decreases hs.len(),
{
    if hs.len() == 0 {
        Some(Seq::empty())
    } else {
        match flash_segments(hs.drop_last()) {
            None => None,
            Some(segs) => {
                let h = hs.last();
                if h.0 != PT_LOAD {
                    Some(segs)
                } else {
                    match h.2 {
                        None => None,
                        Some(d) => if d.len() == 0 {
                            Some(segs)
                        } else {
                            Some(segs.push((h.1 as u64, d)))
                        },
                    }
                }
            },
        }
    }
}

/// Why an ELF file gives no raw image.
#[derive(Debug)]
pub enum ElfImageError {
    /// The file cannot be read as a 32-bit ELF file.
    Unreadable(object::read::Error),
    /// A loadable segment lies outside the file.
    SegmentOutsideFile,
    /// The segments span more than memory can hold.
    TooLarge,
    /// The segments do not make an image.
    Layout(ImageError),
}

/// What the raw image of a file with the program headers `hs` is.
pub open spec fn headers_outcome(
    hs: Seq<(u32, u32, Option<Seq<u8>>)>,
    r: Result<Vec<u8>, ElfImageError>,
) -> bool {
    match flash_segments(hs) {
        None => r matches Err(ElfImageError::SegmentOutsideFile),
        Some(segs) => if !segments_fit(segs) {
            r matches Err(ElfImageError::TooLarge)
        } else {
            match r {
                Ok(image) => layout_outcome(segs, Ok(image)),
                Err(ElfImageError::Layout(e)) => layout_outcome(segs, Err(e)),
                Err(_) => false,
            }
        },
    }
}

/// Whether the segments can be laid out, computed.
pub fn segments_fit_exec(segments: &[(u64, Vec<u8>)]) -> (r: bool)
    ensures
        r == segments_fit(seg_views(segments@)),
{
    let ghost segs = seg_views(segments@);
    let n = segments.len();
    let mut i: usize = 0;
    while i < n
        invariant
            i <= n,
            n == segs.len(),
            segs == seg_views(segments@),
            forall|k: int| 0 <= k < i ==> #[trigger] segs[k].0 + segs[k].1.len() <= u64::MAX,
        decreases n - i,
    {
        assert(segs[i as int] == (segments@[i as int].0, segments@[i as int].1@));
        if segments[i].1.len() as u64 > u64::MAX - segments[i].0 {
            assert(!(segs[i as int].0 + segs[i as int].1.len() <= u64::MAX));
            return false;
        }
        i = i + 1;
    }
    if n == 0 {
        return true;
    }
    let mut base: u64 = segments[0].0;
    let mut i: usize = 1;
    while i < n
        invariant
            1 <= i <= n,
            n == segs.len(),
            segs == seg_views(segments@),
            base == min_address(segs, i as int),
        decreases n - i,
    {
        if segments[i].0 < base {
            base = segments[i].0;
        }
        i = i + 1;
    }
    let mut end: u64 = base;
    let mut i: usize = 0;
    while i < n
        invariant
            0 <= i <= n,
            n == segs.len(),
            segs == seg_views(segments@),
            forall|k: int| 0 <= k < segs.len() ==> #[trigger] segs[k].0 + segs[k].1.len() <= u64::MAX,
            end == max_end(segs, i as int, base as int),
        decreases n - i,
    {
        assert(segs[i as int] == (segments@[i as int].0, segments@[i as int].1@));
        assert(segs[i as int].0 + segs[i as int].1.len() <= u64::MAX);
        let seg_end: u64 = segments[i].0 + segments[i].1.len() as u64;
        if seg_end > end {
            end = seg_end;
        }
        i = i + 1;
    }
    proof {
        lemma_min_max(segs, segs.len() as int, base as int);
    }
    (end - base) as u128 <= usize::MAX as u128
}

/// The raw image of an ELF file with the program headers `headers`: its
/// loadable segments with bytes in the file, at their physical addresses,
/// laid out from the lowest on. A loadable header outside the file, a span
/// beyond memory, no segment or an overlap is refused.
pub fn image_from_headers(headers: &[ProgramHeader]) -> (r: Result<Vec<u8>, ElfImageError>)
    ensures
        headers_outcome(headers_view(headers@), r),
{
    let ghost hs = headers_view(headers@);
    let mut segments: Vec<(u64, Vec<u8>)> = Vec::new();
    let mut outside = false;
    let mut i: usize = 0;
    while i < headers.len()
        invariant
            i <= headers@.len(),
            hs == headers_view(headers@),
            flash_segments(hs.subrange(0, i as int)) == (if outside {
                None
            } else {
                Some(seg_views(segments@))
            }),
        decreases headers.len() - i,
    {
        let ghost before = segments@;
        assert(hs.subrange(0, i + 1).drop_last() =~= hs.subrange(0, i as int));
        assert(hs.subrange(0, i + 1).last() == header_view(headers@[i as int]));
        let h = &headers[i];
        if h.kind == PT_LOAD {
            match &h.data {
                None => {
                    outside = true;
                },
                Some(d) => {
                    if d.len() > 0 && !outside {
                        let bytes = copy_range(d.as_slice(), 0, d.len());
                        assert(bytes@ =~= d@);
                        segments.push((h.paddr as u64, bytes));
                        assert(seg_views(segments@) =~= seg_views(before).push((h.paddr as u64, d@)));
                    }
                },
            }
        }
        i = i + 1;
    }
    assert(hs.subrange(0, headers@.len() as int) =~= hs);
    if outside {
        return Err(ElfImageError::SegmentOutsideFile);
    }
    if !segments_fit_exec(segments.as_slice()) {
        return Err(ElfImageError::TooLarge);
    }
    match image_from_segments(segments.as_slice()) {
        Ok(image) => Ok(image),
        Err(e) => Err(ElfImageError::Layout(e)),
    }
}

/// The raw image of an ELF file: what goes to flash, without sections and
/// symbols. `object` reads the program headers, and the image is laid out
/// from them as [`image_from_headers`] does.
pub fn raw_image_from_elf(bytes: &[u8]) -> (r: Result<Vec<u8>, ElfImageError>)
    ensures
        match elf32_program_headers(bytes@) {
            None => r matches Err(ElfImageError::Unreadable(_)),
            Some(hs) => headers_outcome(hs, r),
        },
{
    match read_program_headers(bytes) {
        Err(e) => Err(ElfImageError::Unreadable(e)),
        Ok(headers) => image_from_headers(headers.as_slice()),
    }
}

} // verus!
