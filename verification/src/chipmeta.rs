//! The memory map of an STM32 as the chip database prints it: the text of a
//! `metadata.rs` with one or more memory configurations, each a list of
//! `MemoryRegion { .. }` literals, and the choice among the configurations
//! that `embassy-stm32` makes by region names.

use vstd::prelude::*;
use vstd::string::StringSliceAdditionalSpecFns;
use crate::bytes::{push_all, copy_range, find, find_from, matches_at, trim_range, trim_start_at,
    trim_end_at, contains_seq, contains, starts_with, ends_with, starts_with_exec, ends_with_exec};
use crate::numtext::{parse_unsigned, parse_unsigned_exec};

verus! {

/// What kind of memory a region is.
#[derive(Clone, Copy, Debug, PartialEq, Eq, Structural)]
pub enum RegionKind {
    Flash,
    Ram,
    /// Read directly, written through the flash controller.
    Eeprom,
    Other,
}

/// One memory region of a chip: its name, kind, address and size, and for a
/// flash region its erase size and smallest write.
#[derive(Clone, Debug)]
pub struct RawRegion {
    pub name: Vec<u8>,
    pub kind: RegionKind,
    pub address: u64,
    pub size: u64,
    /// `Some((erase_size, write_size))` for a region with flash settings.
    pub erase_write_size: Option<(u64, u64)>,
}

/// A region as a mathematical value.
pub struct RegionView {
    pub name: Seq<u8>,
    pub kind: RegionKind,
    pub address: u64,
    pub size: u64,
    pub erase_write_size: Option<(u64, u64)>,
}

impl View for RawRegion {
    type V = RegionView;

    open spec fn view(&self) -> RegionView {
        RegionView {
            name: self.name@,
            kind: self.kind,
            address: self.address,
            size: self.size,
            erase_write_size: self.erase_write_size,
        }
    }
}

impl DeepView for RawRegion {
    type V = RegionView;

    open spec fn deep_view(&self) -> RegionView {
        self@
    }
}

/// A field of a `MemoryRegion` literal.
#[derive(Clone, Copy, Debug, PartialEq, Eq, Structural)]
pub enum RegionField {
    Name,
    Kind,
    Address,
    Size,
    EraseSize,
    WriteSize,
}

/// Why the memory map of a chip could not be read.
#[derive(Clone, Copy, Debug, PartialEq, Eq, Structural)]
pub enum MetadataError {
    /// The text has no `memory: &[`.
    NoMemoryList,
    /// A `]` closed a configuration that was never opened.
    UnopenedConfig,
    /// The memory list holds no configuration.
    NoConfigs,
    /// A region lacks the field.
    MissingField(RegionField),
    /// The field of a region is not a number.
    BadNumber(RegionField),
    /// The configurations hold no region at all.
    NoRegions,
    /// Several configurations, none of them recognised as single- or
    /// dual-bank.
    UnknownBankMode,
}

pub open spec fn memory_marker() -> Seq<u8> {
    "memory: &[".spec_bytes()
}

/// The scan of the memory list from `i` on: `depth` brackets are open inside
/// it, `open` is where the configuration being read starts, `in_string` says
/// whether `i` is inside a string literal, `acc` holds the configurations
/// closed so far as byte ranges of `text`.
pub open spec fn scan_configs(
    text: Seq<u8>,
    i: int,
    depth: int,
    open: Option<int>,
    in_string: bool,
    acc: Seq<(int, int)>,
) -> Result<Seq<(int, int)>, MetadataError>
    decreases text.len() - i,
{
    if i < 0 || i >= text.len() {
        if acc.len() == 0 { Err(MetadataError::NoConfigs) } else { Ok(acc) }
    } else {
        let c = text[i];
        if c == 0x22 {
            scan_configs(text, i + 1, depth, open, !in_string, acc)
        } else if in_string {
            scan_configs(text, i + 1, depth, open, in_string, acc)
        } else if c == 0x5B {
            scan_configs(
                text,
                i + 1,
                depth + 1,
                if depth == 0 { Some(i + 1) } else { open },
                in_string,
                acc,
            )
        } else if c == 0x5D && depth > 0 {
            if depth == 1 {
                match open {
                    None => Err(MetadataError::UnopenedConfig),
                    Some(from) => scan_configs(text, i + 1, 0, None, in_string, acc.push((from, i))),
                }
            } else {
                scan_configs(text, i + 1, depth - 1, open, in_string, acc)
            }
        } else if c == 0x5D {
            if acc.len() == 0 { Err(MetadataError::NoConfigs) } else { Ok(acc) }
        } else {
            scan_configs(text, i + 1, depth, open, in_string, acc)
        }
    }
}

/// The configurations of the memory list of `text`, as byte ranges: the
/// bodies of the elements of the outer slice that follows `memory: &[`.
pub open spec fn memory_configs(text: Seq<u8>) -> Result<Seq<(int, int)>, MetadataError> {
    match find_from(text, 0, memory_marker()) {
        None => Err(MetadataError::NoMemoryList),
        Some(start) => scan_configs(
            text,
            start + memory_marker().len(),
            0,
            None,
            false,
            Seq::empty(),
        ),
    }
}

/// The configurations of the memory list of `text` as byte ranges `(from,
/// to)`; strings are skipped, so brackets in region names do not count.
pub fn split_memory_configs(text: &[u8]) -> (r: Result<Vec<(usize, usize)>, MetadataError>)
    ensures
        match (r, memory_configs(text@)) {
            (Ok(v), Ok(s)) => v@.len() == s.len() && forall|k: int|
                0 <= k < s.len() ==> (#[trigger] v@[k]).0 == s[k].0 && v@[k].1 == s[k].1,
            (Err(e), Err(f)) => e == f,
            _ => false,
        },
        r matches Ok(v) ==> forall|k: int|
            0 <= k < v@.len() ==> (#[trigger] v@[k]).0 <= v@[k].1 <= text@.len(),
{
    let text_len: usize = text.len();
    let marker = "memory: &[".as_bytes();
    let start = match find(text, 0, marker) {
        None => {
            return Err(MetadataError::NoMemoryList);
        },
        Some(s) => s,
    };
    assert(marker@ == memory_marker());
    assert(start + marker@.len() <= text@.len());
    let ghost body_start = start + marker@.len();
    let mut configs: Vec<(usize, usize)> = Vec::new();
    let ghost mut acc: Seq<(int, int)> = Seq::empty();
    let mut depth: usize = 0;
    let mut open: Option<usize> = None;
    let mut in_string = false;
    let mlen = marker.len();
    assert(mlen == marker@.len());
    let mut i: usize = start + mlen;
    while i < text.len()
        invariant
            start + marker@.len() <= i <= text@.len(),
            depth <= i,
            open matches Some(f) ==> f <= i,
            configs@.len() == acc.len(),
            forall|k: int|
                0 <= k < acc.len() ==> (#[trigger] configs@[k]).0 == acc[k].0 && configs@[k].1
                    == acc[k].1,
            forall|k: int| 0 <= k < acc.len() ==> 0 <= (#[trigger] acc[k]).0 <= acc[k].1 <= text@.len(),
            memory_configs(text@) == scan_configs(
                text@,
                i as int,
                depth as int,
                match open {
                    Some(f) => Some(f as int),
                    None => None,
                },
                in_string,
                acc,
            ),
        ensures
            configs@.len() == acc.len(),
            forall|k: int|
                0 <= k < acc.len() ==> (#[trigger] configs@[k]).0 == acc[k].0 && configs@[k].1
                    == acc[k].1,
            forall|k: int| 0 <= k < acc.len() ==> 0 <= (#[trigger] acc[k]).0 <= acc[k].1 <= text@.len(),
            memory_configs(text@) == (if acc.len() == 0 {
                Err::<Seq<(int, int)>, MetadataError>(MetadataError::NoConfigs)
            } else {
                Ok(acc)
            }),
        decreases text.len() - i,
    {
        let c = text[i];
        if c == 0x22 {
            in_string = !in_string;
        } else if in_string {
        } else if c == 0x5B {
            if depth == 0 {
                open = Some(i + 1);
            }
            depth = depth + 1;
        } else if c == 0x5D && depth > 0 {
            depth = depth - 1;
            if depth == 0 {
                match open {
                    None => {
                        return Err(MetadataError::UnopenedConfig);
                    },
                    Some(from) => {
                        configs.push((from, i));
                        proof {
                            let old_acc = acc;
                            acc = acc.push((from as int, i as int));
                            assert forall|k: int| 0 <= k < acc.len() implies 0 <= (#[trigger] acc[k]).0 <= acc[k].1 <= text@.len() by {
                                if k < old_acc.len() {
                                    assert(acc[k] == old_acc[k]);
                                }
                            }
                            assert forall|k: int| 0 <= k < acc.len() implies (#[trigger] configs@[k]).0 == acc[k].0 && configs@[k].1 == acc[k].1 by {
                                if k < old_acc.len() {
                                    assert(acc[k] == old_acc[k]);
                                }
                            }
                        }
                        open = None;
                    },
                }
            }
        } else if c == 0x5D {
            break;
        }
        i = i + 1;
    }
    if configs.len() == 0 {
        return Err(MetadataError::NoConfigs);
    }
    Ok(configs)
}


/// First `,` or line feed of `s` at or after `i`.
pub open spec fn first_separator(s: Seq<u8>, i: int) -> Option<int>
    decreases s.len() - i,
{
    if i < 0 || i >= s.len() {
        None
    } else if s[i] == 0x2C || s[i] == 0x0A {
        Some(i)
    } else {
        first_separator(s, i + 1)
    }
}

/// Where the value of `key: ` in `block` lies, whitespace trimmed: from
/// after the first `key: ` up to the next `,` or line feed.
pub open spec fn field_range(block: Seq<u8>, key: Seq<u8>) -> Option<(int, int)> {
    let pat = key + ": ".spec_bytes();
    match find_from(block, 0, pat) {
        None => None,
        Some(k) => match first_separator(block, k + pat.len()) {
            None => None,
            Some(e) => {
                let a = trim_start_at(block, k + pat.len(), e);
                Some((a, trim_end_at(block, a, e)))
            },
        },
    }
}

/// The value of `key: ` in `block`, whitespace trimmed.
pub open spec fn field_value(block: Seq<u8>, key: Seq<u8>) -> Option<Seq<u8>> {
    match field_range(block, key) {
        None => None,
        Some((a, b)) => Some(block.subrange(a, b)),
    }
}

/// Where the value of `key: ` lies in `block`, whitespace trimmed.
pub fn field(block: &[u8], key: &[u8]) -> (r: Option<(usize, usize)>)
    ensures
        match (r, field_range(block@, key@)) {
            (Some(x), Some(y)) => x.0 == y.0 && x.1 == y.1,
            (None, None) => true,
            _ => false,
        },
        r matches Some(x) ==> x.0 <= x.1 <= block@.len(),
{
    let block_len: usize = block.len();
    let mut pat: Vec<u8> = Vec::new();
    push_all(&mut pat, key);
    push_all(&mut pat, ": ".as_bytes());
    assert(pat@ == key@ + ": ".spec_bytes());
    let k = match find(block, 0, pat.as_slice()) {
        None => {
            return None;
        },
        Some(k) => k,
    };
    let start: usize = k + pat.len();
    let mut e: usize = start;
    while e < block.len() && block[e] != 0x2C && block[e] != 0x0A
        invariant
            start <= e <= block@.len(),
            first_separator(block@, start as int) == first_separator(block@, e as int),
        decreases block.len() - e,
    {
        e = e + 1;
    }
    if e >= block.len() {
        return None;
    }
    let (a, b) = trim_range(block, start, e);
    Some((a, b))
}

/// Index of the first byte of `v` from `i` on that is not a double quote.
pub open spec fn skip_quotes_forward(v: Seq<u8>, i: int) -> int
    decreases v.len() - i,
{
    if 0 <= i < v.len() && v[i] == 0x22 {
        skip_quotes_forward(v, i + 1)
    } else {
        i
    }
}

/// End of `v[a..j]` once trailing double quotes are dropped.
pub open spec fn skip_quotes_backward(v: Seq<u8>, a: int, j: int) -> int
    decreases j - a,
{
    if a < j && j <= v.len() && v[j - 1] == 0x22 {
        skip_quotes_backward(v, a, j - 1)
    } else {
        j
    }
}

/// `v` without the double quotes at either end, as `trim_matches('"')`.
pub open spec fn strip_quotes(v: Seq<u8>) -> Seq<u8> {
    let a = skip_quotes_forward(v, 0);
    v.subrange(a, skip_quotes_backward(v, a, v.len() as int))
}

/// `v` without its leading `0x` prefixes, as `trim_start_matches("0x")`.
pub open spec fn strip_hex_prefix(v: Seq<u8>) -> Seq<u8>
    decreases v.len(),
{
    if v.len() >= 2 && v[0] == 0x30 && v[1] == 0x78 {
        strip_hex_prefix(v.subrange(2, v.len() as int))
    } else {
        v
    }
}

/// The kind a `kind:` value names, by its last word.
pub open spec fn kind_of(v: Seq<u8>) -> RegionKind {
    if ends_with(v, "Flash".spec_bytes()) {
        RegionKind::Flash
    } else if ends_with(v, "Ram".spec_bytes()) {
        RegionKind::Ram
    } else if ends_with(v, "Eeprom".spec_bytes()) {
        RegionKind::Eeprom
    } else {
        RegionKind::Other
    }
}

/// A numeric field of `block` in `radix`, with the error for a missing
/// field and for one that is not a number.
pub open spec fn number_field(block: Seq<u8>, key: Seq<u8>, radix: int, which: RegionField) -> Result<
    u64,
    MetadataError,
> {
    match field_value(block, key) {
        None => Err(MetadataError::MissingField(which)),
        Some(v) => {
            let digits = if radix == 16 { strip_hex_prefix(v) } else { v };
            match parse_unsigned(digits, radix) {
                None => Err(MetadataError::BadNumber(which)),
                Some(n) => Ok(n),
            }
        },
    }
}

/// The region that the text of one `MemoryRegion { .. }` literal describes.
#[verifier::opaque]
pub open spec fn parse_block(block: Seq<u8>) -> Result<RegionView, MetadataError> {
    match field_value(block, "name".spec_bytes()) {
        None => Err(MetadataError::MissingField(RegionField::Name)),
        Some(name) => match field_value(block, "kind".spec_bytes()) {
            None => Err(MetadataError::MissingField(RegionField::Kind)),
            Some(kind) => match number_field(block, "address".spec_bytes(), 16, RegionField::Address) {
                Err(e) => Err(e),
                Ok(address) => match number_field(block, "size".spec_bytes(), 10, RegionField::Size) {
                    Err(e) => Err(e),
                    Ok(size) => {
                        let settings = if contains_seq(block, "settings: None".spec_bytes()) {
                            Ok(None)
                        } else {
                            match number_field(block, "erase_size".spec_bytes(), 10, RegionField::EraseSize) {
                                Err(e) => Err(e),
                                Ok(erase) => match number_field(block, "write_size".spec_bytes(), 10, RegionField::WriteSize) {
                                    Err(e) => Err(e),
                                    Ok(write) => Ok(Some((erase, write))),
                                },
                            }
                        };
                        match settings {
                            Err(e) => Err(e),
                            Ok(ews) => Ok(
                                RegionView {
                                    name: strip_quotes(name),
                                    kind: kind_of(kind),
                                    address,
                                    size,
                                    erase_write_size: ews,
                                },
                            ),
                        }
                    },
                },
            },
        },
    }
}


fn strip_quotes_range(v: &[u8], from: usize, to: usize) -> (r: (usize, usize))
    requires
        from <= to <= v@.len(),
    ensures
        r.0 <= r.1 <= v@.len(),
        v@.subrange(r.0 as int, r.1 as int) == strip_quotes(v@.subrange(from as int, to as int)),
{
    let ghost w = v@.subrange(from as int, to as int);
    let mut a: usize = from;
    while a < to && v[a] == 0x22
        invariant
            from <= a <= to <= v@.len(),
            w == v@.subrange(from as int, to as int),
            skip_quotes_forward(w, 0) == skip_quotes_forward(w, a - from),
        decreases to - a,
    {
        assert(w[a - from] == v@[a as int]);
        a = a + 1;
    }
    let mut b: usize = to;
    while b > a && v[b - 1] == 0x22
        invariant
            from <= a <= b <= to <= v@.len(),
            w == v@.subrange(from as int, to as int),
            skip_quotes_forward(w, 0) == a - from,
            skip_quotes_backward(w, a - from, w.len() as int) == skip_quotes_backward(
                w,
                a - from,
                b - from,
            ),
        decreases b - a,
    {
        assert(w[b - from - 1] == v@[b - 1]);
        b = b - 1;
    }
    assert(v@.subrange(a as int, b as int) =~= w.subrange(a - from, b - from));
    (a, b)
}

/// The number in `block[from..to]` in `radix` (10 or 16; in 16 after its
/// leading `0x` prefixes).
fn parse_number_range(block: &[u8], from: usize, to: usize, radix: u64) -> (r: Option<u64>)
    requires
        from <= to <= block@.len(),
        radix == 10 || radix == 16,
    ensures
        r == parse_unsigned(
            if radix == 16 {
                strip_hex_prefix(block@.subrange(from as int, to as int))
            } else {
                block@.subrange(from as int, to as int)
            },
            radix as int,
        ),
{
    let mut a: usize = from;
    if radix == 16 {
        while to - a >= 2 && block[a] == 0x30 && block[a + 1] == 0x78
            invariant
                from <= a <= to <= block@.len(),
                strip_hex_prefix(block@.subrange(from as int, to as int)) == strip_hex_prefix(
                    block@.subrange(a as int, to as int),
                ),
            decreases to - a,
        {
            assert(block@.subrange(a as int, to as int).subrange(2, (to - a) as int)
                =~= block@.subrange(a + 2, to as int));
            a = a + 2;
        }
    }
    let digits = &block[a..to];
    parse_unsigned_exec(digits, radix)
}

/// A numeric field of `block`.
fn number_field_exec(block: &[u8], key: &[u8], radix: u64, which: RegionField) -> (r: Result<
    u64,
    MetadataError,
>)
    requires
        radix == 10 || radix == 16,
    ensures
        r == number_field(block@, key@, radix as int, which),
{
    match field(block, key) {
        None => Err(MetadataError::MissingField(which)),
        Some((a, b)) => match parse_number_range(block, a, b, radix) {
            None => Err(MetadataError::BadNumber(which)),
            Some(n) => Ok(n),
        },
    }
}

/// The region that one `MemoryRegion { .. }` literal describes.
pub fn parse_block_exec(block: &[u8]) -> (r: Result<RawRegion, MetadataError>)
    ensures
        match (r, parse_block(block@)) {
            (Ok(x), Ok(y)) => x@ == y,
            (Err(e), Err(f)) => e == f,
            _ => false,
        },
{
    reveal(parse_block);
    let (na, nb) = match field(block, "name".as_bytes()) {
        None => {
            return Err(MetadataError::MissingField(RegionField::Name));
        },
        Some(x) => x,
    };
    let (ka, kb) = match field(block, "kind".as_bytes()) {
        None => {
            return Err(MetadataError::MissingField(RegionField::Kind));
        },
        Some(x) => x,
    };
    let address = match number_field_exec(block, "address".as_bytes(), 16, RegionField::Address) {
        Err(e) => {
            return Err(e);
        },
        Ok(n) => n,
    };
    let size = match number_field_exec(block, "size".as_bytes(), 10, RegionField::Size) {
        Err(e) => {
            return Err(e);
        },
        Ok(n) => n,
    };
    let erase_write_size = if contains(block, "settings: None".as_bytes()) {
        None
    } else {
        let erase = match number_field_exec(block, "erase_size".as_bytes(), 10, RegionField::EraseSize) {
            Err(e) => {
                return Err(e);
            },
            Ok(n) => n,
        };
        let write = match number_field_exec(block, "write_size".as_bytes(), 10, RegionField::WriteSize) {
            Err(e) => {
                return Err(e);
            },
            Ok(n) => n,
        };
        Some((erase, write))
    };
    let kind_text = &block[ka..kb];
    let kind = if ends_with_exec(kind_text, "Flash".as_bytes()) {
        RegionKind::Flash
    } else if ends_with_exec(kind_text, "Ram".as_bytes()) {
        RegionKind::Ram
    } else if ends_with_exec(kind_text, "Eeprom".as_bytes()) {
        RegionKind::Eeprom
    } else {
        RegionKind::Other
    };
    let (qa, qb) = strip_quotes_range(block, na, nb);
    let name = copy_range(block, qa, qb);
    Ok(RawRegion { name, kind, address, size, erase_write_size })
}

pub open spec fn region_marker() -> Seq<u8> {
    "MemoryRegion {".spec_bytes()
}

/// The pieces of `s` from `from` on between the occurrences of `pat`, as
/// `str::split` cuts them.
pub open spec fn pieces(s: Seq<u8>, from: int, pat: Seq<u8>) -> Seq<(int, int)>
    decreases s.len() + 1 - from,
{
    if pat.len() == 0 || from < 0 || from > s.len() {
        Seq::empty()
    } else {
        match find_from(s, from, pat) {
            None => seq![(from, s.len() as int)],
            Some(k) => if k < from || k + pat.len() > s.len() {
                Seq::empty()
            } else {
                seq![(from, k)] + pieces(s, k + pat.len(), pat)
            },
        }
    }
}

/// The `MemoryRegion { .. }` literals of a configuration: what follows each
/// `MemoryRegion {` up to the next one.
pub open spec fn region_blocks(section: Seq<u8>) -> Seq<(int, int)> {
    pieces(section, 0, region_marker()).drop_first()
}

/// The regions of the first `n` blocks of `section`; the first block that
/// cannot be read decides the error.
pub open spec fn parse_blocks(section: Seq<u8>, blocks: Seq<(int, int)>, n: int) -> Result<
    Seq<RegionView>,
    MetadataError,
>
    decreases n,
{
    if n <= 0 {
        Ok(Seq::empty())
    } else {
        match parse_blocks(section, blocks, n - 1) {
            Err(e) => Err(e),
            Ok(done) => match parse_block(section.subrange(blocks[n - 1].0, blocks[n - 1].1)) {
                Err(e) => Err(e),
                Ok(r) => Ok(done.push(r)),
            },
        }
    }
}

/// The regions of one memory configuration.
#[verifier::opaque]
pub open spec fn parse_regions_spec(section: Seq<u8>) -> Result<Seq<RegionView>, MetadataError> {
    let blocks = region_blocks(section);
    parse_blocks(section, blocks, blocks.len() as int)
}

proof fn lemma_pieces_bounds(s: Seq<u8>, from: int, pat: Seq<u8>)
    ensures
        forall|k: int|
            0 <= k < pieces(s, from, pat).len() ==> from <= (#[trigger] pieces(s, from, pat)[k]).0
                <= pieces(s, from, pat)[k].1 <= s.len(),
    decreases s.len() + 1 - from,
{
    if pat.len() == 0 || from < 0 || from > s.len() {
    } else {
        match find_from(s, from, pat) {
            None => {},
            Some(k) => {
                if !(k < from || k + pat.len() > s.len()) {
                    lemma_pieces_bounds(s, k + pat.len(), pat);
                    let rest = pieces(s, k + pat.len(), pat);
                    let all = seq![(from, k)] + rest;
                    assert forall|j: int| 0 <= j < all.len() implies from <= (#[trigger] all[j]).0 <= all[j].1 <= s.len() by {
                        if j > 0 {
                            assert(all[j] == rest[j - 1]);
                        }
                    }
                }
            },
        }
    }
}

/// The byte ranges of the `MemoryRegion { .. }` literals of `section`.
fn region_block_ranges(section: &[u8]) -> (r: Vec<(usize, usize)>)
    ensures
        r@.len() == region_blocks(section@).len(),
        forall|k: int|
            0 <= k < r@.len() ==> (#[trigger] r@[k]).0 == region_blocks(section@)[k].0 && r@[k].1
                == region_blocks(section@)[k].1 && r@[k].0 <= r@[k].1 <= section@.len(),
{
    let pat = "MemoryRegion {".as_bytes();
    assert(pat@ == region_marker());
    let ghost all = pieces(section@, 0, pat@);
    proof {
        lemma_pieces_bounds(section@, 0, pat@);
        reveal_strlit("MemoryRegion {");
    }
    assert(pat@.len() > 0);
    let section_len: usize = section.len();
    let mut out: Vec<(usize, usize)> = Vec::new();
    let mut from: usize = 0;
    let mut first = true;
    let ghost mut done: int = 0;
    loop
        invariant_except_break
            all.subrange(done, all.len() as int) == pieces(section@, from as int, pat@),
            first <==> done == 0,
        invariant
            from <= section@.len(),
            section_len == section@.len(),
            pat@ == region_marker(),
            pat@.len() > 0,
            all == pieces(section@, 0, pat@),
            0 <= done <= all.len(),
            out@.len() == if done == 0 { 0 } else { done - 1 },
            forall|k: int|
                0 <= k < out@.len() ==> (#[trigger] out@[k]).0 == all[k + 1].0 && out@[k].1 == all[k + 1].1,
            forall|k: int| 0 <= k < all.len() ==> 0 <= (#[trigger] all[k]).0 <= all[k].1 <= section@.len(),
        ensures
            done == all.len(),
            done >= 1,
        decreases section@.len() + 1 - from,
    {
        let ghost rest = pieces(section@, from as int, pat@);
        match find(section, from, pat) {
            None => {
                assert(rest == seq![(from as int, section@.len() as int)]);
                assert(all.subrange(done, all.len() as int).len() == 1);
                assert(all[done] == rest[0]) by {
                    assert(all.subrange(done, all.len() as int)[0] == all[done]);
                }
                if !first {
                    out.push((from, section_len));
                }
                proof {
                    done = done + 1;
                }
                break;
            },
            Some(k) => {
                assert(rest == seq![(from as int, k as int)] + pieces(section@, k + pat@.len(), pat@));
                assert(all[done] == rest[0]) by {
                    assert(all.subrange(done, all.len() as int)[0] == all[done]);
                }
                if !first {
                    out.push((from, k));
                }
                proof {
                    assert(all.subrange(done + 1, all.len() as int) =~= rest.subrange(1, rest.len() as int));
                    assert(rest.subrange(1, rest.len() as int) =~= pieces(section@, k + pat@.len(), pat@));
                    done = done + 1;
                }
                first = false;
                from = k + pat.len();
            },
        }
    }
    out
}


/// The regions of one memory configuration, in the order of the text.
pub fn parse_regions(section: &[u8]) -> (r: Result<Vec<RawRegion>, MetadataError>)
    ensures
        match (r, parse_regions_spec(section@)) {
            (Ok(v), Ok(s)) => v.deep_view() == s,
            (Err(e), Err(f)) => e == f,
            _ => false,
        },
{
    let ranges = region_block_ranges(section);
    let ghost blocks = region_blocks(section@);
    assert(parse_regions_spec(section@) == parse_blocks(section@, blocks, blocks.len() as int)) by {
        reveal(parse_regions_spec);
    }
    let mut out: Vec<RawRegion> = Vec::new();
    assert(out.deep_view() =~= Seq::<RegionView>::empty());
    let mut i: usize = 0;
    while i < ranges.len()
        invariant
            0 <= i <= ranges@.len(),
            out@.len() == i,
            blocks == region_blocks(section@),
            ranges@.len() == blocks.len(),
            forall|k: int|
                0 <= k < ranges@.len() ==> (#[trigger] ranges@[k]).0 == blocks[k].0 && ranges@[k].1
                    == blocks[k].1 && ranges@[k].0 <= ranges@[k].1 <= section@.len(),
            parse_blocks(section@, blocks, i as int) == Ok::<Seq<RegionView>, MetadataError>(
                out.deep_view(),
            ),
            parse_regions_spec(section@) == parse_blocks(section@, blocks, blocks.len() as int),
        decreases ranges.len() - i,
    {
        let (a, b) = ranges[i];
        let block = &section[a..b];
        match parse_block_exec(block) {
            Err(e) => {
                assert(parse_blocks(section@, blocks, i + 1) == Err::<Seq<RegionView>, MetadataError>(e));
                proof {
                    lemma_parse_blocks_err(section@, blocks, i + 1, blocks.len() as int);
                }
                assert(parse_regions_spec(section@) == Err::<Seq<RegionView>, MetadataError>(e));
                return Err(e);
            },
            Ok(region) => {
                let ghost before = out.deep_view();
                out.push(region);
                assert(out.deep_view() =~= before.push(region@));
            },
        }
        i = i + 1;
    }
    Ok(out)
}

proof fn lemma_parse_blocks_err(section: Seq<u8>, blocks: Seq<(int, int)>, n: int, m: int)
    requires
        1 <= n <= m,
        parse_blocks(section, blocks, n) is Err,
    ensures
        parse_blocks(section, blocks, m) == parse_blocks(section, blocks, n),
    decreases m - n,
{
    if n < m {
        lemma_parse_blocks_err(section, blocks, n, m - 1);
    }
}

/// The regions of the first `n` configurations of `text`; the first one that
/// cannot be read decides the error.
pub open spec fn parse_sections(text: Seq<u8>, ranges: Seq<(int, int)>, n: int) -> Result<
    Seq<Seq<RegionView>>,
    MetadataError,
>
    decreases n,
{
    if n <= 0 {
        Ok(Seq::empty())
    } else {
        match parse_sections(text, ranges, n - 1) {
            Err(e) => Err(e),
            Ok(done) => match parse_regions_spec(text.subrange(ranges[n - 1].0, ranges[n - 1].1)) {
                Err(e) => Err(e),
                Ok(r) => Ok(done.push(r)),
            },
        }
    }
}

/// Every memory configuration of a chip's metadata text, with its regions;
/// an error where the text has none or holds no region at all.
pub open spec fn chip_memory(text: Seq<u8>) -> Result<Seq<Seq<RegionView>>, MetadataError> {
    match memory_configs(text) {
        Err(e) => Err(e),
        Ok(ranges) => match parse_sections(text, ranges, ranges.len() as int) {
            Err(e) => Err(e),
            Ok(configs) => if configs.len() == 0 || forall|i: int|
                0 <= i < configs.len() ==> (#[trigger] configs[i]).len() == 0 {
                Err(MetadataError::NoRegions)
            } else {
                Ok(configs)
            },
        },
    }
}

proof fn lemma_parse_sections_err(text: Seq<u8>, ranges: Seq<(int, int)>, n: int, m: int)
    requires
        1 <= n <= m,
        parse_sections(text, ranges, n) is Err,
    ensures
        parse_sections(text, ranges, m) == parse_sections(text, ranges, n),
    decreases m - n,
{
    if n < m {
        lemma_parse_sections_err(text, ranges, n, m - 1);
    }
}

/// Every memory configuration of the metadata text of a chip, each with its
/// regions.
pub fn parse_chip_memory_text(text: &[u8]) -> (r: Result<Vec<Vec<RawRegion>>, MetadataError>)
    ensures
        match (r, chip_memory(text@)) {
            (Ok(v), Ok(s)) => v.deep_view() == s,
            (Err(e), Err(f)) => e == f,
            _ => false,
        },
{
    let ranges = match split_memory_configs(text) {
        Err(e) => {
            return Err(e);
        },
        Ok(v) => v,
    };
    let ghost spec_ranges = memory_configs(text@)->Ok_0;
    let mut configs: Vec<Vec<RawRegion>> = Vec::new();
    assert(configs.deep_view() =~= Seq::<Seq<RegionView>>::empty());
    let mut any_region = false;
    let mut i: usize = 0;
    while i < ranges.len()
        invariant
            0 <= i <= ranges@.len(),
            configs@.len() == i,
            memory_configs(text@) == Ok::<Seq<(int, int)>, MetadataError>(spec_ranges),
            ranges@.len() == spec_ranges.len(),
            forall|k: int|
                0 <= k < spec_ranges.len() ==> (#[trigger] ranges@[k]).0 == spec_ranges[k].0
                    && ranges@[k].1 == spec_ranges[k].1,
            forall|k: int|
                0 <= k < ranges@.len() ==> (#[trigger] ranges@[k]).0 <= ranges@[k].1 <= text@.len(),
            parse_sections(text@, spec_ranges, i as int) == Ok::<
                Seq<Seq<RegionView>>,
                MetadataError,
            >(configs.deep_view()),
            any_region <==> exists|k: int| 0 <= k < i && (#[trigger] configs.deep_view()[k]).len() > 0,
        decreases ranges.len() - i,
    {
        let (a, b) = ranges[i];
        let section = &text[a..b];
        match parse_regions(section) {
            Err(e) => {
                proof {
                    lemma_parse_sections_err(text@, spec_ranges, i + 1, spec_ranges.len() as int);
                }
                return Err(e);
            },
            Ok(regions) => {
                let ghost before = configs.deep_view();
                if regions.len() > 0 {
                    any_region = true;
                }
                configs.push(regions);
                assert(configs.deep_view() =~= before.push(regions.deep_view()));
                assert(any_region <==> exists|k: int| 0 <= k < i + 1 && (#[trigger] configs.deep_view()[k]).len() > 0) by {
                    if any_region && regions@.len() == 0 {
                        let k = choose|k: int| 0 <= k < i && (#[trigger] before[k]).len() > 0;
                        assert(configs.deep_view()[k] == before[k]);
                    }
                    if regions@.len() > 0 {
                        assert(configs.deep_view()[i as int].len() > 0);
                    }
                    if exists|k: int| 0 <= k < i + 1 && (#[trigger] configs.deep_view()[k]).len() > 0 {
                        let k = choose|k: int| 0 <= k < i + 1 && (#[trigger] configs.deep_view()[k]).len() > 0;
                        if k < i {
                            assert(configs.deep_view()[k] == before[k]);
                        }
                    }
                }
            },
        }
        i = i + 1;
    }
    if !any_region {
        assert(forall|k: int| 0 <= k < configs.deep_view().len() ==> (#[trigger] configs.deep_view()[k]).len() == 0);
        return Err(MetadataError::NoRegions);
    }
    Ok(configs)
}


/// The bank scheme that the `embassy-stm32` feature of a chip selects.
#[derive(Clone, Copy, Debug, PartialEq, Eq, Structural)]
pub enum BankMode {
    /// The chip has one memory configuration: no feature is needed.
    Unselected,
    SingleBank,
    DualBank,
}

pub open spec fn bank_mode_text(m: BankMode) -> Seq<u8> {
    match m {
        BankMode::Unselected => Seq::empty(),
        BankMode::SingleBank => "single-bank".spec_bytes(),
        BankMode::DualBank => "dual-bank".spec_bytes(),
    }
}

impl BankMode {
    /// The name of the feature: empty, `single-bank` or `dual-bank`.
    pub fn as_str(&self) -> (r: &'static str)
        ensures
            r.spec_bytes() == bank_mode_text(*self),
    {
        match self {
            BankMode::Unselected => {
                proof {
                    reveal_strlit("");
                }
                ""
            },
            BankMode::SingleBank => "single-bank",
            BankMode::DualBank => "dual-bank",
        }
    }
}

/// Whether a region of `regions` has `bank` in its name.
pub open spec fn has_bank(regions: Seq<RegionView>, bank: Seq<u8>) -> bool {
    exists|i: int| 0 <= i < regions.len() && contains_seq((#[trigger] regions[i]).name, bank)
}

pub open spec fn is_single_bank(regions: Seq<RegionView>) -> bool {
    has_bank(regions, "BANK_1".spec_bytes()) && !has_bank(regions, "BANK_2".spec_bytes())
}

pub open spec fn is_dual_bank(regions: Seq<RegionView>) -> bool {
    has_bank(regions, "BANK_1".spec_bytes()) && has_bank(regions, "BANK_2".spec_bytes())
}

/// The first configuration from `i` on that `pick` accepts.
pub open spec fn first_config(
    configs: Seq<Seq<RegionView>>,
    i: int,
    pick: spec_fn(Seq<RegionView>) -> bool,
) -> Option<int>
    decreases configs.len() - i,
{
    if i < 0 || i >= configs.len() {
        None
    } else if pick(configs[i]) {
        Some(i)
    } else {
        first_config(configs, i + 1, pick)
    }
}

/// The configuration that `embassy-stm32` builds a chip with: the only one,
/// else the first single-bank one, else the first dual-bank one.
pub open spec fn selected_config(configs: Seq<Seq<RegionView>>) -> Result<
    (int, BankMode),
    MetadataError,
> {
    if configs.len() == 1 {
        Ok((0, BankMode::Unselected))
    } else {
        match first_config(configs, 0, |r: Seq<RegionView>| is_single_bank(r)) {
            Some(i) => Ok((i, BankMode::SingleBank)),
            None => match first_config(configs, 0, |r: Seq<RegionView>| is_dual_bank(r)) {
                Some(i) => Ok((i, BankMode::DualBank)),
                None => Err(MetadataError::UnknownBankMode),
            },
        }
    }
}

fn has_bank_exec(regions: &Vec<RawRegion>, bank: &[u8]) -> (r: bool)
    ensures
        r == has_bank(regions.deep_view(), bank@),
{
    let mut i: usize = 0;
    while i < regions.len()
        invariant
            0 <= i <= regions@.len(),
            forall|k: int| 0 <= k < i ==> !contains_seq((#[trigger] regions.deep_view()[k]).name, bank@),
        decreases regions.len() - i,
    {
        if contains(regions[i].name.as_slice(), bank) {
            assert(contains_seq(regions.deep_view()[i as int].name, bank@));
            return true;
        }
        i = i + 1;
    }
    false
}

proof fn lemma_first_config_bounds(
    configs: Seq<Seq<RegionView>>,
    i: int,
    pick: spec_fn(Seq<RegionView>) -> bool,
)
    ensures
        first_config(configs, i, pick) matches Some(k) ==> i <= k < configs.len() && pick(configs[k]),
    decreases configs.len() - i,
{
    if 0 <= i < configs.len() && !pick(configs[i]) {
        lemma_first_config_bounds(configs, i + 1, pick);
    }
}

/// Chooses the memory configuration the chip is built with, and the bank
/// feature that selects it.
pub fn select_memory_config(configs: Vec<Vec<RawRegion>>) -> (r: Result<
    (Vec<RawRegion>, BankMode),
    MetadataError,
>)
    ensures
        match (r, selected_config(configs.deep_view())) {
            (Ok((regions, mode)), Ok((i, m))) => regions.deep_view() == configs.deep_view()[i]
                && mode == m,
            (Err(e), Err(f)) => e == f,
            _ => false,
        },
{
    let ghost cv = configs.deep_view();
    if configs.len() == 1 {
        let mut configs = configs;
        let only = configs.remove(0);
        assert(only.deep_view() == cv[0]);
        return Ok((only, BankMode::Unselected));
    }
    let mut single: Option<usize> = None;
    let mut dual: Option<usize> = None;
    let mut i: usize = 0;
    while i < configs.len()
        invariant
            0 <= i <= configs@.len(),
            cv == configs.deep_view(),
            first_config(cv, 0, |r: Seq<RegionView>| is_single_bank(r)) == (match single {
                Some(k) => Some(k as int),
                None => first_config(cv, i as int, |r: Seq<RegionView>| is_single_bank(r)),
            }),
            first_config(cv, 0, |r: Seq<RegionView>| is_dual_bank(r)) == (match dual {
                Some(k) => Some(k as int),
                None => first_config(cv, i as int, |r: Seq<RegionView>| is_dual_bank(r)),
            }),
            single matches Some(k) ==> k < configs@.len(),
            dual matches Some(k) ==> k < configs@.len(),
        decreases configs.len() - i,
    {
        let b1 = has_bank_exec(&configs[i], "BANK_1".as_bytes());
        let b2 = has_bank_exec(&configs[i], "BANK_2".as_bytes());
        assert(configs[i as int].deep_view() == cv[i as int]);
        if b1 && !b2 {
            if single.is_none() {
                single = Some(i);
            }
        } else if b1 && b2 {
            if dual.is_none() {
                dual = Some(i);
            }
        }
        i = i + 1;
    }
    proof {
        lemma_first_config_bounds(cv, 0, |r: Seq<RegionView>| is_single_bank(r));
        lemma_first_config_bounds(cv, 0, |r: Seq<RegionView>| is_dual_bank(r));
    }
    let mut configs = configs;
    match single {
        Some(k) => {
            let regions = configs.remove(k);
            assert(regions.deep_view() == cv[k as int]);
            Ok((regions, BankMode::SingleBank))
        },
        None => match dual {
            Some(k) => {
                let regions = configs.remove(k);
                assert(regions.deep_view() == cv[k as int]);
                Ok((regions, BankMode::DualBank))
            },
            None => Err(MetadataError::UnknownBankMode),
        },
    }
}

} // verus!
