//! The memory layout of a chip for its linker scripts: the flash chain and
//! the RAM chain from their base addresses, the `PERSIST` and `PANIC` pieces
//! cut from the end of RAM, the bootloader partitions when they fit, and a
//! line for every other region of the chip.

use vstd::prelude::*;
use vstd::string::StringSliceAdditionalSpecFns;
use crate::bytes::{push_all, trim, trim_seq, starts_with, ends_with, starts_with_exec,
    ends_with_exec, eq_bytes, bytes_le, bytes_le_exec, copy_range};
use crate::chipmeta::{RawRegion, RegionView, RegionKind};
use crate::memtext::{region_line_text, push_region_line};
use crate::partitions::{FlashZone, OtaPartitions, OtaRefusal, FLASH_BASE, BOOTLOADER_MIN,
    ota_layout, compute_ota_partitions, embassy_boot_accepts, lemma_layout_passes_bootloader_checks};

verus! {

/// Start of RAM in the address space of every STM32.
pub const RAM_BASE: u64 = 0x2000_0000;

/// Below this much RAM no `PERSIST` and `PANIC` are cut off.
pub const PERSIST_MIN_RAM: u64 = 4 * 1024;

/// What is cut off the end of RAM for `PERSIST` and `PANIC` together.
pub const PERSIST_LENGTH: u64 = 1024;

/// The part of it that holds the panic dump.
pub const PANIC_LENGTH: u64 = 512;

/// The layout of a chip, in bytes.
#[derive(Debug)]
pub struct MemoryLayout {
    pub flash_origin: u64,
    pub flash_length: u64,
    pub ram_origin: u64,
    pub ram_length: u64,
    /// `(origin, length)` of the data kept across resets; `None` on chips
    /// with too little RAM.
    pub persist: Option<(u64, u64)>,
    /// `(origin, length)` of the panic dump, right after `persist`; present
    /// exactly when `persist` is.
    pub panic: Option<(u64, u64)>,
    /// `MEMORY { }` lines for every region that `FLASH` and `RAM` do not
    /// cover.
    pub extra_regions: Vec<Vec<u8>>,
    /// The smallest write of the flash, also the bootloader's swap buffer.
    pub write_size: u64,
    /// The bootloader partitions, or why they do not fit.
    pub ota: Result<OtaPartitions, OtaRefusal>,
}

/// A layout as a mathematical value.
pub struct LayoutView {
    pub flash_origin: u64,
    pub flash_length: u64,
    pub ram_origin: u64,
    pub ram_length: u64,
    pub persist: Option<(u64, u64)>,
    pub panic: Option<(u64, u64)>,
    pub extra_regions: Seq<Seq<u8>>,
    pub write_size: u64,
    pub ota: Result<OtaPartitions, OtaRefusal>,
}

impl View for MemoryLayout {
    type V = LayoutView;

    open spec fn view(&self) -> LayoutView {
        LayoutView {
            flash_origin: self.flash_origin,
            flash_length: self.flash_length,
            ram_origin: self.ram_origin,
            ram_length: self.ram_length,
            persist: self.persist,
            panic: self.panic,
            extra_regions: self.extra_regions.deep_view(),
            write_size: self.write_size,
            ota: self.ota,
        }
    }
}

impl DeepView for MemoryLayout {
    type V = LayoutView;

    open spec fn deep_view(&self) -> LayoutView {
        self@
    }
}

/// Indices, in order, of the first `n` regions that `pick` accepts.
pub open spec fn indices_where(rs: Seq<RegionView>, n: int, pick: spec_fn(RegionView) -> bool) -> Seq<
    usize,
>
    decreases n,
{
    if n <= 0 {
        Seq::empty()
    } else if pick(rs[n - 1]) {
        indices_where(rs, n - 1, pick).push((n - 1) as usize)
    } else {
        indices_where(rs, n - 1, pick)
    }
}

/// `x` put into `s` behind every element that `le` puts no later than it.
pub open spec fn insert_sorted(s: Seq<usize>, x: usize, le: spec_fn(usize, usize) -> bool) -> Seq<
    usize,
>
    decreases s.len(),
{
    if s.len() == 0 {
        seq![x]
    } else if le(s.last(), x) {
        s.push(x)
    } else {
        insert_sorted(s.drop_last(), x, le).push(s.last())
    }
}

/// `s` sorted by `le`, equal elements kept in their order: a stable sort.
pub open spec fn sorted_by(s: Seq<usize>, le: spec_fn(usize, usize) -> bool) -> Seq<usize>
    decreases s.len(),
{
    if s.len() == 0 {
        s
    } else {
        insert_sorted(sorted_by(s.drop_last(), le), s.last(), le)
    }
}

pub open spec fn flash_pick() -> spec_fn(RegionView) -> bool {
    |r: RegionView| r.kind == RegionKind::Flash && r.erase_write_size is Some
}

pub open spec fn ram_pick() -> spec_fn(RegionView) -> bool {
    |r: RegionView| r.kind == RegionKind::Ram
}

pub open spec fn by_address(rs: Seq<RegionView>) -> spec_fn(usize, usize) -> bool {
    |a: usize, b: usize| rs[a as int].address <= rs[b as int].address
}

/// The walk along regions in `order` from `end`: a region that starts at
/// `end` joins the chain and moves `end` past it, one that starts before is
/// passed over, one that starts after ends the walk.
pub open spec fn chain_walk(rs: Seq<RegionView>, order: Seq<usize>, k: int, end: int, chain: Seq<usize>) -> (
    int,
    Seq<usize>,
)
    decreases order.len() - k,
{
    if k < 0 || k >= order.len() {
        (end, chain)
    } else {
        let r = rs[order[k] as int];
        if r.address == end {
            chain_walk(rs, order, k + 1, end + r.size, chain.push(order[k]))
        } else if r.address > end {
            (end, chain)
        } else {
            chain_walk(rs, order, k + 1, end, chain)
        }
    }
}

pub open spec fn erase_of(r: RegionView) -> u64 {
    match r.erase_write_size {
        Some((e, _)) => e,
        None => 0,
    }
}

pub open spec fn write_of(r: RegionView) -> u64 {
    match r.erase_write_size {
        Some((_, w)) => w,
        None => 0,
    }
}

/// Largest erase size among the first `n` regions of `chain`.
pub open spec fn max_erase(rs: Seq<RegionView>, chain: Seq<usize>, n: int) -> u64
    decreases n,
{
    if n <= 0 {
        0
    } else {
        let m = max_erase(rs, chain, n - 1);
        let e = erase_of(rs[chain[n - 1] as int]);
        if e > m { e } else { m }
    }
}

/// The regions of `chain` as flash zones.
pub open spec fn zones_of(rs: Seq<RegionView>, chain: Seq<usize>) -> Seq<FlashZone> {
    Seq::new(
        chain.len(),
        |i: int|
            FlashZone {
                address: rs[chain[i] as int].address,
                size: rs[chain[i] as int].size,
                erase: erase_of(rs[chain[i] as int]),
                write: write_of(rs[chain[i] as int]),
            },
    )
}

/// Whether `FLASH` or `RAM`, ending at `flash_end` and `ram_end`, holds the
/// whole region.
pub open spec fn covered(r: RegionView, flash_end: int, ram_end: int) -> bool {
    let end = r.address + r.size;
    (r.address >= FLASH_BASE && end <= flash_end) || (r.address >= RAM_BASE && end <= ram_end)
}

pub open spec fn extra_pick(flash_end: int, ram_end: int) -> spec_fn(RegionView) -> bool {
    |r: RegionView| r.size > 0 && !covered(r, flash_end, ram_end)
}

/// Order by address, then by name.
pub open spec fn by_address_then_name(rs: Seq<RegionView>) -> spec_fn(usize, usize) -> bool {
    |a: usize, b: usize|
        rs[a as int].address < rs[b as int].address || (rs[a as int].address
            == rs[b as int].address && bytes_le(rs[a as int].name, rs[b as int].name))
}

pub open spec fn attrs_of(kind: RegionKind) -> Seq<u8> {
    match kind {
        RegionKind::Flash => "rx".spec_bytes(),
        RegionKind::Ram => "xrw".spec_bytes(),
        _ => "r".spec_bytes(),
    }
}

/// Whether the name is that of a window of an external bus.
pub open spec fn is_external_bus(name: Seq<u8>) -> bool {
    ||| starts_with(name, "FMC_".spec_bytes())
    ||| starts_with(name, "SDRAM_".spec_bytes())
    ||| starts_with(name, "OCTOSPI_".spec_bytes())
    ||| starts_with(name, "QUADSPI_".spec_bytes())
    ||| starts_with(name, "HSPI_".spec_bytes())
    ||| starts_with(name, "XSPI_".spec_bytes())
}

pub open spec fn name_exists(rs: Seq<RegionView>, name: Seq<u8>) -> bool {
    exists|j: int| 0 <= j < rs.len() && (#[trigger] rs[j]).name == name
}

pub open spec fn alias_suffix() -> Seq<u8> {
    "_ICODE".spec_bytes()
}

/// Why a region is listed commented out: a window of an external bus, or the
/// second window of a block that another region already names.
pub open spec fn comment_reason(rs: Seq<RegionView>, name: Seq<u8>) -> Option<Seq<u8>> {
    if is_external_bus(name) {
        Some(
            "внешняя шина: памяти нет, пока она не распаяна и не настроен контроллер".spec_bytes(),
        )
    } else if ends_with(name, alias_suffix()) {
        let stem = name.subrange(0, name.len() - alias_suffix().len());
        let dcode = stem + "_DCODE".spec_bytes();
        if name_exists(rs, stem) {
            Some("второе окно того же блока, что ".spec_bytes() + stem)
        } else if name_exists(rs, dcode) {
            Some("второе окно того же блока, что ".spec_bytes() + dcode)
        } else {
            None
        }
    } else {
        None
    }
}

/// The `MEMORY { }` line of region `r` among `rs`.
pub open spec fn extra_line(rs: Seq<RegionView>, r: RegionView) -> Seq<u8> {
    let line = region_line_text(r.name, attrs_of(r.kind), r.address, r.size);
    match comment_reason(rs, r.name) {
        None => line,
        Some(why) => "    /* ".spec_bytes() + trim_seq(line) + " - ".spec_bytes() + why
            + " */".spec_bytes(),
    }
}

/// Lines for every region of `rs` of non-zero size that `FLASH` (up to
/// `flash_end`) and `RAM` (up to `ram_end`) do not cover, by address and
/// name.
pub open spec fn extra_lines(rs: Seq<RegionView>, flash_end: int, ram_end: int) -> Seq<Seq<u8>> {
    let order = sorted_by(
        indices_where(rs, rs.len() as int, extra_pick(flash_end, ram_end)),
        by_address_then_name(rs),
    );
    Seq::new(order.len(), |k: int| extra_line(rs, rs[order[k] as int]))
}

/// The flash regions of `rs` (those with a sector size) in address order.
pub open spec fn flash_order(rs: Seq<RegionView>) -> Seq<usize> {
    sorted_by(indices_where(rs, rs.len() as int, flash_pick()), by_address(rs))
}

/// The flash chain of `rs`: where it ends, and the indices of the regions it
/// is made of, each starting where the one before ended, from `FLASH_BASE`.
pub open spec fn flash_chain(rs: Seq<RegionView>) -> (int, Seq<usize>) {
    chain_walk(rs, flash_order(rs), 0, FLASH_BASE as int, Seq::empty())
}

/// The RAM chain of `rs`: where it ends, and the indices of the RAM regions
/// it is made of, each starting where the one before ended, from `RAM_BASE`.
pub open spec fn ram_chain(rs: Seq<RegionView>) -> (int, Seq<usize>) {
    chain_walk(
        rs,
        sorted_by(indices_where(rs, rs.len() as int, ram_pick()), by_address(rs)),
        0,
        RAM_BASE as int,
        Seq::empty(),
    )
}

/// The layout of a chip with regions `rs`: `None` where there is no flash
/// chain or no RAM chain from the base addresses, or the flash reports a zero
/// sector or write size.
#[verifier::opaque]
pub open spec fn memory_layout(rs: Seq<RegionView>) -> Option<LayoutView> {
    let (end, chain) = flash_chain(rs);
    let flash_total = end - FLASH_BASE;
    if chain.len() == 0 || flash_total == 0 {
        None
    } else {
        let page = max_erase(rs, chain, chain.len() as int);
        let write = write_of(rs[chain[0] as int]);
        if page == 0 || write == 0 {
            None
        } else {
            let (ram_end, _) = ram_chain(rs);
            let ram_total = ram_end - RAM_BASE;
            if ram_total == 0 {
                None
            } else {
                let cut = ram_total >= PERSIST_MIN_RAM;
                let ram_length = if cut { ram_total - PERSIST_LENGTH } else { ram_total };
                Some(
                    LayoutView {
                        flash_origin: FLASH_BASE,
                        flash_length: flash_total as u64,
                        ram_origin: RAM_BASE,
                        ram_length: ram_length as u64,
                        persist: if cut {
                            Some(((RAM_BASE + ram_length) as u64, (PERSIST_LENGTH - PANIC_LENGTH) as u64))
                        } else {
                            None
                        },
                        panic: if cut {
                            Some(
                                (
                                    (RAM_BASE + ram_length + PERSIST_LENGTH - PANIC_LENGTH) as u64,
                                    PANIC_LENGTH,
                                ),
                            )
                        } else {
                            None
                        },
                        extra_regions: extra_lines(rs, end, ram_end),
                        write_size: write,
                        ota: ota_layout(zones_of(rs, chain), flash_total, page as int, write as int),
                    },
                )
            }
        }
    }
}

/// What the layout computation needs of the regions: no region reaches past
/// the end of the 64-bit address space.
pub open spec fn regions_in_range(rs: Seq<RegionView>) -> bool {
    forall|i: int| 0 <= i < rs.len() ==> (#[trigger] rs[i]).address + rs[i].size <= u64::MAX
}


fn flash_indices(regions: &[RawRegion]) -> (r: Vec<usize>)
    ensures
        r@ == indices_where(regions.deep_view(), regions@.len() as int, flash_pick()),
        forall|k: int| 0 <= k < r@.len() ==> (#[trigger] r@[k]) < regions@.len(),
{
    let ghost rs = regions.deep_view();
    let mut out: Vec<usize> = Vec::new();
    let mut i: usize = 0;
    while i < regions.len()
        invariant
            0 <= i <= regions@.len(),
            rs == regions.deep_view(),
            out@ == indices_where(rs, i as int, flash_pick()),
            forall|k: int| 0 <= k < out@.len() ==> (#[trigger] out@[k]) < i,
        decreases regions.len() - i,
    {
        assert(rs[i as int] == regions@[i as int]@);
        if regions[i].kind == RegionKind::Flash && regions[i].erase_write_size.is_some() {
            out.push(i);
        }
        i = i + 1;
    }
    out
}

fn ram_indices(regions: &[RawRegion]) -> (r: Vec<usize>)
    ensures
        r@ == indices_where(regions.deep_view(), regions@.len() as int, ram_pick()),
        forall|k: int| 0 <= k < r@.len() ==> (#[trigger] r@[k]) < regions@.len(),
{
    let ghost rs = regions.deep_view();
    let mut out: Vec<usize> = Vec::new();
    let mut i: usize = 0;
    while i < regions.len()
        invariant
            0 <= i <= regions@.len(),
            rs == regions.deep_view(),
            out@ == indices_where(rs, i as int, ram_pick()),
            forall|k: int| 0 <= k < out@.len() ==> (#[trigger] out@[k]) < i,
        decreases regions.len() - i,
    {
        assert(rs[i as int] == regions@[i as int]@);
        if regions[i].kind == RegionKind::Ram {
            out.push(i);
        }
        i = i + 1;
    }
    out
}

fn covered_exec(r: &RawRegion, flash_end: u64, ram_end: u64) -> (b: bool)
    requires
        r.address + r.size <= u64::MAX,
    ensures
        b == covered(r@, flash_end as int, ram_end as int),
{
    let end = r.address + r.size;
    (r.address >= FLASH_BASE && end <= flash_end) || (r.address >= RAM_BASE && end <= ram_end)
}

fn extra_indices(regions: &[RawRegion], flash_end: u64, ram_end: u64) -> (r: Vec<usize>)
    requires
        regions_in_range(regions.deep_view()),
    ensures
        r@ == indices_where(
            regions.deep_view(),
            regions@.len() as int,
            extra_pick(flash_end as int, ram_end as int),
        ),
        forall|k: int| 0 <= k < r@.len() ==> (#[trigger] r@[k]) < regions@.len(),
{
    let ghost rs = regions.deep_view();
    let mut out: Vec<usize> = Vec::new();
    let mut i: usize = 0;
    while i < regions.len()
        invariant
            0 <= i <= regions@.len(),
            rs == regions.deep_view(),
            regions_in_range(rs),
            out@ == indices_where(rs, i as int, extra_pick(flash_end as int, ram_end as int)),
            forall|k: int| 0 <= k < out@.len() ==> (#[trigger] out@[k]) < i,
        decreases regions.len() - i,
    {
        assert(rs[i as int] == regions@[i as int]@);
        if regions[i].size > 0 && !covered_exec(&regions[i], flash_end, ram_end) {
            out.push(i);
        }
        i = i + 1;
    }
    out
}

/// The order used for sorting: by address, or by address then name.
pub open spec fn order_of(rs: Seq<RegionView>, with_name: bool) -> spec_fn(usize, usize) -> bool {
    if with_name { by_address_then_name(rs) } else { by_address(rs) }
}

fn le_exec(regions: &[RawRegion], a: usize, b: usize, with_name: bool) -> (r: bool)
    requires
        a < regions@.len(),
        b < regions@.len(),
    ensures
        r == (order_of(regions.deep_view(), with_name))(a, b),
{
    let ghost rs = regions.deep_view();
    assert(rs[a as int] == regions@[a as int]@);
    assert(rs[b as int] == regions@[b as int]@);
    if with_name {
        regions[a].address < regions[b].address || (regions[a].address == regions[b].address
            && bytes_le_exec(regions[a].name.as_slice(), regions[b].name.as_slice()))
    } else {
        regions[a].address <= regions[b].address
    }
}

pub(crate) proof fn lemma_insert_at(s: Seq<usize>, x: usize, le: spec_fn(usize, usize) -> bool, p: int)
    requires
        0 <= p <= s.len(),
        p == 0 || le(s[p - 1], x),
        forall|j: int| p <= j < s.len() ==> !le(#[trigger] s[j], x),
    ensures
        insert_sorted(s, x, le) == s.insert(p, x),
    decreases s.len(),
{
    if s.len() == 0 {
        assert(s.insert(0, x) =~= seq![x]);
    } else if p == s.len() {
        assert(s.insert(p, x) =~= s.push(x));
    } else {
        assert(!le(s[s.len() - 1], x));
        let t = s.drop_last();
        assert forall|j: int| p <= j < t.len() implies !le(#[trigger] t[j], x) by {
            assert(t[j] == s[j]);
        }
        lemma_insert_at(t, x, le, p);
        assert(s.insert(p, x) =~= t.insert(p, x).push(s.last()));
    }
}

/// `idx` sorted stably by `order_of(.., with_name)`.
fn sort_indices(regions: &[RawRegion], idx: &Vec<usize>, with_name: bool) -> (r: Vec<usize>)
    requires
        forall|k: int| 0 <= k < idx@.len() ==> (#[trigger] idx@[k]) < regions@.len(),
    ensures
        r@ == sorted_by(idx@, order_of(regions.deep_view(), with_name)),
        forall|k: int| 0 <= k < r@.len() ==> (#[trigger] r@[k]) < regions@.len(),
{
    let ghost le = order_of(regions.deep_view(), with_name);
    let mut out: Vec<usize> = Vec::new();
    let mut m: usize = 0;
    assert(idx@.subrange(0, 0) =~= Seq::<usize>::empty());
    while m < idx.len()
        invariant
            0 <= m <= idx@.len(),
            le == order_of(regions.deep_view(), with_name),
            forall|k: int| 0 <= k < idx@.len() ==> (#[trigger] idx@[k]) < regions@.len(),
            out@ == sorted_by(idx@.subrange(0, m as int), le),
            forall|k: int| 0 <= k < out@.len() ==> (#[trigger] out@[k]) < regions@.len(),
        decreases idx.len() - m,
    {
        let x = idx[m];
        let mut p: usize = out.len();
        while p > 0 && !le_exec(regions, out[p - 1], x, with_name)
            invariant
                0 <= p <= out@.len(),
                x < regions@.len(),
                le == order_of(regions.deep_view(), with_name),
                forall|k: int| 0 <= k < out@.len() ==> (#[trigger] out@[k]) < regions@.len(),
                forall|j: int| p <= j < out@.len() ==> !le(#[trigger] out@[j], x),
            decreases p,
        {
            p = p - 1;
        }
        proof {
            lemma_insert_at(out@, x, le, p as int);
            assert(idx@.subrange(0, m + 1).drop_last() =~= idx@.subrange(0, m as int));
        }
        let ghost before = out@;
        out.insert(p, x);
        assert forall|k: int| 0 <= k < out@.len() implies (#[trigger] out@[k]) < regions@.len() by {
            if k < p {
                assert(out@[k] == before[k]);
            } else if k > p {
                assert(out@[k] == before[k - 1]);
            }
        }
        m = m + 1;
    }
    assert(idx@.subrange(0, idx@.len() as int) == idx@);
    out
}

/// The chain walk from `base` along `order`.
fn walk_chain(regions: &[RawRegion], order: &Vec<usize>, base: u64) -> (r: (u64, Vec<usize>))
    requires
        regions_in_range(regions.deep_view()),
        forall|k: int| 0 <= k < order@.len() ==> (#[trigger] order@[k]) < regions@.len(),
    ensures
        chain_walk(regions.deep_view(), order@, 0, base as int, Seq::empty()) == (
            r.0 as int,
            r.1@,
        ),
        forall|k: int| 0 <= k < r.1@.len() ==> (#[trigger] r.1@[k]) < regions@.len(),
        r.0 >= base,
{
    let ghost rs = regions.deep_view();
    let mut end: u64 = base;
    let mut chain: Vec<usize> = Vec::new();
    let mut k: usize = 0;
    while k < order.len()
        invariant
            0 <= k <= order@.len(),
            rs == regions.deep_view(),
            regions_in_range(rs),
            forall|j: int| 0 <= j < order@.len() ==> (#[trigger] order@[j]) < regions@.len(),
            forall|j: int| 0 <= j < chain@.len() ==> (#[trigger] chain@[j]) < regions@.len(),
            end >= base,
            chain_walk(rs, order@, 0, base as int, Seq::empty()) == chain_walk(
                rs,
                order@,
                k as int,
                end as int,
                chain@,
            ),
        ensures
            chain_walk(rs, order@, 0, base as int, Seq::empty()) == (end as int, chain@),
        decreases order.len() - k,
    {
        let i = order[k];
        let ghost ri = rs[i as int];
        assert(ri == regions@[i as int]@);
        assert(ri.address + ri.size <= u64::MAX);
        if regions[i].address == end {
            end = end + regions[i].size;
            chain.push(i);
        } else if regions[i].address > end {
            break;
        }
        k = k + 1;
    }
    (end, chain)
}


fn max_erase_exec(regions: &[RawRegion], chain: &Vec<usize>) -> (r: u64)
    requires
        forall|k: int| 0 <= k < chain@.len() ==> (#[trigger] chain@[k]) < regions@.len(),
    ensures
        r == max_erase(regions.deep_view(), chain@, chain@.len() as int),
{
    let ghost rs = regions.deep_view();
    let mut m: u64 = 0;
    let mut k: usize = 0;
    while k < chain.len()
        invariant
            0 <= k <= chain@.len(),
            rs == regions.deep_view(),
            forall|j: int| 0 <= j < chain@.len() ==> (#[trigger] chain@[j]) < regions@.len(),
            m == max_erase(rs, chain@, k as int),
        decreases chain.len() - k,
    {
        let i = chain[k];
        assert(rs[i as int] == regions@[i as int]@);
        let e = match regions[i].erase_write_size {
            Some((e, _)) => e,
            None => 0,
        };
        if e > m {
            m = e;
        }
        k = k + 1;
    }
    m
}

fn zones_exec(regions: &[RawRegion], chain: &Vec<usize>) -> (r: Vec<FlashZone>)
    requires
        forall|k: int| 0 <= k < chain@.len() ==> (#[trigger] chain@[k]) < regions@.len(),
    ensures
        r@ == zones_of(regions.deep_view(), chain@),
{
    let ghost rs = regions.deep_view();
    let mut out: Vec<FlashZone> = Vec::new();
    let mut k: usize = 0;
    while k < chain.len()
        invariant
            0 <= k <= chain@.len(),
            rs == regions.deep_view(),
            forall|j: int| 0 <= j < chain@.len() ==> (#[trigger] chain@[j]) < regions@.len(),
            out@ == zones_of(rs, chain@.subrange(0, k as int)),
        decreases chain.len() - k,
    {
        let i = chain[k];
        assert(rs[i as int] == regions@[i as int]@);
        let (erase, write) = match regions[i].erase_write_size {
            Some((e, w)) => (e, w),
            None => (0, 0),
        };
        out.push(FlashZone { address: regions[i].address, size: regions[i].size, erase, write });
        k = k + 1;
        assert(out@ =~= zones_of(rs, chain@.subrange(0, k as int)));
    }
    assert(chain@.subrange(0, chain@.len() as int) == chain@);
    out
}

fn name_exists_exec(regions: &[RawRegion], name: &[u8]) -> (r: bool)
    ensures
        r == name_exists(regions.deep_view(), name@),
{
    let ghost rs = regions.deep_view();
    let mut j: usize = 0;
    while j < regions.len()
        invariant
            0 <= j <= regions@.len(),
            rs == regions.deep_view(),
            forall|k: int| 0 <= k < j ==> (#[trigger] rs[k]).name != name@,
        decreases regions.len() - j,
    {
        assert(rs[j as int] == regions@[j as int]@);
        if eq_bytes(regions[j].name.as_slice(), name) {
            return true;
        }
        j = j + 1;
    }
    false
}

fn is_external_bus_exec(name: &[u8]) -> (r: bool)
    ensures
        r == is_external_bus(name@),
{
    starts_with_exec(name, "FMC_".as_bytes()) || starts_with_exec(name, "SDRAM_".as_bytes())
        || starts_with_exec(name, "OCTOSPI_".as_bytes()) || starts_with_exec(
        name,
        "QUADSPI_".as_bytes(),
    ) || starts_with_exec(name, "HSPI_".as_bytes()) || starts_with_exec(name, "XSPI_".as_bytes())
}

fn comment_reason_exec(regions: &[RawRegion], name: &[u8]) -> (r: Option<Vec<u8>>)
    ensures
        match (r, comment_reason(regions.deep_view(), name@)) {
            (Some(x), Some(y)) => x@ == y,
            (None, None) => true,
            _ => false,
        },
{
    if is_external_bus_exec(name) {
        let mut why: Vec<u8> = Vec::new();
        push_all(
            &mut why,
            "внешняя шина: памяти нет, пока она не распаяна и не настроен контроллер".as_bytes(),
        );
        return Some(why);
    }
    let suffix = "_ICODE".as_bytes();
    if !ends_with_exec(name, suffix) {
        return None;
    }
    let stem = copy_range(name, 0, name.len() - suffix.len());
    let mut dcode: Vec<u8> = Vec::new();
    push_all(&mut dcode, stem.as_slice());
    push_all(&mut dcode, "_DCODE".as_bytes());
    let mut why: Vec<u8> = Vec::new();
    push_all(&mut why, "второе окно того же блока, что ".as_bytes());
    if name_exists_exec(regions, stem.as_slice()) {
        push_all(&mut why, stem.as_slice());
        Some(why)
    } else if name_exists_exec(regions, dcode.as_slice()) {
        push_all(&mut why, dcode.as_slice());
        Some(why)
    } else {
        None
    }
}

fn attrs_exec(kind: RegionKind) -> (r: &'static str)
    ensures
        r.spec_bytes() == attrs_of(kind),
{
    match kind {
        RegionKind::Flash => "rx",
        RegionKind::Ram => "xrw",
        _ => "r",
    }
}

fn extra_line_exec(regions: &[RawRegion], r: &RawRegion) -> (line: Vec<u8>)
    ensures
        line@ == extra_line(regions.deep_view(), r@),
{
    let mut plain: Vec<u8> = Vec::new();
    push_region_line(&mut plain, r.name.as_slice(), attrs_exec(r.kind).as_bytes(), r.address, r.size);
    assert(plain@ =~= region_line_text(r.name@, attrs_of(r.kind), r.address, r.size));
    match comment_reason_exec(regions, r.name.as_slice()) {
        None => plain,
        Some(why) => {
            let mut out: Vec<u8> = Vec::new();
            push_all(&mut out, "    /* ".as_bytes());
            let trimmed = trim(plain.as_slice());
            push_all(&mut out, trimmed.as_slice());
            push_all(&mut out, " - ".as_bytes());
            push_all(&mut out, why.as_slice());
            push_all(&mut out, " */".as_bytes());
            out
        },
    }
}

/// `MEMORY { }` lines for every region of non-zero size that `FLASH` (up to
/// `flash_end`) and `RAM` (up to `ram_end`) do not cover, by address and
/// name; windows of external buses and second windows of a block that
/// another region names are commented out, with the reason.
pub fn extra_region_lines(regions: &[RawRegion], flash_end: u64, ram_end: u64) -> (r: Vec<Vec<u8>>)
    requires
        regions_in_range(regions.deep_view()),
    ensures
        r.deep_view() == extra_lines(regions.deep_view(), flash_end as int, ram_end as int),
{
    let ghost rs = regions.deep_view();
    let candidates = extra_indices(regions, flash_end, ram_end);
    let order = sort_indices(regions, &candidates, true);
    let ghost want = extra_lines(rs, flash_end as int, ram_end as int);
    let mut out: Vec<Vec<u8>> = Vec::new();
    let mut k: usize = 0;
    while k < order.len()
        invariant
            0 <= k <= order@.len(),
            rs == regions.deep_view(),
            order@ == sorted_by(
                indices_where(rs, rs.len() as int, extra_pick(flash_end as int, ram_end as int)),
                by_address_then_name(rs),
            ),
            want == extra_lines(rs, flash_end as int, ram_end as int),
            forall|j: int| 0 <= j < order@.len() ==> (#[trigger] order@[j]) < regions@.len(),
            out@.len() == k,
            forall|j: int| 0 <= j < k ==> (#[trigger] out.deep_view()[j]) == want[j],
        decreases order.len() - k,
    {
        let i = order[k];
        assert(rs[i as int] == regions@[i as int]@);
        let line = extra_line_exec(regions, &regions[i]);
        let ghost before = out.deep_view();
        out.push(line);
        assert forall|j: int| 0 <= j < k + 1 implies (#[trigger] out.deep_view()[j]) == want[j] by {
            if j < k {
                assert(out.deep_view()[j] == before[j]);
            }
        }
        k = k + 1;
    }
    assert(out.deep_view() =~= want);
    out
}

/// The layout of a chip: the flash chain from `FLASH_BASE` (flash regions in
/// address order, each starting where the last ended), the RAM chain from
/// `RAM_BASE`, `PERSIST` and `PANIC` cut from the end of RAM on chips with
/// enough of it, lines for the other regions, and the bootloader partitions
/// over the flash chain. `None` where there is nothing to compute from.
pub fn compute_memory_layout(regions: &[RawRegion]) -> (r: Option<MemoryLayout>)
    requires
        regions_in_range(regions.deep_view()),
    ensures
        match (r, memory_layout(regions.deep_view())) {
            (Some(x), Some(y)) => x@ == y,
            (None, None) => true,
            _ => false,
        },
        r matches Some(l) ==> {
            &&& l.flash_origin == FLASH_BASE && l.flash_length > 0
            &&& l.ram_origin == RAM_BASE && l.ram_length > 0
            &&& l.write_size > 0
            &&& (l.persist is Some <==> l.panic is Some)
            &&& l.persist matches Some((po, pl)) ==> {
                &&& po == l.ram_origin + l.ram_length
                &&& pl > 0
                &&& l.panic matches Some((qo, ql)) && qo == po + pl && ql > 0
            }
            &&& l.ota matches Ok(p) ==> {
                &&& exists|page: int| page > 0 && #[trigger] embassy_boot_accepts(p, page, l.write_size as int)
                &&& p.bootloader_length >= BOOTLOADER_MIN
                &&& p.bootloader_state_origin == l.flash_origin + p.bootloader_length
                &&& p.dfu_origin + p.dfu_length <= l.flash_origin + l.flash_length
            }
        },
{
    reveal(memory_layout);
    let ghost rs = regions.deep_view();
    let flash_candidates = flash_indices(regions);
    let flash = sort_indices(regions, &flash_candidates, false);
    let (end, chain) = walk_chain(regions, &flash, FLASH_BASE);
    let flash_total = end - FLASH_BASE;
    if chain.len() == 0 || flash_total == 0 {
        return None;
    }
    let page_size = max_erase_exec(regions, &chain);
    let first = chain[0];
    assert(rs[first as int] == regions@[first as int]@);
    let write_size = match regions[first].erase_write_size {
        Some((_, w)) => w,
        None => 0,
    };
    if page_size == 0 || write_size == 0 {
        return None;
    }
    let ram_candidates = ram_indices(regions);
    let ram = sort_indices(regions, &ram_candidates, false);
    let (ram_end, _ram_chain) = walk_chain(regions, &ram, RAM_BASE);
    let ram_total = ram_end - RAM_BASE;
    if ram_total == 0 {
        return None;
    }
    let (ram_length, persist, panic) = if ram_total >= PERSIST_MIN_RAM {
        let ram_length = ram_total - PERSIST_LENGTH;
        let persist_length = PERSIST_LENGTH - PANIC_LENGTH;
        (
            ram_length,
            Some((RAM_BASE + ram_length, persist_length)),
            Some((RAM_BASE + ram_length + persist_length, PANIC_LENGTH)),
        )
    } else {
        (ram_total, None, None)
    };
    proof {
        assert(rs[chain@[0] as int].address + rs[chain@[0] as int].size <= u64::MAX);
    }
    let zones = zones_exec(regions, &chain);
    let extra_regions = extra_region_lines(regions, FLASH_BASE + flash_total, ram_end);
    let ota = compute_ota_partitions(zones.as_slice(), flash_total, page_size, write_size);
    proof {
        if let Ok(p) = ota {
            assert(embassy_boot_accepts(p, page_size as int, write_size as int));
        }
    }
    Some(
        MemoryLayout {
            flash_origin: FLASH_BASE,
            flash_length: flash_total,
            ram_origin: RAM_BASE,
            ram_length,
            persist,
            panic,
            extra_regions,
            write_size,
            ota,
        },
    )
}

/// Whether every region of `regions` ends within the 64-bit address space:
/// `compute_memory_layout` needs it.
pub fn regions_fit(regions: &[RawRegion]) -> (r: bool)
    ensures
        r == regions_in_range(regions.deep_view()),
{
    let ghost rs = regions.deep_view();
    let mut i: usize = 0;
    while i < regions.len()
        invariant
            i <= regions@.len(),
            rs == regions.deep_view(),
            forall|j: int| 0 <= j < i ==> (#[trigger] rs[j]).address + rs[j].size <= u64::MAX,
        decreases regions.len() - i,
    {
        assert(rs[i as int] == regions@[i as int].deep_view());
        let r = &regions[i];
        if r.size > 0xFFFF_FFFF_FFFF_FFFF - r.address {
            return false;
        }
        i = i + 1;
    }
    true
}


/// Whether `s` is ordered by `le`: every element comes no later than every
/// later one.
pub open spec fn ordered_by(s: Seq<usize>, le: spec_fn(usize, usize) -> bool) -> bool {
    forall|i: int, j: int| 0 <= i < j < s.len() ==> le(#[trigger] s[i], #[trigger] s[j])
}

/// Whether `le` orders any two values one way or the other, and passes
/// along chains.
pub open spec fn total_order(le: spec_fn(usize, usize) -> bool) -> bool {
    &&& forall|a: usize, b: usize| #[trigger] le(a, b) || le(b, a)
    &&& forall|a: usize, b: usize, c: usize|
        #[trigger] le(a, b) && #[trigger] le(b, c) ==> le(a, c)
}

proof fn lemma_insert_sorted_parts(s: Seq<usize>, x: usize, le: spec_fn(usize, usize) -> bool)
    ensures
        insert_sorted(s, x, le).to_multiset() == s.to_multiset().insert(x),
        insert_sorted(s, x, le).len() == s.len() + 1,
    decreases s.len(),
{
    broadcast use vstd::seq_lib::to_multiset_build;
    broadcast use vstd::multiset::group_multiset_axioms;

    if s.len() == 0 {
        assert(seq![x] =~= Seq::<usize>::empty().push(x));
        assert(s =~= Seq::<usize>::empty());
    } else if le(s.last(), x) {
    } else {
        let t = s.drop_last();
        lemma_insert_sorted_parts(t, x, le);
        assert(s =~= t.push(s.last()));
        assert(insert_sorted(s, x, le).to_multiset() =~= t.to_multiset().insert(x).insert(s.last()));
        assert(s.to_multiset().insert(x) =~= t.to_multiset().insert(s.last()).insert(x));
    }
}

proof fn lemma_insert_sorted_ordered(s: Seq<usize>, x: usize, le: spec_fn(usize, usize) -> bool)
    requires
        ordered_by(s, le),
        total_order(le),
    ensures
        ordered_by(insert_sorted(s, x, le), le),
    decreases s.len(),
{
    broadcast use vstd::seq_lib::to_multiset_contains;
    broadcast use vstd::multiset::group_multiset_axioms;

    let r = insert_sorted(s, x, le);
    if s.len() == 0 {
    } else if le(s.last(), x) {
        assert forall|i: int, j: int| 0 <= i < j < r.len() implies le(#[trigger] r[i], #[trigger] r[j]) by {
            if j == r.len() - 1 && i < s.len() - 1 {
                assert(le(s[i], s[s.len() - 1]));
            }
        }
    } else {
        let t = s.drop_last();
        let last = s.last();
        assert(ordered_by(t, le));
        lemma_insert_sorted_ordered(t, x, le);
        lemma_insert_sorted_parts(t, x, le);
        let u = insert_sorted(t, x, le);
        assert(le(x, last));
        assert forall|k: int| 0 <= k < u.len() implies le(#[trigger] u[k], last) by {
            assert(u.to_multiset().contains(u[k]));
            assert(t.to_multiset().insert(x).contains(u[k]));
            if u[k] != x {
                assert(t.to_multiset().contains(u[k]));
                assert(t.contains(u[k]));
                let m = choose|m: int| 0 <= m < t.len() && t[m] == u[k];
                assert(le(s[m], s[s.len() - 1]));
            }
        }
        assert forall|i: int, j: int| 0 <= i < j < r.len() implies le(#[trigger] r[i], #[trigger] r[j]) by {
            if j == r.len() - 1 {
                assert(r[i] == u[i]);
            } else {
                assert(r[i] == u[i] && r[j] == u[j]);
            }
        }
    }
}

/// A stable sort by a total order gives the same elements, ordered.
pub proof fn lemma_sorted_by_sorts(s: Seq<usize>, le: spec_fn(usize, usize) -> bool)
    requires
        total_order(le),
    ensures
        ordered_by(sorted_by(s, le), le),
        sorted_by(s, le).to_multiset() == s.to_multiset(),
        sorted_by(s, le).len() == s.len(),
    decreases s.len(),
{
    broadcast use vstd::seq_lib::to_multiset_build;

    if s.len() > 0 {
        let t = s.drop_last();
        lemma_sorted_by_sorts(t, le);
        lemma_insert_sorted_ordered(sorted_by(t, le), s.last(), le);
        lemma_insert_sorted_parts(sorted_by(t, le), s.last(), le);
        assert(s =~= t.push(s.last()));
    } else {
        assert(s.to_multiset() =~= sorted_by(s, le).to_multiset());
    }
}

/// Every index that `indices_where` gives is that of a region `pick` accepts.
proof fn lemma_indices_where_picked(rs: Seq<RegionView>, n: int, pick: spec_fn(RegionView) -> bool)
    requires
        n <= rs.len() <= usize::MAX,
    ensures
        forall|k: int|
            0 <= k < indices_where(rs, n, pick).len() ==> {
                &&& (#[trigger] indices_where(rs, n, pick)[k]) < rs.len()
                &&& pick(rs[indices_where(rs, n, pick)[k] as int])
            },
    decreases n,
{
    if n > 0 {
        lemma_indices_where_picked(rs, n - 1, pick);
        let prev = indices_where(rs, n - 1, pick);
        let cur = indices_where(rs, n, pick);
        assert forall|k: int| 0 <= k < cur.len() implies {
            &&& (#[trigger] cur[k]) < rs.len()
            &&& pick(rs[cur[k] as int])
        } by {
            if k < prev.len() {
                assert(cur[k] == prev[k]);
            }
        }
    }
}

/// A stable sort keeps the elements it is given, whatever the order.
proof fn lemma_sorted_by_keeps(s: Seq<usize>, le: spec_fn(usize, usize) -> bool)
    ensures
        sorted_by(s, le).to_multiset() == s.to_multiset(),
    decreases s.len(),
{
    broadcast use vstd::seq_lib::to_multiset_build;

    if s.len() > 0 {
        let t = s.drop_last();
        lemma_sorted_by_keeps(t, le);
        lemma_insert_sorted_parts(sorted_by(t, le), s.last(), le);
        assert(s =~= t.push(s.last()));
    } else {
        assert(s.to_multiset() =~= sorted_by(s, le).to_multiset());
    }
}

/// The regions that `pick` accepts, in any order, are regions of `rs` that
/// `pick` accepts.
proof fn lemma_order_picked(rs: Seq<RegionView>, pick: spec_fn(RegionView) -> bool, le: spec_fn(usize, usize) -> bool)
    requires
        rs.len() <= usize::MAX,
    ensures
        forall|m: int|
            0 <= m < sorted_by(indices_where(rs, rs.len() as int, pick), le).len() ==> {
                &&& (#[trigger] sorted_by(indices_where(rs, rs.len() as int, pick), le)[m]) < rs.len()
                &&& pick(rs[sorted_by(indices_where(rs, rs.len() as int, pick), le)[m] as int])
            },
{
    broadcast use vstd::seq_lib::to_multiset_contains;

    let idx = indices_where(rs, rs.len() as int, pick);
    let o = sorted_by(idx, le);
    lemma_indices_where_picked(rs, rs.len() as int, pick);
    lemma_sorted_by_keeps(idx, le);
    assert forall|m: int| 0 <= m < o.len() implies {
        &&& (#[trigger] o[m]) < rs.len()
        &&& pick(rs[o[m] as int])
    } by {
        assert(o.contains(o[m]));
        assert(o.to_multiset().count(o[m]) > 0);
        assert(idx.to_multiset().count(o[m]) > 0);
        let k = choose|k: int| 0 <= k < idx.len() && idx[k] == o[m];
        assert(idx[k] < rs.len());
    }
}

/// The flash regions in address order are flash regions of `rs`.
proof fn lemma_flash_order_picked(rs: Seq<RegionView>)
    requires
        rs.len() <= usize::MAX,
    ensures
        forall|m: int|
            0 <= m < flash_order(rs).len() ==> {
                &&& (#[trigger] flash_order(rs)[m]) < rs.len()
                &&& rs[flash_order(rs)[m] as int].kind == RegionKind::Flash
                &&& rs[flash_order(rs)[m] as int].erase_write_size is Some
            },
{
    lemma_order_picked(rs, flash_pick(), by_address(rs));
    let o = flash_order(rs);
    assert forall|m: int| 0 <= m < o.len() implies {
        &&& (#[trigger] o[m]) < rs.len()
        &&& rs[o[m] as int].kind == RegionKind::Flash
        &&& rs[o[m] as int].erase_write_size is Some
    } by {
        assert(flash_pick()(rs[o[m] as int]));
    }
}

/// What the chain walk adds comes from `order`, in `order` of regions that
/// start at or after `base` and end by the end of the walk; the end only
/// moves on, and stays within the address space.
proof fn lemma_chain_walk_members(
    rs: Seq<RegionView>,
    order: Seq<usize>,
    k: int,
    end: int,
    chain: Seq<usize>,
    base: int,
)
    requires
        regions_in_range(rs),
        base <= end <= u64::MAX,
        forall|m: int| 0 <= m < order.len() ==> (#[trigger] order[m]) < rs.len(),
        forall|j: int|
            0 <= j < chain.len() ==> {
                &&& order.contains(#[trigger] chain[j])
                &&& base <= rs[chain[j] as int].address
                &&& rs[chain[j] as int].address + rs[chain[j] as int].size <= end
            },
    ensures
        end <= chain_walk(rs, order, k, end, chain).0 <= u64::MAX,
        forall|j: int|
            0 <= j < chain_walk(rs, order, k, end, chain).1.len() ==> {
                &&& order.contains(#[trigger] chain_walk(rs, order, k, end, chain).1[j])
                &&& base <= rs[chain_walk(rs, order, k, end, chain).1[j] as int].address
                &&& rs[chain_walk(rs, order, k, end, chain).1[j] as int].address
                    + rs[chain_walk(rs, order, k, end, chain).1[j] as int].size
                    <= chain_walk(rs, order, k, end, chain).0
            },
    decreases order.len() - k,
{
    if 0 <= k < order.len() {
        let i = order[k];
        let r = rs[i as int];
        assert(order.contains(i));
        assert(r.address + r.size <= u64::MAX);
        if r.address == end {
            let c2 = chain.push(i);
            assert forall|j: int| 0 <= j < c2.len() implies {
                &&& order.contains(#[trigger] c2[j])
                &&& base <= rs[c2[j] as int].address
                &&& rs[c2[j] as int].address + rs[c2[j] as int].size <= end + r.size
            } by {
                if j < chain.len() {
                    assert(c2[j] == chain[j]);
                }
            }
            lemma_chain_walk_members(rs, order, k + 1, end + r.size, c2, base);
        } else if r.address > end {
        } else {
            lemma_chain_walk_members(rs, order, k + 1, end, chain, base);
        }
    }
}

/// The largest erase size among the first `n` regions of a chain is at
/// least that of each of them, and is that of one of them.
proof fn lemma_max_erase_is_largest(rs: Seq<RegionView>, chain: Seq<usize>, n: int)
    requires
        0 <= n <= chain.len(),
    ensures
        forall|k: int| 0 <= k < n ==> erase_of(rs[#[trigger] chain[k] as int]) <= max_erase(rs, chain, n),
        n > 0 ==> exists|k: int| 0 <= k < n && erase_of(rs[#[trigger] chain[k] as int]) == max_erase(rs, chain, n),
    decreases n,
{
    if n > 0 {
        lemma_max_erase_is_largest(rs, chain, n - 1);
        if n > 1 {
            let k0 = choose|k: int| 0 <= k < n - 1 && erase_of(rs[#[trigger] chain[k] as int]) == max_erase(rs, chain, n - 1);
            assert(0 <= k0 < n);
        }
        assert(erase_of(rs[chain[n - 1] as int]) == erase_of(rs[chain[n - 1] as int]));
    }
}

/// The bootloader partitions of a layout are cut in pages as large as the
/// largest sector of the flash. `FLASH` is made of flash regions of the chip
/// that lie inside it; where the layout has partitions, they pass the
/// bootloader's checks with a page that is no smaller than the erase size of
/// any of those regions and is the erase size of one of them, so `ACTIVE`
/// and `DFU`, whole numbers of pages, hold whole sectors of every region.
pub proof fn lemma_ota_page_is_the_largest_sector(rs: Seq<RegionView>)
    requires
        rs.len() <= usize::MAX,
        regions_in_range(rs),
    ensures
        memory_layout(rs) matches Some(l) ==> {
            let chain = flash_chain(rs).1;
            &&& forall|k: int|
                0 <= k < chain.len() ==> {
                    &&& (#[trigger] chain[k]) < rs.len()
                    &&& rs[chain[k] as int].kind == RegionKind::Flash
                    &&& rs[chain[k] as int].erase_write_size is Some
                    &&& l.flash_origin <= rs[chain[k] as int].address
                    &&& rs[chain[k] as int].address + rs[chain[k] as int].size <= l.flash_origin
                        + l.flash_length
                }
            &&& l.ota matches Ok(p) ==> exists|page: int|
                {
                    &&& page > 0
                    &&& #[trigger] embassy_boot_accepts(p, page, l.write_size as int)
                    &&& forall|k: int|
                        0 <= k < chain.len() ==> erase_of(rs[#[trigger] chain[k] as int]) <= page
                    &&& exists|k: int|
                        0 <= k < chain.len() && erase_of(rs[#[trigger] chain[k] as int]) == page
                }
        },
{
    reveal(memory_layout);
    let (end, chain) = flash_chain(rs);
    let order = flash_order(rs);
    lemma_flash_order_picked(rs);
    lemma_chain_walk_members(rs, order, 0, FLASH_BASE as int, Seq::empty(), FLASH_BASE as int);
    if let Some(l) = memory_layout(rs) {
        assert forall|k: int| 0 <= k < chain.len() implies {
            &&& (#[trigger] chain[k]) < rs.len()
            &&& rs[chain[k] as int].kind == RegionKind::Flash
            &&& rs[chain[k] as int].erase_write_size is Some
            &&& l.flash_origin <= rs[chain[k] as int].address
            &&& rs[chain[k] as int].address + rs[chain[k] as int].size <= l.flash_origin
                + l.flash_length
        } by {
            assert(order.contains(chain[k]));
            let m = choose|m: int| 0 <= m < order.len() && order[m] == chain[k];
            assert(order[m] < rs.len());
        }
        let page = max_erase(rs, chain, chain.len() as int);
        let write = write_of(rs[chain[0] as int]);
        lemma_max_erase_is_largest(rs, chain, chain.len() as int);
        lemma_layout_passes_bootloader_checks(
            zones_of(rs, chain),
            end - FLASH_BASE,
            page as int,
            write as int,
        );
        if let Ok(p) = l.ota {
            assert(embassy_boot_accepts(p, page as int, l.write_size as int));
        }
    }
}

/// `FLASH` spans the flash chain up to its end, and `RAM`, `PERSIST` and
/// `PANIC`, one after the other, span the RAM chain up to its end: the two
/// pieces, `PANIC` last and together `PERSIST_LENGTH` long, are cut off
/// exactly when the chain holds at least `PERSIST_MIN_RAM`, and otherwise
/// `RAM` is the whole chain.
pub proof fn lemma_layout_spans_the_chains(rs: Seq<RegionView>)
    requires
        rs.len() <= usize::MAX,
        regions_in_range(rs),
    ensures
        memory_layout(rs) matches Some(l) ==> {
            let ram_end = ram_chain(rs).0;
            &&& l.flash_origin + l.flash_length == flash_chain(rs).0
            &&& (l.persist is Some <==> ram_end - RAM_BASE >= PERSIST_MIN_RAM)
            &&& l.persist is None ==> l.ram_origin + l.ram_length == ram_end
            &&& l.persist matches Some((po, pl)) ==> {
                &&& po == l.ram_origin + l.ram_length
                &&& l.panic matches Some((qo, ql)) && qo == po + pl && qo + ql == ram_end && pl + ql
                    == PERSIST_LENGTH
            }
        },
{
    reveal(memory_layout);
    let ram = sorted_by(indices_where(rs, rs.len() as int, ram_pick()), by_address(rs));
    lemma_flash_order_picked(rs);
    lemma_order_picked(rs, ram_pick(), by_address(rs));
    lemma_chain_walk_members(rs, flash_order(rs), 0, FLASH_BASE as int, Seq::empty(), FLASH_BASE as int);
    lemma_chain_walk_members(rs, ram, 0, RAM_BASE as int, Seq::empty(), RAM_BASE as int);
}

} // verus!
