//! The bootloader partition scheme of a chip: `BOOTLOADER`,
//! `BOOTLOADER_STATE`, `ACTIVE` and `DFU`, chosen so that every runtime check
//! of the bootloader (`assert_partitions` of `embassy-boot`) holds.

use vstd::prelude::*;
use vstd::arithmetic::div_mod::*;
use vstd::arithmetic::mul::*;

verus! {

/// Start of flash in the address space of every STM32.
pub const FLASH_BASE: u64 = 0x0800_0000;

/// What the bootloader binary needs, rounded up to whole pages.
pub const BOOTLOADER_TARGET: u64 = 32 * 1024;

/// What must stay for the bootloader binary once `BOOTLOADER_STATE` is cut
/// off the reserved block; less, and the reserve grows by a page.
pub const BOOTLOADER_MIN: u64 = 16 * 1024;

/// How many pages the reserve may grow beyond its initial size.
pub const MAX_EXTRA_RESERVED_PAGES: u64 = 16;

/// A contiguous piece of flash with one sector size.
#[derive(Clone, Copy, Debug, PartialEq, Eq)]
pub struct FlashZone {
    pub address: u64,
    pub size: u64,
    /// Erase granularity of the zone.
    pub erase: u64,
    /// Smallest write of the zone.
    pub write: u64,
}

/// Addresses and lengths of the four partitions, in bytes.
#[derive(Clone, Copy, Debug, PartialEq, Eq)]
pub struct OtaPartitions {
    /// The bootloader binary: from the flash base up to `BOOTLOADER_STATE`.
    pub bootloader_length: u64,
    pub bootloader_state_origin: u64,
    pub bootloader_state_length: u64,
    pub active_origin: u64,
    pub active_length: u64,
    pub dfu_origin: u64,
    pub dfu_length: u64,
}

/// Why the bootloader scheme does not fit a chip.
#[derive(Clone, Copy, Debug, PartialEq, Eq)]
pub enum OtaRefusal {
    /// The reserve grew by `MAX_EXTRA_RESERVED_PAGES` pages of `page_size`
    /// without a fitting layout.
    ReserveNotFound { page_size: u64 },
    /// The flash is not larger than the reserve for the bootloader.
    FlashBelowReserve { flash_total: u64, reserved: u64, page_size: u64 },
    /// The sector size at the end of the reserve is unknown or zero.
    UnknownBoundarySector,
    /// The reserve does not end on a sector boundary.
    MisalignedReserve { reserved: u64, local_erase: u64 },
    /// Fewer than three erasable pages stay for `ACTIVE` and `DFU`.
    TooFewPages { flash_total: u64, page_size: u64, reserved: u64, remaining: u64 },
}

/// Erase size of the first zone, from index `i` on, that holds `addr`.
pub open spec fn erase_from(zones: Seq<FlashZone>, addr: int, i: int) -> Option<u64>
    decreases zones.len() - i,
{
    if i < 0 || i >= zones.len() {
        None
    } else if zones[i].address <= addr < zones[i].address + zones[i].size {
        Some(zones[i].erase)
    } else {
        erase_from(zones, addr, i + 1)
    }
}

/// Erase size of the zone that holds `addr`, the first one when several do.
pub open spec fn erase_size_at(zones: Seq<FlashZone>, addr: int) -> Option<u64> {
    erase_from(zones, addr, 0)
}

/// Pages reserved for the bootloader at the start of the search.
pub open spec fn initial_pages(page: int) -> int {
    let pages = (BOOTLOADER_TARGET + page - 1) / page;
    if pages >= 1 { pages } else { 1 }
}

/// Smallest multiple of `unit` that is not below `value`.
pub open spec fn round_up(value: int, unit: int) -> int {
    ((value + unit - 1) / unit) * unit
}

/// Words of the swap journal in `BOOTLOADER_STATE` for `active_pages` pages.
pub open spec fn journal_words(active_pages: int) -> int {
    2 + 4 * active_pages
}

/// The checks `assert_partitions` of the bootloader runs at start, plus the
/// partitions following each other without a gap.
pub open spec fn embassy_boot_accepts(p: OtaPartitions, page: int, write: int) -> bool {
    &&& (p.active_length as int) % page == 0
    &&& (p.dfu_length as int) % page == 0
    &&& p.dfu_length >= p.active_length + page
    &&& journal_words((p.active_length as int) / page) <= (p.bootloader_state_length as int) / write
    &&& p.active_origin == p.bootloader_state_origin + p.bootloader_state_length
    &&& p.dfu_origin == p.active_origin + p.active_length
}

/// `x` where it fits 64 bits, else the largest 64-bit value.
pub open spec fn saturated(x: int) -> u64 {
    if x > u64::MAX { u64::MAX } else { x as u64 }
}

/// The layout search from `reserved_pages` pages of reserve on.
pub open spec fn ota_search(
    zones: Seq<FlashZone>,
    flash_total: int,
    page: int,
    write: int,
    reserved_pages: int,
) -> Result<OtaPartitions, OtaRefusal>
    decreases initial_pages(page) + MAX_EXTRA_RESERVED_PAGES + 1 - reserved_pages,
{
    if reserved_pages > initial_pages(page) + MAX_EXTRA_RESERVED_PAGES {
        Err(OtaRefusal::ReserveNotFound { page_size: page as u64 })
    } else {
        let reserved = reserved_pages * page;
        if reserved >= flash_total {
            Err(
                OtaRefusal::FlashBelowReserve {
                    flash_total: flash_total as u64,
                    reserved: saturated(reserved),
                    page_size: page as u64,
                },
            )
        } else {
            match erase_size_at(zones, FLASH_BASE + reserved - 1) {
                None => Err(OtaRefusal::UnknownBoundarySector),
                Some(local) => {
                    if local == 0 {
                        Err(OtaRefusal::UnknownBoundarySector)
                    } else if reserved % (local as int) != 0 {
                        Err(
                            OtaRefusal::MisalignedReserve {
                                reserved: reserved as u64,
                                local_erase: local,
                            },
                        )
                    } else {
                        let remaining = (flash_total - reserved) / page;
                        if remaining < 3 {
                            Err(
                                OtaRefusal::TooFewPages {
                                    flash_total: flash_total as u64,
                                    page_size: page as u64,
                                    reserved: reserved as u64,
                                    remaining: remaining as u64,
                                },
                            )
                        } else {
                            let active = (remaining - 1) / 2;
                            let dfu = remaining - active;
                            let state_length = round_up(journal_words(active) * write, local as int);
                            let bootloader_length = if reserved >= state_length {
                                reserved - state_length
                            } else {
                                0
                            };
                            let state_offset = if state_length <= reserved {
                                reserved - state_length
                            } else {
                                0
                            };
                            if bootloader_length < BOOTLOADER_MIN || erase_size_at(
                                zones,
                                FLASH_BASE + state_offset,
                            ) != Some(local) {
                                ota_search(zones, flash_total, page, write, reserved_pages + 1)
                            } else {
                                Ok(
                                    OtaPartitions {
                                        bootloader_length: bootloader_length as u64,
                                        bootloader_state_origin: (FLASH_BASE
                                            + state_offset) as u64,
                                        bootloader_state_length: state_length as u64,
                                        active_origin: (FLASH_BASE + reserved) as u64,
                                        active_length: (active * page) as u64,
                                        dfu_origin: (FLASH_BASE + reserved + active
                                            * page) as u64,
                                        dfu_length: (dfu * page) as u64,
                                    },
                                )
                            }
                        }
                    }
                }
            }
        }
    }
}

/// The partition scheme of a flash chain of `flash_total` bytes from
/// `FLASH_BASE`, with the bootloader's page size and word size.
pub open spec fn ota_layout(
    zones: Seq<FlashZone>,
    flash_total: int,
    page: int,
    write: int,
) -> Result<OtaPartitions, OtaRefusal> {
    ota_search(zones, flash_total, page, write, initial_pages(page))
}

/// Erase size of the zone holding `addr`.
fn erase_size_at_exec(zones: &[FlashZone], addr: u64) -> (r: Option<u64>)
    ensures
        r == erase_size_at(zones@, addr as int),
{
    let mut i: usize = 0;
    while i < zones.len()
        invariant
            0 <= i <= zones.len(),
            erase_from(zones@, addr as int, 0) == erase_from(zones@, addr as int, i as int),
        decreases zones.len() - i,
    {
        let z = zones[i];
        if z.address <= addr && (addr as u128) < (z.address as u128) + (z.size as u128) {
            return Some(z.erase);
        }
        i = i + 1;
    }
    None
}

proof fn lemma_round_up_at_least(x: int, unit: int)
    requires
        x >= 0,
        unit > 0,
    ensures
        round_up(x, unit) >= x,
{
    lemma_fundamental_div_mod(x + unit - 1, unit);
    lemma_mod_pos_bound(x + unit - 1, unit);
    lemma_mul_is_commutative(unit, (x + unit - 1) / unit);
}

proof fn lemma_multiple_mod(a: int, p: int)
    requires
        a >= 0,
        p > 0,
    ensures
        (a * p) % p == 0,
        (a * p) / p == a,
{
    lemma_mod_multiples_basic(a, p);
    lemma_div_multiples_vanish(a, p);
    lemma_mul_is_commutative(a, p);
}

/// The search step proves the invariants of what it returns.
proof fn lemma_search_result_accepted(
    zones: Seq<FlashZone>,
    flash_total: int,
    page: int,
    write: int,
    reserved_pages: int,
)
    requires
        page > 0,
        write > 0,
        reserved_pages >= 1,
        flash_total >= 0,
        FLASH_BASE + flash_total <= u64::MAX,
    ensures
        ota_search(zones, flash_total, page, write, reserved_pages) matches Ok(p) ==> {
            &&& embassy_boot_accepts(p, page, write)
            &&& p.bootloader_length >= BOOTLOADER_MIN
            &&& p.dfu_origin + p.dfu_length <= FLASH_BASE + flash_total
        },
    decreases initial_pages(page) + MAX_EXTRA_RESERVED_PAGES + 1 - reserved_pages,
{
    if reserved_pages > initial_pages(page) + MAX_EXTRA_RESERVED_PAGES {
    } else {
        let reserved = reserved_pages * page;
        lemma_mul_inequality(1, reserved_pages, page);
        if reserved >= flash_total {
        } else {
            match erase_size_at(zones, FLASH_BASE + reserved - 1) {
                None => {},
                Some(local) => {
                    if local == 0 || reserved % (local as int) != 0 {
                    } else {
                        let remaining = (flash_total - reserved) / page;
                        if remaining < 3 {
                        } else {
                            let active = (remaining - 1) / 2;
                            let dfu = remaining - active;
                            let state_length = round_up(journal_words(active) * write, local as int);
                            let bootloader_length = if reserved >= state_length {
                                reserved - state_length
                            } else {
                                0
                            };
                            let state_offset = if state_length <= reserved {
                                reserved - state_length
                            } else {
                                0
                            };
                            if bootloader_length < BOOTLOADER_MIN || erase_size_at(
                                zones,
                                FLASH_BASE + state_offset,
                            ) != Some(local) {
                                lemma_search_result_accepted(
                                    zones,
                                    flash_total,
                                    page,
                                    write,
                                    reserved_pages + 1,
                                );
                            } else {
                                lemma_accepts_step(
                                    flash_total,
                                    page,
                                    write,
                                    local as int,
                                    reserved,
                                    remaining,
                                );
                            }
                        }
                    }
                }
            }
        }
    }
}

proof fn lemma_accepts_step(
    flash_total: int,
    page: int,
    write: int,
    local: int,
    reserved: int,
    remaining: int,
)
    requires
        page > 0,
        write > 0,
        local > 0,
        0 < reserved < flash_total,
        FLASH_BASE + flash_total <= u64::MAX,
        remaining == (flash_total - reserved) / page,
        remaining >= 3,
        round_up(journal_words((remaining - 1) / 2) * write, local) <= reserved - BOOTLOADER_MIN,
    ensures
        ({
            let active = (remaining - 1) / 2;
            let dfu = remaining - active;
            let state_length = round_up(journal_words(active) * write, local);
            let p = OtaPartitions {
                bootloader_length: (reserved - state_length) as u64,
                bootloader_state_origin: (FLASH_BASE + reserved - state_length) as u64,
                bootloader_state_length: state_length as u64,
                active_origin: (FLASH_BASE + reserved) as u64,
                active_length: (active * page) as u64,
                dfu_origin: (FLASH_BASE + reserved + active * page) as u64,
                dfu_length: (dfu * page) as u64,
            };
            &&& embassy_boot_accepts(p, page, write)
            &&& p.dfu_origin + p.dfu_length <= FLASH_BASE + flash_total
        }),
{
    let active = (remaining - 1) / 2;
    let dfu = remaining - active;
    let needed = journal_words(active) * write;
    let state_length = round_up(needed, local);
    // remaining pages fit behind the reserve
    lemma_fundamental_div_mod(flash_total - reserved, page);
    lemma_mul_is_commutative(page, remaining);
    assert(remaining * page <= flash_total - reserved) by {
        lemma_mod_pos_bound(flash_total - reserved, page);
    }
    lemma_mul_is_distributive_add_other_way(page, active, dfu);
    assert(active * page + dfu * page == remaining * page);
    lemma_mul_nonnegative(active, page);
    lemma_mul_nonnegative(dfu, page);
    lemma_multiple_mod(active, page);
    lemma_multiple_mod(dfu, page);
    // DFU is a page larger than ACTIVE
    assert(dfu >= active + 1);
    lemma_mul_inequality(active + 1, dfu, page);
    lemma_mul_is_distributive_add_other_way(page, active, 1);
    // the journal fits into the state partition
    assert(needed >= 0) by {
        lemma_mul_nonnegative(journal_words(active), write);
    }
    assert(state_length >= needed) by {
        lemma_fundamental_div_mod(needed + local - 1, local);
        lemma_mod_pos_bound(needed + local - 1, local);
        lemma_mul_is_commutative(local, (needed + local - 1) / local);
    }
    assert(state_length / write >= journal_words(active)) by {
        lemma_div_is_ordered(needed, state_length, write);
        lemma_multiple_mod(journal_words(active), write);
    }
}

proof fn lemma_search_state_after_bootloader(
    zones: Seq<FlashZone>,
    flash_total: int,
    page: int,
    write: int,
    reserved_pages: int,
)
    requires
        page > 0,
        write > 0,
        reserved_pages >= 1,
        flash_total >= 0,
        FLASH_BASE + flash_total <= u64::MAX,
    ensures
        ota_search(zones, flash_total, page, write, reserved_pages) matches Ok(p) ==> p.bootloader_state_origin
            == FLASH_BASE + p.bootloader_length,
    decreases initial_pages(page) + MAX_EXTRA_RESERVED_PAGES + 1 - reserved_pages,
{
    if reserved_pages <= initial_pages(page) + MAX_EXTRA_RESERVED_PAGES {
        let reserved = reserved_pages * page;
        lemma_mul_inequality(1, reserved_pages, page);
        lemma_search_state_after_bootloader(zones, flash_total, page, write, reserved_pages + 1);
        if reserved < flash_total {
            if let Some(local) = erase_size_at(zones, FLASH_BASE + reserved - 1) {
                if local != 0 && reserved % (local as int) == 0 {
                    let remaining = (flash_total - reserved) / page;
                    if remaining >= 3 {
                        let active = (remaining - 1) / 2;
                        let state_length = round_up(journal_words(active) * write, local as int);
                        let bootloader_length = if reserved >= state_length {
                            reserved - state_length
                        } else {
                            0
                        };
                        let state_offset = if state_length <= reserved {
                            reserved - state_length
                        } else {
                            0
                        };
                        assert(bootloader_length == state_offset);
                        assert(journal_words(active) * write >= 0) by (nonlinear_arith)
                            requires
                                journal_words(active) >= 0,
                                write >= 0,
                        ;
                        assert(state_length >= 0) by (nonlinear_arith)
                            requires
                                state_length == ((journal_words(active) * write + local - 1) / (local as int))
                                    * local,
                                journal_words(active) * write >= 0,
                                local > 0,
                        ;
                        assert(0 <= state_offset <= reserved);
                    }
                }
            }
        }
    }
}

/// Every layout of the scheme passes the checks the bootloader runs at
/// start, keeps at least `BOOTLOADER_MIN` bytes for the bootloader binary
/// right before `BOOTLOADER_STATE`, and ends inside the flash chain.
pub proof fn lemma_layout_passes_bootloader_checks(
    zones: Seq<FlashZone>,
    flash_total: int,
    page: int,
    write: int,
)
    requires
        0 < page,
        0 < write,
        0 <= flash_total,
        FLASH_BASE + flash_total <= u64::MAX,
    ensures
        ota_layout(zones, flash_total, page, write) matches Ok(p) ==> {
            &&& embassy_boot_accepts(p, page, write)
            &&& p.bootloader_length >= BOOTLOADER_MIN
            &&& p.bootloader_state_origin == FLASH_BASE + p.bootloader_length
            &&& p.dfu_origin + p.dfu_length <= FLASH_BASE + flash_total
        },
{
    lemma_search_result_accepted(zones, flash_total, page, write, initial_pages(page));
    lemma_search_state_after_bootloader(zones, flash_total, page, write, initial_pages(page));
}

/// The erase size found for an address is the erase size of one of the
/// zones.
proof fn lemma_erase_from_some_zone(zones: Seq<FlashZone>, addr: int, i: int)
    ensures
        erase_from(zones, addr, i) matches Some(e) ==> exists|j: int|
            0 <= j < zones.len() && #[trigger] zones[j].erase == e,
    decreases zones.len() - i,
{
    if 0 <= i < zones.len() {
        if zones[i].address <= addr < zones[i].address + zones[i].size {
            assert(zones[i].erase == zones[i].erase);
        } else {
            lemma_erase_from_some_zone(zones, addr, i + 1);
        }
    }
}

/// A multiple of `unit` rounded up stays; a positive amount rounds up to at
/// least one unit; a rounded value is a multiple of `unit`.
proof fn lemma_round_up_facts(x: int, unit: int)
    requires
        x >= 0,
        unit > 0,
    ensures
        round_up(x, unit) % unit == 0,
        round_up(x, unit) >= x,
        x > 0 ==> round_up(x, unit) >= unit,
{
    lemma_round_up_at_least(x, unit);
    let q = (x + unit - 1) / unit;
    assert(q >= 0) by {
        lemma_div_pos_is_pos(x + unit - 1, unit);
    }
    lemma_multiple_mod(q, unit);
    if x > 0 {
        assert(q >= 1) by {
            lemma_div_is_ordered(unit, x + unit - 1, unit);
            lemma_div_by_self(unit);
        }
        lemma_mul_inequality(1, q, unit);
    }
}

/// The search step gives layouts whose `ACTIVE` holds at least a page and
/// whose `BOOTLOADER_STATE` and `ACTIVE` start on boundaries of the sector
/// size at the end of the reserve, `BOOTLOADER_STATE` lying in that sector
/// size.
proof fn lemma_search_shape(
    zones: Seq<FlashZone>,
    flash_total: int,
    page: int,
    write: int,
    reserved_pages: int,
)
    requires
        page > 0,
        write > 0,
        reserved_pages >= 1,
        flash_total >= 0,
        FLASH_BASE + flash_total <= u64::MAX,
    ensures
        ota_search(zones, flash_total, page, write, reserved_pages) matches Ok(p) ==> layout_shape(
            zones,
            p,
            page,
        ),
    decreases initial_pages(page) + MAX_EXTRA_RESERVED_PAGES + 1 - reserved_pages,
{
    if reserved_pages <= initial_pages(page) + MAX_EXTRA_RESERVED_PAGES {
        let reserved = reserved_pages * page;
        lemma_mul_inequality(1, reserved_pages, page);
        lemma_search_shape(zones, flash_total, page, write, reserved_pages + 1);
        if reserved < flash_total {
            if let Some(local) = erase_size_at(zones, FLASH_BASE + reserved - 1) {
                if local != 0 && reserved % (local as int) == 0 {
                    let remaining = (flash_total - reserved) / page;
                    if remaining >= 3 {
                        let active = (remaining - 1) / 2;
                        let needed = journal_words(active) * write;
                        assert(needed >= 0) by {
                            lemma_mul_nonnegative(journal_words(active), write);
                        }
                        lemma_round_up_facts(needed, local as int);
                        let state_length = round_up(needed, local as int);
                        if state_length <= reserved && reserved - state_length >= BOOTLOADER_MIN
                            && erase_size_at(zones, FLASH_BASE + reserved - state_length) == Some(local) {
                            assert(active >= 1);
                            lemma_mul_inequality(1, active, page);
                            lemma_fundamental_div_mod(flash_total - reserved, page);
                            lemma_mod_pos_bound(flash_total - reserved, page);
                            lemma_mul_is_commutative(page, remaining);
                            lemma_mul_inequality(active, remaining, page);
                            lemma_mod_subtraction_zero(reserved, state_length, local as int);
                            let p = ota_search(zones, flash_total, page, write, reserved_pages).get_Ok_0();
                            assert(p.active_length == active * page);
                            assert(p.active_origin == FLASH_BASE + reserved);
                            assert(p.bootloader_state_origin == FLASH_BASE + reserved - state_length);
                            assert(layout_shape(zones, p, page));
                        }
                    }
                }
            }
        }
    }
}

proof fn lemma_mod_subtraction_zero(a: int, b: int, m: int)
    requires
        m > 0,
        a % m == 0,
        b % m == 0,
        b <= a,
    ensures
        (a - b) % m == 0,
{
    lemma_fundamental_div_mod(a, m);
    lemma_fundamental_div_mod(b, m);
    lemma_mul_is_distributive_sub(m, a / m, b / m);
    lemma_mod_multiples_basic(a / m - b / m, m);
    lemma_mul_is_commutative(m, a / m - b / m);
}

/// What the shape of a layout is: `ACTIVE` at least a page; the sector size
/// at the end of the reserve (`local`) also holds the start of
/// `BOOTLOADER_STATE`; `BOOTLOADER_STATE` and `ACTIVE` start a whole number
/// of such sectors from the flash base, and the state partition is a whole
/// number of them long.
pub open spec fn layout_shape(zones: Seq<FlashZone>, p: OtaPartitions, page: int) -> bool {
    &&& p.active_length >= page
    &&& exists|local: u64| {
        &&& local > 0
        &&& #[trigger] erase_size_at(zones, p.active_origin - 1) == Some(local)
        &&& erase_size_at(zones, p.bootloader_state_origin as int) == Some(local)
        &&& (p.active_origin - FLASH_BASE) % (local as int) == 0
        &&& (p.bootloader_state_origin - FLASH_BASE) % (local as int) == 0
        &&& (p.bootloader_state_length as int) % (local as int) == 0
    }
}

/// Every layout of the scheme has an `ACTIVE` of at least one page, and
/// starts `BOOTLOADER_STATE` and `ACTIVE` on boundaries of the sector size at
/// the end of the reserve, `BOOTLOADER_STATE` filling whole sectors of it.
pub proof fn lemma_layout_is_sector_aligned(zones: Seq<FlashZone>, flash_total: int, page: int, write: int)
    requires
        0 < page,
        0 < write,
        0 <= flash_total,
        FLASH_BASE + flash_total <= u64::MAX,
    ensures
        ota_layout(zones, flash_total, page, write) matches Ok(p) ==> layout_shape(zones, p, page),
{
    lemma_search_shape(zones, flash_total, page, write, initial_pages(page));
}

proof fn lemma_positive_multiple(x: int, m: int)
    requires
        m > 0,
        x > 0,
        x % m == 0,
    ensures
        x >= m,
{
    lemma_fundamental_div_mod(x, m);
    if x / m <= 0 {
        lemma_mul_inequality(x / m, 0, m);
    } else {
        lemma_mul_inequality(1, x / m, m);
    }
    lemma_mul_is_commutative(m, x / m);
}

proof fn lemma_search_five_pages(
    zones: Seq<FlashZone>,
    flash_total: int,
    page: int,
    write: int,
    reserved_pages: int,
)
    requires
        page > 0,
        write > 0,
        reserved_pages >= 1,
        flash_total >= 0,
        FLASH_BASE + flash_total <= u64::MAX,
        forall|j: int| 0 <= j < zones.len() ==> #[trigger] zones[j].erase == page,
    ensures
        ota_search(zones, flash_total, page, write, reserved_pages) is Ok ==> flash_total >= 5 * page,
    decreases initial_pages(page) + MAX_EXTRA_RESERVED_PAGES + 1 - reserved_pages,
{
    if reserved_pages <= initial_pages(page) + MAX_EXTRA_RESERVED_PAGES {
        let reserved = reserved_pages * page;
        lemma_mul_inequality(1, reserved_pages, page);
        lemma_search_five_pages(zones, flash_total, page, write, reserved_pages + 1);
        if reserved < flash_total {
            lemma_erase_from_some_zone(zones, FLASH_BASE + reserved - 1, 0);
            if let Some(local) = erase_size_at(zones, FLASH_BASE + reserved - 1) {
                assert(local == page);
                if local != 0 && reserved % (local as int) == 0 {
                    let remaining = (flash_total - reserved) / page;
                    if remaining >= 3 {
                        let active = (remaining - 1) / 2;
                        let needed = journal_words(active) * write;
                        assert(needed >= 2) by {
                            lemma_mul_inequality(1, write, journal_words(active));
                            lemma_mul_is_commutative(write, journal_words(active));
                        }
                        lemma_round_up_facts(needed, page);
                        let state_length = round_up(needed, page);
                        if state_length <= reserved && reserved - state_length >= BOOTLOADER_MIN {
                            lemma_mod_subtraction_zero(reserved, state_length, page);
                            lemma_positive_multiple(reserved - state_length, page);
                            lemma_fundamental_div_mod(flash_total - reserved, page);
                            lemma_mod_pos_bound(flash_total - reserved, page);
                            lemma_mul_is_commutative(page, remaining);
                            lemma_mul_inequality(3, remaining, page);
                        }
                    }
                }
            }
        }
    }
}

/// Where every sector has the bootloader's page size, a flash that gets a
/// layout holds at least five pages: the bootloader, its state, `ACTIVE`,
/// and a `DFU` one page larger.
pub proof fn lemma_uniform_sectors_need_five_pages(
    zones: Seq<FlashZone>,
    flash_total: int,
    page: int,
    write: int,
)
    requires
        0 < page,
        0 < write,
        0 <= flash_total,
        FLASH_BASE + flash_total <= u64::MAX,
        forall|j: int| 0 <= j < zones.len() ==> #[trigger] zones[j].erase == page,
    ensures
        ota_layout(zones, flash_total, page, write) is Ok ==> flash_total >= 5 * page,
{
    lemma_search_five_pages(zones, flash_total, page, write, initial_pages(page));
}

/// Chooses the partitions for a flash chain of `flash_total` bytes starting at
/// `FLASH_BASE`: reserve for the bootloader, grown a page at a time until the
/// swap journal fits behind the binary, then `ACTIVE` and a `DFU` one page
/// larger from what remains.
pub fn compute_ota_partitions(
    zones: &[FlashZone],
    flash_total: u64,
    page_size: u64,
    write_size: u64,
) -> (r: Result<OtaPartitions, OtaRefusal>)
    requires
        0 < page_size,
        0 < write_size,
        FLASH_BASE + flash_total <= u64::MAX,
    ensures
        r == ota_layout(zones@, flash_total as int, page_size as int, write_size as int),
        r matches Ok(p) ==> {
            &&& embassy_boot_accepts(p, page_size as int, write_size as int)
            &&& p.bootloader_length >= BOOTLOADER_MIN
            &&& p.bootloader_state_origin == FLASH_BASE + p.bootloader_length
            &&& p.dfu_origin + p.dfu_length <= FLASH_BASE + flash_total
        },
{
    proof {
        lemma_layout_passes_bootloader_checks(zones@, flash_total as int, page_size as int, write_size as int);
    }
    let ghost zs = zones@;
    let ghost ft = flash_total as int;
    let ghost pg = page_size as int;
    let ghost wr = write_size as int;
    let first_wide: u128 = (BOOTLOADER_TARGET as u128 + page_size as u128 - 1) / (page_size as u128);
    assert(first_wide <= BOOTLOADER_TARGET) by {
        let x = BOOTLOADER_TARGET + pg - 1;
        lemma_fundamental_div_mod(x, pg);
        lemma_mod_pos_bound(x, pg);
        if x / pg > BOOTLOADER_TARGET {
            lemma_mul_inequality(BOOTLOADER_TARGET + 1, x / pg, pg);
            lemma_mul_is_commutative(pg, x / pg);
            lemma_mul_is_distributive_add_other_way(pg, BOOTLOADER_TARGET as int, 1);
            lemma_mul_inequality(1, pg, BOOTLOADER_TARGET as int);
            lemma_mul_is_commutative(pg, BOOTLOADER_TARGET as int);
        }
    }
    let mut first_pages: u64 = first_wide as u64;
    if first_pages < 1 {
        first_pages = 1;
    }
    assert(first_pages == initial_pages(pg));
    proof {
        lemma_search_result_accepted(zs, ft, pg, wr, first_pages as int);
    }
    let mut reserved_pages: u64 = first_pages;
    loop
        invariant
            first_pages == initial_pages(pg),
            1 <= first_pages <= BOOTLOADER_TARGET,
            first_pages <= reserved_pages <= first_pages + MAX_EXTRA_RESERVED_PAGES + 1,
            zs == zones@,
            ft == flash_total,
            pg == page_size,
            wr == write_size,
            0 < page_size,
            0 < write_size,
            FLASH_BASE + flash_total <= u64::MAX,
            ota_layout(zs, ft, pg, wr) == ota_search(zs, ft, pg, wr, reserved_pages as int),
        decreases first_pages + MAX_EXTRA_RESERVED_PAGES + 1 - reserved_pages,
    {
        if reserved_pages > first_pages + MAX_EXTRA_RESERVED_PAGES {
            proof {
                lemma_search_result_accepted(zs, ft, pg, wr, reserved_pages as int);
            }
            return Err(OtaRefusal::ReserveNotFound { page_size });
        }
        assert(reserved_pages * page_size <= (BOOTLOADER_TARGET + 17) * 0xFFFF_FFFF_FFFF_FFFFint) by {
            lemma_mul_upper_bound(
                reserved_pages as int,
                BOOTLOADER_TARGET + 17,
                page_size as int,
                0xFFFF_FFFF_FFFF_FFFF,
            );
        }
        let reserved_wide: u128 = reserved_pages as u128 * page_size as u128;
        proof {
            lemma_search_result_accepted(zs, ft, pg, wr, reserved_pages as int);
            lemma_mul_inequality(1, reserved_pages as int, pg);
        }
        if reserved_wide >= flash_total as u128 {
            let reported: u64 = if reserved_wide > 0xFFFF_FFFF_FFFF_FFFF {
                0xFFFF_FFFF_FFFF_FFFF
            } else {
                reserved_wide as u64
            };
            return Err(
                OtaRefusal::FlashBelowReserve {
                    flash_total,
                    reserved: reported,
                    page_size,
                },
            );
        }
        let reserved_size: u64 = reserved_wide as u64;
        let local_erase = match erase_size_at_exec(zones, FLASH_BASE + reserved_size - 1) {
            None => {
                return Err(OtaRefusal::UnknownBoundarySector);
            },
            Some(erase) => erase,
        };
        if local_erase == 0 {
            return Err(OtaRefusal::UnknownBoundarySector);
        }
        if reserved_size % local_erase != 0 {
            return Err(OtaRefusal::MisalignedReserve { reserved: reserved_size, local_erase });
        }
        let remaining_pages: u64 = (flash_total - reserved_size) / page_size;
        if remaining_pages < 3 {
            return Err(
                OtaRefusal::TooFewPages {
                    flash_total,
                    page_size,
                    reserved: reserved_size,
                    remaining: remaining_pages,
                },
            );
        }
        let active_pages: u64 = (remaining_pages - 1) / 2;
        let dfu_pages: u64 = remaining_pages - active_pages;
        assert(remaining_pages <= flash_total) by {
            lemma_div_is_ordered_by_denominator((flash_total - reserved_size) as int, 1, pg);
        }
        let words: u128 = 2 + 4 * (active_pages as u128);
        let ghost needed_spec: int = journal_words(active_pages as int) * wr;
        assert(words == journal_words(active_pages as int));
        // A journal larger than the reserve leaves nothing for the bootloader.
        let fits: bool = words <= (reserved_size as u128) / (write_size as u128);
        let mut state_length: u128 = 0;
        let mut bootloader_length: u128 = 0;
        let mut state_offset: u64 = 0;
        if fits {
            assert(words * write_size <= reserved_size) by {
                lemma_fundamental_div_mod(reserved_size as int, wr);
                lemma_mod_pos_bound(reserved_size as int, wr);
                lemma_mul_inequality(words as int, reserved_size as int / wr, wr);
                lemma_mul_is_commutative(wr, reserved_size as int / wr);
            }
            let state_needed: u128 = words * (write_size as u128);
            let local: u128 = local_erase as u128;
            let rounded: u128 = (state_needed + local - 1) / local;
            assert(rounded * local <= state_needed + local) by {
                lemma_fundamental_div_mod((state_needed + local - 1) as int, local as int);
                lemma_mod_pos_bound((state_needed + local - 1) as int, local as int);
                lemma_mul_is_commutative(local as int, rounded as int);
            }
            state_length = rounded * local;
            assert(state_length == round_up(needed_spec, local_erase as int));
            let reserved_w: u128 = reserved_size as u128;
            bootloader_length = if reserved_w >= state_length {
                reserved_w - state_length
            } else {
                0
            };
            state_offset = if state_length <= reserved_w {
                (reserved_w - state_length) as u64
            } else {
                0
            };
        } else {
            assert(needed_spec > reserved_size) by {
                lemma_fundamental_div_mod(reserved_size as int, wr);
                lemma_mod_pos_bound(reserved_size as int, wr);
                lemma_mul_inequality(reserved_size as int / wr + 1, words as int, wr);
                lemma_mul_is_commutative(wr, reserved_size as int / wr);
                lemma_mul_is_distributive_add_other_way(wr, reserved_size as int / wr, 1);
                lemma_mul_is_commutative(wr, words as int);
            }
            assert(round_up(needed_spec, local_erase as int) >= needed_spec) by {
                lemma_round_up_at_least(needed_spec, local_erase as int);
            }
        }
        if !fits || bootloader_length < BOOTLOADER_MIN as u128 || erase_size_at_exec(
            zones,
            FLASH_BASE + state_offset,
        ) != Some(local_erase) {
            reserved_pages = reserved_pages + 1;
        } else {
            let active_origin: u64 = FLASH_BASE + reserved_size;
            assert(active_pages * page_size <= remaining_pages * page_size) by {
                lemma_mul_inequality(active_pages as int, remaining_pages as int, pg);
            }
            assert(remaining_pages * page_size <= flash_total - reserved_size) by {
                lemma_fundamental_div_mod((flash_total - reserved_size) as int, pg);
                lemma_mod_pos_bound((flash_total - reserved_size) as int, pg);
                lemma_mul_is_commutative(pg, remaining_pages as int);
            }
            assert(dfu_pages * page_size <= remaining_pages * page_size) by {
                lemma_mul_inequality(dfu_pages as int, remaining_pages as int, pg);
            }
            let active_length: u64 = active_pages * page_size;
            let partitions = OtaPartitions {
                bootloader_length: bootloader_length as u64,
                bootloader_state_origin: FLASH_BASE + state_offset,
                bootloader_state_length: state_length as u64,
                active_origin,
                active_length,
                dfu_origin: active_origin + active_length,
                dfu_length: dfu_pages * page_size,
            };
            let accepted = check_embassy_boot_invariants(&partitions, page_size, write_size);
            assert(accepted);
            return Ok(partitions);
        }
    }
}

/// The checks `assert_partitions` of the bootloader runs at start, on a
/// computed layout.
pub fn check_embassy_boot_invariants(p: &OtaPartitions, page_size: u64, write_size: u64) -> (r:
    bool)
    requires
        page_size > 0,
        write_size > 0,
    ensures
        r == embassy_boot_accepts(*p, page_size as int, write_size as int),
{
    let journal: u128 = 2 + 4 * ((p.active_length / page_size) as u128);
    let state_words: u64 = p.bootloader_state_length / write_size;
    p.active_length % page_size == 0 && p.dfu_length % page_size == 0 && (p.dfu_length as u128)
        >= (p.active_length as u128) + (page_size as u128) && journal <= (state_words as u128)
        && (p.active_origin as u128) == (p.bootloader_state_origin as u128) + (
    p.bootloader_state_length as u128) && (p.dfu_origin as u128) == (p.active_origin as u128) + (
    p.active_length as u128)
}

} // verus!
