//! How addresses, sizes and memory regions are written in a linker script,
//! and how a refused bootloader layout is explained.

use vstd::prelude::*;
use vstd::string::StringSliceAdditionalSpecFns;
use crate::bytes::push_all;
use crate::numtext::{decimal, hex, pad_left, push_decimal, push_hex, push_padded_left};
use crate::partitions::{OtaRefusal, MAX_EXTRA_RESERVED_PAGES};

verus! {

/// `0x` and at least eight upper-case hex digits, as `format!("0x{v:08X}")`.
pub open spec fn addr_text(v: u64) -> Seq<u8> {
    "0x".spec_bytes() + pad_left(hex(v as nat), 8, 0x30)
}

/// A size in the `K` notation of a linker script when it is a whole number of
/// KiB, else in bytes.
pub open spec fn size_text(v: u64) -> Seq<u8> {
    if v % 1024 == 0 {
        decimal((v / 1024) as nat) + "K".spec_bytes()
    } else {
        decimal(v as nat)
    }
}

/// A size for a person: whole KiB from 1024 bytes on, else bytes.
pub open spec fn human_size(v: u64) -> Seq<u8> {
    if v >= 1024 {
        decimal((v / 1024) as nat) + " KiB".spec_bytes()
    } else {
        decimal(v as nat) + " B".spec_bytes()
    }
}

/// Number of characters of the UTF-8 text `s`: its bytes that do not
/// continue a character.
pub open spec fn char_count(s: Seq<u8>) -> nat
    decreases s.len(),
{
    if s.len() == 0 {
        0
    } else {
        char_count(s.drop_last()) + if 0x80 <= s.last() < 0xC0 { 0nat } else { 1nat }
    }
}

/// `s` padded with spaces to at least `width` characters, as `{:<width}`.
pub open spec fn pad_chars(s: Seq<u8>, width: nat) -> Seq<u8> {
    if char_count(s) >= width {
        s
    } else {
        s + Seq::new((width - char_count(s)) as nat, |i: int| 0x20u8)
    }
}

/// One line of `MEMORY { }`: the name in a column of 18, the attributes in
/// brackets in a column of 6, then origin and length.
pub open spec fn region_line_text(name: Seq<u8>, attrs: Seq<u8>, origin: u64, length: u64) -> Seq<
    u8,
> {
    "    ".spec_bytes() + pad_chars(name, 18) + pad_chars("(".spec_bytes() + attrs + ")".spec_bytes(), 6)
        + ": ORIGIN = ".spec_bytes() + addr_text(origin) + ", LENGTH = ".spec_bytes() + size_text(
        length,
    )
}

/// Why the bootloader scheme does not fit, as the generator reports it.
pub open spec fn refusal_text(r: OtaRefusal) -> Seq<u8> {
    match r {
        OtaRefusal::ReserveNotFound { page_size } => "резерв под bootloader не подобрался, дорастив его на ".spec_bytes()
            + decimal(MAX_EXTRA_RESERVED_PAGES as nat) + " страниц по ".spec_bytes() + human_size(
            page_size,
        ),
        OtaRefusal::FlashBelowReserve { flash_total, reserved, page_size } => "flash ".spec_bytes()
            + human_size(flash_total) + " меньше резерва под bootloader (".spec_bytes() + human_size(
            reserved,
        ) + " при секторе ".spec_bytes() + human_size(page_size) + ")".spec_bytes(),
        OtaRefusal::UnknownBoundarySector => "не удалось определить размер сектора на границе резерва".spec_bytes(),
        OtaRefusal::MisalignedReserve { reserved, local_erase } => "резерв ".spec_bytes()
            + human_size(reserved) + " не ложится на границу сектора ".spec_bytes() + human_size(
            local_erase,
        ),
        OtaRefusal::TooFewPages { flash_total, page_size, reserved, remaining } => "flash ".spec_bytes()
            + human_size(flash_total) + " при секторе ".spec_bytes() + human_size(page_size)
            + ": под BOOTLOADER+STATE уходит ".spec_bytes() + human_size(reserved)
            + ", на ACTIVE+DFU остаётся стираемых страниц: ".spec_bytes() + decimal(remaining as nat)
            + " (нужно 3)".spec_bytes(),
    }
}

/// Appends `format!("0x{v:08X}")`.
pub fn push_addr(out: &mut Vec<u8>, v: u64)
    ensures
        final(out)@ == old(out)@ + addr_text(v),
{
    let ghost start = out@;
    push_all(out, "0x".as_bytes());
    let mut digits: Vec<u8> = Vec::new();
    push_hex(&mut digits, v);
    assert(digits@ =~= hex(v as nat));
    push_padded_left(out, digits.as_slice(), 8, 0x30);
    assert(out@ =~= start + addr_text(v));
}

/// Appends the linker-script notation of a size.
pub fn push_size(out: &mut Vec<u8>, v: u64)
    ensures
        final(out)@ == old(out)@ + size_text(v),
{
    let ghost start = out@;
    if v % 1024 == 0 {
        push_decimal(out, v / 1024);
        push_all(out, "K".as_bytes());
    } else {
        push_decimal(out, v);
    }
    assert(out@ =~= start + size_text(v));
}

/// Appends a size for a person.
pub fn push_human_size(out: &mut Vec<u8>, v: u64)
    ensures
        final(out)@ == old(out)@ + human_size(v),
{
    let ghost start = out@;
    if v >= 1024 {
        push_decimal(out, v / 1024);
        push_all(out, " KiB".as_bytes());
    } else {
        push_decimal(out, v);
        push_all(out, " B".as_bytes());
    }
    assert(out@ =~= start + human_size(v));
}

/// `format!("0x{v:08X}")`.
pub fn format_addr(v: u64) -> (r: Vec<u8>)
    ensures
        r@ == addr_text(v),
{
    let mut out: Vec<u8> = Vec::new();
    push_addr(&mut out, v);
    assert(out@ =~= addr_text(v));
    out
}

/// A size in the notation of a linker script: `NK` when it is a whole number
/// of KiB, else the number of bytes.
pub fn format_size(v: u64) -> (r: Vec<u8>)
    ensures
        r@ == size_text(v),
{
    let mut out: Vec<u8> = Vec::new();
    push_size(&mut out, v);
    assert(out@ =~= size_text(v));
    out
}

fn char_count_exec(s: &[u8]) -> (r: usize)
    ensures
        r == char_count(s@),
{
    let mut n: usize = 0;
    let mut i: usize = 0;
    while i < s.len()
        invariant
            0 <= i <= s@.len(),
            n == char_count(s@.subrange(0, i as int)),
            n <= i,
        decreases s.len() - i,
    {
        assert(s@.subrange(0, i + 1).drop_last() == s@.subrange(0, i as int));
        if !(0x80 <= s[i] && s[i] < 0xC0) {
            n = n + 1;
        }
        i = i + 1;
    }
    assert(s@.subrange(0, s@.len() as int) == s@);
    n
}

/// Appends `s` padded with spaces to at least `width` characters.
pub fn push_padded_chars(out: &mut Vec<u8>, s: &[u8], width: usize)
    ensures
        final(out)@ == old(out)@ + pad_chars(s@, width as nat),
{
    let ghost start = out@;
    push_all(out, s);
    let n = char_count_exec(s);
    let mut k: usize = n;
    while k < width
        invariant
            n == char_count(s@),
            n <= k,
            k <= width || k == n,
            out@ == start + s@ + Seq::new((k - n) as nat, |i: int| 0x20u8),
        decreases width - k,
    {
        out.push(0x20);
        k = k + 1;
        assert(out@ =~= start + s@ + Seq::new((k - n) as nat, |i: int| 0x20u8));
    }
    assert(out@ =~= start + pad_chars(s@, width as nat));
}

/// Appends one line of `MEMORY { }`.
pub fn push_region_line(out: &mut Vec<u8>, name: &[u8], attrs: &[u8], origin: u64, length: u64)
    ensures
        final(out)@ == old(out)@ + region_line_text(name@, attrs@, origin, length),
{
    let ghost start = out@;
    push_all(out, "    ".as_bytes());
    push_padded_chars(out, name, 18);
    let mut bracketed: Vec<u8> = Vec::new();
    push_all(&mut bracketed, "(".as_bytes());
    push_all(&mut bracketed, attrs);
    push_all(&mut bracketed, ")".as_bytes());
    push_padded_chars(out, bracketed.as_slice(), 6);
    push_all(out, ": ORIGIN = ".as_bytes());
    push_addr(out, origin);
    push_all(out, ", LENGTH = ".as_bytes());
    push_size(out, length);
    assert(out@ =~= start + region_line_text(name@, attrs@, origin, length));
}

/// One line of `MEMORY { }` for a region.
pub fn region_line(name: &[u8], attrs: &[u8], origin: u64, length: u64) -> (r: Vec<u8>)
    ensures
        r@ == region_line_text(name@, attrs@, origin, length),
{
    let mut out: Vec<u8> = Vec::new();
    push_region_line(&mut out, name, attrs, origin, length);
    assert(out@ =~= region_line_text(name@, attrs@, origin, length));
    out
}

/// The explanation of a refused bootloader layout.
pub fn refusal_message(r: &OtaRefusal) -> (m: Vec<u8>)
    ensures
        m@ == refusal_text(*r),
{
    let mut out: Vec<u8> = Vec::new();
    match r {
        OtaRefusal::ReserveNotFound { page_size } => {
            push_all(&mut out, "резерв под bootloader не подобрался, дорастив его на ".as_bytes());
            push_decimal(&mut out, MAX_EXTRA_RESERVED_PAGES);
            push_all(&mut out, " страниц по ".as_bytes());
            push_human_size(&mut out, *page_size);
        },
        OtaRefusal::FlashBelowReserve { flash_total, reserved, page_size } => {
            push_all(&mut out, "flash ".as_bytes());
            push_human_size(&mut out, *flash_total);
            push_all(&mut out, " меньше резерва под bootloader (".as_bytes());
            push_human_size(&mut out, *reserved);
            push_all(&mut out, " при секторе ".as_bytes());
            push_human_size(&mut out, *page_size);
            push_all(&mut out, ")".as_bytes());
        },
        OtaRefusal::UnknownBoundarySector => {
            push_all(&mut out, "не удалось определить размер сектора на границе резерва".as_bytes());
        },
        OtaRefusal::MisalignedReserve { reserved, local_erase } => {
            push_all(&mut out, "резерв ".as_bytes());
            push_human_size(&mut out, *reserved);
            push_all(&mut out, " не ложится на границу сектора ".as_bytes());
            push_human_size(&mut out, *local_erase);
        },
        OtaRefusal::TooFewPages { flash_total, page_size, reserved, remaining } => {
            push_all(&mut out, "flash ".as_bytes());
            push_human_size(&mut out, *flash_total);
            push_all(&mut out, " при секторе ".as_bytes());
            push_human_size(&mut out, *page_size);
            push_all(&mut out, ": под BOOTLOADER+STATE уходит ".as_bytes());
            push_human_size(&mut out, *reserved);
            push_all(&mut out, ", на ACTIVE+DFU остаётся стираемых страниц: ".as_bytes());
            push_decimal(&mut out, *remaining);
            push_all(&mut out, " (нужно 3)".as_bytes());
        },
    }
    assert(out@ =~= refusal_text(*r));
    out
}

} // verus!
