//! The generated blocks of the chip selection script: the chip list, the
//! packaging choices, the bank modes and the memory layouts, each between
//! its begin and end markers.

use vstd::prelude::*;
use vstd::string::StringSliceAdditionalSpecFns;
use crate::bytes::{push_all, contains_seq, lemma_found_where_it_stands};
use crate::chipgen::declared_version;
use crate::numtext::{decimal, push_decimal};
use crate::chipmeta::{BankMode, bank_mode_text};
use crate::memtext::{addr_text, size_text, refusal_text, human_size, push_addr, push_size, refusal_message};
use crate::memlayout::{MemoryLayout, LayoutView};
use crate::partitions::{OtaPartitions, OtaRefusal, MAX_EXTRA_RESERVED_PAGES};
use crate::templatecheck::strictly_sorted;

verus! {

pub const CHIPS_BEGIN: &'static str = "// BEGIN GENERATED CHIP LIST";

pub const CHIPS_END: &'static str = "// END GENERATED CHIP LIST";

pub const PACKAGES_BEGIN: &'static str = "// BEGIN GENERATED PACKAGE CHOICES";

pub const PACKAGES_END: &'static str = "// END GENERATED PACKAGE CHOICES";

pub const MEMORY_BEGIN: &'static str = "// BEGIN GENERATED MEMORY LAYOUT";

pub const MEMORY_END: &'static str = "// END GENERATED MEMORY LAYOUT";

pub const BANKS_BEGIN: &'static str = "// BEGIN GENERATED BANK MODE";

pub const BANKS_END: &'static str = "// END GENERATED BANK MODE";

/// How the line with the versions of the data sources starts.
pub const SOURCE_STAMP_PREFIX: &'static str = "// Источник: embassy-stm32 ";

/// The parts one after the other.
pub open spec fn concat(parts: Seq<Seq<u8>>) -> Seq<u8>
    decreases parts.len(),
{
    if parts.len() == 0 {
        Seq::empty()
    } else {
        concat(parts.drop_last()) + parts.last()
    }
}

/// The end of the first line of a block: the count and how it was made.
pub open spec fn count_note(n: nat) -> Seq<u8> {
    " (".spec_bytes() + decimal(n) + " шт., cargo run --manifest-path chip-data-gen/Cargo.toml)\n".spec_bytes()
}

/// `"text",` as an item of a list, quoted.
pub open spec fn quoted(s: Seq<u8>) -> Seq<u8> {
    "\"".spec_bytes() + s + "\"".spec_bytes()
}

/// The line with the versions of the data sources.
pub open spec fn source_stamp(embassy_version: Seq<u8>, probe_rs_version: Seq<u8>) -> Seq<u8> {
    SOURCE_STAMP_PREFIX.spec_bytes() + embassy_version + " (cross/Cargo.toml), probe-rs ".spec_bytes()
        + probe_rs_version + "\n".spec_bytes()
}

/// What the chip list says of the version of `embassy-stm32` it was built
/// for.
pub open spec fn stamp_line(embassy_version: Seq<u8>) -> Seq<u8> {
    SOURCE_STAMP_PREFIX.spec_bytes() + embassy_version + " (cross/Cargo.toml)".spec_bytes()
}

/// The chip list built with the stamp of the version that a manifest
/// declares names that version: a check that reads the manifest again, the
/// same way, finds its line in the list.
pub proof fn lemma_chip_list_names_the_declared_version(
    manifest: Seq<u8>,
    suffixes: Seq<Seq<u8>>,
    probe_rs_version: Seq<u8>,
)
    requires
        declared_version(manifest) is Some,
    ensures
        contains_seq(
            chip_list(suffixes, source_stamp(declared_version(manifest)->0, probe_rs_version)),
            stamp_line(declared_version(manifest)->0),
        ),
{
    let v = declared_version(manifest)->0;
    let stamp = source_stamp(v, probe_rs_version);
    let list = chip_list(suffixes, stamp);
    let k = (CHIPS_BEGIN.spec_bytes() + count_note(suffixes.len())).len() as int;
    let pat = stamp_line(v);
    reveal_strlit(" (cross/Cargo.toml), probe-rs ");
    reveal_strlit(" (cross/Cargo.toml)");
    vstd::string::is_ascii_spec_bytes(" (cross/Cargo.toml), probe-rs ");
    vstd::string::is_ascii_spec_bytes(" (cross/Cargo.toml)");
    assert(vstd::string::is_ascii(" (cross/Cargo.toml), probe-rs "));
    assert(vstd::string::is_ascii(" (cross/Cargo.toml)"));
    assert(" (cross/Cargo.toml), probe-rs ".spec_bytes().subrange(0, " (cross/Cargo.toml)".spec_bytes().len() as int)
        =~= " (cross/Cargo.toml)".spec_bytes());
    assert(stamp.subrange(0, pat.len() as int) =~= pat);
    assert(list.subrange(k, k + pat.len()) =~= pat);
    lemma_found_where_it_stands(list, 0, k, pat);
}

/// Writes the line with the versions of the data sources./// Writes the line with the versions of the data sources.
pub fn format_source_stamp(embassy_version: &[u8], probe_rs_version: &[u8]) -> (r: Vec<u8>)
    ensures
        r@ == source_stamp(embassy_version@, probe_rs_version@),
{
    let mut out: Vec<u8> = Vec::new();
    push_all(&mut out, SOURCE_STAMP_PREFIX.as_bytes());
    push_all(&mut out, embassy_version);
    push_all(&mut out, " (cross/Cargo.toml), probe-rs ".as_bytes());
    push_all(&mut out, probe_rs_version);
    push_all(&mut out, "\n".as_bytes());
    assert(out@ =~= source_stamp(embassy_version@, probe_rs_version@));
    out
}

pub open spec fn chip_item(s: Seq<u8>) -> Seq<u8> {
    "    ".spec_bytes() + quoted(s) + ",\n".spec_bytes()
}

/// The chip list block.
pub open spec fn chip_list(suffixes: Seq<Seq<u8>>, stamp: Seq<u8>) -> Seq<u8> {
    CHIPS_BEGIN.spec_bytes() + count_note(suffixes.len()) + stamp + "const CHIPS = [\n".spec_bytes()
        + concat(suffixes.map_values(|s: Seq<u8>| chip_item(s))) + "];\n".spec_bytes()
}

/// Writes the chip list block: the begin marker with the count, the stamp,
/// and every suffix quoted on a line of its own.
pub fn format_chip_list(suffixes: &[Vec<u8>], stamp: &[u8]) -> (r: Vec<u8>)
    ensures
        r@ == chip_list(suffixes.deep_view(), stamp@),
{
    let ghost sv = suffixes.deep_view();
    let mut out: Vec<u8> = Vec::new();
    push_all(&mut out, CHIPS_BEGIN.as_bytes());
    push_all(&mut out, " (".as_bytes());
    push_decimal(&mut out, suffixes.len() as u64);
    push_all(&mut out, " шт., cargo run --manifest-path chip-data-gen/Cargo.toml)\n".as_bytes());
    push_all(&mut out, stamp);
    push_all(&mut out, "const CHIPS = [\n".as_bytes());
    let ghost head = out@;
    assert(head =~= CHIPS_BEGIN.spec_bytes() + count_note(sv.len()) + stamp@
        + "const CHIPS = [\n".spec_bytes());
    let mut i: usize = 0;
    while i < suffixes.len()
        invariant
            0 <= i <= suffixes@.len(),
            sv == suffixes.deep_view(),
            out@ == head + concat(sv.subrange(0, i as int).map_values(|s: Seq<u8>| chip_item(s))),
        decreases suffixes.len() - i,
    {
        let ghost before = out@;
        push_all(&mut out, "    ".as_bytes());
        push_all(&mut out, "\"".as_bytes());
        push_all(&mut out, suffixes[i].as_slice());
        push_all(&mut out, "\"".as_bytes());
        push_all(&mut out, ",\n".as_bytes());
        proof {
            assert(sv[i as int] == suffixes@[i as int]@);
            let m = sv.subrange(0, i + 1).map_values(|s: Seq<u8>| chip_item(s));
            assert(m.drop_last() =~= sv.subrange(0, i as int).map_values(|s: Seq<u8>| chip_item(s)));
            assert(m.last() == chip_item(sv[i as int]));
            assert(out@ =~= head + concat(m));
        }
        i = i + 1;
    }
    push_all(&mut out, "];\n".as_bytes());
    assert(sv.subrange(0, sv.len() as int) == sv);
    assert(out@ =~= chip_list(sv, stamp@));
    out
}


/// The candidates of a chip, quoted and joined by `, `, from the `i`-th on.
pub open spec fn joined_candidates(c: Seq<Seq<u8>>, n: int) -> Seq<u8>
    decreases n,
{
    if n <= 0 {
        Seq::empty()
    } else {
        joined_candidates(c, n - 1) + (if n - 1 > 0 { ", ".spec_bytes() } else { Seq::empty() })
            + "\"".spec_bytes() + c[n - 1] + "\"".spec_bytes()
    }
}

#[verifier::opaque]
pub open spec fn package_item(entry: (Seq<u8>, Seq<Seq<u8>>)) -> Seq<u8> {
    "    ".spec_bytes() + "\"".spec_bytes() + entry.0 + "\"".spec_bytes() + ": [".spec_bytes()
        + joined_candidates(entry.1, entry.1.len() as int) + "],\n".spec_bytes()
}

/// The packaging choices block.
pub open spec fn package_choices(choices: Seq<(Seq<u8>, Seq<Seq<u8>>)>) -> Seq<u8> {
    PACKAGES_BEGIN.spec_bytes() + count_note(choices.len()) + "const PACKAGE_CHOICES = #{\n".spec_bytes()
        + concat(choices.map_values(|e: (Seq<u8>, Seq<Seq<u8>>)| package_item(e))) + "};\n".spec_bytes()
}

fn push_candidates(out: &mut Vec<u8>, candidates: &Vec<Vec<u8>>)
    ensures
        final(out)@ == old(out)@ + joined_candidates(candidates.deep_view(), candidates@.len() as int),
{
    let ghost mid = out@;
    let ghost cands = candidates.deep_view();
    let mut k: usize = 0;
    while k < candidates.len()
        invariant
            0 <= k <= candidates@.len(),
            cands == candidates.deep_view(),
            out@ == mid + joined_candidates(cands, k as int),
        decreases candidates.len() - k,
    {
        if k > 0 {
            push_all(out, ", ".as_bytes());
        }
        push_all(out, "\"".as_bytes());
        push_all(out, candidates[k].as_slice());
        push_all(out, "\"".as_bytes());
        assert(cands[k as int] == candidates@[k as int]@);
        assert(out@ =~= mid + joined_candidates(cands, k + 1));
        k = k + 1;
    }
}

fn push_count_note(out: &mut Vec<u8>, n: usize)
    ensures
        final(out)@ == old(out)@ + count_note(n as nat),
{
    let ghost start = out@;
    push_all(out, " (".as_bytes());
    push_decimal(out, n as u64);
    push_all(out, " шт., cargo run --manifest-path chip-data-gen/Cargo.toml)\n".as_bytes());
    assert(out@ =~= start + count_note(n as nat));
}

/// Writes the packaging choices block: for every chip, in ascending order of
/// the chip names (each once), its quoted suffix and the list of its
/// candidate targets.
pub fn format_package_choices(choices: &[(Vec<u8>, Vec<Vec<u8>>)]) -> (r: Vec<u8>)
    requires
        strictly_sorted(choices@.map_values(|e: (Vec<u8>, Vec<Vec<u8>>)| e.0@)),
    ensures
        r@ == package_choices(choices.deep_view()),
{
    let ghost cv = choices.deep_view();
    let mut out: Vec<u8> = Vec::new();
    push_all(&mut out, PACKAGES_BEGIN.as_bytes());
    push_count_note(&mut out, choices.len());
    push_all(&mut out, "const PACKAGE_CHOICES = #{\n".as_bytes());
    let ghost head = out@;
    let mut i: usize = 0;
    while i < choices.len()
        invariant
            0 <= i <= choices@.len(),
            cv == choices.deep_view(),
            out@ == head + concat(
                cv.subrange(0, i as int).map_values(|e: (Seq<u8>, Seq<Seq<u8>>)| package_item(e)),
            ),
        decreases choices.len() - i,
    {
        let ghost before = out@;
        let (suffix, candidates) = &choices[i];
        assert(cv[i as int] == choices@[i as int].deep_view());
        push_all(&mut out, "    ".as_bytes());
        push_all(&mut out, "\"".as_bytes());
        push_all(&mut out, suffix.as_slice());
        push_all(&mut out, "\"".as_bytes());
        push_all(&mut out, ": [".as_bytes());
        push_candidates(&mut out, candidates);
        push_all(&mut out, "],\n".as_bytes());
        assert(out@ =~= before + package_item(cv[i as int])) by {
            reveal(package_item);
        }
        proof {
            let m = cv.subrange(0, i + 1).map_values(|e: (Seq<u8>, Seq<Seq<u8>>)| package_item(e));
            assert(m.drop_last() =~= cv.subrange(0, i as int).map_values(
                |e: (Seq<u8>, Seq<Seq<u8>>)| package_item(e),
            ));
            assert(m.last() == package_item(cv[i as int]));
            assert(out@ =~= head + concat(m));
        }
        i = i + 1;
    }
    push_all(&mut out, "};\n".as_bytes());
    assert(cv.subrange(0, cv.len() as int) == cv);
    assert(out@ =~= package_choices(cv));
    out
}

pub open spec fn bank_item(entry: (Seq<u8>, BankMode)) -> Seq<u8> {
    "    ".spec_bytes() + "\"".spec_bytes() + entry.0 + "\"".spec_bytes() + ": ".spec_bytes()
        + "\"".spec_bytes() + bank_mode_text(entry.1) + "\"".spec_bytes() + ",\n".spec_bytes()
}

/// The bank mode block.
pub open spec fn bank_modes(modes: Seq<(Seq<u8>, BankMode)>) -> Seq<u8> {
    BANKS_BEGIN.spec_bytes() + count_note(modes.len()) + "const BANK_MODE = #{\n".spec_bytes()
        + concat(modes.map_values(|e: (Seq<u8>, BankMode)| bank_item(e))) + "};\n".spec_bytes()
}

/// Writes the bank mode block: for every chip, in ascending order of the
/// chip names (each once), the
/// feature that selects its bank scheme.
pub fn format_bank_modes(modes: &[(Vec<u8>, BankMode)]) -> (r: Vec<u8>)
    requires
        strictly_sorted(modes@.map_values(|e: (Vec<u8>, BankMode)| e.0@)),
    ensures
        r@ == bank_modes(modes@.map_values(|e: (Vec<u8>, BankMode)| (e.0@, e.1))),
{
    let ghost mv = modes@.map_values(|e: (Vec<u8>, BankMode)| (e.0@, e.1));
    let mut out: Vec<u8> = Vec::new();
    push_all(&mut out, BANKS_BEGIN.as_bytes());
    push_count_note(&mut out, modes.len());
    push_all(&mut out, "const BANK_MODE = #{\n".as_bytes());
    let ghost head = out@;
    let mut i: usize = 0;
    while i < modes.len()
        invariant
            0 <= i <= modes@.len(),
            mv == modes@.map_values(|e: (Vec<u8>, BankMode)| (e.0@, e.1)),
            out@ == head + concat(mv.subrange(0, i as int).map_values(|e: (Seq<u8>, BankMode)| bank_item(e))),
        decreases modes.len() - i,
    {
        let ghost before = out@;
        let (suffix, mode) = &modes[i];
        assert(mv[i as int] == (suffix@, *mode));
        let name = mode.as_str().as_bytes();
        push_all(&mut out, "    ".as_bytes());
        push_all(&mut out, "\"".as_bytes());
        push_all(&mut out, suffix.as_slice());
        push_all(&mut out, "\"".as_bytes());
        push_all(&mut out, ": ".as_bytes());
        push_all(&mut out, "\"".as_bytes());
        push_all(&mut out, name);
        push_all(&mut out, "\"".as_bytes());
        push_all(&mut out, ",\n".as_bytes());
        assert(out@ =~= before + bank_item(mv[i as int]));
        proof {
            let m = mv.subrange(0, i + 1).map_values(|e: (Seq<u8>, BankMode)| bank_item(e));
            assert(m.drop_last() =~= mv.subrange(0, i as int).map_values(|e: (Seq<u8>, BankMode)| bank_item(e)));
            assert(m.last() == bank_item(mv[i as int]));
            assert(out@ =~= head + concat(m));
        }
        i = i + 1;
    }
    push_all(&mut out, "};\n".as_bytes());
    assert(mv.subrange(0, mv.len() as int) == mv);
    assert(out@ =~= bank_modes(mv));
    out
}


/// One field of a Rhai map: `"key": "value",` on a line of its own.
#[verifier::opaque]
pub open spec fn field_line(key: Seq<u8>, value: Seq<u8>) -> Seq<u8> {
    "        ".spec_bytes() + "\"".spec_bytes() + key + "\"".spec_bytes() + ": ".spec_bytes()
        + "\"".spec_bytes() + value + "\"".spec_bytes() + ",\n".spec_bytes()
}

fn push_field(out: &mut Vec<u8>, key: &str, value: &[u8])
    ensures
        final(out)@ == old(out)@ + field_line(key.spec_bytes(), value@),
{
    reveal(field_line);
    let ghost start = out@;
    push_all(out, "        ".as_bytes());
    push_all(out, "\"".as_bytes());
    push_all(out, key.as_bytes());
    push_all(out, "\"".as_bytes());
    push_all(out, ": ".as_bytes());
    push_all(out, "\"".as_bytes());
    push_all(out, value);
    push_all(out, "\"".as_bytes());
    push_all(out, ",\n".as_bytes());
    assert(out@ =~= start + field_line(key.spec_bytes(), value@));
}

#[verifier::opaque]
pub open spec fn optional_region_fields(
    region: Option<(u64, u64)>,
    origin_key: Seq<u8>,
    length_key: Seq<u8>,
) -> Seq<u8> {
    match region {
        None => Seq::empty(),
        Some((o, l)) => field_line(origin_key, addr_text(o)) + field_line(length_key, size_text(l)),
    }
}

pub open spec fn extra_item(line: Seq<u8>) -> Seq<u8> {
    "            ".spec_bytes() + "\"".spec_bytes() + line + "\"".spec_bytes() + ",\n".spec_bytes()
}

#[verifier::opaque]
pub open spec fn extra_part(lines: Seq<Seq<u8>>) -> Seq<u8> {
    if lines.len() == 0 {
        Seq::empty()
    } else {
        "        \"extra_regions\": [\n".spec_bytes() + concat(
            lines.map_values(|l: Seq<u8>| extra_item(l)),
        ) + "        ],\n".spec_bytes()
    }
}

#[verifier::opaque]
pub open spec fn ota_part(ota: Result<OtaPartitions, OtaRefusal>) -> Seq<u8> {
    match ota {
        Ok(p) => field_line("ota".spec_bytes(), "true".spec_bytes()) + field_line(
            "bootloader_length".spec_bytes(),
            size_text(p.bootloader_length),
        ) + field_line("bootloader_state_origin".spec_bytes(), addr_text(p.bootloader_state_origin))
            + field_line("bootloader_state_length".spec_bytes(), size_text(p.bootloader_state_length))
            + field_line("active_origin".spec_bytes(), addr_text(p.active_origin)) + field_line(
            "active_length".spec_bytes(),
            size_text(p.active_length),
        ) + field_line("dfu_origin".spec_bytes(), addr_text(p.dfu_origin)) + field_line(
            "dfu_length".spec_bytes(),
            size_text(p.dfu_length),
        ),
        Err(r) => field_line("ota".spec_bytes(), "false".spec_bytes()) + field_line(
            "note".spec_bytes(),
            refusal_text(r),
        ),
    }
}

/// The fields of the layout of one chip.
#[verifier::opaque]
pub open spec fn layout_fields(m: LayoutView) -> Seq<u8> {
    field_line("flash_origin".spec_bytes(), addr_text(m.flash_origin)) + field_line(
        "flash_length".spec_bytes(),
        size_text(m.flash_length),
    ) + field_line("ram_origin".spec_bytes(), addr_text(m.ram_origin)) + field_line(
        "ram_length".spec_bytes(),
        size_text(m.ram_length),
    ) + optional_region_fields(m.persist, "persist_origin".spec_bytes(), "persist_length".spec_bytes())
        + optional_region_fields(m.panic, "panic_origin".spec_bytes(), "panic_length".spec_bytes())
        + extra_part(m.extra_regions) + field_line(
        "write_size".spec_bytes(),
        decimal(m.write_size as nat),
    ) + ota_part(m.ota)
}

pub open spec fn layout_item(entry: (Seq<u8>, LayoutView)) -> Seq<u8> {
    "    ".spec_bytes() + "\"".spec_bytes() + entry.0 + "\"".spec_bytes() + ": #{\n".spec_bytes()
        + layout_fields(entry.1) + "    },\n".spec_bytes()
}

/// How many of the layouts fit the bootloader scheme.
pub open spec fn count_with_ota(ls: Seq<(Seq<u8>, LayoutView)>) -> nat
    decreases ls.len(),
{
    if ls.len() == 0 {
        0
    } else {
        count_with_ota(ls.drop_last()) + if ls.last().1.ota is Ok { 1nat } else { 0nat }
    }
}

/// The memory layout block.
pub open spec fn memory_layouts(ls: Seq<(Seq<u8>, LayoutView)>) -> Seq<u8> {
    MEMORY_BEGIN.spec_bytes() + " (".spec_bytes() + decimal(ls.len()) + " шт., из них ".spec_bytes()
        + decimal(count_with_ota(ls)) + " с OTA, cargo run --manifest-path chip-data-gen/Cargo.toml)\n".spec_bytes()
        + "const MEMORY_LAYOUT = #{\n".spec_bytes() + concat(
        ls.map_values(|e: (Seq<u8>, LayoutView)| layout_item(e)),
    ) + "};\n".spec_bytes()
}

pub open spec fn quote_free(s: Seq<u8>) -> bool {
    !s.contains(0x22u8)
}

proof fn lemma_concat_quote_free(a: Seq<u8>, b: Seq<u8>)
    requires
        quote_free(a),
        quote_free(b),
    ensures
        quote_free(a + b),
{
    if (a + b).contains(0x22u8) {
        let k = choose|k: int| 0 <= k < (a + b).len() && (a + b)[k] == 0x22u8;
        if k < a.len() {
            assert(a[k] == 0x22u8);
        } else {
            assert(b[k - a.len()] == 0x22u8);
        }
    }
}

proof fn lemma_decimal_quote_free(n: nat)
    ensures
        quote_free(decimal(n)),
{
    crate::numtext::lemma_decimal_reads_back(n);
    if decimal(n).contains(0x22u8) {
        let k = choose|k: int| 0 <= k < decimal(n).len() && decimal(n)[k] == 0x22u8;
        assert(0x30 <= decimal(n)[k] <= 0x39);
    }
}

/// The UTF-8 encoding of a character other than `"` holds no quote byte:
/// every byte of a longer encoding has its high bit set.
proof fn lemma_scalar_quote_free(s: u32)
    requires
        s != 0x22,
    ensures
        quote_free(vstd::utf8::encode_scalar(s)),
{
    let e = vstd::utf8::encode_scalar(s);
    if vstd::utf8::has_width_1_encoding(s) {
        assert((s & 0x7F) as u8 != 0x22u8) by (bit_vector)
            requires
                s <= 0x7F,
                s != 0x22,
        ;
    }
    assert forall|x: u8| (0xC0u8 | x) != 0x22u8 && (0x80u8 | x) != 0x22u8 && (0xE0u8 | x) != 0x22u8
        && (0xF0u8 | x) != 0x22u8 by {
        assert((0xC0u8 | x) != 0x22u8 && (0x80u8 | x) != 0x22u8 && (0xE0u8 | x) != 0x22u8 && (
        0xF0u8 | x) != 0x22u8) by (bit_vector);
    }
    if e.contains(0x22u8) {
        let k = choose|k: int| 0 <= k < e.len() && e[k] == 0x22u8;
        assert(e[k] == 0x22u8);
    }
}

/// Text without a `"` character encodes to bytes without a quote.
proof fn lemma_chars_quote_free(chars: Seq<char>)
    requires
        forall|k: int| 0 <= k < chars.len() ==> #[trigger] chars[k] != '"',
    ensures
        quote_free(vstd::utf8::encode_utf8(chars)),
    decreases chars.len(),
{
    if chars.len() > 0 {
        assert(chars[0] != '"');
        let u = chars[0] as u32;
        if u == 0x22 {
            vstd::utf8::char_u32_cast(chars[0], u);
            assert((0x22u32 as char) == '"');
        }
        lemma_scalar_quote_free(chars[0] as u32);
        lemma_chars_quote_free(chars.drop_first());
        lemma_concat_quote_free(
            vstd::utf8::encode_scalar(chars[0] as u32),
            vstd::utf8::encode_utf8(chars.drop_first()),
        );
    }
}

proof fn lemma_literal_quote_free(s: &str)
    requires
        forall|k: int| 0 <= k < s@.len() ==> #[trigger] s@[k] != '"',
    ensures
        quote_free(s.spec_bytes()),
{
    lemma_chars_quote_free(s@);
}

proof fn lemma_human_size_quote_free(v: u64)
    ensures
        quote_free(human_size(v)),
{
    reveal_strlit(" KiB");
    reveal_strlit(" B");
    lemma_literal_quote_free(" KiB");
    lemma_literal_quote_free(" B");
    if v >= 1024 {
        lemma_decimal_quote_free((v / 1024) as nat);
        lemma_concat_quote_free(decimal((v / 1024) as nat), " KiB".spec_bytes());
    } else {
        lemma_decimal_quote_free(v as nat);
        lemma_concat_quote_free(decimal(v as nat), " B".spec_bytes());
    }
}

/// No reason why a chip gets no bootloader scheme holds a quote.
pub proof fn lemma_refusal_text_quote_free(r: OtaRefusal)
    ensures
        quote_free(refusal_text(r)),
{
    match r {
        OtaRefusal::ReserveNotFound { page_size } => {
            let a = "резерв под bootloader не подобрался, дорастив его на ".spec_bytes();
            let b = " страниц по ".spec_bytes();
            reveal_strlit("резерв под bootloader не подобрался, дорастив его на ");
            reveal_strlit(" страниц по ");
            lemma_literal_quote_free("резерв под bootloader не подобрался, дорастив его на ");
            lemma_literal_quote_free(" страниц по ");
            lemma_decimal_quote_free(MAX_EXTRA_RESERVED_PAGES as nat);
            lemma_human_size_quote_free(page_size);
            lemma_concat_quote_free(a, decimal(MAX_EXTRA_RESERVED_PAGES as nat));
            lemma_concat_quote_free(a + decimal(MAX_EXTRA_RESERVED_PAGES as nat), b);
            lemma_concat_quote_free(a + decimal(MAX_EXTRA_RESERVED_PAGES as nat) + b, human_size(page_size));
        },
        OtaRefusal::FlashBelowReserve { flash_total, reserved, page_size } => {
            let a = "flash ".spec_bytes();
            let b = " меньше резерва под bootloader (".spec_bytes();
            let c = " при секторе ".spec_bytes();
            let d = ")".spec_bytes();
            reveal_strlit("flash ");
            reveal_strlit(" меньше резерва под bootloader (");
            reveal_strlit(" при секторе ");
            reveal_strlit(")");
            lemma_literal_quote_free("flash ");
            lemma_literal_quote_free(" меньше резерва под bootloader (");
            lemma_literal_quote_free(" при секторе ");
            lemma_literal_quote_free(")");
            lemma_human_size_quote_free(flash_total);
            lemma_human_size_quote_free(reserved);
            lemma_human_size_quote_free(page_size);
            let s1 = a + human_size(flash_total);
            lemma_concat_quote_free(a, human_size(flash_total));
            lemma_concat_quote_free(s1, b);
            lemma_concat_quote_free(s1 + b, human_size(reserved));
            lemma_concat_quote_free(s1 + b + human_size(reserved), c);
            lemma_concat_quote_free(s1 + b + human_size(reserved) + c, human_size(page_size));
            lemma_concat_quote_free(s1 + b + human_size(reserved) + c + human_size(page_size), d);
        },
        OtaRefusal::UnknownBoundarySector => {
            reveal_strlit("не удалось определить размер сектора на границе резерва");
            lemma_literal_quote_free("не удалось определить размер сектора на границе резерва");
        },
        OtaRefusal::MisalignedReserve { reserved, local_erase } => {
            let a = "резерв ".spec_bytes();
            let b = " не ложится на границу сектора ".spec_bytes();
            reveal_strlit("резерв ");
            reveal_strlit(" не ложится на границу сектора ");
            lemma_literal_quote_free("резерв ");
            lemma_literal_quote_free(" не ложится на границу сектора ");
            lemma_human_size_quote_free(reserved);
            lemma_human_size_quote_free(local_erase);
            lemma_concat_quote_free(a, human_size(reserved));
            lemma_concat_quote_free(a + human_size(reserved), b);
            lemma_concat_quote_free(a + human_size(reserved) + b, human_size(local_erase));
        },
        OtaRefusal::TooFewPages { flash_total, page_size, reserved, remaining } => {
            let a = "flash ".spec_bytes();
            let b = " при секторе ".spec_bytes();
            let c = ": под BOOTLOADER+STATE уходит ".spec_bytes();
            let d = ", на ACTIVE+DFU остаётся стираемых страниц: ".spec_bytes();
            let e = " (нужно 3)".spec_bytes();
            reveal_strlit("flash ");
            reveal_strlit(" при секторе ");
            reveal_strlit(": под BOOTLOADER+STATE уходит ");
            reveal_strlit(", на ACTIVE+DFU остаётся стираемых страниц: ");
            reveal_strlit(" (нужно 3)");
            lemma_literal_quote_free("flash ");
            lemma_literal_quote_free(" при секторе ");
            lemma_literal_quote_free(": под BOOTLOADER+STATE уходит ");
            lemma_literal_quote_free(", на ACTIVE+DFU остаётся стираемых страниц: ");
            lemma_literal_quote_free(" (нужно 3)");
            lemma_human_size_quote_free(flash_total);
            lemma_human_size_quote_free(page_size);
            lemma_human_size_quote_free(reserved);
            lemma_decimal_quote_free(remaining as nat);
            let s1 = a + human_size(flash_total);
            lemma_concat_quote_free(a, human_size(flash_total));
            lemma_concat_quote_free(s1, b);
            lemma_concat_quote_free(s1 + b, human_size(page_size));
            let s2 = s1 + b + human_size(page_size);
            lemma_concat_quote_free(s2, c);
            lemma_concat_quote_free(s2 + c, human_size(reserved));
            let s3 = s2 + c + human_size(reserved);
            lemma_concat_quote_free(s3, d);
            lemma_concat_quote_free(s3 + d, decimal(remaining as nat));
            lemma_concat_quote_free(s3 + d + decimal(remaining as nat), e);
        },
    }
}

/// What the block can only be written for: no quote in a region line, where
/// it would end the Rhai string early (a reason never holds one:
/// [`lemma_refusal_text_quote_free`]).
pub open spec fn layouts_writable(ls: Seq<(Seq<u8>, LayoutView)>) -> bool {
    forall|i: int|
        0 <= i < ls.len() ==> forall|j: int|
            0 <= j < (#[trigger] ls[i]).1.extra_regions.len() ==> quote_free(
                #[trigger] ls[i].1.extra_regions[j],
            )
}

fn quote_free_exec(s: &[u8]) -> (r: bool)
    ensures
        r == quote_free(s@),
{
    let mut i: usize = 0;
    while i < s.len()
        invariant
            0 <= i <= s@.len(),
            forall|k: int| 0 <= k < i ==> s@[k] != 0x22u8,
        decreases s.len() - i,
    {
        if s[i] == 0x22 {
            assert(s@[i as int] == 0x22u8);
            return false;
        }
        i = i + 1;
    }
    true
}

fn layout_writable(m: &MemoryLayout) -> (r: bool)
    ensures
        r == (forall|j: int|
            0 <= j < m@.extra_regions.len() ==> quote_free(#[trigger] m@.extra_regions[j])),
{
    let ghost lines = m@.extra_regions;
    let mut j: usize = 0;
    while j < m.extra_regions.len()
        invariant
            0 <= j <= m.extra_regions@.len(),
            lines == m.extra_regions.deep_view(),
            forall|k: int| 0 <= k < j ==> quote_free(#[trigger] lines[k]),
        decreases m.extra_regions.len() - j,
    {
        assert(lines[j as int] == m.extra_regions@[j as int]@);
        if !quote_free_exec(m.extra_regions[j].as_slice()) {
            assert(!quote_free(m@.extra_regions[j as int]));
            return false;
        }
        j = j + 1;
    }
    true
}

/// Whether the memory layout block can be written for `layouts`.
pub fn layouts_are_writable(layouts: &[(Vec<u8>, MemoryLayout)]) -> (r: bool)
    ensures
        r == layouts_writable(layouts.deep_view()),
{
    let ghost lv = layouts.deep_view();
    let mut i: usize = 0;
    while i < layouts.len()
        invariant
            0 <= i <= layouts@.len(),
            lv == layouts.deep_view(),
            forall|k: int|
                0 <= k < i ==> forall|j: int|
                    0 <= j < (#[trigger] lv[k]).1.extra_regions.len() ==> quote_free(
                        #[trigger] lv[k].1.extra_regions[j],
                    ),
        decreases layouts.len() - i,
    {
        assert(lv[i as int] == layouts@[i as int].deep_view());
        if !layout_writable(&layouts[i].1) {
            return false;
        }
        i = i + 1;
    }
    true
}

fn push_optional_region(out: &mut Vec<u8>, region: Option<(u64, u64)>, origin_key: &str, length_key: &str)
    ensures
        final(out)@ == old(out)@ + optional_region_fields(
            region,
            origin_key.spec_bytes(),
            length_key.spec_bytes(),
        ),
{
    reveal(optional_region_fields);
    let ghost start = out@;
    if let Some((o, l)) = region {
        let a = crate::memtext::format_addr(o);
        push_field(out, origin_key, a.as_slice());
        let z = crate::memtext::format_size(l);
        push_field(out, length_key, z.as_slice());
    }
    assert(out@ =~= start + optional_region_fields(region, origin_key.spec_bytes(), length_key.spec_bytes()));
}

fn push_extra(out: &mut Vec<u8>, lines: &Vec<Vec<u8>>)
    ensures
        final(out)@ == old(out)@ + extra_part(lines.deep_view()),
{
    reveal(extra_part);
    let ghost start = out@;
    let ghost lv = lines.deep_view();
    if lines.len() == 0 {
        assert(out@ =~= start + extra_part(lv));
        return;
    }
    push_all(out, "        \"extra_regions\": [\n".as_bytes());
    let ghost head = out@;
    let mut k: usize = 0;
    while k < lines.len()
        invariant
            0 <= k <= lines@.len(),
            lv == lines.deep_view(),
            out@ == head + concat(lv.subrange(0, k as int).map_values(|l: Seq<u8>| extra_item(l))),
        decreases lines.len() - k,
    {
        push_all(out, "            ".as_bytes());
        push_all(out, "\"".as_bytes());
        push_all(out, lines[k].as_slice());
        push_all(out, "\"".as_bytes());
        push_all(out, ",\n".as_bytes());
        proof {
            assert(lv[k as int] == lines@[k as int]@);
            let m = lv.subrange(0, k + 1).map_values(|l: Seq<u8>| extra_item(l));
            assert(m.drop_last() =~= lv.subrange(0, k as int).map_values(|l: Seq<u8>| extra_item(l)));
            assert(out@ =~= head + concat(m));
        }
        k = k + 1;
    }
    push_all(out, "        ],\n".as_bytes());
    assert(lv.subrange(0, lv.len() as int) == lv);
    assert(out@ =~= start + extra_part(lv));
}

fn push_ota(out: &mut Vec<u8>, ota: &Result<OtaPartitions, OtaRefusal>)
    ensures
        final(out)@ == old(out)@ + ota_part(*ota),
{
    reveal(ota_part);
    let ghost start = out@;
    match ota {
        Ok(p) => {
            push_field(out, "ota", "true".as_bytes());
            push_field(out, "bootloader_length", crate::memtext::format_size(p.bootloader_length).as_slice());
            push_field(out, "bootloader_state_origin", crate::memtext::format_addr(p.bootloader_state_origin).as_slice());
            push_field(out, "bootloader_state_length", crate::memtext::format_size(p.bootloader_state_length).as_slice());
            push_field(out, "active_origin", crate::memtext::format_addr(p.active_origin).as_slice());
            push_field(out, "active_length", crate::memtext::format_size(p.active_length).as_slice());
            push_field(out, "dfu_origin", crate::memtext::format_addr(p.dfu_origin).as_slice());
            push_field(out, "dfu_length", crate::memtext::format_size(p.dfu_length).as_slice());
        },
        Err(r) => {
            push_field(out, "ota", "false".as_bytes());
            push_field(out, "note", refusal_message(r).as_slice());
        },
    }
    assert(out@ =~= start + ota_part(*ota));
}

#[verifier::spinoff_prover]
fn push_layout_fields(out: &mut Vec<u8>, m: &MemoryLayout)
    ensures
        final(out)@ == old(out)@ + layout_fields(m@),
{
    let ghost body_start = out@;
    push_field(out, "flash_origin", crate::memtext::format_addr(m.flash_origin).as_slice());
    push_field(out, "flash_length", crate::memtext::format_size(m.flash_length).as_slice());
    push_field(out, "ram_origin", crate::memtext::format_addr(m.ram_origin).as_slice());
    push_field(out, "ram_length", crate::memtext::format_size(m.ram_length).as_slice());
    push_optional_region(out, m.persist, "persist_origin", "persist_length");
    push_optional_region(out, m.panic, "panic_origin", "panic_length");
    push_extra(out, &m.extra_regions);
    push_field(out, "write_size", crate::numtext::decimal_exec(m.write_size).as_slice());
    push_ota(out, &m.ota);
    assert(out@ =~= body_start + layout_fields(m@)) by {
        reveal(layout_fields);
    }
}

fn push_layout(out: &mut Vec<u8>, suffix: &[u8], m: &MemoryLayout)
    ensures
        final(out)@ == old(out)@ + layout_item((suffix@, m@)),
{
    let ghost start = out@;
    push_all(out, "    ".as_bytes());
    push_all(out, "\"".as_bytes());
    push_all(out, suffix);
    push_all(out, "\"".as_bytes());
    push_all(out, ": #{\n".as_bytes());
    push_layout_fields(out, m);
    push_all(out, "    },\n".as_bytes());
    assert(out@ =~= start + layout_item((suffix@, m@)));
}

/// Writes the memory layout block: the begin marker with the number of
/// chips and of those with the bootloader scheme, then for every chip, in
/// ascending order of the chip names (each once), its addresses and sizes,
/// its other regions, and its partitions or the reason it has none.
pub fn format_memory_layouts(layouts: &[(Vec<u8>, MemoryLayout)]) -> (r: Vec<u8>)
    requires
        layouts_writable(layouts.deep_view()),
        strictly_sorted(layouts@.map_values(|e: (Vec<u8>, MemoryLayout)| e.0@)),
    ensures
        r@ == memory_layouts(layouts.deep_view()),
{
    let ghost lv = layouts.deep_view();
    let mut with_ota: usize = 0;
    let mut i: usize = 0;
    while i < layouts.len()
        invariant
            0 <= i <= layouts@.len(),
            lv == layouts.deep_view(),
            with_ota == count_with_ota(lv.subrange(0, i as int)),
            with_ota <= i,
        decreases layouts.len() - i,
    {
        assert(lv[i as int] == layouts@[i as int].deep_view());
        assert(lv.subrange(0, i + 1).drop_last() =~= lv.subrange(0, i as int));
        if layouts[i].1.ota.is_ok() {
            with_ota = with_ota + 1;
        }
        i = i + 1;
    }
    assert(lv.subrange(0, lv.len() as int) == lv);
    let mut out: Vec<u8> = Vec::new();
    push_all(&mut out, MEMORY_BEGIN.as_bytes());
    push_all(&mut out, " (".as_bytes());
    push_decimal(&mut out, layouts.len() as u64);
    push_all(&mut out, " шт., из них ".as_bytes());
    push_decimal(&mut out, with_ota as u64);
    push_all(&mut out, " с OTA, cargo run --manifest-path chip-data-gen/Cargo.toml)\n".as_bytes());
    push_all(&mut out, "const MEMORY_LAYOUT = #{\n".as_bytes());
    let ghost head = out@;
    let mut k: usize = 0;
    while k < layouts.len()
        invariant
            0 <= k <= layouts@.len(),
            lv == layouts.deep_view(),
            out@ == head + concat(lv.subrange(0, k as int).map_values(|e: (Seq<u8>, LayoutView)| layout_item(e))),
        decreases layouts.len() - k,
    {
        let (suffix, m) = &layouts[k];
        assert(lv[k as int] == (suffix@, m@));
        push_layout(&mut out, suffix.as_slice(), m);
        proof {
            let mm = lv.subrange(0, k + 1).map_values(|e: (Seq<u8>, LayoutView)| layout_item(e));
            assert(mm.drop_last() =~= lv.subrange(0, k as int).map_values(|e: (Seq<u8>, LayoutView)| layout_item(e)));
            assert(out@ =~= head + concat(mm));
        }
        k = k + 1;
    }
    push_all(&mut out, "};\n".as_bytes());
    assert(out@ =~= memory_layouts(lv));
    out
}

} // verus!
