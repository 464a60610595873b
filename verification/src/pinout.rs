//! Pin reference of the project's chip: which pins carry the signals of a
//! peripheral block and with which alternate functions, which DMA channels
//! and interrupts belong to the block, where its clock comes from, and which
//! pins the debug port and the crystals hold, the one thing the types of the
//! HAL cannot tell.
//!
//! The chip data is the chip's metadata as plain values; its names are
//! ASCII, as the metadata writes them.

use vstd::prelude::*;
use vstd::string::StringSliceAdditionalSpecFns;
use crate::bytes::{push_all, bytes_le, bytes_le_exec, eq_bytes, starts_with, starts_with_exec, trim_end_at,
    trim_end_index};
use crate::memtext::{pad_chars, push_padded_chars};
use crate::numtext::{decimal, push_decimal};
use crate::bytes::{find, find_from, contains, contains_seq};
use crate::chipgen::{line_end, content_end};
use crate::numtext::{parse_unsigned, parse_unsigned_exec};
use crate::memlayout::{insert_sorted, sorted_by};
use crate::templatecheck::bytes_lt;

verus! {

/// One signal of a block on one pin: `pin` carries `signal`, through the
/// alternate function `af` where the pin needs one.
pub struct PinFunction {
    pub pin: Vec<u8>,
    pub signal: Vec<u8>,
    pub af: Option<u8>,
}

/// How a DMA request of a block is wired: whichever of controller, channel,
/// DMAMUX, request number and remaps the metadata fills in.
pub struct DmaChannel {
    pub signal: Vec<u8>,
    pub dma: Option<Vec<u8>>,
    pub channel: Option<Vec<u8>>,
    pub dmamux: Option<Vec<u8>>,
    pub request: Option<u32>,
    /// Remap switches as `(register, field)`.
    pub remap: Vec<(Vec<u8>, Vec<u8>)>,
}

/// An interrupt line of a block: its signal and the interrupt's name.
pub struct Interrupt {
    pub signal: Vec<u8>,
    pub interrupt: Vec<u8>,
}

/// Where the kernel clock of a block comes from: a fixed clock, or a
/// multiplexer given as `(register, field)`.
pub enum KernelClock {
    Clock(Vec<u8>),
    Mux(Vec<u8>, Vec<u8>),
}

/// The bus clock and the kernel clock of a block.
pub struct Clocks {
    pub bus_clock: Vec<u8>,
    pub kernel_clock: KernelClock,
}

/// A peripheral block of the chip.
pub struct Block {
    pub name: Vec<u8>,
    /// The register block kind (`usart`, `i2c`, ...); empty where the block
    /// has no registers.
    pub kind: Vec<u8>,
    pub pins: Vec<PinFunction>,
    pub dma_channels: Vec<DmaChannel>,
    pub interrupts: Vec<Interrupt>,
    pub rcc: Option<Clocks>,
}

/// The chip: its name, its family, the pins of its package and its blocks.
pub struct Chip {
    pub name: Vec<u8>,
    pub family: Vec<u8>,
    pub pins: Vec<Vec<u8>>,
    pub blocks: Vec<Block>,
}

/// How bad it is to take a pin for one's own use.
#[derive(Clone, Copy, Debug, PartialEq, Eq, Structural)]
pub enum Severity {
    /// The board loses its debug port.
    Conflict,
    /// Depends on the board: a crystal may be absent, JTAG pins are free in
    /// SWD mode.
    Warning,
}

// ---------------------------------------------------------------------
// Names of pins and blocks
// ---------------------------------------------------------------------

/// `P`, a port letter and a digit: `PA9`, `PH1`, `PA0_C`.
pub open spec fn is_pin_name(s: Seq<u8>) -> bool {
    s.len() >= 3 && s[0] == 0x50 && 0x41 <= s[1] <= 0x5A && 0x30 <= s[2] <= 0x39
}

/// Whether `query` names a pin rather than a block.
pub fn looks_like_pin(query: &[u8]) -> (r: bool)
    ensures
        r == is_pin_name(query@),
{
    query.len() >= 3 && query[0] == 0x50 && 0x41 <= query[1] && query[1] <= 0x5A && 0x30
        <= query[2] && query[2] <= 0x39
}

/// A byte of an identifier: an ASCII letter or digit, or `_`.
pub open spec fn is_ident_byte(b: u8) -> bool {
    (0x30 <= b <= 0x39) || (0x41 <= b <= 0x5A) || (0x61 <= b <= 0x7A) || b == 0x5F
}

/// End of the identifier bytes of `s` from `j` on.
pub open spec fn ident_end(s: Seq<u8>, j: int) -> int
    decreases s.len() - j,
{
    if j < 0 || j >= s.len() || !is_ident_byte(s[j]) {
        j
    } else {
        ident_end(s, j + 1)
    }
}

/// The pin named at `i` of a line of code: a `P` that does not continue an
/// identifier, with the identifier bytes that follow it, if that names a pin.
pub open spec fn pin_at(s: Seq<u8>, i: int) -> Option<Seq<u8>> {
    if 0 <= i < s.len() && s[i] == 0x50 && !(i > 0 && is_ident_byte(s[i - 1])) {
        let c = s.subrange(i, ident_end(s, i + 1));
        if is_pin_name(c) {
            Some(c)
        } else {
            None
        }
    } else {
        None
    }
}

/// The pins named in `s` from `i` on, in order.
pub open spec fn pins_from(s: Seq<u8>, i: int) -> Seq<Seq<u8>>
    decreases s.len() - i,
{
    if i < 0 || i >= s.len() {
        Seq::empty()
    } else {
        let here = match pin_at(s, i) {
            Some(c) => seq![c],
            None => Seq::empty(),
        };
        here + pins_from(s, i + 1)
    }
}

fn is_ident_byte_exec(b: u8) -> (r: bool)
    ensures
        r == is_ident_byte(b),
{
    (0x30 <= b && b <= 0x39) || (0x41 <= b && b <= 0x5A) || (0x61 <= b && b <= 0x7A) || b == 0x5F
}

/// The names of pins in a line of code, in order: `P`, a port letter and
/// digits, not inside another identifier (so `SPI1` names no pin `PI1`).
pub fn pins_in(line: &[u8]) -> (r: Vec<Vec<u8>>)
    ensures
        r.deep_view() == pins_from(line@, 0),
{
    let n: usize = line.len();
    let mut out: Vec<Vec<u8>> = Vec::new();
    let mut i: usize = 0;
    while i < n
        invariant
            i <= n,
            n == line@.len(),
            pins_from(line@, 0) == out.deep_view() + pins_from(line@, i as int),
        decreases n - i,
    {
        let ghost before = out.deep_view();
        if line[i] == 0x50 && !(i > 0 && is_ident_byte_exec(line[i - 1])) {
            let mut j: usize = i + 1;
            while j < n && is_ident_byte_exec(line[j])
                invariant
                    i + 1 <= j <= n,
                    n == line@.len(),
                    ident_end(line@, i + 1) == ident_end(line@, j as int),
                decreases n - j,
            {
                j = j + 1;
            }
            let candidate = crate::bytes::copy_range(line, i, j);
            if looks_like_pin(candidate.as_slice()) {
                let ghost cv = candidate@;
                out.push(candidate);
                assert(out.deep_view() =~~= before + seq![cv]);
            }
        }
        assert(pins_from(line@, i as int) == (match pin_at(line@, i as int) {
            Some(c) => seq![c],
            None => Seq::<Seq<u8>>::empty(),
        }) + pins_from(line@, i + 1));
        assert(pins_from(line@, 0) =~= out.deep_view() + pins_from(line@, i + 1));
        i = i + 1;
    }
    assert(out.deep_view() + pins_from(line@, n as int) =~= out.deep_view());
    out
}

/// End of the ASCII digits of `s` from `j` on.
pub open spec fn digits_end(s: Seq<u8>, j: int) -> int
    decreases s.len() - j,
{
    if j < 0 || j >= s.len() || !(0x30 <= s[j] <= 0x39) {
        j
    } else {
        digits_end(s, j + 1)
    }
}

/// Start of the ASCII digits that end `s[..j]`.
pub open spec fn trailing_digits_start(s: Seq<u8>, j: int) -> int
    decreases j,
{
    if j <= 0 || j > s.len() || !(0x30 <= s[j - 1] <= 0x39) {
        j
    } else {
        trailing_digits_start(s, j - 1)
    }
}

/// The number that the digits `s` write, or zero where they write none that
/// fits 32 bits, as `parse::<u32>().unwrap_or(0)`.
pub open spec fn number_or_zero(s: Seq<u8>) -> u32 {
    match parse_unsigned(s, 10) {
        Some(v) => if v <= u32::MAX {
            v as u32
        } else {
            0
        },
        None => 0,
    }
}

fn number_or_zero_exec(s: &[u8]) -> (r: u32)
    ensures
        r == number_or_zero(s@),
{
    match parse_unsigned_exec(s, 10) {
        Some(v) => if v <= 0xFFFF_FFFF {
            v as u32
        } else {
            0
        },
        None => 0,
    }
}

/// Whether the sort key of the pin name `p` is defined: a name that starts
/// with `P` has an ASCII port letter after it. The key reads the number from
/// the second byte on, which for a port letter of several bytes would cut
/// a character in two: the reference stops there, and such names are left
/// out.
pub open spec fn pin_key_defined(p: Seq<u8>) -> bool {
    p.len() < 2 || p[0] != 0x50 || p[1] < 0x80
}

/// The sort key of a pin name: port letter, number, suffix, so that `PA9`
/// comes before `PA10` and `PA0_C` right after `PA0`. A name that is no pin
/// name sorts last, under `~`.
pub open spec fn pin_key(p: Seq<u8>) -> (u32, u32, Seq<u8>) {
    if p.len() < 2 || p[0] != 0x50 {
        (0x7E, 0, p)
    } else {
        let e = digits_end(p, 2);
        (p[1] as u32, number_or_zero(p.subrange(2, e)), p.subrange(e, p.len() as int))
    }
}

/// The sort key of a block name: the name without its trailing digits, and
/// the number they write, so that `TIM2` comes before `TIM10`.
pub open spec fn block_key(name: Seq<u8>) -> (Seq<u8>, u32) {
    let d = trailing_digits_start(name, name.len() as int);
    (name.subrange(0, d), number_or_zero(name.subrange(d, name.len() as int)))
}

/// The sort key of a pin name.
pub fn pin_sort_key(pin: &[u8]) -> (r: (u32, Vec<u8>, u32))
    requires
        pin_key_defined(pin@),
    ensures
        (r.0, r.2, r.1@) == pin_key(pin@),
{
    let n = pin.len();
    if n < 2 || pin[0] != 0x50 {
        return (0x7E, crate::bytes::copy_range(pin, 0, n), 0);
    }
    let mut e: usize = 2;
    while e < n && 0x30 <= pin[e] && pin[e] <= 0x39
        invariant
            2 <= e <= n,
            n == pin@.len(),
            digits_end(pin@, 2) == digits_end(pin@, e as int),
        decreases n - e,
    {
        e = e + 1;
    }
    let number = number_or_zero_exec(&pin[2..e]);
    assert(pin@.subrange(2, e as int) == pin@.subrange(2, e as int));
    (pin[1] as u32, crate::bytes::copy_range(pin, e, n), number)
}

/// The sort key of a block name.
pub fn block_sort_key(name: &[u8]) -> (r: (Vec<u8>, u32))
    ensures
        (r.0@, r.1) == block_key(name@),
{
    let n = name.len();
    let mut d: usize = n;
    while d > 0 && 0x30 <= name[d - 1] && name[d - 1] <= 0x39
        invariant
            d <= n,
            n == name@.len(),
            trailing_digits_start(name@, n as int) == trailing_digits_start(name@, d as int),
        decreases d,
    {
        d = d - 1;
    }
    let number = number_or_zero_exec(&name[d..n]);
    (crate::bytes::copy_range(name, 0, d), number)
}

/// ASCII lower case of one byte.
pub open spec fn ascii_lower(b: u8) -> u8 {
    if 0x41 <= b <= 0x5A {
        (b + 32) as u8
    } else {
        b
    }
}

/// `s` in ASCII lower case.
pub open spec fn lower(s: Seq<u8>) -> Seq<u8> {
    Seq::new(s.len(), |i: int| ascii_lower(s[i]))
}

/// `USART1` as `Usart1`: the first character kept, the rest in lower case.
pub open spec fn camel(s: Seq<u8>) -> Seq<u8> {
    Seq::new(s.len(), |i: int| if i == 0 { s[0] } else { ascii_lower(s[i]) })
}

fn ascii_lower_exec(b: u8) -> (r: u8)
    ensures
        r == ascii_lower(b),
{
    if 0x41 <= b && b <= 0x5A {
        b + 32
    } else {
        b
    }
}

pub(crate) fn push_lower(out: &mut Vec<u8>, s: &[u8])
    ensures
        final(out)@ == old(out)@ + lower(s@),
{
    let ghost start = out@;
    let mut i: usize = 0;
    while i < s.len()
        invariant
            i <= s@.len(),
            out@ == start + lower(s@).subrange(0, i as int),
        decreases s.len() - i,
    {
        out.push(ascii_lower_exec(s[i]));
        i = i + 1;
        assert(out@ =~= start + lower(s@).subrange(0, i as int));
    }
    assert(lower(s@).subrange(0, s@.len() as int) =~= lower(s@));
}

/// The name of the resources struct of a block: `USART1` → `Usart1`.
pub fn camel_case(name: &[u8]) -> (r: Vec<u8>)
    ensures
        r@ == camel(name@),
{
    let mut out: Vec<u8> = Vec::new();
    let mut i: usize = 0;
    while i < name.len()
        invariant
            i <= name@.len(),
            out@ == camel(name@).subrange(0, i as int),
        decreases name.len() - i,
    {
        if i == 0 {
            out.push(name[0]);
        } else {
            out.push(ascii_lower_exec(name[i]));
        }
        i = i + 1;
        assert(out@ =~= camel(name@).subrange(0, i as int));
    }
    assert(camel(name@).subrange(0, name@.len() as int) =~= camel(name@));
    out
}

/// The field of the block itself in `assign_resources!`: its kind, so that
/// a task does not change when it moves to another instance; the name where
/// the block has no kind.
pub fn kind_field<'a>(kind: &'a [u8], name: &'a [u8]) -> (r: &'a [u8])
    ensures
        r@ == (if kind@.len() == 0 { name@ } else { kind@ }),
{
    if kind.len() == 0 {
        name
    } else {
        kind
    }
}

/// The lines of `wrap` before the last one, and the last one, after `names`.
pub open spec fn wrap_state(names: Seq<Seq<u8>>, width: int) -> (Seq<Seq<u8>>, Seq<u8>)
    decreases names.len(),
{
    if names.len() == 0 {
        (Seq::empty(), Seq::empty())
    } else {
        let (lines, line) = wrap_state(names.drop_last(), width);
        let name = names.last();
        let (lines2, line2) = if line.len() > 0 && line.len() + 1 + name.len() > width {
            (lines.push(line), Seq::<u8>::empty())
        } else {
            (lines, line)
        };
        if line2.len() > 0 {
            (lines2, line2 + " ".spec_bytes() + name)
        } else {
            (lines2, line2 + name)
        }
    }
}

/// `names` laid out in lines of at most `width` bytes, one space between
/// names; a name longer than `width` gets a line of its own.
pub open spec fn wrapped(names: Seq<Seq<u8>>, width: int) -> Seq<Seq<u8>> {
    let (lines, line) = wrap_state(names, width);
    if line.len() > 0 {
        lines.push(line)
    } else {
        lines
    }
}

/// Lays `names` out in lines of at most `width` bytes.
pub fn wrap(names: &[Vec<u8>], width: usize) -> (r: Vec<Vec<u8>>)
    ensures
        r.deep_view() == wrapped(names.deep_view(), width as int),
{
    let ghost nv = names.deep_view();
    let mut lines: Vec<Vec<u8>> = Vec::new();
    let mut line: Vec<u8> = Vec::new();
    let mut k: usize = 0;
    while k < names.len()
        invariant
            k <= names@.len(),
            nv == names.deep_view(),
            wrap_state(nv.subrange(0, k as int), width as int) == (lines.deep_view(), line@),
        decreases names.len() - k,
    {
        let name = &names[k];
        assert(nv.subrange(0, k + 1).drop_last() =~= nv.subrange(0, k as int));
        assert(nv.subrange(0, k + 1).last() == name@);
        let ghost l0 = lines.deep_view();
        let ghost s0 = line@;
        let too_long = line.len() > 0 && (name.len() > width || line.len() >= width - name.len());
        assert(too_long == (s0.len() > 0 && s0.len() + 1 + name@.len() > width));
        if too_long {
            let full = line;
            lines.push(full);
            assert(lines.deep_view() =~~= l0.push(s0));
            line = Vec::new();
        }
        let ghost l1 = lines.deep_view();
        let ghost s1 = line@;
        if line.len() > 0 {
            push_all(&mut line, " ".as_bytes());
        }
        push_all(&mut line, name.as_slice());
        proof {
            if s1.len() > 0 {
                assert(line@ =~= s1 + " ".spec_bytes() + name@);
            } else {
                assert(line@ =~= s1 + name@);
            }
        }
        assert(wrap_state(nv.subrange(0, k + 1), width as int) == (l1, line@));
        k = k + 1;
    }
    assert(nv.subrange(0, names@.len() as int) =~= nv);
    let ghost l0 = lines.deep_view();
    let ghost s0 = line@;
    if line.len() > 0 {
        lines.push(line);
        assert(lines.deep_view() =~~= l0.push(s0));
    }
    lines
}


// ---------------------------------------------------------------------
// Lookups
// ---------------------------------------------------------------------

/// Index of the first block of `bs` from `i` on named `name`.
pub open spec fn block_index_from(bs: Seq<Block>, name: Seq<u8>, i: int) -> Option<int>
    decreases bs.len() - i,
{
    if i < 0 || i >= bs.len() {
        None
    } else if bs[i].name@ == name {
        Some(i)
    } else {
        block_index_from(bs, name, i + 1)
    }
}

/// Index of the first block of the chip named `name`.
pub open spec fn block_index(chip: Chip, name: Seq<u8>) -> Option<int> {
    block_index_from(chip.blocks@, name, 0)
}

/// Index of the first pin function of `ps` from `i` on on the pin `pin`.
pub open spec fn pin_index_from(ps: Seq<PinFunction>, pin: Seq<u8>, i: int) -> Option<int>
    decreases ps.len() - i,
{
    if i < 0 || i >= ps.len() {
        None
    } else if ps[i].pin@ == pin {
        Some(i)
    } else {
        pin_index_from(ps, pin, i + 1)
    }
}

/// Finds the first block named `name`.
pub fn find_block(chip: &Chip, name: &[u8]) -> (r: Option<usize>)
    ensures
        r matches Some(i) ==> i < chip.blocks@.len(),
        (match r {
            Some(i) => Some(i as int),
            None => None,
        }) == block_index(*chip, name@),
{
    let mut i: usize = 0;
    while i < chip.blocks.len()
        invariant
            i <= chip.blocks@.len(),
            block_index(*chip, name@) == block_index_from(chip.blocks@, name@, i as int),
        decreases chip.blocks.len() - i,
    {
        if eq_bytes(chip.blocks[i].name.as_slice(), name) {
            return Some(i);
        }
        i = i + 1;
    }
    None
}

fn find_pin_function(ps: &Vec<PinFunction>, pin: &[u8]) -> (r: Option<usize>)
    ensures
        r matches Some(i) ==> i < ps@.len(),
        (match r {
            Some(i) => Some(i as int),
            None => None,
        }) == pin_index_from(ps@, pin@, 0),
{
    let mut i: usize = 0;
    while i < ps.len()
        invariant
            i <= ps@.len(),
            pin_index_from(ps@, pin@, 0) == pin_index_from(ps@, pin@, i as int),
        decreases ps.len() - i,
    {
        if eq_bytes(ps[i].pin.as_slice(), pin) {
            return Some(i);
        }
        i = i + 1;
    }
    None
}

/// Whether the package of the chip has the pin `name`.
pub open spec fn has_pin(chip: Chip, name: Seq<u8>) -> bool {
    exists|i: int| 0 <= i < chip.pins@.len() && chip.pins@[i]@ == name
}

/// Whether the package of the chip has the pin `name`.
pub fn chip_has_pin(chip: &Chip, name: &[u8]) -> (r: bool)
    ensures
        r == has_pin(*chip, name@),
{
    let mut i: usize = 0;
    while i < chip.pins.len()
        invariant
            i <= chip.pins@.len(),
            forall|j: int| 0 <= j < i ==> chip.pins@[j]@ != name@,
        decreases chip.pins.len() - i,
    {
        if eq_bytes(chip.pins[i].as_slice(), name) {
            return true;
        }
        i = i + 1;
    }
    false
}

// ---------------------------------------------------------------------
// Pins that are taken by something else than a peripheral
// ---------------------------------------------------------------------

/// The debug-port pins: fixed by the Cortex-M core on every STM32 and not
/// described in the metadata. `PA13`/`PA14` hold the probe itself; the
/// others only full JTAG needs, and SWD leaves them free.
pub open spec fn debug_pin(pin: Seq<u8>) -> Option<(Severity, Seq<u8>)> {
    if pin == "PA13".spec_bytes() {
        Some((Severity::Conflict, "SWDIO — отладочный порт, занимать нельзя".spec_bytes()))
    } else if pin == "PA14".spec_bytes() {
        Some((Severity::Conflict, "SWCLK — отладочный порт, занимать нельзя".spec_bytes()))
    } else if pin == "PB3".spec_bytes() {
        Some(
            (
                Severity::Warning,
                "JTDO/SWO — свободен в режиме SWD (но это же вывод трассировки SWO)".spec_bytes(),
            ),
        )
    } else if pin == "PA15".spec_bytes() {
        Some((Severity::Warning, "JTDI — свободен в режиме SWD".spec_bytes()))
    } else if pin == "PB4".spec_bytes() {
        Some((Severity::Warning, "NJTRST — свободен в режиме SWD".spec_bytes()))
    } else {
        None
    }
}

/// What a signal of the `RCC` block on a pin means for the board.
pub open spec fn rcc_note(signal: Seq<u8>) -> Seq<u8> {
    if starts_with(signal, "OSC32".spec_bytes()) {
        signal + " — вывод часового кварца 32 кГц (занят, если LSE используется)".spec_bytes()
    } else if starts_with(signal, "OSC".spec_bytes()) {
        signal + " — вывод кварца (занят, если тактирование от HSE)".spec_bytes()
    } else {
        signal + " — вывод тактового выхода RCC".spec_bytes()
    }
}

/// The warning for a pin that something else than a peripheral holds: the
/// debug port from the fixed table, the crystals and the clock output from
/// the signals of the `RCC` block, always as a warning, for a crystal may be
/// absent and the clock output unused.
#[verifier::opaque]
pub open spec fn pin_note_spec(chip: Chip, pin: Seq<u8>) -> Option<(Severity, Seq<u8>)> {
    match debug_pin(pin) {
        Some(n) => Some(n),
        None => match block_index(chip, "RCC".spec_bytes()) {
            None => None,
            Some(b) => match pin_index_from(chip.blocks@[b].pins@, pin, 0) {
                None => None,
                Some(k) => Some(
                    (Severity::Warning, rcc_note(chip.blocks@[b].pins@[k].signal@)),
                ),
            },
        },
    }
}

/// A note as plain values.
pub open spec fn note_view(n: Option<(Severity, Vec<u8>)>) -> Option<(Severity, Seq<u8>)> {
    match n {
        Some((s, t)) => Some((s, t@)),
        None => None,
    }
}

fn debug_pin_exec(pin: &[u8]) -> (r: Option<(Severity, Vec<u8>)>)
    ensures
        note_view(r) == debug_pin(pin@),
{
    if eq_bytes(pin, "PA13".as_bytes()) {
        Some((Severity::Conflict, "SWDIO — отладочный порт, занимать нельзя".as_bytes_vec()))
    } else if eq_bytes(pin, "PA14".as_bytes()) {
        Some((Severity::Conflict, "SWCLK — отладочный порт, занимать нельзя".as_bytes_vec()))
    } else if eq_bytes(pin, "PB3".as_bytes()) {
        Some(
            (
                Severity::Warning,
                "JTDO/SWO — свободен в режиме SWD (но это же вывод трассировки SWO)".as_bytes_vec(),
            ),
        )
    } else if eq_bytes(pin, "PA15".as_bytes()) {
        Some((Severity::Warning, "JTDI — свободен в режиме SWD".as_bytes_vec()))
    } else if eq_bytes(pin, "PB4".as_bytes()) {
        Some((Severity::Warning, "NJTRST — свободен в режиме SWD".as_bytes_vec()))
    } else {
        None
    }
}

/// The warning for a pin that the debug port, a crystal or the clock output
/// holds, with how bad it is to take it.
pub fn pin_note(chip: &Chip, pin: &[u8]) -> (r: Option<(Severity, Vec<u8>)>)
    ensures
        note_view(r) == pin_note_spec(*chip, pin@),
{
    reveal(pin_note_spec);
    let fixed = debug_pin_exec(pin);
    if fixed.is_some() {
        return fixed;
    }
    let b = match find_block(chip, "RCC".as_bytes()) {
        Some(b) => b,
        None => return None,
    };
    let k = match find_pin_function(&chip.blocks[b].pins, pin) {
        Some(k) => k,
        None => return None,
    };
    let signal = chip.blocks[b].pins[k].signal.as_slice();
    let mut note: Vec<u8> = Vec::new();
    push_all(&mut note, signal);
    if starts_with_exec(signal, "OSC32".as_bytes()) {
        push_all(&mut note, " — вывод часового кварца 32 кГц (занят, если LSE используется)".as_bytes());
    } else if starts_with_exec(signal, "OSC".as_bytes()) {
        push_all(&mut note, " — вывод кварца (занят, если тактирование от HSE)".as_bytes());
    } else {
        push_all(&mut note, " — вывод тактового выхода RCC".as_bytes());
    }
    Some((Severity::Warning, note))
}

// ---------------------------------------------------------------------
// Texts
// ---------------------------------------------------------------------

/// `parts` with `sep` between them.
pub open spec fn joined(parts: Seq<Seq<u8>>, sep: Seq<u8>) -> Seq<u8>
    decreases parts.len(),
{
    if parts.len() == 0 {
        Seq::empty()
    } else if parts.len() == 1 {
        parts[0]
    } else {
        joined(parts.drop_last(), sep) + sep + parts.last()
    }
}

/// Appends `parts` with `sep` between them.
pub fn push_joined(out: &mut Vec<u8>, parts: &Vec<Vec<u8>>, sep: &[u8])
    ensures
        final(out)@ == old(out)@ + joined(parts.deep_view(), sep@),
{
    let ghost start = out@;
    let ghost pv = parts.deep_view();
    let mut k: usize = 0;
    while k < parts.len()
        invariant
            k <= parts@.len(),
            pv == parts.deep_view(),
            out@ == start + joined(pv.subrange(0, k as int), sep@),
        decreases parts.len() - k,
    {
        let ghost before = out@;
        assert(pv.subrange(0, k + 1).drop_last() =~= pv.subrange(0, k as int));
        if k > 0 {
            push_all(out, sep);
        }
        push_all(out, parts[k].as_slice());
        proof {
            if k == 0 {
                assert(pv.subrange(0, 1) =~= seq![pv[0]]);
                assert(joined(pv.subrange(0, 0), sep@) =~= Seq::<u8>::empty());
            }
        }
        assert(out@ =~= start + joined(pv.subrange(0, k + 1), sep@));
        k = k + 1;
    }
    assert(pv.subrange(0, parts@.len() as int) =~= pv);
}

/// The parts of a DMA binding that the metadata fills in.
pub open spec fn dma_parts(ch: DmaChannel) -> Seq<Seq<u8>> {
    (match ch.dma {
        Some(d) => seq!["контроллер ".spec_bytes() + d@],
        None => Seq::empty(),
    }) + (match ch.channel {
        Some(c) => seq!["канал ".spec_bytes() + c@],
        None => Seq::empty(),
    }) + (match ch.dmamux {
        Some(m) => seq!["через ".spec_bytes() + m@],
        None => Seq::empty(),
    }) + (match ch.request {
        Some(q) => seq!["запрос ".spec_bytes() + crate::numtext::decimal(q as nat)],
        None => Seq::empty(),
    }) + Seq::new(
        ch.remap@.len(),
        |i: int| "ремап ".spec_bytes() + ch.remap@[i].0@ + ".".spec_bytes() + ch.remap@[i].1@,
    )
}

/// A DMA binding for a person: what the metadata knows of it, `—` where it
/// knows nothing.
pub open spec fn dma_text(ch: DmaChannel) -> Seq<u8> {
    if dma_parts(ch).len() == 0 {
        "—".spec_bytes()
    } else {
        joined(dma_parts(ch), ", ".spec_bytes())
    }
}

fn push_labelled(parts: &mut Vec<Vec<u8>>, label: &str, value: &[u8])
    ensures
        final(parts).deep_view() == old(parts).deep_view().push(label.spec_bytes() + value@),
{
    let ghost before = parts.deep_view();
    let mut part: Vec<u8> = Vec::new();
    push_all(&mut part, label.as_bytes());
    push_all(&mut part, value);
    let ghost pv = part@;
    parts.push(part);
    assert(parts.deep_view() =~~= before.push(pv));
}

/// What the metadata knows of how a DMA request is wired.
pub fn format_dma(ch: &DmaChannel) -> (r: Vec<u8>)
    ensures
        r@ == dma_text(*ch),
{
    let mut parts: Vec<Vec<u8>> = Vec::new();
    if let Some(d) = &ch.dma {
        push_labelled(&mut parts, "контроллер ", d.as_slice());
    }
    let ghost p1 = parts.deep_view();
    if let Some(c) = &ch.channel {
        push_labelled(&mut parts, "канал ", c.as_slice());
    }
    let ghost p2 = parts.deep_view();
    if let Some(m) = &ch.dmamux {
        push_labelled(&mut parts, "через ", m.as_slice());
    }
    let ghost p3 = parts.deep_view();
    if let Some(q) = ch.request {
        let digits = crate::numtext::decimal_exec(q as u64);
        push_labelled(&mut parts, "запрос ", digits.as_slice());
    }
    let ghost p4 = parts.deep_view();
    let ghost rm = Seq::new(
        ch.remap@.len(),
        |i: int| "ремап ".spec_bytes() + ch.remap@[i].0@ + ".".spec_bytes() + ch.remap@[i].1@,
    );
    let mut k: usize = 0;
    while k < ch.remap.len()
        invariant
            k <= ch.remap@.len(),
            rm.len() == ch.remap@.len(),
            forall|i: int| 0 <= i < rm.len() ==> rm[i] == "ремап ".spec_bytes() + ch.remap@[i].0@
                + ".".spec_bytes() + ch.remap@[i].1@,
            parts.deep_view() == p4 + rm.subrange(0, k as int),
        decreases ch.remap.len() - k,
    {
        let ghost before = parts.deep_view();
        let mut part: Vec<u8> = Vec::new();
        push_all(&mut part, "ремап ".as_bytes());
        push_all(&mut part, ch.remap[k].0.as_slice());
        push_all(&mut part, ".".as_bytes());
        push_all(&mut part, ch.remap[k].1.as_slice());
        let ghost pv = part@;
        parts.push(part);
        assert(parts.deep_view() =~~= before.push(pv));
        assert(parts.deep_view() =~= p4 + rm.subrange(0, k + 1));
        k = k + 1;
    }
    assert(rm.subrange(0, ch.remap@.len() as int) =~= rm);
    assert(parts.deep_view() =~= dma_parts(*ch));
    let mut out: Vec<u8> = Vec::new();
    if parts.len() == 0 {
        push_all(&mut out, "—".as_bytes());
    } else {
        push_joined(&mut out, &parts, ", ".as_bytes());
    }
    assert(out@ =~= dma_text(*ch));
    out
}

/// The head of every answer: the chip, its family and what is asked about,
/// then an empty line.
pub open spec fn header_text(chip: Chip, subject: Option<Seq<u8>>) -> Seq<u8> {
    match subject {
        Some(s) => chip.name@ + " (".spec_bytes() + chip.family@ + ") — ".spec_bytes() + s
            + "\n\n".spec_bytes(),
        None => chip.name@ + " (".spec_bytes() + chip.family@ + ")\n\n".spec_bytes(),
    }
}

fn push_header(out: &mut Vec<u8>, chip: &Chip, subject: Option<&[u8]>)
    ensures
        final(out)@ == old(out)@ + header_text(
            *chip,
            match subject {
                Some(s) => Some(s@),
                None => None,
            },
        ),
{
    let ghost start = out@;
    push_all(out, chip.name.as_slice());
    push_all(out, " (".as_bytes());
    push_all(out, chip.family.as_slice());
    match subject {
        Some(s) => {
            push_all(out, ") — ".as_bytes());
            push_all(out, s);
            push_all(out, "\n\n".as_bytes());
        },
        None => {
            push_all(out, ")\n\n".as_bytes());
        },
    }
    assert(out@ =~= start + header_text(
        *chip,
        match subject {
            Some(s) => Some(s@),
            None => None,
        },
    ));
}


// ---------------------------------------------------------------------
// Ordering
// ---------------------------------------------------------------------

/// A sort key: a name, two numbers, a name and a name, compared in turn.
/// Each list of the reference orders by a key of this shape.
pub open spec fn key_le(
    a: (Seq<u8>, u32, u32, Seq<u8>, Seq<u8>),
    b: (Seq<u8>, u32, u32, Seq<u8>, Seq<u8>),
) -> bool {
    bytes_lt(a.0, b.0) || (a.0 == b.0 && (a.1 < b.1 || (a.1 == b.1 && (a.2 < b.2 || (a.2 == b.2
        && (bytes_lt(a.3, b.3) || (a.3 == b.3 && bytes_le(a.4, b.4))))))))
}

/// The order of positions by the keys at them.
pub open spec fn by_keys(ks: Seq<(Seq<u8>, u32, u32, Seq<u8>, Seq<u8>)>) -> spec_fn(
    usize,
    usize,
) -> bool {
    |a: usize, b: usize| key_le(ks[a as int], ks[b as int])
}

/// The positions `0..n`.
pub open spec fn positions(n: nat) -> Seq<usize> {
    Seq::new(n, |i: int| i as usize)
}

/// Positions `0..ks.len()` sorted stably by the keys at them.
pub open spec fn key_order(ks: Seq<(Seq<u8>, u32, u32, Seq<u8>, Seq<u8>)>) -> Seq<usize> {
    sorted_by(positions(ks.len()), by_keys(ks))
}

struct OrderKey {
    text: Vec<u8>,
    first: u32,
    second: u32,
    rest: Vec<u8>,
    last: Vec<u8>,
}

spec fn key_view(k: OrderKey) -> (Seq<u8>, u32, u32, Seq<u8>, Seq<u8>) {
    (k.text@, k.first, k.second, k.rest@, k.last@)
}

fn bytes_lt_exec(a: &[u8], b: &[u8]) -> (r: bool)
    ensures
        r == bytes_lt(a@, b@),
{
    bytes_le_exec(a, b) && !eq_bytes(a, b)
}

fn key_le_exec(a: &OrderKey, b: &OrderKey) -> (r: bool)
    ensures
        r == key_le(key_view(*a), key_view(*b)),
{
    if bytes_lt_exec(a.text.as_slice(), b.text.as_slice()) {
        return true;
    }
    if !eq_bytes(a.text.as_slice(), b.text.as_slice()) {
        return false;
    }
    if a.first != b.first {
        return a.first < b.first;
    }
    if a.second != b.second {
        return a.second < b.second;
    }
    if bytes_lt_exec(a.rest.as_slice(), b.rest.as_slice()) {
        return true;
    }
    if !eq_bytes(a.rest.as_slice(), b.rest.as_slice()) {
        return false;
    }
    bytes_le_exec(a.last.as_slice(), b.last.as_slice())
}

/// The positions of `keys` sorted stably by them.
fn order_by_keys(keys: &Vec<OrderKey>, Ghost(ks): Ghost<
    Seq<(Seq<u8>, u32, u32, Seq<u8>, Seq<u8>)>,
>) -> (r: Vec<usize>)
    requires
        ks.len() == keys@.len(),
        forall|i: int| 0 <= i < ks.len() ==> key_view(#[trigger] keys@[i]) == ks[i],
    ensures
        r@ == key_order(ks),
        forall|k: int| 0 <= k < r@.len() ==> (#[trigger] r@[k]) < keys@.len(),
{
    let ghost le = by_keys(ks);
    let ghost all = positions(ks.len());
    let mut out: Vec<usize> = Vec::new();
    let mut m: usize = 0;
    assert(all.subrange(0, 0) =~= Seq::<usize>::empty());
    while m < keys.len()
        invariant
            0 <= m <= keys@.len(),
            ks.len() == keys@.len(),
            all == positions(ks.len()),
            le == by_keys(ks),
            forall|i: int| 0 <= i < ks.len() ==> key_view(#[trigger] keys@[i]) == ks[i],
            out@ == sorted_by(all.subrange(0, m as int), le),
            forall|k: int| 0 <= k < out@.len() ==> (#[trigger] out@[k]) < keys@.len(),
        decreases keys.len() - m,
    {
        let x = m;
        let mut p: usize = out.len();
        while p > 0 && !key_le_exec(&keys[out[p - 1]], &keys[x])
            invariant
                0 <= p <= out@.len(),
                x < keys@.len(),
                ks.len() == keys@.len(),
                le == by_keys(ks),
                forall|i: int| 0 <= i < ks.len() ==> key_view(#[trigger] keys@[i]) == ks[i],
                forall|k: int| 0 <= k < out@.len() ==> (#[trigger] out@[k]) < keys@.len(),
                forall|j: int| p <= j < out@.len() ==> !le(#[trigger] out@[j], x),
            decreases p,
        {
            proof {
                let o = out@[p - 1];
                assert(key_view(keys@[o as int]) == ks[o as int]);
                assert(key_view(keys@[x as int]) == ks[x as int]);
            }
            p = p - 1;
        }
        proof {
            if p > 0 {
                let o = out@[p - 1];
                assert(key_view(keys@[o as int]) == ks[o as int]);
                assert(key_view(keys@[x as int]) == ks[x as int]);
            }
            crate::memlayout::lemma_insert_at(out@, x, le, p as int);
            assert(all.subrange(0, m + 1).drop_last() =~= all.subrange(0, m as int));
            assert(all.subrange(0, m + 1).last() == x);
        }
        let ghost before = out@;
        out.insert(p, x);
        assert forall|k: int| 0 <= k < out@.len() implies (#[trigger] out@[k]) < keys@.len() by {
            if k < p {
                assert(out@[k] == before[k]);
            } else if k > p {
                assert(out@[k] == before[k - 1]);
            }
        }
        m = m + 1;
    }
    assert(all.subrange(0, keys@.len() as int) =~= all);
    out
}

/// All of `parts`, one after another.
pub open spec fn concat(parts: Seq<Seq<u8>>) -> Seq<u8>
    decreases parts.len(),
{
    if parts.len() == 0 {
        Seq::empty()
    } else {
        concat(parts.drop_last()) + parts.last()
    }
}

/// The greatest length among `ss`, zero for none.
pub open spec fn max_len(ss: Seq<Seq<u8>>) -> nat
    decreases ss.len(),
{
    if ss.len() == 0 {
        0
    } else {
        let m = max_len(ss.drop_last());
        if ss.last().len() > m {
            ss.last().len()
        } else {
            m
        }
    }
}

// ---------------------------------------------------------------------
// One block
// ---------------------------------------------------------------------

/// Why a question about the chip has no answer.
#[derive(Debug, PartialEq, Eq)]
pub enum PinsError {
    /// The chip has no block of that name.
    UnknownBlock(Vec<u8>),
    /// The package of the chip has no pin of that name.
    UnknownPin(Vec<u8>),
}

/// Whether the sort key of every pin of the block `name`, if the chip has
/// it, is defined: describing the block orders its pins by that key.
pub open spec fn block_pin_keys_defined(chip: Chip, name: Seq<u8>) -> bool {
    block_index(chip, name) matches Some(i) ==> forall|j: int|
        0 <= j < chip.blocks@[i].pins@.len() ==> pin_key_defined(
            #[trigger] chip.blocks@[i].pins@[j].pin@,
        )
}

/// Whether the pins of the block `name` can be ordered; see
/// [`block_pin_keys_defined`].
pub fn block_pin_keys_are_defined(chip: &Chip, name: &[u8]) -> (r: bool)
    ensures
        r == block_pin_keys_defined(*chip, name@),
{
    let i = match find_block(chip, name) {
        None => {
            return true;
        },
        Some(i) => i,
    };
    let pins = &chip.blocks[i].pins;
    let mut j: usize = 0;
    while j < pins.len()
        invariant
            i < chip.blocks@.len(),
            block_index(*chip, name@) == Some(i as int),
            j <= pins@.len(),
            pins@ == chip.blocks@[i as int].pins@,
            forall|b: int| 0 <= b < j ==> pin_key_defined(#[trigger] pins@[b].pin@),
        decreases pins.len() - j,
    {
        let p = pins[j].pin.as_slice();
        if !(p.len() < 2 || p[0] != 0x50 || p[1] < 0x80) {
            assert(block_index(*chip, name@) == Some(i as int));
            assert(!pin_key_defined(chip.blocks@[i as int].pins@[j as int].pin@));
            assert(!block_pin_keys_defined(*chip, name@));
            return false;
        }
        j = j + 1;
    }
    true
}

/// The alternate function as it is printed: `AF7`, or `—` for a pin that
/// needs none (analog inputs, crystal pins).
pub open spec fn af_text(af: Option<u8>) -> Seq<u8> {
    match af {
        Some(a) => "AF".spec_bytes() + decimal(a as nat),
        None => "—".spec_bytes(),
    }
}

/// `s` without trailing whitespace, as `str::trim_end`.
pub open spec fn trim_end_seq(s: Seq<u8>) -> Seq<u8> {
    s.subrange(0, trim_end_at(s, 0, s.len() as int))
}

/// The note column of a pin: `   ! ` and the warning, where there is one.
pub open spec fn note_suffix(chip: Chip, pin: Seq<u8>, prefix: Seq<u8>) -> Seq<u8> {
    match pin_note_spec(chip, pin) {
        Some((_, n)) => prefix + n,
        None => Seq::empty(),
    }
}

/// The line of one pin of a block: pin, signal in a column of `width`,
/// alternate function, note; without trailing spaces.
pub open spec fn pin_line(chip: Chip, p: PinFunction, width: nat) -> Seq<u8> {
    trim_end_seq(
        "  ".spec_bytes() + pad_chars(p.pin@, 6) + " ".spec_bytes() + pad_chars(p.signal@, width)
            + "  ".spec_bytes() + pad_chars(af_text(p.af), 4) + note_suffix(
            chip,
            p.pin@,
            "   ! ".spec_bytes(),
        ),
    ) + "\n".spec_bytes()
}

/// The sort keys of the pins of a block: pin, then signal.
pub open spec fn pin_keys(ps: Seq<PinFunction>) -> Seq<(Seq<u8>, u32, u32, Seq<u8>, Seq<u8>)> {
    Seq::new(
        ps.len(),
        |i: int|
            {
                let k = pin_key(ps[i].pin@);
                (Seq::<u8>::empty(), k.0, k.1, k.2, ps[i].signal@)
            },
    )
}

/// The signals of `ps`.
pub open spec fn signal_names(ps: Seq<PinFunction>) -> Seq<Seq<u8>> {
    Seq::new(ps.len(), |i: int| ps[i].signal@)
}

/// The pins of a block, ordered by pin and signal.
pub open spec fn pins_section(chip: Chip, b: Block) -> Seq<u8> {
    let ps = b.pins@;
    if ps.len() == 0 {
        "выводов нет (блок не выходит наружу)\n".spec_bytes()
    } else {
        let order = key_order(pin_keys(ps));
        let width = max_len(signal_names(ps));
        "выводы:\n".spec_bytes() + concat(
            Seq::new(order.len(), |i: int| pin_line(chip, ps[order[i] as int], width)),
        )
    }
}

/// The DMA requests of a block.
pub open spec fn dma_section(b: Block) -> Seq<u8> {
    let cs = b.dma_channels@;
    if cs.len() == 0 {
        Seq::empty()
    } else {
        let width = max_len(Seq::new(cs.len(), |i: int| cs[i].signal@));
        "\nDMA:\n".spec_bytes() + concat(
            Seq::new(
                cs.len(),
                |i: int|
                    "  ".spec_bytes() + pad_chars(cs[i].signal@, width) + "  ".spec_bytes()
                        + dma_text(cs[i]) + "\n".spec_bytes(),
            ),
        )
    }
}

/// The bus and the source of the kernel clock of a block.
pub open spec fn clocks_section(b: Block) -> Seq<u8> {
    match b.rcc {
        None => Seq::empty(),
        Some(c) => "\nтактирование:\n  шина     ".spec_bytes() + c.bus_clock@ + "\n".spec_bytes()
            + match c.kernel_clock {
            KernelClock::Clock(x) => "  источник ".spec_bytes() + x@ + "\n".spec_bytes(),
            KernelClock::Mux(r, f) => "  источник выбирается мультиплексором ".spec_bytes() + r@
                + ".".spec_bytes() + f@ + " (embassy: Config.rcc.mux)\n".spec_bytes(),
        },
    }
}

/// The interrupts of a block.
pub open spec fn interrupts_section(b: Block) -> Seq<u8> {
    let is = b.interrupts@;
    if is.len() == 0 {
        Seq::empty()
    } else {
        let width = max_len(Seq::new(is.len(), |i: int| is[i].signal@));
        "\nпрерывания:\n".spec_bytes() + concat(
            Seq::new(
                is.len(),
                |i: int|
                    "  ".spec_bytes() + pad_chars(is[i].signal@, width) + "  ".spec_bytes()
                        + is[i].interrupt@ + "\n".spec_bytes(),
            ),
        )
    }
}

/// What the reference says of a block.
pub open spec fn block_text(chip: Chip, b: Block) -> Seq<u8> {
    header_text(chip, Some(b.name@)) + pins_section(chip, b) + dma_section(b) + clocks_section(b)
        + interrupts_section(b)
}


fn max_signal_len(ps: &Vec<PinFunction>) -> (r: usize)
    ensures
        r == max_len(signal_names(ps@)),
{
    let ghost names = signal_names(ps@);
    let mut m: usize = 0;
    let mut k: usize = 0;
    while k < ps.len()
        invariant
            k <= ps@.len(),
            names == signal_names(ps@),
            m == max_len(names.subrange(0, k as int)),
        decreases ps.len() - k,
    {
        assert(names.subrange(0, k + 1).drop_last() =~= names.subrange(0, k as int));
        if ps[k].signal.len() > m {
            m = ps[k].signal.len();
        }
        k = k + 1;
    }
    assert(names.subrange(0, ps@.len() as int) =~= names);
    m
}

fn push_af(out: &mut Vec<u8>, af: Option<u8>)
    ensures
        final(out)@ == old(out)@ + af_text(af),
{
    match af {
        Some(a) => {
            push_all(out, "AF".as_bytes());
            push_decimal(out, a as u64);
        },
        None => push_all(out, "—".as_bytes()),
    }
}

/// Appends `s` without its trailing whitespace, then a line break.
fn push_trimmed_line(out: &mut Vec<u8>, s: &Vec<u8>)
    ensures
        final(out)@ == old(out)@ + trim_end_seq(s@) + "\n".spec_bytes(),
{
    let t = trim_end_index(s.as_slice(), 0, s.len());
    let kept = crate::bytes::copy_range(s.as_slice(), 0, t);
    push_all(out, kept.as_slice());
    push_all(out, "\n".as_bytes());
}

fn push_pin_line(out: &mut Vec<u8>, chip: &Chip, p: &PinFunction, width: usize)
    ensures
        final(out)@ == old(out)@ + pin_line(*chip, *p, width as nat),
{
    let ghost start = out@;
    let mut line: Vec<u8> = Vec::new();
    push_all(&mut line, "  ".as_bytes());
    push_padded_chars(&mut line, p.pin.as_slice(), 6);
    push_all(&mut line, " ".as_bytes());
    push_padded_chars(&mut line, p.signal.as_slice(), width);
    push_all(&mut line, "  ".as_bytes());
    let mut af: Vec<u8> = Vec::new();
    push_af(&mut af, p.af);
    push_padded_chars(&mut line, af.as_slice(), 4);
    match pin_note(chip, p.pin.as_slice()) {
        Some((_, note)) => {
            push_all(&mut line, "   ! ".as_bytes());
            push_all(&mut line, note.as_slice());
        },
        None => {},
    }
    assert(line@ =~= "  ".spec_bytes() + pad_chars(p.pin@, 6) + " ".spec_bytes() + pad_chars(
        p.signal@,
        width as nat,
    ) + "  ".spec_bytes() + pad_chars(af_text(p.af), 4) + note_suffix(
        *chip,
        p.pin@,
        "   ! ".spec_bytes(),
    ));
    push_trimmed_line(out, &line);
}

fn push_pins_section(out: &mut Vec<u8>, chip: &Chip, b: &Block)
    requires
        forall|j: int| 0 <= j < b.pins@.len() ==> pin_key_defined(#[trigger] b.pins@[j].pin@),
    ensures
        final(out)@ == old(out)@ + pins_section(*chip, *b),
{
    let ghost start = out@;
    let ps = &b.pins;
    if ps.len() == 0 {
        push_all(out, "выводов нет (блок не выходит наружу)\n".as_bytes());
        return;
    }
    let ghost ks = pin_keys(ps@);
    let mut keys: Vec<OrderKey> = Vec::new();
    let mut k: usize = 0;
    while k < ps.len()
        invariant
            k <= ps@.len(),
            ks == pin_keys(ps@),
            forall|j: int| 0 <= j < ps@.len() ==> pin_key_defined(#[trigger] ps@[j].pin@),
            keys@.len() == k,
            forall|i: int| 0 <= i < k ==> key_view(#[trigger] keys@[i]) == ks[i],
        decreases ps.len() - k,
    {
        let (port, suffix, number) = pin_sort_key(ps[k].pin.as_slice());
        let last = crate::bytes::copy_range(ps[k].signal.as_slice(), 0, ps[k].signal.len());
        assert(ps[k as int].signal@.subrange(0, ps[k as int].signal@.len() as int)
            =~= ps[k as int].signal@);
        let key = OrderKey { text: Vec::new(), first: port, second: number, rest: suffix, last };
        assert(key_view(key) =~= ks[k as int]);
        keys.push(key);
        k = k + 1;
    }
    let order = order_by_keys(&keys, Ghost(ks));
    let width = max_signal_len(ps);
    push_all(out, "выводы:\n".as_bytes());
    let ghost head = out@;
    let ghost lines = Seq::new(
        order@.len(),
        |i: int| pin_line(*chip, ps@[order@[i] as int], width as nat),
    );
    let mut i: usize = 0;
    while i < order.len()
        invariant
            i <= order@.len(),
            lines.len() == order@.len(),
            forall|j: int| 0 <= j < lines.len() ==> #[trigger] lines[j] == pin_line(
                *chip,
                ps@[order@[j] as int],
                width as nat,
            ),
            forall|j: int| 0 <= j < order@.len() ==> (#[trigger] order@[j]) < ps@.len(),
            out@ == head + concat(lines.subrange(0, i as int)),
        decreases order.len() - i,
    {
        push_pin_line(out, chip, &ps[order[i]], width);
        assert(lines.subrange(0, i + 1).drop_last() =~= lines.subrange(0, i as int));
        i = i + 1;
    }
    assert(lines.subrange(0, order@.len() as int) =~= lines);
    assert(out@ =~= start + pins_section(*chip, *b));
}

fn push_dma_section(out: &mut Vec<u8>, b: &Block)
    ensures
        final(out)@ == old(out)@ + dma_section(*b),
{
    let ghost start = out@;
    let cs = &b.dma_channels;
    if cs.len() == 0 {
        assert(out@ =~= start + dma_section(*b));
        return;
    }
    let ghost names = Seq::new(cs@.len(), |i: int| cs@[i].signal@);
    let mut width: usize = 0;
    let mut k: usize = 0;
    while k < cs.len()
        invariant
            k <= cs@.len(),
            names == Seq::new(cs@.len(), |i: int| cs@[i].signal@),
            width == max_len(names.subrange(0, k as int)),
        decreases cs.len() - k,
    {
        assert(names.subrange(0, k + 1).drop_last() =~= names.subrange(0, k as int));
        if cs[k].signal.len() > width {
            width = cs[k].signal.len();
        }
        k = k + 1;
    }
    assert(names.subrange(0, cs@.len() as int) =~= names);
    push_all(out, "\nDMA:\n".as_bytes());
    let ghost head = out@;
    let ghost lines = Seq::new(
        cs@.len(),
        |i: int|
            "  ".spec_bytes() + pad_chars(cs@[i].signal@, width as nat) + "  ".spec_bytes()
                + dma_text(cs@[i]) + "\n".spec_bytes(),
    );
    let mut i: usize = 0;
    while i < cs.len()
        invariant
            i <= cs@.len(),
            lines == Seq::new(
                cs@.len(),
                |i: int|
                    "  ".spec_bytes() + pad_chars(cs@[i].signal@, width as nat) + "  ".spec_bytes()
                        + dma_text(cs@[i]) + "\n".spec_bytes(),
            ),
            out@ == head + concat(lines.subrange(0, i as int)),
        decreases cs.len() - i,
    {
        let ghost before = out@;
        push_all(out, "  ".as_bytes());
        push_padded_chars(out, cs[i].signal.as_slice(), width);
        push_all(out, "  ".as_bytes());
        let text = format_dma(&cs[i]);
        push_all(out, text.as_slice());
        push_all(out, "\n".as_bytes());
        assert(out@ =~= before + lines[i as int]);
        assert(lines.subrange(0, i + 1).drop_last() =~= lines.subrange(0, i as int));
        i = i + 1;
    }
    assert(lines.subrange(0, cs@.len() as int) =~= lines);
    assert(out@ =~= start + dma_section(*b));
}

fn push_clocks_section(out: &mut Vec<u8>, b: &Block)
    ensures
        final(out)@ == old(out)@ + clocks_section(*b),
{
    let ghost start = out@;
    match &b.rcc {
        None => {
            assert(out@ =~= start + clocks_section(*b));
        },
        Some(c) => {
            push_all(out, "\nтактирование:\n  шина     ".as_bytes());
            push_all(out, c.bus_clock.as_slice());
            push_all(out, "\n".as_bytes());
            match &c.kernel_clock {
                KernelClock::Clock(x) => {
                    push_all(out, "  источник ".as_bytes());
                    push_all(out, x.as_slice());
                    push_all(out, "\n".as_bytes());
                },
                KernelClock::Mux(r, f) => {
                    push_all(out, "  источник выбирается мультиплексором ".as_bytes());
                    push_all(out, r.as_slice());
                    push_all(out, ".".as_bytes());
                    push_all(out, f.as_slice());
                    push_all(out, " (embassy: Config.rcc.mux)\n".as_bytes());
                },
            }
            assert(out@ =~= start + clocks_section(*b));
        },
    }
}

fn push_interrupts_section(out: &mut Vec<u8>, b: &Block)
    ensures
        final(out)@ == old(out)@ + interrupts_section(*b),
{
    let ghost start = out@;
    let is = &b.interrupts;
    if is.len() == 0 {
        assert(out@ =~= start + interrupts_section(*b));
        return;
    }
    let ghost names = Seq::new(is@.len(), |i: int| is@[i].signal@);
    let mut width: usize = 0;
    let mut k: usize = 0;
    while k < is.len()
        invariant
            k <= is@.len(),
            names == Seq::new(is@.len(), |i: int| is@[i].signal@),
            width == max_len(names.subrange(0, k as int)),
        decreases is.len() - k,
    {
        assert(names.subrange(0, k + 1).drop_last() =~= names.subrange(0, k as int));
        if is[k].signal.len() > width {
            width = is[k].signal.len();
        }
        k = k + 1;
    }
    assert(names.subrange(0, is@.len() as int) =~= names);
    push_all(out, "\nпрерывания:\n".as_bytes());
    let ghost head = out@;
    let ghost lines = Seq::new(
        is@.len(),
        |i: int|
            "  ".spec_bytes() + pad_chars(is@[i].signal@, width as nat) + "  ".spec_bytes()
                + is@[i].interrupt@ + "\n".spec_bytes(),
    );
    let mut i: usize = 0;
    while i < is.len()
        invariant
            i <= is@.len(),
            lines == Seq::new(
                is@.len(),
                |i: int|
                    "  ".spec_bytes() + pad_chars(is@[i].signal@, width as nat) + "  ".spec_bytes()
                        + is@[i].interrupt@ + "\n".spec_bytes(),
            ),
            out@ == head + concat(lines.subrange(0, i as int)),
        decreases is.len() - i,
    {
        let ghost before = out@;
        push_all(out, "  ".as_bytes());
        push_padded_chars(out, is[i].signal.as_slice(), width);
        push_all(out, "  ".as_bytes());
        push_all(out, is[i].interrupt.as_slice());
        push_all(out, "\n".as_bytes());
        assert(out@ =~= before + lines[i as int]);
        assert(lines.subrange(0, i + 1).drop_last() =~= lines.subrange(0, i as int));
        i = i + 1;
    }
    assert(lines.subrange(0, is@.len() as int) =~= lines);
    assert(out@ =~= start + interrupts_section(*b));
}

/// What the reference says of the block `name`: its pins ordered by pin and
/// signal, with alternate functions and warnings, its DMA requests, clocks
/// and interrupts.
pub fn describe_peripheral(chip: &Chip, name: &[u8]) -> (r: Result<Vec<u8>, PinsError>)
    requires
        block_pin_keys_defined(*chip, name@),
    ensures
        match block_index(*chip, name@) {
            None => r matches Err(PinsError::UnknownBlock(n)) && n@ == name@,
            Some(i) => r matches Ok(t) && t@ == block_text(*chip, chip.blocks@[i]),
        },
{
    let i = match find_block(chip, name) {
        Some(i) => i,
        None => return Err(PinsError::UnknownBlock(crate::bytes::copy_range(name, 0, name.len()))),
    };
    let b = &chip.blocks[i];
    let mut out: Vec<u8> = Vec::new();
    push_header(&mut out, chip, Some(b.name.as_slice()));
    assert forall|j: int| 0 <= j < b.pins@.len() implies pin_key_defined(
        #[trigger] b.pins@[j].pin@,
    ) by {
        assert(pin_key_defined(chip.blocks@[i as int].pins@[j].pin@));
    }
    push_pins_section(&mut out, chip, b);
    push_dma_section(&mut out, b);
    push_clocks_section(&mut out, b);
    push_interrupts_section(&mut out, b);
    assert(out@ =~= block_text(*chip, chip.blocks@[i as int]));
    Ok(out)
}


// ---------------------------------------------------------------------
// One pin, and the list of blocks
// ---------------------------------------------------------------------

/// The functions on the pin `name` among the first `j` pins of a block:
/// `(block, signal, alternate function)`, in order.
pub open spec fn block_functions(b: Block, name: Seq<u8>, j: int) -> Seq<(Seq<u8>, Seq<u8>, Option<u8>)>
    decreases j,
{
    if j <= 0 || j > b.pins@.len() {
        Seq::empty()
    } else {
        let p = b.pins@[j - 1];
        block_functions(b, name, j - 1) + if p.pin@ == name {
            seq![(b.name@, p.signal@, p.af)]
        } else {
            Seq::empty()
        }
    }
}

/// The functions on the pin `name` in the first `k` blocks, in order.
pub open spec fn functions_upto(bs: Seq<Block>, name: Seq<u8>, k: int) -> Seq<(Seq<u8>, Seq<u8>, Option<u8>)>
    decreases k,
{
    if k <= 0 || k > bs.len() {
        Seq::empty()
    } else {
        functions_upto(bs, name, k - 1) + block_functions(bs[k - 1], name, bs[k - 1].pins@.len() as int)
    }
}

/// The sort keys of functions: block, then signal.
pub open spec fn function_keys(fs: Seq<(Seq<u8>, Seq<u8>, Option<u8>)>) -> Seq<(Seq<u8>, u32, u32, Seq<u8>, Seq<u8>)> {
    Seq::new(
        fs.len(),
        |i: int|
            {
                let k = block_key(fs[i].0);
                (k.0, k.1, 0u32, fs[i].1, Seq::<u8>::empty())
            },
    )
}

/// The line of one function of a pin.
pub open spec fn function_line(f: (Seq<u8>, Seq<u8>, Option<u8>), width: nat) -> Seq<u8> {
    "  ".spec_bytes() + pad_chars(f.0, width) + "  ".spec_bytes() + pad_chars(f.1, 12)
        + " ".spec_bytes() + af_text(f.2) + "\n".spec_bytes()
}

/// The functions of a pin, ordered by block and signal.
pub open spec fn functions_section(fs: Seq<(Seq<u8>, Seq<u8>, Option<u8>)>) -> Seq<u8> {
    if fs.len() == 0 {
        "периферийных функций нет — только GPIO\n".spec_bytes()
    } else {
        let order = key_order(function_keys(fs));
        let width = max_len(Seq::new(fs.len(), |i: int| fs[i].0));
        "функции (".spec_bytes() + decimal(fs.len()) + "):\n".spec_bytes() + concat(
            Seq::new(order.len(), |i: int| function_line(fs[order[i] as int], width)),
        )
    }
}

/// What the reference says of a pin: its warning, if any, and the signals
/// of the blocks on it.
pub open spec fn pin_text(chip: Chip, name: Seq<u8>) -> Seq<u8> {
    header_text(chip, Some(name)) + note_suffix(chip, name, "! ".spec_bytes()) + (if pin_note_spec(
        chip,
        name,
    ) is Some {
        "\n\n".spec_bytes()
    } else {
        Seq::empty()
    }) + functions_section(functions_upto(chip.blocks@, name, chip.blocks@.len() as int))
}

fn push_function_line(out: &mut Vec<u8>, f: &(Vec<u8>, Vec<u8>, Option<u8>), width: usize)
    ensures
        final(out)@ == old(out)@ + function_line((f.0@, f.1@, f.2), width as nat),
{
    let ghost start = out@;
    push_all(out, "  ".as_bytes());
    push_padded_chars(out, f.0.as_slice(), width);
    push_all(out, "  ".as_bytes());
    push_padded_chars(out, f.1.as_slice(), 12);
    push_all(out, " ".as_bytes());
    push_af(out, f.2);
    push_all(out, "\n".as_bytes());
    assert(out@ =~= start + function_line((f.0@, f.1@, f.2), width as nat));
}

spec fn function_views(fs: Seq<(Vec<u8>, Vec<u8>, Option<u8>)>) -> Seq<(Seq<u8>, Seq<u8>, Option<u8>)> {
    Seq::new(fs.len(), |i: int| (fs[i].0@, fs[i].1@, fs[i].2))
}

fn collect_functions(chip: &Chip, name: &[u8]) -> (r: Vec<(Vec<u8>, Vec<u8>, Option<u8>)>)
    ensures
        function_views(r@) == functions_upto(chip.blocks@, name@, chip.blocks@.len() as int),
{
    let mut out: Vec<(Vec<u8>, Vec<u8>, Option<u8>)> = Vec::new();
    let mut k: usize = 0;
    while k < chip.blocks.len()
        invariant
            k <= chip.blocks@.len(),
            function_views(out@) == functions_upto(chip.blocks@, name@, k as int),
        decreases chip.blocks.len() - k,
    {
        let b = &chip.blocks[k];
        let ghost head = function_views(out@);
        let mut j: usize = 0;
        while j < b.pins.len()
            invariant
                j <= b.pins@.len(),
                k < chip.blocks@.len(),
                *b == chip.blocks@[k as int],
                head == functions_upto(chip.blocks@, name@, k as int),
                function_views(out@) == head + block_functions(*b, name@, j as int),
            decreases b.pins.len() - j,
        {
            let ghost before = out@;
            let p = &b.pins[j];
            if eq_bytes(p.pin.as_slice(), name) {
                let bn = crate::bytes::copy_range(b.name.as_slice(), 0, b.name.len());
                let sg = crate::bytes::copy_range(p.signal.as_slice(), 0, p.signal.len());
                assert(b.name@.subrange(0, b.name@.len() as int) =~= b.name@);
                assert(p.signal@.subrange(0, p.signal@.len() as int) =~= p.signal@);
                out.push((bn, sg, p.af));
                assert(function_views(out@) =~= function_views(before).push(
                    (b.name@, p.signal@, p.af),
                ));
            }
            assert(function_views(out@) =~= head + block_functions(*b, name@, j + 1));
            j = j + 1;
        }
        k = k + 1;
    }
    out
}

/// What the reference says of the pin `name`: its warning, then which
/// signal of which block it carries with which alternate function, ordered
/// by block and signal. A pin that the package does not have is an error.
pub fn describe_pin(chip: &Chip, name: &[u8]) -> (r: Result<Vec<u8>, PinsError>)
    ensures
        !has_pin(*chip, name@) ==> (r matches Err(PinsError::UnknownPin(n)) && n@ == name@),
        has_pin(*chip, name@) ==> (r matches Ok(t) && t@ == pin_text(*chip, name@)),
{
    if !chip_has_pin(chip, name) {
        return Err(PinsError::UnknownPin(crate::bytes::copy_range(name, 0, name.len())));
    }
    let mut out: Vec<u8> = Vec::new();
    push_header(&mut out, chip, Some(name));
    let ghost after_header = out@;
    match pin_note(chip, name) {
        Some((_, note)) => {
            push_all(&mut out, "! ".as_bytes());
            push_all(&mut out, note.as_slice());
            push_all(&mut out, "\n\n".as_bytes());
        },
        None => {},
    }
    let ghost head = out@;
    let fs = collect_functions(chip, name);
    let ghost fv = function_views(fs@);
    if fs.len() == 0 {
        push_all(&mut out, "периферийных функций нет — только GPIO\n".as_bytes());
        assert(out@ =~= pin_text(*chip, name@));
        return Ok(out);
    }
    let ghost ks = function_keys(fv);
    let mut keys: Vec<OrderKey> = Vec::new();
    let mut width: usize = 0;
    let ghost blocks = Seq::new(fv.len(), |i: int| fv[i].0);
    let mut k: usize = 0;
    while k < fs.len()
        invariant
            k <= fs@.len(),
            fv == function_views(fs@),
            ks == function_keys(fv),
            blocks == Seq::new(fv.len(), |i: int| fv[i].0),
            keys@.len() == k,
            forall|i: int| 0 <= i < k ==> key_view(#[trigger] keys@[i]) == ks[i],
            width == max_len(blocks.subrange(0, k as int)),
        decreases fs.len() - k,
    {
        let (prefix, number) = block_sort_key(fs[k].0.as_slice());
        let last = crate::bytes::copy_range(fs[k].1.as_slice(), 0, fs[k].1.len());
        assert(fs@[k as int].1@.subrange(0, fs@[k as int].1@.len() as int) =~= fs@[k as int].1@);
        let key = OrderKey { text: prefix, first: number, second: 0, rest: last, last: Vec::new() };
        assert(key_view(key) =~= ks[k as int]);
        keys.push(key);
        assert(blocks.subrange(0, k + 1).drop_last() =~= blocks.subrange(0, k as int));
        if fs[k].0.len() > width {
            width = fs[k].0.len();
        }
        k = k + 1;
    }
    assert(blocks.subrange(0, fs@.len() as int) =~= blocks);
    let order = order_by_keys(&keys, Ghost(ks));
    push_all(&mut out, "функции (".as_bytes());
    push_decimal(&mut out, fs.len() as u64);
    push_all(&mut out, "):\n".as_bytes());
    let ghost lines_start = out@;
    let ghost lines = Seq::new(
        order@.len(),
        |i: int| function_line(fv[order@[i] as int], width as nat),
    );
    let mut i: usize = 0;
    while i < order.len()
        invariant
            i <= order@.len(),
            fv == function_views(fs@),
            lines.len() == order@.len(),
            forall|j: int| 0 <= j < lines.len() ==> #[trigger] lines[j] == function_line(
                fv[order@[j] as int],
                width as nat,
            ),
            forall|j: int| 0 <= j < order@.len() ==> (#[trigger] order@[j]) < fs@.len(),
            out@ == lines_start + concat(lines.subrange(0, i as int)),
        decreases order.len() - i,
    {
        push_function_line(&mut out, &fs[order[i]], width);
        assert(lines.subrange(0, i + 1).drop_last() =~= lines.subrange(0, i as int));
        i = i + 1;
    }
    assert(lines.subrange(0, order@.len() as int) =~= lines);
    assert(out@ =~= pin_text(*chip, name@));
    Ok(out)
}

/// The names of the blocks among the first `k` that have pins, in order.
pub open spec fn named_blocks(bs: Seq<Block>, k: int) -> Seq<Seq<u8>>
    decreases k,
{
    if k <= 0 || k > bs.len() {
        Seq::empty()
    } else {
        named_blocks(bs, k - 1) + if bs[k - 1].pins@.len() > 0 {
            seq![bs[k - 1].name@]
        } else {
            Seq::empty()
        }
    }
}

/// The sort keys of block names.
pub open spec fn name_keys(ns: Seq<Seq<u8>>) -> Seq<(Seq<u8>, u32, u32, Seq<u8>, Seq<u8>)> {
    Seq::new(
        ns.len(),
        |i: int|
            {
                let k = block_key(ns[i]);
                (k.0, k.1, 0u32, Seq::<u8>::empty(), Seq::<u8>::empty())
            },
    )
}

/// The first answer of the reference: the blocks that have pins, ordered
/// by name and number, laid out in lines of 72, and how to ask further.
pub open spec fn blocks_text(chip: Chip) -> Seq<u8> {
    let ns = named_blocks(chip.blocks@, chip.blocks@.len() as int);
    let order = key_order(name_keys(ns));
    let lines = wrapped(Seq::new(order.len(), |i: int| ns[order[i] as int]), 72);
    header_text(chip, None) + "блоки с выводами (".spec_bytes() + decimal(ns.len())
        + "):\n".spec_bytes() + concat(
        Seq::new(lines.len(), |i: int| "  ".spec_bytes() + lines[i] + "\n".spec_bytes()),
    ) + "\nподробнее:\n".spec_bytes()
        + "  cargo xtask pins SPI1   # выводы, DMA, тактирование и прерывания блока\n".spec_bytes()
        + "  cargo xtask pins PA9    # что умеет конкретный вывод\n".spec_bytes()
}

/// The blocks that have pins, to start from.
pub fn list_blocks(chip: &Chip) -> (r: Vec<u8>)
    ensures
        r@ == blocks_text(*chip),
{
    let mut names: Vec<Vec<u8>> = Vec::new();
    let mut k: usize = 0;
    while k < chip.blocks.len()
        invariant
            k <= chip.blocks@.len(),
            names.deep_view() == named_blocks(chip.blocks@, k as int),
        decreases chip.blocks.len() - k,
    {
        if chip.blocks[k].pins.len() > 0 {
            let ghost before = names.deep_view();
            let n = crate::bytes::copy_range(chip.blocks[k].name.as_slice(), 0, chip.blocks[k].name.len());
            assert(chip.blocks@[k as int].name@.subrange(0, chip.blocks@[k as int].name@.len() as int)
                =~= chip.blocks@[k as int].name@);
            let ghost nv = n@;
            names.push(n);
            assert(names.deep_view() =~~= before.push(nv));
        }
        k = k + 1;
    }
    let ghost ns = names.deep_view();
    let ghost ks = name_keys(ns);
    let mut keys: Vec<OrderKey> = Vec::new();
    let mut i: usize = 0;
    while i < names.len()
        invariant
            i <= names@.len(),
            ns == names.deep_view(),
            ks == name_keys(ns),
            keys@.len() == i,
            forall|j: int| 0 <= j < i ==> key_view(#[trigger] keys@[j]) == ks[j],
        decreases names.len() - i,
    {
        assert(ns[i as int] == names@[i as int]@);
        let (prefix, number) = block_sort_key(names[i].as_slice());
        let rest: Vec<u8> = Vec::new();
        let last: Vec<u8> = Vec::new();
        let key = OrderKey { text: prefix, first: number, second: 0, rest, last };
        assert(key.rest@ =~= Seq::<u8>::empty());
        assert(key.last@ =~= Seq::<u8>::empty());
        assert(key_view(key) =~= ks[i as int]);
        keys.push(key);
        i = i + 1;
    }
    let order = order_by_keys(&keys, Ghost(ks));
    let mut sorted: Vec<Vec<u8>> = Vec::new();
    let mut m: usize = 0;
    while m < order.len()
        invariant
            m <= order@.len(),
            ns == names.deep_view(),
            forall|j: int| 0 <= j < order@.len() ==> (#[trigger] order@[j]) < names@.len(),
            sorted.deep_view() == Seq::new(m as nat, |j: int| ns[order@[j] as int]),
        decreases order.len() - m,
    {
        let ghost before = sorted.deep_view();
        let o = order[m];
        assert(ns[o as int] == names@[o as int]@);
        let n = crate::bytes::copy_range(names[o].as_slice(), 0, names[o].len());
        assert(names@[o as int]@.subrange(0, names@[o as int]@.len() as int) =~= ns[o as int]);
        let ghost nv = n@;
        sorted.push(n);
        assert(sorted.deep_view() =~~= before.push(nv));
        assert(before.push(nv) =~= Seq::new((m + 1) as nat, |j: int| ns[order@[j] as int]));
        m = m + 1;
    }
    let lines = wrap(sorted.as_slice(), 72);
    let ghost lv = lines.deep_view();
    let mut out: Vec<u8> = Vec::new();
    push_header(&mut out, chip, None);
    push_all(&mut out, "блоки с выводами (".as_bytes());
    push_decimal(&mut out, names.len() as u64);
    push_all(&mut out, "):\n".as_bytes());
    let ghost head = out@;
    let ghost texts = Seq::new(lv.len(), |i: int| "  ".spec_bytes() + lv[i] + "\n".spec_bytes());
    let mut l: usize = 0;
    while l < lines.len()
        invariant
            l <= lines@.len(),
            lv == lines.deep_view(),
            texts == Seq::new(lv.len(), |i: int| "  ".spec_bytes() + lv[i] + "\n".spec_bytes()),
            out@ == head + concat(texts.subrange(0, l as int)),
        decreases lines.len() - l,
    {
        let ghost before = out@;
        push_all(&mut out, "  ".as_bytes());
        push_all(&mut out, lines[l].as_slice());
        push_all(&mut out, "\n".as_bytes());
        assert(out@ =~= before + texts[l as int]);
        assert(texts.subrange(0, l + 1).drop_last() =~= texts.subrange(0, l as int));
        l = l + 1;
    }
    assert(texts.subrange(0, lv.len() as int) =~= texts);
    push_all(&mut out, "\nподробнее:\n".as_bytes());
    push_all(&mut out, "  cargo xtask pins SPI1   # выводы, DMA, тактирование и прерывания блока\n".as_bytes());
    push_all(&mut out, "  cargo xtask pins PA9    # что умеет конкретный вывод\n".as_bytes());
    assert(sorted.deep_view() =~= Seq::new(order@.len(), |i: int| ns[order@[i] as int]));
    assert(out@ =~= blocks_text(*chip));
    out
}


// ---------------------------------------------------------------------
// Signals of a block, for the code template
// ---------------------------------------------------------------------

/// Whether no pin of `ps` before `i` carries the signal of pin `i`.
pub open spec fn is_first_of_signal(ps: Seq<PinFunction>, i: int) -> bool {
    forall|j: int| 0 <= j < i ==> #[trigger] ps[j].signal@ != ps[i].signal@
}

/// Positions among the first `n` pins of `ps` where a signal first appears.
pub open spec fn first_signals(ps: Seq<PinFunction>, n: int) -> Seq<usize>
    decreases n,
{
    if n <= 0 || n > ps.len() {
        Seq::empty()
    } else {
        first_signals(ps, n - 1) + if is_first_of_signal(ps, n - 1) {
            seq![(n - 1) as usize]
        } else {
            Seq::empty()
        }
    }
}

/// The signals of `ps`, each once, in the order they first appear.
pub open spec fn signal_list(ps: Seq<PinFunction>) -> Seq<Seq<u8>> {
    let f = first_signals(ps, ps.len() as int);
    Seq::new(f.len(), |i: int| ps[f[i] as int].signal@)
}

/// The sort keys of signal names.
pub open spec fn signal_keys(ss: Seq<Seq<u8>>) -> Seq<(Seq<u8>, u32, u32, Seq<u8>, Seq<u8>)> {
    Seq::new(ss.len(), |i: int| (ss[i], 0u32, 0u32, Seq::<u8>::empty(), Seq::<u8>::empty()))
}

/// The pins among the first `n` of `ps` that carry `sig` and have a warning
/// (`noted`) or none, in order.
pub open spec fn signal_pins(chip: Chip, ps: Seq<PinFunction>, sig: Seq<u8>, noted: bool, n: int) -> Seq<Seq<u8>>
    decreases n,
{
    if n <= 0 || n > ps.len() {
        Seq::empty()
    } else {
        signal_pins(chip, ps, sig, noted, n - 1) + if ps[n - 1].signal@ == sig && (pin_note_spec(
            chip,
            ps[n - 1].pin@,
        ) is Some) == noted {
            seq![ps[n - 1].pin@]
        } else {
            Seq::empty()
        }
    }
}

/// The alternate function of the first pin of `ps` from `i` on that
/// carries `sig` on `pin`.
pub open spec fn af_from(ps: Seq<PinFunction>, sig: Seq<u8>, pin: Seq<u8>, i: int) -> Option<u8>
    decreases ps.len() - i,
{
    if i < 0 || i >= ps.len() {
        None
    } else if ps[i].signal@ == sig && ps[i].pin@ == pin {
        ps[i].af
    } else {
        af_from(ps, sig, pin, i + 1)
    }
}

/// An alternative pin as the template lists it: with its alternate
/// function, where it has one.
pub open spec fn alternative_text(ps: Seq<PinFunction>, sig: Seq<u8>, pin: Seq<u8>) -> Seq<u8> {
    match af_from(ps, sig, pin, 0) {
        Some(a) => pin + "(AF".spec_bytes() + decimal(a as nat) + ")".spec_bytes(),
        None => pin,
    }
}

/// The pins of a signal, those without a warning first.
pub open spec fn signal_choices(chip: Chip, ps: Seq<PinFunction>, sig: Seq<u8>) -> Seq<Seq<u8>> {
    signal_pins(chip, ps, sig, false, ps.len() as int) + signal_pins(chip, ps, sig, true, ps.len() as int)
}

/// A field of the template: the signal, its first choice of pin, and the
/// other pins that carry it.
pub open spec fn signal_field(chip: Chip, ps: Seq<PinFunction>, sig: Seq<u8>) -> (Seq<u8>, Seq<u8>, Seq<Seq<u8>>) {
    let all = signal_choices(chip, ps, sig);
    (sig, all[0], Seq::new((all.len() - 1) as nat, |i: int| alternative_text(ps, sig, all[i + 1])))
}

/// The fields of the template for a block, ordered by signal.
pub open spec fn signal_fields(chip: Chip, b: Block) -> Seq<(Seq<u8>, Seq<u8>, Seq<Seq<u8>>)> {
    let ss = signal_list(b.pins@);
    let order = key_order(signal_keys(ss));
    Seq::new(order.len(), |i: int| signal_field(chip, b.pins@, ss[order[i] as int]))
}

/// One field of the template.
pub struct SignalField {
    pub signal: Vec<u8>,
    pub default: Vec<u8>,
    pub alternatives: Vec<Vec<u8>>,
}

/// A field as plain values.
pub open spec fn field_view(f: SignalField) -> (Seq<u8>, Seq<u8>, Seq<Seq<u8>>) {
    (f.signal@, f.default@, f.alternatives.deep_view())
}

/// Fields as plain values.
pub open spec fn field_views(fs: Seq<SignalField>) -> Seq<(Seq<u8>, Seq<u8>, Seq<Seq<u8>>)> {
    Seq::new(fs.len(), |i: int| field_view(fs[i]))
}

proof fn lemma_signal_pins_nonempty(chip: Chip, ps: Seq<PinFunction>, sig: Seq<u8>, noted: bool, n: int, f: int)
    requires
        0 <= f < n <= ps.len(),
        ps[f].signal@ == sig,
        (pin_note_spec(chip, ps[f].pin@) is Some) == noted,
    ensures
        signal_pins(chip, ps, sig, noted, n).len() > 0,
    decreases n,
{
    if f < n - 1 {
        lemma_signal_pins_nonempty(chip, ps, sig, noted, n - 1, f);
    }
}

fn copy_vec(v: &Vec<u8>) -> (r: Vec<u8>)
    ensures
        r@ == v@,
{
    let r = crate::bytes::copy_range(v.as_slice(), 0, v.len());
    assert(v@.subrange(0, v@.len() as int) =~= v@);
    r
}

fn collect_signal_pins(chip: &Chip, ps: &Vec<PinFunction>, sig: &[u8], noted: bool) -> (r: Vec<Vec<u8>>)
    ensures
        r.deep_view() == signal_pins(*chip, ps@, sig@, noted, ps@.len() as int),
{
    let mut out: Vec<Vec<u8>> = Vec::new();
    let mut i: usize = 0;
    while i < ps.len()
        invariant
            i <= ps@.len(),
            out.deep_view() == signal_pins(*chip, ps@, sig@, noted, i as int),
        decreases ps.len() - i,
    {
        let ghost before = out.deep_view();
        if eq_bytes(ps[i].signal.as_slice(), sig) && pin_note(chip, ps[i].pin.as_slice()).is_some()
            == noted {
            let p = copy_vec(&ps[i].pin);
            let ghost pv = p@;
            out.push(p);
            assert(out.deep_view() =~~= before.push(pv));
        }
        i = i + 1;
    }
    out
}

fn af_of(ps: &Vec<PinFunction>, sig: &[u8], pin: &[u8]) -> (r: Option<u8>)
    ensures
        r == af_from(ps@, sig@, pin@, 0),
{
    let mut i: usize = 0;
    while i < ps.len()
        invariant
            i <= ps@.len(),
            af_from(ps@, sig@, pin@, 0) == af_from(ps@, sig@, pin@, i as int),
        decreases ps.len() - i,
    {
        if eq_bytes(ps[i].signal.as_slice(), sig) && eq_bytes(ps[i].pin.as_slice(), pin) {
            return ps[i].af;
        }
        i = i + 1;
    }
    None
}

fn alternative(ps: &Vec<PinFunction>, sig: &[u8], pin: &[u8]) -> (r: Vec<u8>)
    ensures
        r@ == alternative_text(ps@, sig@, pin@),
{
    let af = af_of(ps, sig, pin);
    let mut out: Vec<u8> = Vec::new();
    push_all(&mut out, pin);
    match af {
        Some(a) => {
            push_all(&mut out, "(AF".as_bytes());
            push_decimal(&mut out, a as u64);
            push_all(&mut out, ")".as_bytes());
        },
        None => {},
    }
    assert(out@ =~= alternative_text(ps@, sig@, pin@));
    out
}

fn signal_seen_before(ps: &Vec<PinFunction>, i: usize) -> (r: bool)
    requires
        i < ps@.len(),
    ensures
        r == !is_first_of_signal(ps@, i as int),
{
    let mut j: usize = 0;
    while j < i
        invariant
            j <= i < ps@.len(),
            forall|l: int| 0 <= l < j ==> #[trigger] ps@[l].signal@ != ps@[i as int].signal@,
        decreases i - j,
    {
        if eq_bytes(ps[j].signal.as_slice(), ps[i].signal.as_slice()) {
            return true;
        }
        j = j + 1;
    }
    false
}

fn first_signal_positions(ps: &Vec<PinFunction>) -> (r: Vec<usize>)
    ensures
        r@ == first_signals(ps@, ps@.len() as int),
        forall|k: int| 0 <= k < r@.len() ==> (#[trigger] r@[k]) < ps@.len(),
{
    let mut out: Vec<usize> = Vec::new();
    let mut i: usize = 0;
    while i < ps.len()
        invariant
            i <= ps@.len(),
            out@ == first_signals(ps@, i as int),
            forall|k: int| 0 <= k < out@.len() ==> (#[trigger] out@[k]) < i,
        decreases ps.len() - i,
    {
        let seen = signal_seen_before(ps, i);
        if !seen {
            out.push(i);
        }
        i = i + 1;
    }
    out
}

/// The fields of the code template for a block: each signal once, ordered
/// by signal, with a pin that neither the debug port nor a crystal holds as
/// first choice where there is one, and the other pins with their alternate
/// functions.
pub fn signals(chip: &Chip, b: &Block) -> (r: Vec<SignalField>)
    ensures
        field_views(r@) == signal_fields(*chip, *b),
{
    let ps = &b.pins;
    let firsts = first_signal_positions(ps);
    let ghost fs = firsts@;
    let ghost ss = signal_list(ps@);
    let ghost ks = signal_keys(ss);
    let mut keys: Vec<OrderKey> = Vec::new();
    let mut k: usize = 0;
    while k < firsts.len()
        invariant
            k <= firsts@.len(),
            fs == firsts@,
            fs == first_signals(ps@, ps@.len() as int),
            forall|i: int| 0 <= i < fs.len() ==> (#[trigger] fs[i]) < ps@.len(),
            ss == signal_list(ps@),
            ks == signal_keys(ss),
            keys@.len() == k,
            forall|i: int| 0 <= i < k ==> key_view(#[trigger] keys@[i]) == ks[i],
        decreases firsts.len() - k,
    {
        let text = copy_vec(&ps[firsts[k]].signal);
        let key = OrderKey { text, first: 0, second: 0, rest: Vec::new(), last: Vec::new() };
        assert(key_view(key) =~= ks[k as int]);
        keys.push(key);
        k = k + 1;
    }
    let order = order_by_keys(&keys, Ghost(ks));
    let mut out: Vec<SignalField> = Vec::new();
    let mut m: usize = 0;
    while m < order.len()
        invariant
            m <= order@.len(),
            fs == firsts@,
            fs == first_signals(ps@, ps@.len() as int),
            forall|i: int| 0 <= i < fs.len() ==> (#[trigger] fs[i]) < ps@.len(),
            ss == signal_list(ps@),
            ks == signal_keys(ss),
            order@ == key_order(ks),
            forall|i: int| 0 <= i < order@.len() ==> (#[trigger] order@[i]) < keys@.len(),
            keys@.len() == fs.len(),
            field_views(out@) == Seq::new(
                m as nat,
                |i: int| signal_field(*chip, ps@, ss[order@[i] as int]),
            ),
        decreases order.len() - m,
    {
        let f = firsts[order[m]];
        let sig = ps[f].signal.as_slice();
        assert(sig@ == ss[order@[m as int] as int]);
        let free = collect_signal_pins(chip, ps, sig, false);
        let busy = collect_signal_pins(chip, ps, sig, true);
        let ghost all = signal_choices(*chip, ps@, sig@);
        proof {
            let noted = pin_note_spec(*chip, ps@[f as int].pin@) is Some;
            lemma_signal_pins_nonempty(*chip, ps@, sig@, noted, ps@.len() as int, f as int);
        }
        let default = if free.len() > 0 {
            copy_vec(&free[0])
        } else {
            copy_vec(&busy[0])
        };
        assert(default@ == all[0]);
        let mut alternatives: Vec<Vec<u8>> = Vec::new();
        let ghost fv = free.deep_view();
        let ghost bv = busy.deep_view();
        assert(all == fv + bv);
        assert(fv.len() == free@.len());
        assert(bv.len() == busy@.len());
        let mut a: usize = 1;
        while a < free.len()
            invariant
                1 <= a,
                a <= free@.len() || (a == 1 && free@.len() == 0),
                fv == free.deep_view(),
                fv.len() == free@.len(),
                all == fv + bv,
                alternatives.deep_view() == Seq::new(
                    (a - 1) as nat,
                    |i: int| alternative_text(ps@, sig@, all[i + 1]),
                ),
            decreases free.len() - a,
        {
            let ghost before = alternatives.deep_view();
            assert(free@[a as int]@ == all[a as int]);
            let t = alternative(ps, sig, free[a].as_slice());
            let ghost tv = t@;
            alternatives.push(t);
            assert(alternatives.deep_view() =~~= before.push(tv));
            assert(alternatives.deep_view() =~= Seq::new(
                a as nat,
                |i: int| alternative_text(ps@, sig@, all[i + 1]),
            ));
            a = a + 1;
        }
        let mut c: usize = if free.len() == 0 { 1 } else { 0 };
        assert(all.len() >= 1);
        assert(alternatives.deep_view() =~= Seq::new(
            (fv.len() + c - 1) as nat,
            |i: int| alternative_text(ps@, sig@, all[i + 1]),
        ));
        while c < busy.len()
            invariant
                c <= busy@.len(),
                free@.len() == 0 ==> c >= 1,
                fv == free.deep_view(),
                bv == busy.deep_view(),
                fv.len() == free@.len(),
                bv.len() == busy@.len(),
                all == fv + bv,
                all.len() >= 1,
                alternatives.deep_view() == Seq::new(
                    (fv.len() + c - 1) as nat,
                    |i: int| alternative_text(ps@, sig@, all[i + 1]),
                ),
            decreases busy.len() - c,
        {
            let ghost before = alternatives.deep_view();
            assert(busy@[c as int]@ == all[fv.len() + c]);
            let t = alternative(ps, sig, busy[c].as_slice());
            let ghost tv = t@;
            alternatives.push(t);
            assert(alternatives.deep_view() =~~= before.push(tv));
            assert(alternatives.deep_view() =~= Seq::new(
                (fv.len() + c) as nat,
                |i: int| alternative_text(ps@, sig@, all[i + 1]),
            ));
            c = c + 1;
        }
        assert(fv.len() + c - 1 == all.len() - 1);
        let ghost before_out = field_views(out@);
        let field = SignalField { signal: copy_vec(&ps[f].signal), default, alternatives };
        assert(field.alternatives.deep_view() =~= Seq::new(
            (all.len() - 1) as nat,
            |i: int| alternative_text(ps@, sig@, all[i + 1]),
        ));
        assert(field_view(field) == signal_field(*chip, ps@, ss[order@[m as int] as int]));
        let ghost fview = field_view(field);
        out.push(field);
        assert(field_views(out@) =~= before_out.push(fview));
        assert(field_views(out@) =~= Seq::new(
            (m + 1) as nat,
            |i: int| signal_field(*chip, ps@, ss[order@[i] as int]),
        ));
        m = m + 1;
    }
    assert(field_views(out@) =~= signal_fields(*chip, *b));
    out
}


// ---------------------------------------------------------------------
// Code template for a block
// ---------------------------------------------------------------------

/// The module of the HAL whose interrupt handlers a block of kind `kind`
/// binds; none for a block that needs no `bind_interrupts!` (SPI and the
/// timers work through DMA).
#[verifier::opaque]
pub open spec fn handler_module(kind: Seq<u8>) -> Option<Seq<u8>> {
    if kind == "usart".spec_bytes() {
        Some("usart".spec_bytes())
    } else if kind == "lpuart".spec_bytes() {
        Some("usart".spec_bytes())
    } else if kind == "i2c".spec_bytes() {
        Some("i2c".spec_bytes())
    } else if kind == "can".spec_bytes() {
        Some("can".spec_bytes())
    } else if kind == "otg".spec_bytes() {
        Some("usb".spec_bytes())
    } else if kind == "usb".spec_bytes() {
        Some("usb".spec_bytes())
    } else if kind == "rng".spec_bytes() {
        Some("rng".spec_bytes())
    } else if kind == "trng".spec_bytes() {
        Some("rng".spec_bytes())
    } else if kind == "sdmmc".spec_bytes() {
        Some("sdmmc".spec_bytes())
    } else if kind == "adc".spec_bytes() {
        Some("adc".spec_bytes())
    } else if kind == "dcmi".spec_bytes() {
        Some("dcmi".spec_bytes())
    } else if kind == "ltdc".spec_bytes() {
        Some("ltdc".spec_bytes())
    } else if kind == "quadspi".spec_bytes() {
        Some("qspi".spec_bytes())
    } else if kind == "hash".spec_bytes() {
        Some("hash".spec_bytes())
    } else if kind == "cryp".spec_bytes() {
        Some("cryp".spec_bytes())
    } else if kind == "aes".spec_bytes() {
        Some("aes".spec_bytes())
    } else if kind == "saes".spec_bytes() {
        Some("saes".spec_bytes())
    } else if kind == "pka".spec_bytes() {
        Some("pka".spec_bytes())
    } else if kind == "tsc".spec_bytes() {
        Some("tsc".spec_bytes())
    } else if kind == "ucpd".spec_bytes() {
        Some("ucpd".spec_bytes())
    } else if kind == "eth".spec_bytes() {
        Some("eth".spec_bytes())
    } else {
        None
    }
}

/// The handler type for the interrupt `signal` of a block of kind `kind`,
/// and whether it takes the block as a type parameter.
#[verifier::opaque]
pub open spec fn handler_of(kind: Seq<u8>, signal: Seq<u8>) -> Option<(Seq<u8>, bool)> {
    if kind == "usart".spec_bytes() || kind == "lpuart".spec_bytes() || kind == "otg".spec_bytes() || kind == "usb".spec_bytes() || kind == "rng".spec_bytes() || kind == "trng".spec_bytes() || kind == "sdmmc".spec_bytes() || kind == "adc".spec_bytes() || kind == "dcmi".spec_bytes() || kind == "ltdc".spec_bytes() || kind == "quadspi".spec_bytes() || kind == "hash".spec_bytes() || kind == "cryp".spec_bytes() || kind == "aes".spec_bytes() || kind == "saes".spec_bytes() || kind == "pka".spec_bytes() || kind == "tsc".spec_bytes() || kind == "ucpd".spec_bytes() {
        if signal == "GLOBAL".spec_bytes() {
            Some(("InterruptHandler".spec_bytes(), true))
        } else {
            None
        }
    } else if kind == "eth".spec_bytes() {
        if signal == "GLOBAL".spec_bytes() {
            Some(("InterruptHandler".spec_bytes(), false))
        } else {
            None
        }
    } else if kind == "i2c".spec_bytes() {
        if signal == "EV".spec_bytes() {
            Some(("EventInterruptHandler".spec_bytes(), true))
        } else if signal == "ER".spec_bytes() {
            Some(("ErrorInterruptHandler".spec_bytes(), true))
        } else {
            None
        }
    } else if kind == "can".spec_bytes() {
        if signal == "IT0".spec_bytes() {
            Some(("IT0InterruptHandler".spec_bytes(), true))
        } else if signal == "IT1".spec_bytes() {
            Some(("IT1InterruptHandler".spec_bytes(), true))
        } else if signal == "TX".spec_bytes() {
            Some(("TxInterruptHandler".spec_bytes(), true))
        } else if signal == "RX0".spec_bytes() {
            Some(("Rx0InterruptHandler".spec_bytes(), true))
        } else if signal == "RX1".spec_bytes() {
            Some(("Rx1InterruptHandler".spec_bytes(), true))
        } else if signal == "SCE".spec_bytes() {
            Some(("SceInterruptHandler".spec_bytes(), true))
        } else {
            None
        }
    } else {
        None
    }
}

fn handler_module_exec(kind: &[u8]) -> (r: Option<Vec<u8>>)
    ensures
        match r {
            Some(m) => handler_module(kind@) == Some(m@),
            None => handler_module(kind@) is None,
        },
{
    reveal(handler_module);
    if eq_bytes(kind, "usart".as_bytes()) {
        Some("usart".as_bytes_vec())
    } else if eq_bytes(kind, "lpuart".as_bytes()) {
        Some("usart".as_bytes_vec())
    } else if eq_bytes(kind, "i2c".as_bytes()) {
        Some("i2c".as_bytes_vec())
    } else if eq_bytes(kind, "can".as_bytes()) {
        Some("can".as_bytes_vec())
    } else if eq_bytes(kind, "otg".as_bytes()) {
        Some("usb".as_bytes_vec())
    } else if eq_bytes(kind, "usb".as_bytes()) {
        Some("usb".as_bytes_vec())
    } else if eq_bytes(kind, "rng".as_bytes()) {
        Some("rng".as_bytes_vec())
    } else if eq_bytes(kind, "trng".as_bytes()) {
        Some("rng".as_bytes_vec())
    } else if eq_bytes(kind, "sdmmc".as_bytes()) {
        Some("sdmmc".as_bytes_vec())
    } else if eq_bytes(kind, "adc".as_bytes()) {
        Some("adc".as_bytes_vec())
    } else if eq_bytes(kind, "dcmi".as_bytes()) {
        Some("dcmi".as_bytes_vec())
    } else if eq_bytes(kind, "ltdc".as_bytes()) {
        Some("ltdc".as_bytes_vec())
    } else if eq_bytes(kind, "quadspi".as_bytes()) {
        Some("qspi".as_bytes_vec())
    } else if eq_bytes(kind, "hash".as_bytes()) {
        Some("hash".as_bytes_vec())
    } else if eq_bytes(kind, "cryp".as_bytes()) {
        Some("cryp".as_bytes_vec())
    } else if eq_bytes(kind, "aes".as_bytes()) {
        Some("aes".as_bytes_vec())
    } else if eq_bytes(kind, "saes".as_bytes()) {
        Some("saes".as_bytes_vec())
    } else if eq_bytes(kind, "pka".as_bytes()) {
        Some("pka".as_bytes_vec())
    } else if eq_bytes(kind, "tsc".as_bytes()) {
        Some("tsc".as_bytes_vec())
    } else if eq_bytes(kind, "ucpd".as_bytes()) {
        Some("ucpd".as_bytes_vec())
    } else if eq_bytes(kind, "eth".as_bytes()) {
        Some("eth".as_bytes_vec())
    } else {
        None
    }
}

fn handler_of_exec(kind: &[u8], signal: &[u8]) -> (r: Option<(Vec<u8>, bool)>)
    ensures
        match r {
            Some((t, g)) => handler_of(kind@, signal@) == Some((t@, g)),
            None => handler_of(kind@, signal@) is None,
        },
{
    reveal(handler_of);
    if eq_bytes(kind, "usart".as_bytes()) || eq_bytes(kind, "lpuart".as_bytes()) || eq_bytes(kind, "otg".as_bytes()) || eq_bytes(kind, "usb".as_bytes()) || eq_bytes(kind, "rng".as_bytes()) || eq_bytes(kind, "trng".as_bytes()) || eq_bytes(kind, "sdmmc".as_bytes()) || eq_bytes(kind, "adc".as_bytes()) || eq_bytes(kind, "dcmi".as_bytes()) || eq_bytes(kind, "ltdc".as_bytes()) || eq_bytes(kind, "quadspi".as_bytes()) || eq_bytes(kind, "hash".as_bytes()) || eq_bytes(kind, "cryp".as_bytes()) || eq_bytes(kind, "aes".as_bytes()) || eq_bytes(kind, "saes".as_bytes()) || eq_bytes(kind, "pka".as_bytes()) || eq_bytes(kind, "tsc".as_bytes()) || eq_bytes(kind, "ucpd".as_bytes()) {
        if eq_bytes(signal, "GLOBAL".as_bytes()) {
            Some(("InterruptHandler".as_bytes_vec(), true))
        } else {
            None
        }
    } else if eq_bytes(kind, "eth".as_bytes()) {
        if eq_bytes(signal, "GLOBAL".as_bytes()) {
            Some(("InterruptHandler".as_bytes_vec(), false))
        } else {
            None
        }
    } else if eq_bytes(kind, "i2c".as_bytes()) {
        if eq_bytes(signal, "EV".as_bytes()) {
            Some(("EventInterruptHandler".as_bytes_vec(), true))
        } else if eq_bytes(signal, "ER".as_bytes()) {
            Some(("ErrorInterruptHandler".as_bytes_vec(), true))
        } else {
            None
        }
    } else if eq_bytes(kind, "can".as_bytes()) {
        if eq_bytes(signal, "IT0".as_bytes()) {
            Some(("IT0InterruptHandler".as_bytes_vec(), true))
        } else if eq_bytes(signal, "IT1".as_bytes()) {
            Some(("IT1InterruptHandler".as_bytes_vec(), true))
        } else if eq_bytes(signal, "TX".as_bytes()) {
            Some(("TxInterruptHandler".as_bytes_vec(), true))
        } else if eq_bytes(signal, "RX0".as_bytes()) {
            Some(("Rx0InterruptHandler".as_bytes_vec(), true))
        } else if eq_bytes(signal, "RX1".as_bytes()) {
            Some(("Rx1InterruptHandler".as_bytes_vec(), true))
        } else if eq_bytes(signal, "SCE".as_bytes()) {
            Some(("SceInterruptHandler".as_bytes_vec(), true))
        } else {
            None
        }
    } else {
        None
    }
}

/// One line of `bind_interrupts!`, or nothing for an interrupt that has no
/// handler in the HAL.
pub open spec fn binding_line(module: Seq<u8>, kind: Seq<u8>, irq: Interrupt, name: Seq<u8>) -> Seq<u8> {
    match handler_of(kind, irq.signal@) {
        None => Seq::empty(),
        Some((t, generic)) => "    ".spec_bytes() + irq.interrupt@ + " => ".spec_bytes() + module
            + "::".spec_bytes() + t + (if generic {
            "<peripherals::".spec_bytes() + name + ">".spec_bytes()
        } else {
            Seq::empty()
        }) + ";\n".spec_bytes(),
    }
}

/// The `bind_interrupts!` part of the template, or why there is none.
pub open spec fn binding_part(b: Block) -> Seq<u8> {
    match handler_module(b.kind@) {
        None => "// bind_interrupts! этому блоку не нужен (в embassy у него нет обработчика прерывания)\n".spec_bytes(),
        Some(module) => "// cross/app/src/main.rs — рядом с созданием периферии\nbind_interrupts!(struct Irqs {\n".spec_bytes()
            + concat(
            Seq::new(
                b.interrupts@.len(),
                |i: int| binding_line(module, b.kind@, b.interrupts@[i], b.name@),
            ),
        ) + "});\n".spec_bytes(),
    }
}

/// The widest field of the template: signal and pin together.
pub open spec fn field_width(fs: Seq<(Seq<u8>, Seq<u8>, Seq<Seq<u8>>)>) -> nat
    decreases fs.len(),
{
    if fs.len() == 0 {
        0
    } else {
        let m = field_width(fs.drop_last());
        let w = fs.last().0.len() + fs.last().1.len();
        if w > m {
            w
        } else {
            m
        }
    }
}

/// `n` spaces.
pub open spec fn spaces(n: nat) -> Seq<u8> {
    Seq::new(n, |i: int| 0x20u8)
}

/// The comment of a field: the warning for its pin and the other pins, in
/// a column.
pub open spec fn field_comment(chip: Chip, f: (Seq<u8>, Seq<u8>, Seq<Seq<u8>>), width: nat) -> Seq<u8> {
    let pad = spaces((width + 2 - (f.0.len() + f.1.len())) as nat);
    let others = joined(f.2, " ".spec_bytes());
    match pin_note_spec(chip, f.1) {
        None => if f.2.len() == 0 {
            Seq::empty()
        } else {
            pad + "// ещё: ".spec_bytes() + others
        },
        Some((_, n)) => if f.2.len() == 0 {
            pad + "// ! ".spec_bytes() + n
        } else {
            pad + "// ! ".spec_bytes() + n + "; ещё: ".spec_bytes() + others
        },
    }
}

/// The line of a field of the template.
pub open spec fn field_line(chip: Chip, f: (Seq<u8>, Seq<u8>, Seq<Seq<u8>>), width: nat) -> Seq<u8> {
    "        ".spec_bytes() + lower(f.0) + ": ".spec_bytes() + f.1 + ",".spec_bytes() + field_comment(
        chip,
        f,
        width,
    ) + "\n".spec_bytes()
}

/// The line that reminds of a DMA request of the block.
pub open spec fn dma_reminder(ch: DmaChannel) -> Seq<u8> {
    "        // DMA ".spec_bytes() + lower(ch.signal@) + ": ".spec_bytes() + dma_text(ch)
        + " — подставьте свободный канал\n".spec_bytes()
}

/// The head of the template, up to the field of the block itself.
pub open spec fn snippet_head(chip: Chip, b: Block) -> Seq<u8> {
    header_text(chip, Some(b.name@ + ": заготовка".spec_bytes()))
        + "// Подсказка: типы и доступность выводов проверит компилятор.\n\n".spec_bytes()
        + binding_part(b) + "\n// cross/bsp/src/resources.rs\nassign_resources! {\n".spec_bytes()
        + "    ".spec_bytes() + lower(b.name@) + ": ".spec_bytes() + camel(b.name@)
        + "Resources {\n".spec_bytes() + "        ".spec_bytes() + (if b.kind@.len() == 0 {
        b.name@
    } else {
        b.kind@
    }) + ": ".spec_bytes() + b.name@ + ",\n".spec_bytes()
}

/// The signal fields of the template, in a common column for comments.
pub open spec fn fields_part(chip: Chip, b: Block) -> Seq<u8> {
    let fs = signal_fields(chip, b);
    let width = field_width(fs);
    concat(Seq::new(fs.len(), |i: int| field_line(chip, fs[i], width)))
}

/// The reminders of the DMA requests of the block.
pub open spec fn reminders_part(b: Block) -> Seq<u8> {
    concat(Seq::new(b.dma_channels@.len(), |i: int| dma_reminder(b.dma_channels@[i])))
}

/// The code template for a block: `bind_interrupts!` with the handler types
/// of the HAL and the skeleton of `assign_resources!` with real pin names.
pub open spec fn snippet_text(chip: Chip, b: Block) -> Seq<u8> {
    snippet_head(chip, b) + fields_part(chip, b) + reminders_part(b) + "    }\n}\n".spec_bytes()
}

fn push_binding_part(out: &mut Vec<u8>, b: &Block)
    ensures
        final(out)@ == old(out)@ + binding_part(*b),
{
    let ghost start = out@;
    let module = match handler_module_exec(b.kind.as_slice()) {
        None => {
            push_all(out, "// bind_interrupts! этому блоку не нужен (в embassy у него нет обработчика прерывания)\n".as_bytes());
            return;
        },
        Some(m) => m,
    };
    push_all(out, "// cross/app/src/main.rs — рядом с созданием периферии\nbind_interrupts!(struct Irqs {\n".as_bytes());
    let ghost head = out@;
    let ghost lines = Seq::new(
        b.interrupts@.len(),
        |i: int| binding_line(module@, b.kind@, b.interrupts@[i], b.name@),
    );
    let mut i: usize = 0;
    while i < b.interrupts.len()
        invariant
            i <= b.interrupts@.len(),
            lines == Seq::new(
                b.interrupts@.len(),
                |i: int| binding_line(module@, b.kind@, b.interrupts@[i], b.name@),
            ),
            out@ == head + concat(lines.subrange(0, i as int)),
        decreases b.interrupts.len() - i,
    {
        let ghost before = out@;
        let irq = &b.interrupts[i];
        match handler_of_exec(b.kind.as_slice(), irq.signal.as_slice()) {
            None => {},
            Some((t, generic)) => {
                push_all(out, "    ".as_bytes());
                push_all(out, irq.interrupt.as_slice());
                push_all(out, " => ".as_bytes());
                push_all(out, module.as_slice());
                push_all(out, "::".as_bytes());
                push_all(out, t.as_slice());
                if generic {
                    push_all(out, "<peripherals::".as_bytes());
                    push_all(out, b.name.as_slice());
                    push_all(out, ">".as_bytes());
                }
                push_all(out, ";\n".as_bytes());
            },
        }
        assert(out@ =~= before + lines[i as int]);
        assert(lines.subrange(0, i + 1).drop_last() =~= lines.subrange(0, i as int));
        i = i + 1;
    }
    assert(lines.subrange(0, b.interrupts@.len() as int) =~= lines);
    push_all(out, "});\n".as_bytes());
    assert(out@ =~= start + binding_part(*b));
}

fn push_spaces(out: &mut Vec<u8>, n: u128)
    ensures
        final(out)@ == old(out)@ + spaces(n as nat),
{
    let ghost start = out@;
    let mut k: u128 = 0;
    while k < n
        invariant
            k <= n,
            out@ == start + spaces(k as nat),
        decreases n - k,
    {
        out.push(0x20);
        k = k + 1;
        assert(out@ =~= start + spaces(k as nat));
    }
}

fn push_field_comment(out: &mut Vec<u8>, chip: &Chip, f: &SignalField, width: u128)
    requires
        f.signal@.len() + f.default@.len() <= width,
        width <= 0x2_0000_0000_0000_0000,
    ensures
        final(out)@ == old(out)@ + field_comment(*chip, field_view(*f), width as nat),
{
    let ghost start = out@;
    let ghost fv = field_view(*f);
    let pad: u128 = width + 2 - (f.signal.len() as u128 + f.default.len() as u128);
    assert(pad == (width + 2 - (fv.0.len() + fv.1.len())) as nat);
    let note = pin_note(chip, f.default.as_slice());
    let has_others = f.alternatives.len() > 0;
    assert(has_others == (fv.2.len() > 0));
    match note {
        None => {
            if has_others {
                push_spaces(out, pad);
                push_all(out, "// ещё: ".as_bytes());
                push_joined(out, &f.alternatives, " ".as_bytes());
            }
            assert(out@ =~= start + field_comment(*chip, fv, width as nat));
        },
        Some((_, n)) => {
            push_spaces(out, pad);
            push_all(out, "// ! ".as_bytes());
            push_all(out, n.as_slice());
            if has_others {
                push_all(out, "; ещё: ".as_bytes());
                push_joined(out, &f.alternatives, " ".as_bytes());
            }
            assert(out@ =~= start + field_comment(*chip, fv, width as nat));
        },
    }
}

fn push_field_line(out: &mut Vec<u8>, chip: &Chip, f: &SignalField, width: u128)
    requires
        f.signal@.len() + f.default@.len() <= width,
        width <= 0x2_0000_0000_0000_0000,
    ensures
        final(out)@ == old(out)@ + field_line(*chip, field_view(*f), width as nat),
{
    let ghost start = out@;
    push_all(out, "        ".as_bytes());
    push_lower(out, f.signal.as_slice());
    push_all(out, ": ".as_bytes());
    push_all(out, f.default.as_slice());
    push_all(out, ",".as_bytes());
    push_field_comment(out, chip, f, width);
    push_all(out, "\n".as_bytes());
    assert(out@ =~= start + field_line(*chip, field_view(*f), width as nat));
}

#[verifier::spinoff_prover]
#[verifier::rlimit(30)]
fn push_snippet_head(out: &mut Vec<u8>, chip: &Chip, b: &Block)
    ensures
        final(out)@ == old(out)@ + snippet_head(*chip, *b),
{
    let ghost start = out@;
    let mut subject: Vec<u8> = Vec::new();
    push_all(&mut subject, b.name.as_slice());
    push_all(&mut subject, ": заготовка".as_bytes());
    push_header(out, chip, Some(subject.as_slice()));
    push_all(out, "// Подсказка: типы и доступность выводов проверит компилятор.\n\n".as_bytes());
    push_binding_part(out, b);
    push_all(out, "\n// cross/bsp/src/resources.rs\nassign_resources! {\n".as_bytes());
    push_all(out, "    ".as_bytes());
    push_lower(out, b.name.as_slice());
    push_all(out, ": ".as_bytes());
    let camel_name = camel_case(b.name.as_slice());
    push_all(out, camel_name.as_slice());
    push_all(out, "Resources {\n".as_bytes());
    push_all(out, "        ".as_bytes());
    push_all(out, kind_field(b.kind.as_slice(), b.name.as_slice()));
    push_all(out, ": ".as_bytes());
    push_all(out, b.name.as_slice());
    push_all(out, ",\n".as_bytes());
    assert(out@ =~= start + snippet_head(*chip, *b));
}

fn push_fields_part(out: &mut Vec<u8>, chip: &Chip, b: &Block)
    ensures
        final(out)@ == old(out)@ + fields_part(*chip, *b),
{
    let ghost fields_start = out@;
    let fields = signals(chip, b);
    let ghost fs = field_views(fields@);
    let mut width: u128 = 0;
    let mut k: usize = 0;
    while k < fields.len()
        invariant
            k <= fields@.len(),
            fs == field_views(fields@),
            width == field_width(fs.subrange(0, k as int)),
            width <= 0x2_0000_0000_0000_0000,
            forall|j: int| 0 <= j < k ==> #[trigger] fs[j].0.len() + fs[j].1.len() <= width,
        decreases fields.len() - k,
    {
        assert(fs.subrange(0, k + 1).drop_last() =~= fs.subrange(0, k as int));
        assert(fs[k as int] == field_view(fields@[k as int]));
        let w: u128 = fields[k].signal.len() as u128 + fields[k].default.len() as u128;
        if w > width {
            width = w;
        }
        k = k + 1;
    }
    assert(fs.subrange(0, fields@.len() as int) =~= fs);
    let ghost lines = Seq::new(fs.len(), |j: int| field_line(*chip, fs[j], width as nat));
    let mut j: usize = 0;
    while j < fields.len()
        invariant
            j <= fields@.len(),
            fs == field_views(fields@),
            lines == Seq::new(fs.len(), |j: int| field_line(*chip, fs[j], width as nat)),
            width <= 0x2_0000_0000_0000_0000,
            forall|l: int| 0 <= l < fs.len() ==> #[trigger] fs[l].0.len() + fs[l].1.len() <= width,
            out@ == fields_start + concat(lines.subrange(0, j as int)),
        decreases fields.len() - j,
    {
        assert(fs[j as int] == field_view(fields@[j as int]));
        assert(fs[j as int].0.len() + fs[j as int].1.len() <= width);
        push_field_line(out, chip, &fields[j], width);
        assert(lines.subrange(0, j + 1).drop_last() =~= lines.subrange(0, j as int));
        j = j + 1;
    }
    assert(lines.subrange(0, fs.len() as int) =~= lines);
}

fn push_reminders_part(out: &mut Vec<u8>, b: &Block)
    ensures
        final(out)@ == old(out)@ + reminders_part(*b),
{
    let ghost dma_start = out@;
    let ghost reminders = Seq::new(b.dma_channels@.len(), |i: int| dma_reminder(b.dma_channels@[i]));
    let mut d: usize = 0;
    while d < b.dma_channels.len()
        invariant
            d <= b.dma_channels@.len(),
            reminders == Seq::new(b.dma_channels@.len(), |i: int| dma_reminder(b.dma_channels@[i])),
            out@ == dma_start + concat(reminders.subrange(0, d as int)),
        decreases b.dma_channels.len() - d,
    {
        let ghost before = out@;
        let ch = &b.dma_channels[d];
        push_all(out, "        // DMA ".as_bytes());
        push_lower(out, ch.signal.as_slice());
        push_all(out, ": ".as_bytes());
        let text = format_dma(ch);
        push_all(out, text.as_slice());
        push_all(out, " — подставьте свободный канал\n".as_bytes());
        assert(out@ =~= before + reminders[d as int]);
        assert(reminders.subrange(0, d + 1).drop_last() =~= reminders.subrange(0, d as int));
        d = d + 1;
    }
    assert(reminders.subrange(0, b.dma_channels@.len() as int) =~= reminders);
}

/// The code template for the block `name`; a block that the chip does not
/// have is an error.
pub fn print_snippet(chip: &Chip, name: &[u8]) -> (r: Result<Vec<u8>, PinsError>)
    ensures
        match block_index(*chip, name@) {
            None => r matches Err(PinsError::UnknownBlock(n)) && n@ == name@,
            Some(i) => r matches Ok(t) && t@ == snippet_text(*chip, chip.blocks@[i]),
        },
{
    let i = match find_block(chip, name) {
        Some(i) => i,
        None => return Err(PinsError::UnknownBlock(crate::bytes::copy_range(name, 0, name.len()))),
    };
    let b = &chip.blocks[i];
    let mut out: Vec<u8> = Vec::new();
    push_snippet_head(&mut out, chip, b);
    push_fields_part(&mut out, chip, b);
    push_reminders_part(&mut out, b);
    push_all(&mut out, "    }\n}\n".as_bytes());
    assert(out@ =~= snippet_text(*chip, chip.blocks@[i as int]));
    Ok(out)
}

/// What an unanswered question is answered.
pub open spec fn pins_error_text(chip: Chip, e: PinsError) -> Seq<u8> {
    match e {
        PinsError::UnknownBlock(n) => "на ".spec_bytes() + chip.name@ + " нет блока ".spec_bytes() + n@
            + " — список: cargo xtask pins".spec_bytes(),
        PinsError::UnknownPin(n) => "вывода ".spec_bytes() + n@ + " нет в корпусе ".spec_bytes()
            + chip.name@ + " — метаданные пакетные, значит его нет и в типах embassy".spec_bytes(),
    }
}

/// The message for an unanswered question.
pub fn pins_error_message(chip: &Chip, e: &PinsError) -> (r: Vec<u8>)
    ensures
        r@ == pins_error_text(*chip, *e),
{
    let mut out: Vec<u8> = Vec::new();
    match e {
        PinsError::UnknownBlock(n) => {
            push_all(&mut out, "на ".as_bytes());
            push_all(&mut out, chip.name.as_slice());
            push_all(&mut out, " нет блока ".as_bytes());
            push_all(&mut out, n.as_slice());
            push_all(&mut out, " — список: cargo xtask pins".as_bytes());
        },
        PinsError::UnknownPin(n) => {
            push_all(&mut out, "вывода ".as_bytes());
            push_all(&mut out, n.as_slice());
            push_all(&mut out, " нет в корпусе ".as_bytes());
            push_all(&mut out, chip.name.as_slice());
            push_all(&mut out, " — метаданные пакетные, значит его нет и в типах embassy".as_bytes());
        },
    }
    assert(out@ =~= pins_error_text(*chip, *e));
    out
}


// ---------------------------------------------------------------------
// The check of the project's pin assignment
// ---------------------------------------------------------------------

/// The code of a line: what stands before its first `//`.
pub open spec fn code_part(line: Seq<u8>) -> Seq<u8> {
    match find_from(line, 0, "//".spec_bytes()) {
        Some(k) => line.subrange(0, k),
        None => line,
    }
}

/// Those of `ps` that the package of the chip has, in order.
pub open spec fn known_pins(chip: Chip, ps: Seq<Seq<u8>>) -> Seq<Seq<u8>>
    decreases ps.len(),
{
    if ps.len() == 0 {
        Seq::empty()
    } else {
        known_pins(chip, ps.drop_last()) + if has_pin(chip, ps.last()) {
            seq![ps.last()]
        } else {
            Seq::empty()
        }
    }
}

/// The pins that the code of the lines of `t` from `i` on names, with the
/// number of their line; the line at `i` has the number `number`.
pub open spec fn assigned_from(chip: Chip, t: Seq<u8>, i: int, number: int) -> Seq<(int, Seq<u8>)>
    decreases t.len() - i,
{
    if i < 0 || i >= t.len() {
        Seq::empty()
    } else {
        let e = line_end(t, i);
        let found = known_pins(chip, pins_from(code_part(t.subrange(i, content_end(t, i, e))), 0));
        let here = Seq::new(found.len(), |k: int| (number, found[k]));
        if e < i || e >= t.len() {
            here
        } else {
            here + assigned_from(chip, t, e + 1, number + 1)
        }
    }
}

/// How many of the assigned pins the debug port needs.
pub open spec fn conflicts_in(chip: Chip, used: Seq<(int, Seq<u8>)>) -> nat
    decreases used.len(),
{
    if used.len() == 0 {
        0
    } else {
        conflicts_in(chip, used.drop_last()) + if pin_note_spec(chip, used.last().1) matches Some(
            (Severity::Conflict, _),
        ) {
            1nat
        } else {
            0nat
        }
    }
}

/// The line of the report for an assigned pin, if something else holds it.
pub open spec fn used_line(chip: Chip, u: (int, Seq<u8>)) -> Seq<u8> {
    match pin_note_spec(chip, u.1) {
        None => Seq::empty(),
        Some((severity, note)) => (match severity {
            Severity::Conflict => "КОНФЛИКТ".spec_bytes(),
            Severity::Warning => "внимание".spec_bytes(),
        }) + ": ".spec_bytes() + u.1 + " (строка ".spec_bytes() + decimal(u.0 as nat)
            + ") — ".spec_bytes() + note + "\n".spec_bytes(),
    }
}

/// The report of the check.
pub open spec fn report_text(chip: Chip, path: Seq<u8>, used: Seq<(int, Seq<u8>)>) -> Seq<u8> {
    header_text(chip, Some("проверка распиновки".spec_bytes())) + "файл: ".spec_bytes() + path
        + "\n".spec_bytes() + if used.len() == 0 {
        "\nвыводов не назначено — распиновка ещё не заполнена\n".spec_bytes()
    } else {
        "назначено выводов: ".spec_bytes() + decimal(used.len()) + "\n\n".spec_bytes() + concat(
            Seq::new(used.len(), |k: int| used_line(chip, used[k])),
        ) + if conflicts_in(chip, used) == 0 {
            "отладочный порт не занят\n".spec_bytes()
        } else {
            Seq::empty()
        }
    }
}

/// What the check found: the report, and how many debug-port pins the
/// assignment takes; any such pin fails the check.
pub struct ResourceReport {
    pub text: Vec<u8>,
    pub conflicts: usize,
}

/// The assigned pins as plain values.
pub open spec fn used_view(u: Seq<(usize, Vec<u8>)>) -> Seq<(int, Seq<u8>)> {
    Seq::new(u.len(), |k: int| (u[k].0 as int, u[k].1@))
}

fn known_pins_exec(chip: &Chip, ps: Vec<Vec<u8>>) -> (r: Vec<Vec<u8>>)
    ensures
        r.deep_view() == known_pins(*chip, ps.deep_view()),
{
    let ghost pv = ps.deep_view();
    let mut out: Vec<Vec<u8>> = Vec::new();
    let mut k: usize = 0;
    while k < ps.len()
        invariant
            k <= ps@.len(),
            pv == ps.deep_view(),
            out.deep_view() == known_pins(*chip, pv.subrange(0, k as int)),
        decreases ps.len() - k,
    {
        let ghost before = out.deep_view();
        assert(pv.subrange(0, k + 1).drop_last() =~= pv.subrange(0, k as int));
        assert(pv.subrange(0, k + 1).last() == ps@[k as int]@);
        if chip_has_pin(chip, ps[k].as_slice()) {
            let p = copy_vec(&ps[k]);
            let ghost v = p@;
            out.push(p);
            assert(out.deep_view() =~~= before.push(v));
        }
        k = k + 1;
    }
    assert(pv.subrange(0, ps@.len() as int) =~= pv);
    out
}

/// The pins that the code of `text` assigns, with their line numbers from 1:
/// the names of pins of the package outside `//` comments.
pub fn assigned_pins(chip: &Chip, text: &[u8]) -> (r: Vec<(usize, Vec<u8>)>)
    ensures
        used_view(r@) == assigned_from(*chip, text@, 0, 1),
{
    let t_len: usize = text.len();
    let mut out: Vec<(usize, Vec<u8>)> = Vec::new();
    let mut done: usize = 0;
    let mut i: usize = 0;
    while i < t_len
        invariant
            i <= t_len,
            t_len == text@.len(),
            done <= i,
            assigned_from(*chip, text@, 0, 1) == used_view(out@) + assigned_from(
                *chip,
                text@,
                i as int,
                done + 1,
            ),
        decreases t_len - i,
    {
        let number = done + 1;
        let mut e: usize = i;
        while e < t_len && text[e] != 0x0A
            invariant
                i <= e <= t_len,
                t_len == text@.len(),
                line_end(text@, i as int) == line_end(text@, e as int),
            decreases t_len - e,
        {
            e = e + 1;
        }
        let c: usize = if e > i && e < t_len && text[e - 1] == 0x0D { e - 1 } else { e };
        let line = crate::bytes::copy_range(text, i, c);
        let code_end = match find(line.as_slice(), 0, "//".as_bytes()) {
            Some(k) => k,
            None => line.len(),
        };
        let code = crate::bytes::copy_range(line.as_slice(), 0, code_end);
        assert(code@ =~= code_part(line@));
        let found = known_pins_exec(chip, pins_in(code.as_slice()));
        let ghost fv = found.deep_view();
        let ghost before = used_view(out@);
        let mut k: usize = 0;
        while k < found.len()
            invariant
                k <= found@.len(),
                fv == found.deep_view(),
                used_view(out@) == before + Seq::new(k as nat, |j: int| (number as int, fv[j])),
            decreases found.len() - k,
        {
            assert(fv[k as int] == found@[k as int]@);
            let p = copy_vec(&found[k]);
            let ghost prev = used_view(out@);
            let ghost pv = p@;
            out.push((number, p));
            assert(used_view(out@) =~= prev.push((number as int, pv)));
            assert(used_view(out@) =~= before + Seq::new(
                (k + 1) as nat,
                |j: int| (number as int, fv[j]),
            ));
            k = k + 1;
        }
        assert(Seq::new(found@.len() as nat, |j: int| (number as int, fv[j])) =~= Seq::new(
            fv.len(),
            |j: int| (number as int, fv[j]),
        ));
        if e >= t_len {
            assert(used_view(out@) =~= before + assigned_from(*chip, text@, i as int, number as int));
            i = t_len;
            done = number;
            assert(assigned_from(*chip, text@, i as int, done + 1) =~= Seq::<(int, Seq<u8>)>::empty());
            assert(assigned_from(*chip, text@, 0, 1) =~= used_view(out@) + assigned_from(
                *chip,
                text@,
                i as int,
                done + 1,
            ));
        } else {
            assert(assigned_from(*chip, text@, 0, 1) =~= used_view(out@) + assigned_from(
                *chip,
                text@,
                e + 1,
                number + 1,
            ));
            i = e + 1;
            done = number;
        }
    }
    assert(assigned_from(*chip, text@, i as int, done + 1) =~= Seq::<(int, Seq<u8>)>::empty());
    assert(used_view(out@) =~= assigned_from(*chip, text@, 0, 1));
    out
}

/// Checks the pin assignment of the project, the text of its
/// `resources.rs` read from `path`, for what the compiler cannot see: a
/// taken debug port and the crystal pins.
pub fn check_resources(chip: &Chip, path: &[u8], text: &[u8]) -> (r: ResourceReport)
    ensures
        r.text@ == report_text(*chip, path@, assigned_from(*chip, text@, 0, 1)),
        r.conflicts == conflicts_in(*chip, assigned_from(*chip, text@, 0, 1)),
{
    let used = assigned_pins(chip, text);
    let ghost uv = used_view(used@);
    let mut out: Vec<u8> = Vec::new();
    push_header(&mut out, chip, Some("проверка распиновки".as_bytes()));
    push_all(&mut out, "файл: ".as_bytes());
    push_all(&mut out, path);
    push_all(&mut out, "\n".as_bytes());
    if used.len() == 0 {
        push_all(&mut out, "\nвыводов не назначено — распиновка ещё не заполнена\n".as_bytes());
        assert(out@ =~= report_text(*chip, path@, uv));
        return ResourceReport { text: out, conflicts: 0 };
    }
    push_all(&mut out, "назначено выводов: ".as_bytes());
    push_decimal(&mut out, used.len() as u64);
    push_all(&mut out, "\n\n".as_bytes());
    let ghost head = out@;
    let ghost lines = Seq::new(uv.len(), |k: int| used_line(*chip, uv[k]));
    let mut conflicts: usize = 0;
    let mut k: usize = 0;
    while k < used.len()
        invariant
            k <= used@.len(),
            uv == used_view(used@),
            lines == Seq::new(uv.len(), |k: int| used_line(*chip, uv[k])),
            conflicts == conflicts_in(*chip, uv.subrange(0, k as int)),
            conflicts <= k,
            out@ == head + concat(lines.subrange(0, k as int)),
        decreases used.len() - k,
    {
        let ghost before = out@;
        assert(uv.subrange(0, k + 1).drop_last() =~= uv.subrange(0, k as int));
        assert(uv[k as int] == (used@[k as int].0 as int, used@[k as int].1@));
        let pin = used[k].1.as_slice();
        match pin_note(chip, pin) {
            None => {},
            Some((severity, note)) => {
                match severity {
                    Severity::Conflict => {
                        conflicts = conflicts + 1;
                        push_all(&mut out, "КОНФЛИКТ".as_bytes());
                    },
                    Severity::Warning => {
                        push_all(&mut out, "внимание".as_bytes());
                    },
                }
                push_all(&mut out, ": ".as_bytes());
                push_all(&mut out, pin);
                push_all(&mut out, " (строка ".as_bytes());
                push_decimal(&mut out, used[k].0 as u64);
                push_all(&mut out, ") — ".as_bytes());
                push_all(&mut out, note.as_slice());
                push_all(&mut out, "\n".as_bytes());
            },
        }
        assert(out@ =~= before + lines[k as int]);
        assert(lines.subrange(0, k + 1).drop_last() =~= lines.subrange(0, k as int));
        k = k + 1;
    }
    assert(lines.subrange(0, uv.len() as int) =~= lines);
    assert(uv.subrange(0, uv.len() as int) =~= uv);
    if conflicts == 0 {
        push_all(&mut out, "отладочный порт не занят\n".as_bytes());
    }
    assert(out@ =~= report_text(*chip, path@, uv));
    ResourceReport { text: out, conflicts }
}

/// Why the check fails: how many debug-port pins are taken, and how to
/// get the board back.
pub open spec fn conflicts_text(conflicts: nat) -> Seq<u8> {
    "занято выводов отладочного порта: ".spec_bytes() + decimal(conflicts)
        + " — после прошивки плата перестанет отвечать пробнику, вытаскивать придётся через `probe-rs erase --connect-under-reset`".spec_bytes()
}

/// Why the check fails.
pub fn conflicts_message(conflicts: usize) -> (r: Vec<u8>)
    ensures
        r@ == conflicts_text(conflicts as nat),
{
    let mut out: Vec<u8> = Vec::new();
    push_all(&mut out, "занято выводов отладочного порта: ".as_bytes());
    push_decimal(&mut out, conflicts as u64);
    push_all(&mut out, " — после прошивки плата перестанет отвечать пробнику, вытаскивать придётся через `probe-rs erase --connect-under-reset`".as_bytes());
    out
}

/// Whether the manifest of the firmware still names the chip feature that
/// the reference was built for, as a quoted string.
pub fn names_chip_feature(manifest: &[u8], feature: &[u8]) -> (r: bool)
    ensures
        r == contains_seq(manifest@, "\"".spec_bytes() + feature@ + "\"".spec_bytes()),
{
    let mut quoted: Vec<u8> = Vec::new();
    push_all(&mut quoted, "\"".as_bytes());
    push_all(&mut quoted, feature);
    push_all(&mut quoted, "\"".as_bytes());
    contains(manifest, quoted.as_slice())
}


// ---------------------------------------------------------------------
// The command line of the reference
// ---------------------------------------------------------------------

/// What the reference is asked.
#[derive(Debug, PartialEq, Eq)]
pub enum PinsRequest {
    /// The blocks that have pins.
    List,
    /// A block or a pin.
    Describe(Vec<u8>),
    /// The code template for a block.
    Snippet(Vec<u8>),
    /// The check of the project's pin assignment.
    Check,
}

/// Why the command line of the reference is refused.
#[derive(Debug, PartialEq, Eq)]
pub enum PinsArgsError {
    /// A flag the reference does not know.
    UnknownFlag(Vec<u8>),
    /// A second block or pin.
    Extra(Vec<u8>),
    /// `--check` together with a block or `--snippet`.
    CheckAlone,
    /// `--snippet` without a block.
    SnippetNeedsBlock,
}

/// Where reading the arguments stands: the block or pin asked about, and
/// the two flags so far; or the argument that stopped it.
pub enum ArgsScan {
    Going(Option<Seq<u8>>, bool, bool),
    Flag(Seq<u8>),
    Extra(Seq<u8>),
}

/// The first `n` arguments read in turn. An empty argument, which an editor
/// task sends for an empty answer, is passed over.
pub open spec fn scan_args(args: Seq<Seq<u8>>, n: int) -> ArgsScan
    decreases n,
{
    if n <= 0 || n > args.len() {
        ArgsScan::Going(None, false, false)
    } else {
        match scan_args(args, n - 1) {
            ArgsScan::Going(q, snippet, check) => {
                let a = args[n - 1];
                if a == "--snippet".spec_bytes() {
                    ArgsScan::Going(q, true, check)
                } else if a == "--check".spec_bytes() {
                    ArgsScan::Going(q, snippet, true)
                } else if a.len() == 0 {
                    ArgsScan::Going(q, snippet, check)
                } else if starts_with(a, "--".spec_bytes()) {
                    ArgsScan::Flag(a)
                } else if q is None {
                    ArgsScan::Going(Some(a), snippet, check)
                } else {
                    ArgsScan::Extra(a)
                }
            },
            other => other,
        }
    }
}

/// What the arguments ask, or why they are refused.
pub open spec fn request_ok(args: Seq<Seq<u8>>, r: Result<PinsRequest, PinsArgsError>) -> bool {
    match scan_args(args, args.len() as int) {
        ArgsScan::Flag(a) => r matches Err(PinsArgsError::UnknownFlag(f)) && f@ == a,
        ArgsScan::Extra(a) => r matches Err(PinsArgsError::Extra(f)) && f@ == a,
        ArgsScan::Going(q, snippet, check) => if check {
            if q is None && !snippet {
                r matches Ok(PinsRequest::Check)
            } else {
                r matches Err(PinsArgsError::CheckAlone)
            }
        } else {
            match q {
                None => if snippet {
                    r matches Err(PinsArgsError::SnippetNeedsBlock)
                } else {
                    r matches Ok(PinsRequest::List)
                },
                Some(x) => if snippet {
                    r matches Ok(PinsRequest::Snippet(y)) && y@ == x
                } else {
                    r matches Ok(PinsRequest::Describe(y)) && y@ == x
                },
            }
        },
    }
}

/// Reads the arguments of the reference: at most one block or pin,
/// `--snippet` for the code template of a block, `--check` alone for the
/// check of the project's pin assignment.
pub fn pins_request(args: &Vec<Vec<u8>>) -> (r: Result<PinsRequest, PinsArgsError>)
    ensures
        request_ok(args.deep_view(), r),
{
    let ghost av = args.deep_view();
    let mut query: Option<Vec<u8>> = None;
    let mut snippet = false;
    let mut check = false;
    let mut k: usize = 0;
    while k < args.len()
        invariant
            k <= args@.len(),
            av == args.deep_view(),
            scan_args(av, k as int) == ArgsScan::Going(
                match query {
                    Some(q) => Some(q@),
                    None => None,
                },
                snippet,
                check,
            ),
        decreases args.len() - k,
    {
        let a = args[k].as_slice();
        assert(av[k as int] == a@);
        if eq_bytes(a, "--snippet".as_bytes()) {
            snippet = true;
        } else if eq_bytes(a, "--check".as_bytes()) {
            check = true;
        } else if a.len() == 0 {
        } else if starts_with_exec(a, "--".as_bytes()) {
            let ghost rest = scan_args(av, k + 1);
            proof {
                lemma_scan_stops(av, k + 1, av.len() as int);
            }
            return Err(PinsArgsError::UnknownFlag(copy_vec(&args[k])));
        } else if query.is_none() {
            query = Some(copy_vec(&args[k]));
        } else {
            proof {
                lemma_scan_stops(av, k + 1, av.len() as int);
            }
            return Err(PinsArgsError::Extra(copy_vec(&args[k])));
        }
        k = k + 1;
    }
    assert(av.len() == args@.len());
    if check {
        if query.is_none() && !snippet {
            return Ok(PinsRequest::Check);
        }
        return Err(PinsArgsError::CheckAlone);
    }
    match query {
        None => if snippet {
            Err(PinsArgsError::SnippetNeedsBlock)
        } else {
            Ok(PinsRequest::List)
        },
        Some(q) => if snippet {
            Ok(PinsRequest::Snippet(q))
        } else {
            Ok(PinsRequest::Describe(q))
        },
    }
}

/// Once reading the arguments stops, later arguments change nothing.
proof fn lemma_scan_stops(args: Seq<Seq<u8>>, k: int, n: int)
    requires
        0 < k <= n <= args.len(),
        !(scan_args(args, k) is Going),
    ensures
        scan_args(args, n) == scan_args(args, k),
    decreases n - k,
{
    if n > k {
        lemma_scan_stops(args, k, n - 1);
    }
}

/// The message for a refused command line.
pub open spec fn args_error_text(e: PinsArgsError) -> Seq<u8> {
    match e {
        PinsArgsError::UnknownFlag(f) => "неизвестный ключ ".spec_bytes() + f@
            + "; есть только --snippet (заготовка кода под блок) и --check (проверить занятые в resources.rs выводы)".spec_bytes(),
        PinsArgsError::Extra(a) => "лишний аргумент ".spec_bytes() + a@
            + ": блок или вывод указывается один".spec_bytes(),
        PinsArgsError::CheckAlone => "--check работает сам по себе: он смотрит не на один блок, а на всю распиновку в cross/bsp/src/resources.rs".spec_bytes(),
        PinsArgsError::SnippetNeedsBlock => "--snippet нужен блок: cargo xtask pins USART1 --snippet".spec_bytes(),
    }
}

/// The message for a refused command line.
pub fn args_error_message(e: &PinsArgsError) -> (r: Vec<u8>)
    ensures
        r@ == args_error_text(*e),
{
    let mut out: Vec<u8> = Vec::new();
    match e {
        PinsArgsError::UnknownFlag(f) => {
            push_all(&mut out, "неизвестный ключ ".as_bytes());
            push_all(&mut out, f.as_slice());
            push_all(&mut out, "; есть только --snippet (заготовка кода под блок) и --check (проверить занятые в resources.rs выводы)".as_bytes());
        },
        PinsArgsError::Extra(a) => {
            push_all(&mut out, "лишний аргумент ".as_bytes());
            push_all(&mut out, a.as_slice());
            push_all(&mut out, ": блок или вывод указывается один".as_bytes());
        },
        PinsArgsError::CheckAlone => {
            push_all(&mut out, "--check работает сам по себе: он смотрит не на один блок, а на всю распиновку в cross/bsp/src/resources.rs".as_bytes());
        },
        PinsArgsError::SnippetNeedsBlock => {
            push_all(&mut out, "--snippet нужен блок: cargo xtask pins USART1 --snippet".as_bytes());
        },
    }
    assert(out@ =~= args_error_text(*e));
    out
}

/// The answer for one block or pin, told apart by the form of the name, in
/// upper case: `PA9` cannot be a block nor `SPI1` a pin.
pub fn describe(chip: &Chip, query: &[u8]) -> (r: Result<Vec<u8>, PinsError>)
    requires
        !is_pin_name(query@) ==> block_pin_keys_defined(*chip, query@),
    ensures
        is_pin_name(query@) ==> (if has_pin(*chip, query@) {
            r matches Ok(t) && t@ == pin_text(*chip, query@)
        } else {
            r matches Err(PinsError::UnknownPin(n)) && n@ == query@
        }),
        !is_pin_name(query@) ==> match block_index(*chip, query@) {
            None => r matches Err(PinsError::UnknownBlock(n)) && n@ == query@,
            Some(i) => r matches Ok(t) && t@ == block_text(*chip, chip.blocks@[i]),
        },
{
    if looks_like_pin(query) {
        describe_pin(chip, query)
    } else {
        describe_peripheral(chip, query)
    }
}


// ---------------------------------------------------------------------
// Laws
// ---------------------------------------------------------------------

/// Only the two pins the probe itself holds are conflicts: `PA13` and
/// `PA14`. Every other warning, the JTAG pins, the crystals and the clock
/// output, depends on the board.
pub proof fn lemma_conflict_pins(chip: Chip, pin: Seq<u8>)
    ensures
        (pin_note_spec(chip, pin) matches Some((Severity::Conflict, _))) <==> (pin
            == "PA13".spec_bytes() || pin == "PA14".spec_bytes()),
{
    reveal(pin_note_spec);
}

/// The check of the pin assignment fails exactly when the assignment takes
/// a pin of the debug port, `PA13` or `PA14`; crystals, the clock output
/// and the JTAG-only pins are only warned about.
pub proof fn lemma_check_fails_only_on_the_debug_port(chip: Chip, used: Seq<(int, Seq<u8>)>)
    ensures
        conflicts_in(chip, used) > 0 <==> exists|k: int|
            0 <= k < used.len() && (used[k].1 == "PA13".spec_bytes() || used[k].1
                == "PA14".spec_bytes()),
    decreases used.len(),
{
    if used.len() > 0 {
        let rest = used.drop_last();
        lemma_check_fails_only_on_the_debug_port(chip, rest);
        lemma_conflict_pins(chip, used.last().1);
        if conflicts_in(chip, rest) > 0 {
            let k = choose|k: int|
                0 <= k < rest.len() && (rest[k].1 == "PA13".spec_bytes() || rest[k].1
                    == "PA14".spec_bytes());
            assert(used[k] == rest[k]);
        }
        if exists|k: int|
            0 <= k < used.len() && (used[k].1 == "PA13".spec_bytes() || used[k].1
                == "PA14".spec_bytes()) {
            let k = choose|k: int|
                0 <= k < used.len() && (used[k].1 == "PA13".spec_bytes() || used[k].1
                    == "PA14".spec_bytes());
            if k < used.len() - 1 {
                assert(rest[k] == used[k]);
            }
        }
    }
}

proof fn lemma_signal_pins_noted(chip: Chip, ps: Seq<PinFunction>, sig: Seq<u8>, noted: bool, n: int, k: int)
    requires
        0 <= k < signal_pins(chip, ps, sig, noted, n).len(),
    ensures
        (pin_note_spec(chip, signal_pins(chip, ps, sig, noted, n)[k]) is Some) == noted,
    decreases n,
{
    if 0 < n <= ps.len() {
        let before = signal_pins(chip, ps, sig, noted, n - 1);
        if k < before.len() {
            lemma_signal_pins_noted(chip, ps, sig, noted, n - 1, k);
        }
    }
}

/// The first choice of the code template for a signal is a pin that
/// neither the debug port nor a crystal holds, wherever the block has one
/// for that signal.
pub proof fn lemma_template_prefers_a_free_pin(chip: Chip, ps: Seq<PinFunction>, sig: Seq<u8>, f: int)
    requires
        0 <= f < ps.len(),
        ps[f].signal@ == sig,
        pin_note_spec(chip, ps[f].pin@) is None,
    ensures
        pin_note_spec(chip, signal_field(chip, ps, sig).1) is None,
{
    lemma_signal_pins_nonempty(chip, ps, sig, false, ps.len() as int, f);
    let free = signal_pins(chip, ps, sig, false, ps.len() as int);
    let all = signal_choices(chip, ps, sig);
    assert(all[0] == free[0]);
    lemma_signal_pins_noted(chip, ps, sig, false, ps.len() as int, 0);
}


proof fn lemma_key_le_total(
    a: (Seq<u8>, u32, u32, Seq<u8>, Seq<u8>),
    b: (Seq<u8>, u32, u32, Seq<u8>, Seq<u8>),
)
    ensures
        key_le(a, b) || key_le(b, a),
{
    crate::templatecheck::lemma_bytes_le_total(a.0, b.0);
    crate::templatecheck::lemma_bytes_le_total(a.3, b.3);
    crate::templatecheck::lemma_bytes_le_total(a.4, b.4);
}

proof fn lemma_bytes_lt_chain(a: Seq<u8>, b: Seq<u8>, c: Seq<u8>)
    ensures
        bytes_le(a, b) && bytes_le(b, c) ==> bytes_le(a, c),
        bytes_lt(a, b) && bytes_le(b, c) ==> bytes_lt(a, c),
        bytes_le(a, b) && bytes_lt(b, c) ==> bytes_lt(a, c),
{
    if bytes_le(a, b) && bytes_le(b, c) {
        crate::templatecheck::lemma_bytes_le_transitive(a, b, c);
        if a == c {
            crate::templatecheck::lemma_bytes_le_antisymmetric(a, b);
        }
    }
}

proof fn lemma_key_le_transitive(
    a: (Seq<u8>, u32, u32, Seq<u8>, Seq<u8>),
    b: (Seq<u8>, u32, u32, Seq<u8>, Seq<u8>),
    c: (Seq<u8>, u32, u32, Seq<u8>, Seq<u8>),
)
    requires
        key_le(a, b),
        key_le(b, c),
    ensures
        key_le(a, c),
{
    lemma_bytes_lt_chain(a.0, b.0, c.0);
    lemma_bytes_lt_chain(a.3, b.3, c.3);
    lemma_bytes_lt_chain(a.4, b.4, c.4);
}

/// Every list of the reference comes in the order of its keys — pins by
/// port, number and suffix (so `PA9` before `PA10`), blocks by name and
/// number (so `TIM2` before `TIM10`), signals by name — and holds each
/// entry exactly once.
pub proof fn lemma_lists_follow_their_keys(ks: Seq<(Seq<u8>, u32, u32, Seq<u8>, Seq<u8>)>)
    ensures
        crate::memlayout::ordered_by(key_order(ks), by_keys(ks)),
        key_order(ks).to_multiset() == positions(ks.len()).to_multiset(),
        forall|i: int, j: int|
            0 <= i < j < key_order(ks).len() ==> key_le(
                ks[#[trigger] key_order(ks)[i] as int],
                ks[#[trigger] key_order(ks)[j] as int],
            ),
{
    let le = by_keys(ks);
    assert forall|a: usize, b: usize| #[trigger] le(a, b) || le(b, a) by {
        lemma_key_le_total(ks[a as int], ks[b as int]);
    }
    assert forall|a: usize, b: usize, c: usize| #[trigger] le(a, b) && #[trigger] le(b, c) implies le(
        a,
        c,
    ) by {
        lemma_key_le_transitive(ks[a as int], ks[b as int], ks[c as int]);
    }
    crate::memlayout::lemma_sorted_by_sorts(positions(ks.len()), le);
    let o = key_order(ks);
    assert forall|i: int, j: int| 0 <= i < j < o.len() implies key_le(
        ks[#[trigger] o[i] as int],
        ks[#[trigger] o[j] as int],
    ) by {
        assert(le(o[i], o[j]));
    }
}

} // verus!
