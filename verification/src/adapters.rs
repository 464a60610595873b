//! The rules inside the board adapters: the LM75 temperature reading, when
//! the update partition may be prepared and how much of it is erased, when it
//! holds an image that must not be lost, and the image channel of a board
//! without a transport.

use vstd::prelude::*;

verus! {

/// Address of an LM75 with all three address pins on ground.
pub const DEFAULT_ADDRESS: u8 = 0x48;

/// The temperature register, also the one selected after power-up.
pub const TEMPERATURE_REGISTER: u8 = 0x00;

/// What one step of the reading is worth: half a degree.
pub const MILLICELSIUS_PER_TICK: i32 = 500;

/// An LM75 temperature sensor on a bus.
pub struct Lm75<I2C> {
    pub i2c: I2C,
    pub address: u8,
}

impl<I2C> Lm75<I2C> {
    /// The sensor at `address` on `i2c`.
    pub fn new(i2c: I2C, address: u8) -> (r: Self)
        ensures
            r.i2c == i2c,
            r.address == address,
    {
        Lm75 { i2c, address }
    }
}

/// The byte `b` read as a two's complement number.
pub open spec fn signed_byte(b: u8) -> int {
    if b >= 128 { b - 256 } else { b as int }
}

/// The temperature in thousandths of a degree that the two bytes of the
/// register give: nine significant bits at the top of a big-endian 16-bit
/// two's complement word, half a degree each.
pub open spec fn millicelsius(raw: [u8; 2]) -> int {
    ((signed_byte(raw[0]) * 256 + raw[1]) / 128) * 500
}

/// The temperature the register bytes `raw` hold, in thousandths of a
/// degree.
pub fn millicelsius_from_raw(raw: [u8; 2]) -> (r: i32)
    ensures
        r == millicelsius(raw),
{
    let hi: i32 = if raw[0] >= 128 { raw[0] as i32 - 256 } else { raw[0] as i32 };
    let lo: i32 = raw[1] as i32;
    let ticks: i32 = hi * 2 + lo / 128;
    assert((hi * 256 + lo) / 128 == hi * 2 + lo / 128) by (nonlinear_arith)
        requires
            -128 <= hi <= 127,
            0 <= lo <= 255,
    ;
    ticks * MILLICELSIUS_PER_TICK
}

/// What the bootloader's state says of the update partition.
#[derive(Clone, Copy, Debug, PartialEq, Eq, Structural)]
pub enum BootState {
    /// The running image is confirmed.
    Boot,
    /// A swap is requested.
    Swap,
    /// The running image is new and not confirmed: the partition holds the
    /// image to roll back to.
    Revert,
    /// A confirmed image after a rollback.
    DfuDetach,
}

/// Whether the update partition holds what must not be lost: an image that
/// is to be swapped in, or the image to roll back to.
pub fn dfu_is_busy(state: BootState) -> (r: bool)
    ensures
        r == (state == BootState::Swap || state == BootState::Revert),
{
    match state {
        BootState::Swap | BootState::Revert => true,
        _ => false,
    }
}

/// Why the partition was not prepared.
#[derive(Clone, Copy, Debug, PartialEq, Eq, Structural)]
pub enum PrepareRefusal {
    /// The partition holds an image that must not be lost.
    BadState,
    /// The length is zero or beyond what the device can run.
    OutOfBounds,
}

/// How many bytes from the start of the partition are erased for an image of
/// `len` bytes: whole pages, at most the largest multiple of the page that
/// fits 32 bits.
pub open spec fn erase_end(len: u32, page: u32) -> int {
    let pages = (len + page - 1) / (page as int);
    if pages * page <= u32::MAX { pages * page } else { u32::MAX as int }
}

/// What preparing the partition for an image of `len` bytes does: refuse a
/// busy partition, then a length that is zero or above `capacity`, both
/// before erasing anything; else erase the pages the image needs.
pub fn prepare_plan(busy: bool, len: u32, capacity: u32, page: u32) -> (r: Result<u32, PrepareRefusal>)
    requires
        page > 0,
    ensures
        r == (if busy {
            Err(PrepareRefusal::BadState)
        } else if len == 0 || len > capacity {
            Err(PrepareRefusal::OutOfBounds)
        } else {
            Ok(erase_end(len, page) as u32)
        }),
{
    if busy {
        return Err(PrepareRefusal::BadState);
    }
    if len == 0 || len > capacity {
        return Err(PrepareRefusal::OutOfBounds);
    }
    let pages: u64 = (len as u64 + page as u64 - 1) / page as u64;
    assert(pages * page <= (u32::MAX as int + u32::MAX as int) * 1) by (nonlinear_arith)
        requires
            pages == (len + page - 1) / (page as int),
            page > 0,
            len <= u32::MAX,
            page <= u32::MAX,
    ;
    let total: u64 = pages * page as u64;
    if total <= 0xFFFF_FFFF {
        Ok(total as u32)
    } else {
        Ok(0xFFFF_FFFF)
    }
}

/// The image channel of a board that has no transport yet: it never
/// announces an image.
#[derive(Clone, Copy, Debug)]
pub struct Link;

} // verus!
