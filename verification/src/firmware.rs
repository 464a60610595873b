//! Firmware version of an image and the rule for accepting an update.

use vstd::prelude::*;

verus! {

/// How many bytes at the end of an image hold its version.
pub const VERSION_BYTES: u32 = 4;

/// The packed number of version `major.minor.patch`.
pub open spec fn packed(major: u8, minor: u8, patch: u8) -> int {
    major * 65536 + minor * 256 + patch
}

/// Packs a version into one number whose natural order is the order of
/// versions: major first, then minor, then patch.
pub fn pack(major: u8, minor: u8, patch: u8) -> (v: u32)
    ensures
        v == packed(major, minor, patch),
{
    (major as u32) * 65536 + (minor as u32) * 256 + (patch as u32)
}

/// An incoming image is an upgrade only when it is strictly newer: the same
/// version again is refused as well.
pub fn is_upgrade(current: u32, incoming: u32) -> (r: bool)
    ensures
        r == (incoming > current),
{
    incoming > current
}

} // verus!
