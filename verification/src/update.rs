//! Applying a signed update: the order of checks, in which every refusal is
//! told apart.
//!
//! 1. The length first: it comes from the untrusted channel, and the
//!    bootloader library asserts on it.
//! 2. A busy partition before the version: it then holds the previous image,
//!    whose version is older, and "rollback" would lie about the cause.
//! 3. The version before the signature: after a successful check the
//!    partitions are already marked for a swap.
//! 4. The version before the key, so that an older image is refused even
//!    without a key.
//! 5. An all-zero key before any cryptography.

use vstd::prelude::*;
use crate::firmware::{is_upgrade, VERSION_BYTES};
use crate::ports::{
    calls_since, extends, FlashCall, Recorded, SignedFirmwareUpdate, UpdateError, VerifyError,
};

verus! {

/// Little-endian number of four bytes.
pub open spec fn le_u32(b: Seq<u8>) -> int {
    b[0] + b[1] * 256 + b[2] * 65536 + b[3] * 16777216
}

/// Whether all bytes of a key are zero.
pub open spec fn all_zero(key: Seq<u8>) -> bool {
    forall|i: int| 0 <= i < key.len() ==> key[i] == 0
}

/// The verdict on an update, given what the partition reported: its
/// capacity, whether it is busy, the version in the image's tail, the running
/// version and the public key.
pub open spec fn update_verdict<E>(
    len: u32,
    capacity: u32,
    busy: bool,
    incoming: u32,
    current: u32,
    key: Seq<u8>,
) -> Result<(), UpdateError<E>> {
    if len > capacity {
        Err(UpdateError::TooLong { len, capacity })
    } else if busy {
        Err(UpdateError::Busy)
    } else if len < VERSION_BYTES {
        Err(UpdateError::Truncated { len })
    } else if incoming <= current {
        Err(UpdateError::Rollback { current, incoming })
    } else if all_zero(key) {
        Err(UpdateError::NoPublicKey)
    } else {
        Ok(())
    }
}

fn key_is_zero(key: &[u8; 32]) -> (r: bool)
    ensures
        r == all_zero(key@),
{
    let mut i: usize = 0;
    while i < 32
        invariant
            0 <= i <= 32,
            key@.len() == 32,
            forall|j: int| 0 <= j < i ==> key@[j] == 0,
        decreases 32 - i,
    {
        if key[i] != 0 {
            return false;
        }
        i = i + 1;
    }
    true
}

/// Reads the version from the four bytes at the end of an image.
pub fn version_from_tail(raw: &[u8]) -> (v: u32)
    requires
        raw@.len() == 4,
    ensures
        v == le_u32(raw@),
{
    (raw[0] as u32) + (raw[1] as u32) * 256 + (raw[2] as u32) * 65536 + (raw[3] as u32) * 16777216
}

/// The checks before the signature, on the values the partition reported;
/// `Ok` means the signature is to be checked next.
pub fn judge_update<E>(
    len: u32,
    capacity: u32,
    busy: bool,
    incoming: u32,
    current: u32,
    key: &[u8; 32],
) -> (r: Result<(), UpdateError<E>>)
    ensures
        r == update_verdict::<E>(len, capacity, busy, incoming, current, key@),
{
    if len > capacity {
        return Err(UpdateError::TooLong { len, capacity });
    }
    if busy {
        return Err(UpdateError::Busy);
    }
    if len < VERSION_BYTES {
        return Err(UpdateError::Truncated { len });
    }
    if !is_upgrade(current, incoming) {
        return Err(UpdateError::Rollback { current, incoming });
    }
    if key_is_zero(key) {
        return Err(UpdateError::NoPublicKey);
    }
    Ok(())
}

/// What the bootloader's signature check answered, as the update's result.
pub open spec fn verify_verdict<E>(answer: Result<(), VerifyError<E>>) -> Result<(), UpdateError<E>> {
    match answer {
        Ok(()) => Ok(()),
        Err(VerifyError::BadSignature) => Err(UpdateError::BadSignature),
        Err(VerifyError::Flash(e)) => Err(UpdateError::Flash(e)),
    }
}

/// The checks once the capacity is known and the partition is not busy: the
/// version is read from the last four bytes of the image, the running
/// version and the key are asked, [`update_verdict`] judges, and only an
/// image that passes goes to the bootloader's check, with `signature` and
/// its own length.
pub open spec fn signed_tail_outcome<E>(
    len: u32,
    capacity: u32,
    signature: Seq<u8>,
    calls: Seq<FlashCall<E>>,
) -> Option<Result<(), UpdateError<E>>> {
    if len < VERSION_BYTES {
        if calls.len() == 0 { Some(Err(UpdateError::Truncated { len })) } else { None }
    } else if calls.len() == 0 {
        None
    } else {
        match calls[0] {
            FlashCall::Read(offset, raw, answer) => if offset != len - VERSION_BYTES || raw.len() != 4 {
                None
            } else {
                match answer {
                    Err(e) => if calls.len() == 1 { Some(Err(UpdateError::Flash(e))) } else { None },
                    Ok(()) => if calls.len() < 3 {
                        None
                    } else {
                        match (calls[1], calls[2]) {
                            (FlashCall::RunningVersion(current), FlashCall::PublicKey(key)) => match update_verdict::<E>(
                                len,
                                capacity,
                                false,
                                le_u32(raw) as u32,
                                current,
                                key,
                            ) {
                                Err(refusal) => if calls.len() == 3 { Some(Err(refusal)) } else { None },
                                Ok(()) => if calls.len() != 4 {
                                    None
                                } else {
                                    match calls[3] {
                                        FlashCall::VerifyAndMarkUpdated(s, l, v) => if s == signature && l == len {
                                            Some(verify_verdict(v))
                                        } else {
                                            None
                                        },
                                        _ => None,
                                    }
                                },
                            },
                            _ => None,
                        }
                    },
                }
            },
            _ => None,
        }
    }
}

/// What applying a signed image of `len` bytes gives, from the calls made on
/// the partition, in order: the capacity (a longer image is refused at
/// once), whether the partition is busy (a busy one is refused at once), then
/// [`signed_tail_outcome`]. A flash error ends it, passed through as it came.
pub open spec fn signed_outcome<E>(len: u32, signature: Seq<u8>, calls: Seq<FlashCall<E>>) -> Option<
    Result<(), UpdateError<E>>,
> {
    if calls.len() == 0 {
        None
    } else {
        match calls[0] {
            FlashCall::Capacity(Err(e)) => if calls.len() == 1 {
                Some(Err(UpdateError::Flash(e)))
            } else {
                None
            },
            FlashCall::Capacity(Ok(capacity)) => if len > capacity {
                if calls.len() == 1 { Some(Err(UpdateError::TooLong { len, capacity })) } else { None }
            } else if calls.len() < 2 {
                None
            } else {
                match calls[1] {
                    FlashCall::IsBusy(Err(e)) => if calls.len() == 2 {
                        Some(Err(UpdateError::Flash(e)))
                    } else {
                        None
                    },
                    FlashCall::IsBusy(Ok(busy)) => if busy {
                        if calls.len() == 2 { Some(Err(UpdateError::Busy)) } else { None }
                    } else {
                        signed_tail_outcome(len, capacity, signature, calls.subrange(2, calls.len() as int))
                    },
                    _ => None,
                }
            },
            _ => None,
        }
    }
}

/// Checks a received image of `len` bytes and, when everything holds, asks
/// the bootloader to check its signature and swap the partitions on the next
/// reset; the reset is the caller's. The calls made on the partition, and
/// what comes of their answers, are those of [`signed_outcome`].
pub fn apply_signed<F: SignedFirmwareUpdate>(flash: &mut Recorded<F>, signature: &[u8; 64], len: u32) -> (r:
    Result<(), UpdateError<F::Error>>)
    ensures
        extends(old(flash).spec_calls(), final(flash).spec_calls()),
        signed_outcome(len, signature@, calls_since(old(flash).spec_calls(), final(flash).spec_calls()))
            == Some(r),
{
    let ghost before = flash.spec_calls();
    let answer = flash.capacity();
    let ghost c0 = answer;
    let capacity = match answer {
        Ok(c) => c,
        Err(e) => {
            assert(calls_since(before, flash.spec_calls()) =~= seq![FlashCall::Capacity(c0)]);
            return Err(UpdateError::Flash(e));
        },
    };
    if len > capacity {
        assert(calls_since(before, flash.spec_calls()) =~= seq![FlashCall::Capacity(c0)]);
        return Err(UpdateError::TooLong { len, capacity });
    }
    let busy_answer = flash.is_busy();
    let ghost c1 = busy_answer;
    let ghost after_busy = flash.spec_calls();
    assert(calls_since(before, after_busy) =~= seq![FlashCall::Capacity(c0), FlashCall::IsBusy(c1)]);
    let busy = match busy_answer {
        Ok(b) => b,
        Err(e) => {
            return Err(UpdateError::Flash(e));
        },
    };
    if busy {
        return Err(UpdateError::Busy);
    }
    if len < VERSION_BYTES {
        assert(calls_since(before, flash.spec_calls()).subrange(2, 2) =~= Seq::<FlashCall<F::Error>>::empty());
        return Err(UpdateError::Truncated { len });
    }
    let offset: u32 = len - VERSION_BYTES;
    let mut raw: Vec<u8> = vec![0u8, 0u8, 0u8, 0u8];
    let read = flash.read(offset, raw.as_mut_slice());
    let ghost c2 = read;
    let ghost tail = calls_since(before, flash.spec_calls()).subrange(2, 3);
    assert(tail =~= seq![FlashCall::Read(offset, raw@, c2)]);
    match read {
        Ok(()) => {},
        Err(e) => {
            return Err(UpdateError::Flash(e));
        },
    }
    let incoming = version_from_tail(raw.as_slice());
    let current = flash.running_version();
    let key = flash.public_key();
    let ghost after_key = flash.spec_calls();
    assert(calls_since(before, after_key).subrange(2, 5) =~= seq![
        FlashCall::Read(offset, raw@, c2),
        FlashCall::RunningVersion(current),
        FlashCall::PublicKey(key@),
    ]);
    match judge_update::<F::Error>(len, capacity, false, incoming, current, &key) {
        Ok(()) => {},
        Err(e) => {
            return Err(e);
        },
    }
    let verified = flash.verify_and_mark_updated(signature, len);
    let ghost c5 = verified;
    assert(calls_since(before, flash.spec_calls()).subrange(2, 6) =~= seq![
        FlashCall::Read(offset, raw@, c2),
        FlashCall::RunningVersion(current),
        FlashCall::PublicKey(key@),
        FlashCall::VerifyAndMarkUpdated(signature@, len, c5),
    ]);
    match verified {
        Ok(()) => Ok(()),
        Err(VerifyError::BadSignature) => Err(UpdateError::BadSignature),
        Err(VerifyError::Flash(e)) => Err(UpdateError::Flash(e)),
    }
}

} // verus!
