//! The boundary types of the update domain: what a delivery channel
//! announces, what the sender is told about a refused image, and the errors of
//! reception and of applying an update.

use vstd::prelude::*;

verus! {

/// Header of an incoming image: its length and, for signed updates, its
/// signature.
#[derive(Clone, Copy, Debug, PartialEq, Eq)]
pub struct Announce {
    pub len: u32,
    pub signature: Option<[u8; 64]>,
}

/// Why an image was refused, as reported to the sender.
#[derive(Clone, Copy, Debug, PartialEq, Eq)]
pub enum Rejection {
    /// The announced length cannot be accepted.
    Length,
    /// The channel delivered more or less than announced.
    Transfer,
    /// The flash failed or cannot be used.
    Device,
    /// The partition holds an image that must not be lost; reboot first.
    Busy,
    /// The image is not newer than the running one.
    Rollback,
    /// The signature could not be checked or did not match.
    Signature,
}

/// Errors of receiving an image; `S` is the channel's error, `F` the flash's.
#[derive(Clone, Copy, Debug, PartialEq, Eq)]
pub enum DownloadError<S, F> {
    /// Zero length announced.
    Empty,
    /// The image, or its length padded to a flash word, does not fit.
    TooLong { announced: u32, capacity: u32 },
    /// The flash reports a write granularity that cannot be used.
    UnusableGranularity(u32),
    /// The channel delivered more than announced.
    TooMuchData { announced: u32, received: u32 },
    /// The channel ended before the announced length.
    Incomplete { announced: u32, received: u32 },
    /// The flash failed.
    Flash(F),
    /// The channel failed.
    Source(S),
}

/// Errors of applying a signed update; `E` is the flash's error.
#[derive(Clone, Copy, Debug, PartialEq, Eq)]
pub enum UpdateError<E> {
    /// The image is longer than the partition it will run from.
    TooLong { len: u32, capacity: u32 },
    /// The partition holds a swap or rollback image.
    Busy,
    /// The image is shorter than its version tail.
    Truncated { len: u32 },
    /// The image is not newer than the running one.
    Rollback { current: u32, incoming: u32 },
    /// No public key was built into the firmware (all zeros).
    NoPublicKey,
    /// The signature did not verify.
    BadSignature,
    /// The flash failed.
    Flash(E),
}

/// Outcome of the signature check done by the bootloader library.
#[derive(Clone, Copy, Debug, PartialEq, Eq)]
pub enum VerifyError<E> {
    /// The signature did not verify.
    BadSignature,
    /// The flash failed.
    Flash(E),
}

} // verus!

verus! {

/// Access to the update partition, implemented by the board.
pub trait FirmwareUpdate {
    type Error;

    /// Bytes of one flash word: every write is a whole number of them.
    fn write_granularity(&mut self) -> u32;

    /// Longest image the device can run.
    fn capacity(&mut self) -> Result<u32, Self::Error>;

    /// Whether the partition holds an image that must not be lost (a pending
    /// swap or a rollback image).
    fn is_busy(&mut self) -> Result<bool, Self::Error>;

    /// Erases what an image of `len` bytes needs.
    fn prepare(&mut self, len: u32) -> Result<(), Self::Error>;

    /// Writes `data` at `offset` from the start of the partition.
    fn write(&mut self, offset: u32, data: &[u8]) -> Result<(), Self::Error>;

    /// Reads `buf.len()` bytes at `offset`.
    fn read(&mut self, offset: u32, buf: &mut [u8]) -> (r: Result<(), Self::Error>)
        ensures
            final(buf)@.len() == old(buf)@.len(),
    ;

    /// Confirms the running image.
    fn mark_booted(&mut self) -> Result<(), Self::Error>;

    /// Asks the bootloader to swap the partitions on the next reset.
    fn mark_updated(&mut self) -> Result<(), Self::Error>;
}

/// Update access with what checking a signature needs.
pub trait SignedFirmwareUpdate: FirmwareUpdate {
    /// Packed version of the running image.
    fn running_version(&self) -> u32;

    /// Key the signature is checked with; all zeros means none was built in.
    fn public_key(&self) -> [u8; 32];

    /// Checks the signature of the first `len` bytes and, when it holds,
    /// marks the partitions for a swap.
    fn verify_and_mark_updated(&mut self, signature: &[u8; 64], len: u32) -> Result<
        (),
        VerifyError<Self::Error>,
    >;
}

} // verus!

verus! {

/// One call made on the update partition, with its arguments and what it
/// answered.
pub enum FlashCall<E> {
    WriteGranularity(u32),
    Capacity(Result<u32, E>),
    IsBusy(Result<bool, E>),
    Prepare(u32, Result<(), E>),
    /// Offset, bytes written.
    Write(u32, Seq<u8>, Result<(), E>),
    /// Offset, what the buffer holds after the call.
    Read(u32, Seq<u8>, Result<(), E>),
    MarkBooted(Result<(), E>),
    MarkUpdated(Result<(), E>),
    RunningVersion(u32),
    PublicKey(Seq<u8>),
    /// Signature, length, answer.
    VerifyAndMarkUpdated(Seq<u8>, u32, Result<(), VerifyError<E>>),
}

/// The update partition of a board, with every call made on it so far, in
/// order: the library's functions that drive the partition take it in this
/// form, and their contracts say which calls they made.
pub struct Recorded<F: FirmwareUpdate> {
    flash: F,
    calls: Ghost<Seq<FlashCall<F::Error>>>,
}

impl<F: FirmwareUpdate> Recorded<F> {
    /// The calls made so far, oldest first.
    pub closed spec fn spec_calls(&self) -> Seq<FlashCall<F::Error>> {
        self.calls@
    }

    /// The partition, with no call made yet.
    pub fn new(flash: F) -> (r: Self)
        ensures
            r.spec_calls() == Seq::<FlashCall<F::Error>>::empty(),
    {
        Recorded { flash, calls: Ghost(Seq::empty()) }
    }

    /// The partition itself, to look at.
    pub fn flash(&self) -> &F {
        &self.flash
    }

    /// The partition itself, given back.
    pub fn into_inner(self) -> F {
        self.flash
    }

    pub fn write_granularity(&mut self) -> (r: u32)
        ensures
            final(self).spec_calls() == old(self).spec_calls().push(FlashCall::WriteGranularity(r)),
    {
        let r = self.flash.write_granularity();
        proof {
            self.calls@ = self.calls@.push(FlashCall::WriteGranularity(r));
        }
        r
    }

    pub fn capacity(&mut self) -> (r: Result<u32, F::Error>)
        ensures
            final(self).spec_calls() == old(self).spec_calls().push(FlashCall::Capacity(r)),
    {
        let r = self.flash.capacity();
        proof {
            self.calls@ = self.calls@.push(FlashCall::Capacity(r));
        }
        r
    }

    pub fn is_busy(&mut self) -> (r: Result<bool, F::Error>)
        ensures
            final(self).spec_calls() == old(self).spec_calls().push(FlashCall::IsBusy(r)),
    {
        let r = self.flash.is_busy();
        proof {
            self.calls@ = self.calls@.push(FlashCall::IsBusy(r));
        }
        r
    }

    pub fn prepare(&mut self, len: u32) -> (r: Result<(), F::Error>)
        ensures
            final(self).spec_calls() == old(self).spec_calls().push(FlashCall::Prepare(len, r)),
    {
        let r = self.flash.prepare(len);
        proof {
            self.calls@ = self.calls@.push(FlashCall::Prepare(len, r));
        }
        r
    }

    pub fn write(&mut self, offset: u32, data: &[u8]) -> (r: Result<(), F::Error>)
        ensures
            final(self).spec_calls() == old(self).spec_calls().push(FlashCall::Write(offset, data@, r)),
    {
        let r = self.flash.write(offset, data);
        proof {
            self.calls@ = self.calls@.push(FlashCall::Write(offset, data@, r));
        }
        r
    }

    pub fn read(&mut self, offset: u32, buf: &mut [u8]) -> (r: Result<(), F::Error>)
        ensures
            final(buf)@.len() == old(buf)@.len(),
            final(self).spec_calls() == old(self).spec_calls().push(FlashCall::Read(offset, final(buf)@, r)),
    {
        let r = self.flash.read(offset, buf);
        proof {
            self.calls@ = self.calls@.push(FlashCall::Read(offset, buf@, r));
        }
        r
    }

    pub fn mark_booted(&mut self) -> (r: Result<(), F::Error>)
        ensures
            final(self).spec_calls() == old(self).spec_calls().push(FlashCall::MarkBooted(r)),
    {
        let r = self.flash.mark_booted();
        proof {
            self.calls@ = self.calls@.push(FlashCall::MarkBooted(r));
        }
        r
    }

    pub fn mark_updated(&mut self) -> (r: Result<(), F::Error>)
        ensures
            final(self).spec_calls() == old(self).spec_calls().push(FlashCall::MarkUpdated(r)),
    {
        let r = self.flash.mark_updated();
        proof {
            self.calls@ = self.calls@.push(FlashCall::MarkUpdated(r));
        }
        r
    }
}

impl<F: SignedFirmwareUpdate> Recorded<F> {
    pub fn running_version(&mut self) -> (r: u32)
        ensures
            final(self).spec_calls() == old(self).spec_calls().push(FlashCall::RunningVersion(r)),
    {
        let r = self.flash.running_version();
        proof {
            self.calls@ = self.calls@.push(FlashCall::RunningVersion(r));
        }
        r
    }

    pub fn public_key(&mut self) -> (r: [u8; 32])
        ensures
            final(self).spec_calls() == old(self).spec_calls().push(FlashCall::PublicKey(r@)),
    {
        let r = self.flash.public_key();
        proof {
            self.calls@ = self.calls@.push(FlashCall::PublicKey(r@));
        }
        r
    }

    pub fn verify_and_mark_updated(&mut self, signature: &[u8; 64], len: u32) -> (r: Result<
        (),
        VerifyError<F::Error>,
    >)
        ensures
            final(self).spec_calls() == old(self).spec_calls().push(
                FlashCall::VerifyAndMarkUpdated(signature@, len, r),
            ),
    {
        let r = self.flash.verify_and_mark_updated(signature, len);
        proof {
            self.calls@ = self.calls@.push(FlashCall::VerifyAndMarkUpdated(signature@, len, r));
        }
        r
    }
}

/// The calls added to `before` to make `after`; `after` starts with
/// `before`.
pub open spec fn calls_since<T>(before: Seq<T>, after: Seq<T>) -> Seq<T> {
    after.subrange(before.len() as int, after.len() as int)
}

/// Whether `after` is `before` with calls added.
pub open spec fn extends<T>(before: Seq<T>, after: Seq<T>) -> bool {
    &&& before.len() <= after.len()
    &&& forall|i: int| 0 <= i < before.len() ==> after[i] == before[i]
}

} // verus!
