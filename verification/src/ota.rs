//! The `OTA` node: receives an image over a channel and applies it, cycle
//! after cycle while the channel lives. The cycle itself awaits the channel
//! and runs in the application; what it decides is here.

use vstd::prelude::*;
use crate::ports::{
    calls_since, extends, Announce, DownloadError, FirmwareUpdate, FlashCall, Recorded, Rejection,
    UpdateError,
};
use crate::download::{all_written, begin_outcome, word_writes, written_data, Receiver, PAD};

verus! {

/// What the node needs: the delivery channel and the update adapter.
#[derive(Debug)]
pub struct Inputs<S, F> {
    /// The delivery channel of the board.
    pub link: S,
    /// The update adapter of the board.
    pub flash: F,
}

/// The code reported to the sender for a failed reception; `Err` carries a
/// channel failure, after which nobody is left to report to.
pub fn download_rejection<S, F>(err: DownloadError<S, F>) -> (r: Result<Rejection, S>)
    ensures
        match err {
            DownloadError::Empty | DownloadError::TooLong { .. } => r == Ok::<Rejection, S>(
                Rejection::Length,
            ),
            DownloadError::TooMuchData { .. } | DownloadError::Incomplete { .. } => r == Ok::<
                Rejection,
                S,
            >(Rejection::Transfer),
            DownloadError::UnusableGranularity(_) | DownloadError::Flash(_) => r == Ok::<
                Rejection,
                S,
            >(Rejection::Device),
            DownloadError::Source(e) => r == Err::<Rejection, S>(e),
        },
{
    match err {
        DownloadError::Empty => Ok(Rejection::Length),
        DownloadError::TooLong { .. } => Ok(Rejection::Length),
        DownloadError::TooMuchData { .. } => Ok(Rejection::Transfer),
        DownloadError::Incomplete { .. } => Ok(Rejection::Transfer),
        DownloadError::UnusableGranularity(_) => Ok(Rejection::Device),
        DownloadError::Flash(_) => Ok(Rejection::Device),
        DownloadError::Source(e) => Err(e),
    }
}

/// The code reported to the sender for a refused signed update.
pub fn update_rejection<E>(err: &UpdateError<E>) -> (r: Rejection)
    ensures
        match *err {
            UpdateError::TooLong { .. } | UpdateError::Truncated { .. } => r == Rejection::Length,
            UpdateError::Busy => r == Rejection::Busy,
            UpdateError::Rollback { .. } => r == Rejection::Rollback,
            UpdateError::NoPublicKey | UpdateError::BadSignature => r == Rejection::Signature,
            UpdateError::Flash(_) => r == Rejection::Device,
        },
{
    match err {
        UpdateError::TooLong { .. } => Rejection::Length,
        UpdateError::Truncated { .. } => Rejection::Length,
        UpdateError::Busy => Rejection::Busy,
        UpdateError::Rollback { .. } => Rejection::Rollback,
        UpdateError::NoPublicKey => Rejection::Signature,
        UpdateError::BadSignature => Rejection::Signature,
        UpdateError::Flash(_) => Rejection::Device,
    }
}

/// The verdict on the partition's answer to "is it busy", asked before
/// anything else: a busy partition is reported as such rather than as a
/// device failure at erase time.
pub fn busy_rejection<E>(answer: &Result<bool, E>) -> (r: Option<Rejection>)
    ensures
        match *answer {
            Ok(false) => r is None,
            Ok(true) => r == Some(Rejection::Busy),
            Err(_) => r == Some(Rejection::Device),
        },
{
    match answer {
        Ok(false) => None,
        Ok(true) => Some(Rejection::Busy),
        Err(_) => Some(Rejection::Device),
    }
}

/// Without a signature there is nothing to check in the header: the length is
/// checked by the reception.
pub fn plain_check(_announce: &Announce) -> (r: Result<(), Rejection>)
    ensures
        r is Ok,
{
    Ok(())
}

/// The verdict on the partition's answer to "is it busy".
pub open spec fn busy_verdict<E>(answer: Result<bool, E>) -> Option<Rejection> {
    match answer {
        Ok(false) => None,
        Ok(true) => Some(Rejection::Busy),
        Err(_) => Some(Rejection::Device),
    }
}

/// The code reported to the sender for a failed reception.
pub open spec fn download_verdict<S, E>(e: DownloadError<S, E>) -> Rejection {
    match e {
        DownloadError::Empty | DownloadError::TooLong { .. } => Rejection::Length,
        DownloadError::TooMuchData { .. } | DownloadError::Incomplete { .. } => Rejection::Transfer,
        _ => Rejection::Device,
    }
}

/// What asking for the swap gives, from the partition's answer.
pub open spec fn swap_verdict<E>(answer: Result<(), E>) -> Result<(), Rejection> {
    match answer {
        Ok(()) => Ok(()),
        Err(_) => Err(Rejection::Device),
    }
}

/// Without a signature, applying is asking for the swap, once; a flash
/// failure is reported as a device failure.
pub fn plain_apply<F: FirmwareUpdate>(flash: &mut Recorded<F>, _announce: &Announce, _len: u32) -> (r: Result<(), Rejection>)
    ensures
        extends(old(flash).spec_calls(), final(flash).spec_calls()),
        ({
            let calls = calls_since(old(flash).spec_calls(), final(flash).spec_calls());
            &&& calls.len() == 1
            &&& calls[0] matches FlashCall::MarkUpdated(answer) && r == swap_verdict(answer)
        }),
{
    let ghost before = flash.spec_calls();
    let answer = flash.mark_updated();
    assert(calls_since(before, flash.spec_calls()) =~= seq![FlashCall::MarkUpdated(answer)]);
    match answer {
        Ok(()) => Ok(()),
        Err(_) => Err(Rejection::Device),
    }
}

/// What ending a complete reception and applying the image gives, from the
/// calls made: the padded tail written first where there is one (a failure
/// there is `Device` and ends it), then the swap asked for.
pub open spec fn close_outcome<E>(tail: Seq<u8>, written: u32, word: u32, calls: Seq<FlashCall<E>>) -> Option<
    Result<(), Rejection>,
> {
    if tail.len() == 0 {
        if calls.len() == 1 {
            match calls[0] {
                FlashCall::MarkUpdated(answer) => Some(swap_verdict(answer)),
                _ => None,
            }
        } else {
            None
        }
    } else if calls.len() == 0 {
        None
    } else {
        match calls[0] {
            FlashCall::Write(offset, data, answer) => if offset != written || data != tail + Seq::new(
                (word - tail.len()) as nat,
                |i: int| PAD,
            ) {
                None
            } else {
                match answer {
                    Err(_) => if calls.len() == 1 { Some(Err(Rejection::Device)) } else { None },
                    Ok(()) => if calls.len() == 2 {
                        match calls[1] {
                            FlashCall::MarkUpdated(a) => Some(swap_verdict(a)),
                            _ => None,
                        }
                    } else {
                        None
                    },
                }
            },
            _ => None,
        }
    }
}

/// One cycle of the node between a header and its report: the header and
/// the reception under way. The node itself awaits the channel between the
/// steps; every decision of the cycle is taken here.
pub struct Cycle {
    announce: Announce,
    receiver: Receiver,
}

impl Cycle {
    /// Validity of a cycle under way.
    pub closed spec fn wf(&self) -> bool {
        &&& self.receiver.wf()
        &&& self.receiver.spec_announced() == self.announce.len
    }

    /// The header the cycle was opened with.
    pub closed spec fn spec_announce(&self) -> Announce {
        self.announce
    }

    /// The bytes of the image received so far.
    pub closed spec fn spec_received(&self) -> Seq<u8> {
        self.receiver.spec_received()
    }

    /// The bytes handed to the flash so far.
    pub closed spec fn spec_log(&self) -> Seq<u8> {
        self.receiver.spec_log()
    }

    /// How many bytes were written so far.
    pub closed spec fn spec_written(&self) -> u32 {
        self.receiver.spec_written()
    }

    /// The word of the flash.
    pub closed spec fn spec_word(&self) -> u32 {
        self.receiver.spec_word()
    }

    /// Received bytes not yet written.
    pub closed spec fn spec_tail(&self) -> Seq<u8> {
        self.receiver.spec_tail()
    }

    /// Opens a cycle on a header: whether the partition is busy is asked
    /// before anything else, and a busy partition (or one that cannot say)
    /// is refused with no other call; then the reception starts as
    /// [`Receiver::begin`] does, its refusals reported by
    /// [`download_verdict`].
    pub fn open<F: FirmwareUpdate>(flash: &mut Recorded<F>, announce: Announce) -> (r: Result<Cycle, Rejection>)
        ensures
            extends(old(flash).spec_calls(), final(flash).spec_calls()),
            ({
                let calls = calls_since(old(flash).spec_calls(), final(flash).spec_calls());
                &&& calls.len() >= 1
                &&& calls[0] matches FlashCall::IsBusy(answer) && match busy_verdict(answer) {
                    Some(refusal) => calls.len() == 1 && r == Err::<Cycle, Rejection>(refusal),
                    None => match begin_outcome::<(), F::Error>(announce.len, calls.drop_first()) {
                        Some(Ok(())) => r matches Ok(c) && c.wf() && c.spec_announce() == announce
                            && c.spec_received() == Seq::<u8>::empty() && c.spec_log()
                            == Seq::<u8>::empty() && c.spec_written() == 0,
                        Some(Err(e)) => r == Err::<Cycle, Rejection>(download_verdict(e)),
                        None => false,
                    },
                }
            }),
    {
        let ghost before = flash.spec_calls();
        let answer = flash.is_busy();
        let ghost after_busy = flash.spec_calls();
        if let Some(rejection) = busy_rejection(&answer) {
            assert(calls_since(before, flash.spec_calls()) =~= seq![FlashCall::IsBusy(answer)]);
            return Err(rejection);
        }
        if let Err(rejection) = plain_check(&announce) {
            return Err(rejection);
        }
        let begun = Receiver::begin::<(), F>(flash, announce.len);
        assert(calls_since(before, flash.spec_calls()).drop_first() =~= calls_since(after_busy, flash.spec_calls()));
        assert(calls_since(before, flash.spec_calls())[0] == FlashCall::IsBusy(answer));
        match begun {
            Ok(receiver) => Ok(Cycle { announce, receiver }),
            Err(e) => match download_rejection(e) {
                Ok(rejection) => Err(rejection),
                Err(()) => {
                    proof {
                        assert(false);
                    }
                    Err(Rejection::Device)
                },
            },
        }
    }

    /// Takes the next chunk of the image. More bytes than announced end the
    /// cycle with `Transfer`, nothing written; otherwise the whole words the
    /// chunk completes are written in order, and a flash failure ends the
    /// cycle with `Device`.
    pub fn feed<F: FirmwareUpdate>(&mut self, flash: &mut Recorded<F>, chunk: &[u8]) -> (r: Option<Rejection>)
        requires
            old(self).wf(),
        ensures
            final(self).wf(),
            final(self).spec_announce() == old(self).spec_announce(),
            final(self).spec_word() == old(self).spec_word(),
            extends(old(flash).spec_calls(), final(flash).spec_calls()),
            ({
                let calls = calls_since(old(flash).spec_calls(), final(flash).spec_calls());
                if old(self).spec_received().len() + chunk@.len() > old(self).spec_announce().len {
                    r == Some(Rejection::Transfer) && calls.len() == 0
                } else {
                    &&& final(self).spec_received() == old(self).spec_received() + chunk@
                    &&& word_writes(calls, old(self).spec_written() as int, old(self).spec_word() as int)
                    &&& (r is None ==> all_written(calls) && final(self).spec_log()
                        == old(self).spec_log() + written_data(calls))
                    &&& (r is Some ==> r == Some(Rejection::Device) && calls.len() > 0 && all_written(
                        calls.drop_last(),
                    ) && calls.last() matches FlashCall::Write(_, _, Err(_)))
                }
            }),
    {
        let ghost before = flash.spec_calls();
        if chunk.len() > 0xFFFF_FFFF {
            assert(calls_since(before, flash.spec_calls()) =~= Seq::<FlashCall<F::Error>>::empty());
            return Some(Rejection::Transfer);
        }
        match self.receiver.feed::<(), F>(flash, chunk) {
            Ok(()) => None,
            Err(e) => match download_rejection(e) {
                Ok(rejection) => Some(rejection),
                Err(()) => {
                    proof {
                        assert(false);
                    }
                    Some(Rejection::Device)
                },
            },
        }
    }

    /// Ends the cycle once the channel has sent all: fewer bytes than
    /// announced are `Transfer`, with no call; otherwise the padded tail is
    /// written and the swap asked for, as [`close_outcome`] says.
    pub fn close<F: FirmwareUpdate>(self, flash: &mut Recorded<F>) -> (r: Result<(), Rejection>)
        requires
            self.wf(),
        ensures
            extends(old(flash).spec_calls(), final(flash).spec_calls()),
            ({
                let calls = calls_since(old(flash).spec_calls(), final(flash).spec_calls());
                if self.spec_received().len() != self.spec_announce().len {
                    r == Err::<(), Rejection>(Rejection::Transfer) && calls.len() == 0
                } else {
                    close_outcome(self.spec_tail(), self.spec_written(), self.spec_word(), calls) == Some(r)
                }
            }),
    {
        let ghost before = flash.spec_calls();
        let completed = self.receiver.complete::<(), F>(flash);
        let ghost mid = flash.spec_calls();
        match completed {
            Ok(len) => {
                let applied = plain_apply(flash, &self.announce, len);
                proof {
                    let c1 = calls_since(before, mid);
                    let c2 = calls_since(mid, flash.spec_calls());
                    assert(calls_since(before, flash.spec_calls()) =~= c1 + c2);
                }
                applied
            },
            Err(e) => match download_rejection(e) {
                Ok(rejection) => Err(rejection),
                Err(()) => {
                    proof {
                        assert(false);
                    }
                    Err(Rejection::Device)
                },
            },
        }
    }
}

} // verus!
