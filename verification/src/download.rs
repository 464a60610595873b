//! Receiving an image chunk by chunk: the length checked against what the
//! device can take before the partition is erased, writes only in whole flash
//! words, the short tail of a chunk kept until the next one, the offset kept
//! here, and the last partial word padded with `0xFF`.
//!
//! The channel is awaited between chunks, so the decisions live here as a
//! state machine: [`Receiver::start`] decides on the header, [`Receiver::accept`]
//! turns each chunk into the flash writes to perform, in order, and
//! [`Receiver::finish`] decides on the end of the transfer.

use vstd::prelude::*;
use crate::bytes::{copy_range, push_all};
use crate::ports::{calls_since, extends, DownloadError, FirmwareUpdate, FlashCall, Recorded};

verus! {

/// The widest flash word among STM32 chips: 32 bytes (H7).
pub const MAX_WORD: usize = 32;

/// Value the last partial word is padded with.
pub const PAD: u8 = 0xFF;

/// One write to perform on the partition.
#[derive(Clone, Debug, PartialEq, Eq)]
pub struct FlashWrite {
    pub offset: u32,
    pub data: Vec<u8>,
}

/// `announced` rounded up to a multiple of `word`.
pub open spec fn padded_len(announced: int, word: int) -> int {
    ((announced + word - 1) / word) * word
}

/// `a + b` saturated at `u32::MAX`.
pub open spec fn saturating(sum: int) -> int {
    if sum > u32::MAX { u32::MAX as int } else { sum }
}

/// The checks on a header, in the order they are made.
pub open spec fn start_outcome<S, F>(announced: u32, capacity: u32, word: u32) -> Option<
    DownloadError<S, F>,
> {
    if announced == 0 {
        Some(DownloadError::Empty)
    } else if announced > capacity {
        Some(DownloadError::TooLong { announced, capacity })
    } else if word == 0 || word > MAX_WORD {
        Some(DownloadError::UnusableGranularity(word))
    } else if padded_len(announced as int, word as int) > capacity {
        Some(DownloadError::TooLong { announced, capacity })
    } else {
        None
    }
}

/// The state of one transfer.
pub struct Receiver {
    announced: u32,
    word: u32,
    /// Bytes already written to flash.
    written: u32,
    /// Received bytes not yet making up a whole word.
    tail: Vec<u8>,
    /// Every byte accepted so far.
    received: Ghost<Seq<u8>>,
    /// Every byte handed to the flash so far, in offset order.
    log: Ghost<Seq<u8>>,
}

/// Concatenation of the data of `writes`.
pub open spec fn write_data(writes: Seq<FlashWrite>) -> Seq<u8>
    decreases writes.len(),
{
    if writes.len() == 0 {
        Seq::empty()
    } else {
        write_data(writes.drop_last()) + writes.last().data@
    }
}

/// Each write starts where the previous one ended, from `start` on, and is a
/// whole number of words.
pub open spec fn writes_in_order(writes: Seq<FlashWrite>, start: int, word: int) -> bool
    decreases writes.len(),
{
    if writes.len() == 0 {
        true
    } else {
        let last = writes.last();
        &&& writes_in_order(writes.drop_last(), start, word)
        &&& last.offset == start + write_data(writes.drop_last()).len()
        &&& last.data@.len() > 0
        &&& (last.data@.len() as int) % word == 0
    }
}

proof fn lemma_mod_sum_zero(a: int, b: int, w: int)
    requires
        w > 0,
        a % w == 0,
        b % w == 0,
    ensures
        (a + b) % w == 0,
{
    vstd::arithmetic::div_mod::lemma_add_mod_noop(a, b, w);
    vstd::arithmetic::div_mod::lemma_small_mod(0, w as nat);
}

impl Receiver {
    /// Validity of a transfer state.
    pub closed spec fn wf(&self) -> bool {
        &&& 1 <= self.word <= MAX_WORD
        &&& self.announced > 0
        &&& self.tail@.len() < self.word
        &&& self.written as int % self.word as int == 0
        &&& self.log@.len() == self.written
        &&& self.log@ + self.tail@ == self.received@
        &&& self.received@.len() <= self.announced
        &&& padded_len(self.announced as int, self.word as int) <= u32::MAX
    }

    pub closed spec fn spec_announced(&self) -> u32 {
        self.announced
    }

    pub closed spec fn spec_word(&self) -> u32 {
        self.word
    }

    pub closed spec fn spec_written(&self) -> u32 {
        self.written
    }

    /// Bytes kept for the next word.
    pub closed spec fn spec_tail(&self) -> Seq<u8> {
        self.tail@
    }

    /// Every byte accepted so far.
    pub closed spec fn spec_received(&self) -> Seq<u8> {
        self.received@
    }

    /// Every byte handed to the flash so far.
    pub closed spec fn spec_log(&self) -> Seq<u8> {
        self.log@
    }

    /// Checks a header against the partition before it is touched: zero
    /// length, a length beyond `capacity`, a word the flash cannot be written
    /// with, and a length that does not fit once padded to a word — in that
    /// order.
    pub fn start<S, F>(announced: u32, capacity: u32, word: u32) -> (r: Result<Receiver, DownloadError<S, F>>)
        ensures
            match start_outcome::<S, F>(announced, capacity, word) {
                Some(e) => r == Err::<Receiver, DownloadError<S, F>>(e),
                None => r matches Ok(rx) && rx.wf() && rx.spec_announced() == announced
                    && rx.spec_word() == word && rx.spec_written() == 0
                    && rx.spec_received() == Seq::<u8>::empty()
                    && rx.spec_log() == Seq::<u8>::empty(),
            },
    {
        if announced == 0 {
            return Err(DownloadError::Empty);
        }
        if announced > capacity {
            return Err(DownloadError::TooLong { announced, capacity });
        }
        if word == 0 || word as usize > MAX_WORD {
            return Err(DownloadError::UnusableGranularity(word));
        }
        let q: u64 = (announced as u64 + word as u64 - 1) / word as u64;
        assert(q * word <= announced + word) by {
            vstd::arithmetic::div_mod::lemma_fundamental_div_mod((announced + word - 1) as int, word as int);
            vstd::arithmetic::div_mod::lemma_mod_pos_bound((announced + word - 1) as int, word as int);
            vstd::arithmetic::mul::lemma_mul_is_commutative(q as int, word as int);
        }
        let padded: u64 = q * word as u64;
        assert(padded == padded_len(announced as int, word as int));
        if padded > capacity as u64 {
            return Err(DownloadError::TooLong { announced, capacity });
        }
        let rx = Receiver {
            announced,
            word,
            written: 0,
            tail: Vec::new(),
            received: Ghost(Seq::empty()),
            log: Ghost(Seq::empty()),
        };
        assert(rx.log@ + rx.tail@ =~= rx.received@);
        assert(0int % (word as int) == 0) by {
            vstd::arithmetic::div_mod::lemma_small_mod(0, word as nat);
        }
        assert(rx.wf());
        Ok(rx)
    }

    /// Turns a chunk into the writes to perform, in order. A chunk that makes
    /// the transfer exceed its announced length is refused, and nothing of it
    /// is written.
    #[verifier::spinoff_prover]
    #[verifier::rlimit(40)]
    pub fn accept<S, F>(&mut self, chunk: &[u8]) -> (r: Result<Vec<FlashWrite>, DownloadError<S, F>>)
        requires
            old(self).wf(),
            chunk@.len() <= u32::MAX,
        ensures
            final(self).wf(),
            final(self).spec_announced() == old(self).spec_announced(),
            final(self).spec_word() == old(self).spec_word(),
            ({
                let total = old(self).spec_received().len() + chunk@.len();
                if total > old(self).spec_announced() {
                    &&& r == Err::<Vec<FlashWrite>, DownloadError<S, F>>(
                        DownloadError::TooMuchData {
                            announced: old(self).spec_announced(),
                            received: saturating(total as int) as u32,
                        },
                    )
                    &&& *final(self) == *old(self)
                } else {
                    &&& (r matches Ok(writes) && {
                        &&& writes_in_order(writes@, old(self).spec_written() as int, old(self).spec_word() as int)
                        &&& final(self).spec_log() == old(self).spec_log() + write_data(writes@)
                        &&& final(self).spec_received() == old(self).spec_received() + chunk@
                        &&& final(self).spec_written() == old(self).spec_written() + write_data(writes@).len()
                    })
                }
            }),
    {
        let ghost old_received = self.received@;
        let ghost old_log = self.log@;
        let ghost start_written = self.written as int;
        let pending: usize = self.tail.len();
        let total: u64 = self.written as u64 + pending as u64 + chunk.len() as u64;
        if total > self.announced as u64 {
            let received: u32 = if total > u32::MAX as u64 { u32::MAX } else { total as u32 };
            return Err(DownloadError::TooMuchData { announced: self.announced, received });
        }
        let word_len: usize = self.word as usize;
        let mut writes: Vec<FlashWrite> = Vec::new();
        let mut rest_from: usize = 0;
        if pending > 0 {
            proof {
                lemma_mod_sum_zero(start_written, self.word as int, self.word as int);
                vstd::arithmetic::div_mod::lemma_mod_self_0(self.word as int);
            }
            let need: usize = word_len - pending;
            let take: usize = if need < chunk.len() { need } else { chunk.len() };
            let head = copy_range(chunk, 0, take);
            push_all(&mut self.tail, head.as_slice());
            rest_from = take;
            if self.tail.len() < word_len {
                proof {
                    assert(take == chunk@.len());
                    assert(chunk@.subrange(0, take as int) == chunk@);
                    self.received@ = old_received + chunk@;
                    assert(self.log@ + self.tail@ =~= self.received@);
                }
                return Ok(writes);
            }
            let data = copy_range(self.tail.as_slice(), 0, word_len);
            assert(data@ == self.tail@);
            writes.push(FlashWrite { offset: self.written, data });
            proof {
                self.log@ = self.log@ + self.tail@;
            }
            self.written = self.written + self.word;
            self.tail = Vec::new();
            assert(write_data(writes@) == writes@.last().data@) by {
                assert(writes@.drop_last() == Seq::<FlashWrite>::empty());
                assert(write_data(Seq::<FlashWrite>::empty()) == Seq::<u8>::empty());
                assert(Seq::<u8>::empty() + writes@.last().data@ =~= writes@.last().data@);
            }
            assert(writes_in_order(writes@, start_written, self.word as int)) by {
                assert(writes@.drop_last() == Seq::<FlashWrite>::empty());
                assert(writes@.last().data@.len() == self.word);
                assert(writes@.last().offset == start_written);
                assert(write_data(Seq::<FlashWrite>::empty()).len() == 0);
                assert((self.word as int) % (self.word as int) == 0);
                assert(writes_in_order(Seq::<FlashWrite>::empty(), start_written, self.word as int));
            }
        } else {
            assert(write_data(writes@) == Seq::<u8>::empty());
        }
        assert(self.tail@.len() == 0);
        assert(self.log@ =~= old_log + write_data(writes@));
        assert(self.log@ =~= old_received + chunk@.subrange(0, rest_from as int));
        assert(writes_in_order(writes@, start_written, self.word as int));
        assert(self.written == self.log@.len());
        let left: usize = chunk.len() - rest_from;
        assert(left % word_len <= left && left % word_len < word_len) by {
            vstd::arithmetic::div_mod::lemma_mod_pos_bound(left as int, word_len as int);
            vstd::arithmetic::div_mod::lemma_mod_decreases(left as nat, word_len as nat);
        }
        let whole: usize = left - left % word_len;
        assert(whole % word_len == 0) by {
            vstd::arithmetic::div_mod::lemma_fundamental_div_mod(left as int, word_len as int);
            vstd::arithmetic::div_mod::lemma_mod_multiples_basic((left / word_len) as int, word_len as int);
            vstd::arithmetic::mul::lemma_mul_is_commutative((left / word_len) as int, word_len as int);
        }
        if whole > 0 {
            let data = copy_range(chunk, rest_from, rest_from + whole);
            let ghost before = writes@;
            let ghost piece = data@;
            writes.push(FlashWrite { offset: self.written, data });
            assert(writes@.drop_last() == before);
            assert(write_data(writes@) == write_data(before) + piece);
            proof {
                self.log@ = self.log@ + piece;
            }
            self.written = self.written + whole as u32;
            assert(self.log@ =~= old_log + write_data(writes@));
            assert(writes_in_order(writes@, start_written, self.word as int));
        }
        assert(self.log@ =~= old_received + chunk@.subrange(0, (rest_from + whole) as int));
        assert(self.written == self.log@.len());
        assert(self.tail@.len() == 0);
        assert(self.written as int % self.word as int == 0) by {
            lemma_mod_sum_zero((self.written - whole) as int, whole as int, self.word as int);
        }
        let rest = copy_range(chunk, rest_from + whole, chunk.len());
        push_all(&mut self.tail, rest.as_slice());
        proof {
            self.received@ = old_received + chunk@;
            assert(chunk@ == chunk@.subrange(0, rest_from as int) + chunk@.subrange(rest_from as int, (rest_from + whole) as int) + chunk@.subrange((rest_from + whole) as int, chunk@.len() as int));
            assert(self.tail@ =~= chunk@.subrange((rest_from + whole) as int, chunk@.len() as int));
            assert(self.log@ + self.tail@ =~= self.received@);
            assert(old_received.len() == start_written + pending);
            assert(self.received@.len() <= self.announced);
            assert(self.tail@.len() < self.word);
        }
        Ok(writes)
    }

    /// Ends the transfer when the channel has no more chunks: an early end is
    /// refused, otherwise the tail, if any, is padded to a word and given as
    /// the last write, and the announced length is returned.
    pub fn finish<S, F>(&self) -> (r: Result<(Option<FlashWrite>, u32), DownloadError<S, F>>)
        requires
            self.wf(),
        ensures
            self.spec_received().len() != self.spec_announced() ==> r == Err::<
                (Option<FlashWrite>, u32),
                DownloadError<S, F>,
            >(
                DownloadError::Incomplete {
                    announced: self.spec_announced(),
                    received: self.spec_received().len() as u32,
                },
            ),
            self.spec_received().len() == self.spec_announced() ==> (r matches Ok((last, len)) && {
                &&& len == self.spec_announced()
                &&& (self.spec_tail().len() == 0 <==> last is None)
                &&& (last matches Some(w) ==> {
                    &&& w.offset == self.spec_written()
                    &&& w.data@ == self.spec_tail() + Seq::new(
                        (self.spec_word() - self.spec_tail().len()) as nat,
                        |i: int| PAD,
                    )
                })
            }),
    {
        let received: u32 = self.written + self.tail.len() as u32;
        if received != self.announced {
            return Err(DownloadError::Incomplete { announced: self.announced, received });
        }
        if self.tail.len() == 0 {
            return Ok((None, self.announced));
        }
        let mut data = copy_range(self.tail.as_slice(), 0, self.tail.len());
        let ghost kept = data@;
        let word_len: usize = self.word as usize;
        while data.len() < word_len
            invariant
                kept == self.tail@,
                data@.len() <= word_len,
                data@.subrange(0, kept.len() as int) == kept,
                kept.len() <= data@.len(),
                forall|i: int| kept.len() <= i < data@.len() ==> data@[i] == PAD,
            decreases word_len - data.len(),
        {
            data.push(PAD);
        }
        assert(data@ == self.tail@ + Seq::new((self.word - self.tail@.len()) as nat, |i: int| PAD));
        Ok((Some(FlashWrite { offset: self.written, data }), self.announced))
    }
}


/// Once a transfer has received its whole announced length, what went to
/// flash and what is kept make up exactly the received image, and the last
/// padded word ends at the announced length rounded up to a word: the
/// partition holds the image followed by padding only.
pub proof fn lemma_complete_transfer_is_the_image(rx: &Receiver)
    requires
        rx.wf(),
        rx.spec_received().len() == rx.spec_announced(),
    ensures
        rx.spec_log() + rx.spec_tail() == rx.spec_received(),
        rx.spec_log().len() == rx.spec_written(),
        rx.spec_written() + (if rx.spec_tail().len() == 0 { 0 } else { rx.spec_word() as int })
            == padded_len(rx.spec_announced() as int, rx.spec_word() as int),
{
    let w = rx.word as int;
    let a = rx.announced as int;
    let t = rx.tail@.len() as int;
    let n = rx.written as int;
    assert(n + t == a);
    vstd::arithmetic::div_mod::lemma_fundamental_div_mod(n, w);
    let k = n / w;
    assert(n == w * k);
    vstd::arithmetic::div_mod::lemma_mod_pos_bound(n, w);
    assert(n % w == 0);
    if t == 0 {
        assert((a + w - 1) / w == k) by {
            vstd::arithmetic::mul::lemma_mul_is_commutative(k, w);
            vstd::arithmetic::div_mod::lemma_fundamental_div_mod_converse(a + w - 1, w, k, w - 1);
        }
        vstd::arithmetic::mul::lemma_mul_is_commutative(k, w);
    } else {
        assert((a + w - 1) / w == k + 1) by {
            vstd::arithmetic::mul::lemma_mul_is_distributive_add(w, k, 1);
            vstd::arithmetic::mul::lemma_mul_is_commutative(k + 1, w);
            assert(a + w - 1 == (k + 1) * w + (t - 1));
            vstd::arithmetic::div_mod::lemma_fundamental_div_mod_converse(a + w - 1, w, k + 1, t - 1);
        }
        vstd::arithmetic::mul::lemma_mul_is_commutative(k + 1, w);
        vstd::arithmetic::mul::lemma_mul_is_distributive_add(w, k, 1);
    }
}


/// What starting a reception of `announced` bytes gives, where `calls` are
/// the calls it made on the partition: a zero length is refused before any
/// call; then the capacity is asked, and a longer image refused; then the
/// write granularity is asked and the header judged by [`start_outcome`];
/// only a header that passes is followed by
/// preparing the partition for `announced` bytes. A flash error ends it,
/// passed through as it came. `None` where the calls do not run this way.
pub open spec fn begin_outcome<S, E>(announced: u32, calls: Seq<FlashCall<E>>) -> Option<
    Result<(), DownloadError<S, E>>,
> {
    if announced == 0 {
        if calls.len() == 0 { Some(Err(DownloadError::Empty)) } else { None }
    } else if calls.len() == 0 {
        None
    } else {
        match calls[0] {
            FlashCall::Capacity(Err(e)) => if calls.len() == 1 {
                Some(Err(DownloadError::Flash(e)))
            } else {
                None
            },
            FlashCall::Capacity(Ok(capacity)) => if announced > capacity {
                if calls.len() == 1 {
                    Some(Err(DownloadError::TooLong { announced, capacity }))
                } else {
                    None
                }
            } else if calls.len() < 2 {
                None
            } else {
                match calls[1] {
                    FlashCall::WriteGranularity(word) => match start_outcome::<S, E>(
                        announced,
                        capacity,
                        word,
                    ) {
                        Some(refusal) => if calls.len() == 2 {
                            Some(Err(refusal))
                        } else {
                            None
                        },
                        None => if calls.len() != 3 {
                            None
                        } else {
                            match calls[2] {
                                FlashCall::Prepare(len, Ok(())) => if len == announced {
                                    Some(Ok(()))
                                } else {
                                    None
                                },
                                FlashCall::Prepare(len, Err(e)) => if len == announced {
                                    Some(Err(DownloadError::Flash(e)))
                                } else {
                                    None
                                },
                                _ => None,
                            }
                        },
                    },
                    _ => None,
                }
            },
            _ => None,
        }
    }
}

/// Whether `calls` are writes only, each of a whole number of `word`-byte
/// words, the first at `start` and each where the previous one ended.
pub open spec fn word_writes<E>(calls: Seq<FlashCall<E>>, start: int, word: int) -> bool
    decreases calls.len(),
{
    if calls.len() == 0 {
        true
    } else {
        &&& word_writes(calls.drop_last(), start, word)
        &&& calls.last() matches FlashCall::Write(offset, data, _)
        &&& offset == start + written_data(calls.drop_last()).len()
        &&& data.len() > 0
        &&& (data.len() as int) % word == 0
    }
}

/// The bytes the writes among `calls` handed to the flash, in order.
pub open spec fn written_data<E>(calls: Seq<FlashCall<E>>) -> Seq<u8>
    decreases calls.len(),
{
    if calls.len() == 0 {
        Seq::empty()
    } else {
        written_data(calls.drop_last()) + match calls.last() {
            FlashCall::Write(_, data, _) => data,
            _ => Seq::empty(),
        }
    }
}

/// Whether every write among `calls` was answered `Ok`.
pub open spec fn all_written<E>(calls: Seq<FlashCall<E>>) -> bool {
    forall|i: int| 0 <= i < calls.len() ==> ((#[trigger] calls[i]) matches FlashCall::Write(_, _, a) && a is Ok)
}

impl Receiver {
    /// Starts receiving an image of `announced` bytes into `flash`: a zero
    /// length is refused before the flash is asked anything; then the length
    /// is checked against the flash's capacity and word, and only then is the
    /// partition prepared. Flash failures are passed through, and end it.
    pub fn begin<S, F: FirmwareUpdate>(flash: &mut Recorded<F>, announced: u32) -> (r: Result<
        Receiver,
        DownloadError<S, F::Error>,
    >)
        ensures
            extends(old(flash).spec_calls(), final(flash).spec_calls()),
            ({
                let calls = calls_since(old(flash).spec_calls(), final(flash).spec_calls());
                match begin_outcome::<S, F::Error>(announced, calls) {
                    Some(Ok(())) => r matches Ok(rx) && {
                        &&& rx.wf()
                        &&& rx.spec_announced() == announced
                        &&& rx.spec_written() == 0
                        &&& rx.spec_received() == Seq::<u8>::empty()
                        &&& rx.spec_log() == Seq::<u8>::empty()
                    },
                    Some(Err(e)) => r == Err::<Receiver, DownloadError<S, F::Error>>(e),
                    None => false,
                }
            }),
    {
        let ghost before = flash.spec_calls();
        if announced == 0 {
            assert(calls_since(before, flash.spec_calls()) =~= Seq::<FlashCall<F::Error>>::empty());
            return Err(DownloadError::Empty);
        }
        let answer = flash.capacity();
        let ghost first = flash.spec_calls();
        let capacity = match answer {
            Ok(c) => c,
            Err(e) => {
                assert(calls_since(before, flash.spec_calls()) =~= seq![FlashCall::Capacity(answer)]);
                return Err(DownloadError::Flash(e));
            },
        };
        if announced > capacity {
            assert(calls_since(before, flash.spec_calls()) =~= seq![FlashCall::Capacity(answer)]);
            return Err(DownloadError::TooLong { announced, capacity });
        }
        let word = flash.write_granularity();
        let ghost second = flash.spec_calls();
        assert(calls_since(before, second) =~= seq![
            FlashCall::Capacity(answer),
            FlashCall::WriteGranularity(word),
        ]);
        let rx = match Receiver::start::<S, F::Error>(announced, capacity, word) {
            Ok(rx) => rx,
            Err(e) => {
                return Err(e);
            },
        };
        let prepared = flash.prepare(announced);
        assert(calls_since(before, flash.spec_calls()) =~= seq![
            FlashCall::Capacity(answer),
            FlashCall::WriteGranularity(word),
            FlashCall::Prepare(announced, prepared),
        ]);
        match prepared {
            Ok(()) => Ok(rx),
            Err(e) => Err(DownloadError::Flash(e)),
        }
    }

    /// Takes one chunk: refuses it, writing nothing, when it makes the
    /// transfer longer than announced; otherwise writes every whole word it
    /// completes, in order, and keeps the rest. A flash failure ends the
    /// writes and is passed through as it came.
    #[verifier::loop_isolation(false)]
    pub fn feed<S, F: FirmwareUpdate>(&mut self, flash: &mut Recorded<F>, chunk: &[u8]) -> (r: Result<
        (),
        DownloadError<S, F::Error>,
    >)
        requires
            old(self).wf(),
            chunk@.len() <= u32::MAX,
        ensures
            final(self).wf(),
            final(self).spec_announced() == old(self).spec_announced(),
            final(self).spec_word() == old(self).spec_word(),
            extends(old(flash).spec_calls(), final(flash).spec_calls()),
            ({
                let total = old(self).spec_received().len() + chunk@.len();
                let calls = calls_since(old(flash).spec_calls(), final(flash).spec_calls());
                if total > old(self).spec_announced() {
                    &&& r == Err::<(), DownloadError<S, F::Error>>(
                        DownloadError::TooMuchData {
                            announced: old(self).spec_announced(),
                            received: saturating(total as int) as u32,
                        },
                    )
                    &&& *final(self) == *old(self)
                    &&& calls.len() == 0
                } else {
                    &&& final(self).spec_received() == old(self).spec_received() + chunk@
                    &&& word_writes(calls, old(self).spec_written() as int, old(self).spec_word() as int)
                    &&& (r is Ok ==> all_written(calls) && final(self).spec_log()
                        == old(self).spec_log() + written_data(calls))
                    &&& (r is Err ==> calls.len() > 0 && all_written(calls.drop_last()) && (
                    calls.last() matches FlashCall::Write(_, _, Err(fe)) && r == Err::<
                        (),
                        DownloadError<S, F::Error>,
                    >(DownloadError::Flash(fe))))
                }
            }),
    {
        let ghost before = flash.spec_calls();
        let ghost old_log = self.spec_log();
        let ghost start = self.spec_written() as int;
        let writes = match self.accept::<S, F::Error>(chunk) {
            Ok(w) => w,
            Err(e) => {
                assert(calls_since(before, flash.spec_calls()) =~= Seq::<FlashCall<F::Error>>::empty());
                return Err(e);
            },
        };
        let ghost ws = writes@;
        let mut i: usize = 0;
        while i < writes.len()
            invariant
                0 <= i <= ws.len(),
                ws == writes@,
                writes_in_order(ws, start, self.spec_word() as int),
                self.spec_log() == old_log + write_data(ws),
                self.wf(),
                extends(before, flash.spec_calls()),
                calls_since(before, flash.spec_calls()).len() == i,
                forall|k: int| 0 <= k < i ==> (#[trigger] calls_since(before, flash.spec_calls())[k]
                    matches FlashCall::Write(offset, data, a) && offset == ws[k].offset && data
                    == ws[k].data@ && a is Ok),
            decreases writes.len() - i,
        {
            let ghost pre = flash.spec_calls();
            let answer = flash.write(writes[i].offset, writes[i].data.as_slice());
            proof {
                assert(calls_since(before, flash.spec_calls()) =~= calls_since(before, pre).push(
                    FlashCall::Write(ws[i as int].offset, ws[i as int].data@, answer),
                ));
            }
            let ghost ans = answer;
            match answer {
                Ok(()) => {
                    assert(ans is Ok);
                    assert forall|k: int| 0 <= k < i + 1 implies (#[trigger] calls_since(
                        before,
                        flash.spec_calls(),
                    )[k] matches FlashCall::Write(offset, data, a) && offset == ws[k].offset && data
                        == ws[k].data@ && a is Ok) by {
                        if k < i {
                            assert(calls_since(before, flash.spec_calls())[k] == calls_since(before, pre)[k]);
                        }
                    }
                },
                Err(e) => {
                    proof {
                        lemma_writes_as_calls(ws, calls_since(before, flash.spec_calls()), start, self.spec_word() as int, i as int + 1);
                    }
                    return Err(DownloadError::Flash(e));
                },
            }
            i = i + 1;
        }
        proof {
            lemma_writes_as_calls(ws, calls_since(before, flash.spec_calls()), start, self.spec_word() as int, ws.len() as int);
            assert(ws.subrange(0, ws.len() as int) =~= ws);
        }
        Ok(())
    }

    /// Ends the transfer when the channel has no more chunks: an early end is
    /// refused and nothing is written; otherwise the tail, padded to a word,
    /// is written (when there is one) and the announced length returned. A
    /// flash failure is passed through as it came.
    pub fn complete<S, F: FirmwareUpdate>(&self, flash: &mut Recorded<F>) -> (r: Result<
        u32,
        DownloadError<S, F::Error>,
    >)
        requires
            self.wf(),
        ensures
            extends(old(flash).spec_calls(), final(flash).spec_calls()),
            ({
                let calls = calls_since(old(flash).spec_calls(), final(flash).spec_calls());
                if self.spec_received().len() != self.spec_announced() {
                    &&& r == Err::<u32, DownloadError<S, F::Error>>(
                        DownloadError::Incomplete {
                            announced: self.spec_announced(),
                            received: self.spec_received().len() as u32,
                        },
                    )
                    &&& calls.len() == 0
                } else if self.spec_tail().len() == 0 {
                    &&& r == Ok::<u32, DownloadError<S, F::Error>>(self.spec_announced())
                    &&& calls.len() == 0
                } else {
                    &&& calls.len() == 1
                    &&& calls[0] matches FlashCall::Write(offset, data, answer)
                    &&& offset == self.spec_written()
                    &&& data == self.spec_tail() + Seq::new(
                        (self.spec_word() - self.spec_tail().len()) as nat,
                        |i: int| PAD,
                    )
                    &&& (answer is Ok ==> r == Ok::<u32, DownloadError<S, F::Error>>(self.spec_announced()))
                    &&& (answer matches Err(e) ==> r == Err::<u32, DownloadError<S, F::Error>>(
                        DownloadError::Flash(e),
                    ))
                }
            }),
    {
        let ghost before = flash.spec_calls();
        let (last, len) = match self.finish::<S, F::Error>() {
            Ok(x) => x,
            Err(e) => {
                assert(calls_since(before, flash.spec_calls()) =~= Seq::<FlashCall<F::Error>>::empty());
                return Err(e);
            },
        };
        if let Some(w) = last {
            let answer = flash.write(w.offset, w.data.as_slice());
            assert(calls_since(before, flash.spec_calls()) =~= seq![
                FlashCall::Write(w.offset, w.data@, answer),
            ]);
            match answer {
                Ok(()) => {},
                Err(e) => {
                    return Err(DownloadError::Flash(e));
                },
            }
        } else {
            assert(calls_since(before, flash.spec_calls()) =~= Seq::<FlashCall<F::Error>>::empty());
        }
        Ok(len)
    }
}

/// The writes `ws`, made as calls in order with all but possibly the last
/// answered `Ok`, are word writes from `start` that hand over what `ws`
/// holds.
proof fn lemma_writes_as_calls<E>(ws: Seq<FlashWrite>, calls: Seq<FlashCall<E>>, start: int, word: int, n: int)
    requires
        0 <= n <= ws.len(),
        calls.len() == n,
        writes_in_order(ws, start, word),
        forall|k: int| 0 <= k < n ==> ((#[trigger] calls[k]) matches FlashCall::Write(offset, data, _)
            && offset == ws[k].offset && data == ws[k].data@),
    ensures
        word_writes(calls, start, word),
        written_data(calls) == write_data(ws.subrange(0, n)),
    decreases n,
{
    if n > 0 {
        lemma_writes_in_order_prefix(ws, start, word, n);
        lemma_writes_as_calls(ws, calls.drop_last(), start, word, n - 1);
        assert(ws.subrange(0, n).drop_last() =~= ws.subrange(0, n - 1));
    }
}

/// A prefix of writes in order is in order.
proof fn lemma_writes_in_order_prefix(ws: Seq<FlashWrite>, start: int, word: int, n: int)
    requires
        0 <= n <= ws.len(),
        writes_in_order(ws, start, word),
    ensures
        writes_in_order(ws.subrange(0, n), start, word),
    decreases ws.len() - n,
{
    if n < ws.len() {
        assert(ws.subrange(0, ws.len() - 1) == ws.drop_last());
        lemma_writes_in_order_prefix(ws.drop_last(), start, word, n);
        assert(ws.drop_last().subrange(0, n) =~= ws.subrange(0, n));
    } else {
        assert(ws.subrange(0, n) =~= ws);
    }
}

} // verus!
