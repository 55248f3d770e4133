//! The decoder as a mathematical state machine: its state, what the reader can
//! answer, and what the decoder does with each answer.

use vstd::prelude::*;
use crate::align::{lemma_align_up_bounds, padding_len};
use crate::frame::{is_complete, le_bytes, le_u32, lemma_le_bytes_of_le_u32, missing};

verus! {

/// Where the decoder stands in the frame it is reading.
#[derive(Debug, Clone, Copy, PartialEq, Eq, Structural)]
pub enum Phase {
    /// Between two frames: no read has begun and nothing is held.
    NotSuspended,
    /// A read of the length prefix has begun and is not whole.
    ReadingLength,
    /// The length is known and the read of the payload is not whole.
    ReadingPayload,
}

/// What the reader answered to a request for bytes.
#[verifier::ext_equal]
pub ghost enum Answer<E> {
    /// The bytes it produced; none at all means that the data has ended.
    Data(Seq<u8>),
    /// It has nothing for now.
    NotReady,
    /// It failed.
    Failed(E),
}

/// What the decoder asks of its caller after an answer.
#[verifier::ext_equal]
pub ghost enum Outcome<E> {
    /// Ask the reader for up to this many bytes and report its answer.
    Read(nat),
    /// Nothing more can be done now; the same request stands.
    Pending,
    /// A message is whole: let the reader skip `padding` bytes, then hand
    /// `payload` on.
    Frame { payload: Seq<u8>, padding: nat },
    /// The reader's failure, unchanged. No message follows.
    Failed(E),
    /// The data ended. No message follows.
    Finished,
}

/// The state of the decoder.
#[verifier::ext_equal]
pub ghost struct StreamView {
    /// The alignment unit of the medium.
    pub sector_size: nat,
    /// Whether a read is under way, and of what.
    pub phase: Phase,
    /// The bytes of the current frame that have arrived: prefix first, then
    /// payload.
    pub frame: Seq<u8>,
}

impl StreamView {
    /// The state of a decoder that has read nothing yet.
    pub open spec fn start(sector_size: nat) -> StreamView {
        StreamView { sector_size, phase: Phase::NotSuspended, frame: Seq::empty() }
    }

    /// The state between two frames.
    pub open spec fn idle(self) -> StreamView {
        StreamView {
            sector_size: self.sector_size,
            phase: Phase::NotSuspended,
            frame: Seq::empty(),
        }
    }

    /// What holds of every state that the decoder can be in: the sector size
    /// is positive, the phase fits the bytes held, and the part under way is
    /// never whole.
    pub open spec fn wf(self) -> bool {
        &&& self.sector_size > 0
        &&& match self.phase {
            Phase::NotSuspended => self.frame.len() == 0,
            Phase::ReadingLength => self.frame.len() < 4,
            Phase::ReadingPayload => 4 <= self.frame.len() < 4 + le_u32(self.frame),
        }
    }

    /// Bytes of the current frame taken from the reader so far.
    pub open spec fn read_bytes(self) -> nat {
        self.frame.len()
    }

    /// The payload length of the current frame, or 0 while none is known.
    pub open spec fn message_length(self) -> nat {
        if self.phase == Phase::ReadingPayload {
            le_u32(self.frame) as nat
        } else {
            0
        }
    }

    /// How many bytes the next read asks for.
    pub open spec fn wanted(self) -> nat {
        missing(self.frame) as nat
    }

    /// Whether `answer` can be the reader's reply to a request for
    /// `self.wanted()` bytes: it never produces more than it was asked for.
    pub open spec fn admits<E>(self, answer: Answer<E>) -> bool {
        answer matches Answer::Data(data) ==> data.len() <= self.wanted()
    }

    /// The state after `answer`.
    pub open spec fn next<E>(self, answer: Answer<E>) -> StreamView {
        match answer {
            Answer::NotReady => StreamView {
                sector_size: self.sector_size,
                phase: if self.phase == Phase::NotSuspended {
                    Phase::ReadingLength
                } else {
                    self.phase
                },
                frame: self.frame,
            },
            Answer::Failed(_) => self.idle(),
            Answer::Data(data) => {
                let got = self.frame + data;
                if data.len() == 0 || is_complete(got) {
                    self.idle()
                } else {
                    StreamView {
                        sector_size: self.sector_size,
                        phase: if got.len() < 4 {
                            Phase::ReadingLength
                        } else {
                            Phase::ReadingPayload
                        },
                        frame: got,
                    }
                }
            },
        }
    }

    /// What the decoder hands back after `answer`.
    pub open spec fn outcome<E>(self, answer: Answer<E>) -> Outcome<E> {
        match answer {
            Answer::NotReady => Outcome::Pending,
            Answer::Failed(e) => Outcome::Failed(e),
            Answer::Data(data) => {
                let got = self.frame + data;
                if data.len() == 0 {
                    Outcome::Finished
                } else if is_complete(got) {
                    Outcome::Frame {
                        payload: got.skip(4),
                        padding: padding_len(got.len() as int, self.sector_size as int) as nat,
                    }
                } else {
                    Outcome::Read(missing(got) as nat)
                }
            },
        }
    }
}

/// Every answer that the reader can give leads from a well-formed state to a
/// well-formed state: a buffer that is held is never whole, and the phase
/// always fits what is held.
pub proof fn lemma_next_wf<E>(state: StreamView, answer: Answer<E>)
    requires
        state.wf(),
        state.admits(answer),
    ensures
        state.next(answer).wf(),
        state.next(answer).sector_size == state.sector_size,
{
    if let Answer::Data(data) = answer {
        let got = state.frame + data;
        if state.frame.len() >= 4 {
            assert(le_u32(got) == le_u32(state.frame));
        }
    }
}

/// After an answer the decoder either asks for exactly what is still missing,
/// or it is back between two frames.
pub proof fn lemma_outcome_matches_state<E>(state: StreamView, answer: Answer<E>)
    requires
        state.wf(),
        state.admits(answer),
    ensures
        match state.outcome(answer) {
            Outcome::Read(count) => count == state.next(answer).wanted() && count > 0
                && state.next(answer).frame == state.frame + answer->Data_0,
            Outcome::Pending => state.next(answer).wanted() == state.wanted()
                && state.next(answer).frame == state.frame,
            _ => state.next(answer) == state.idle(),
        },
{
    if let Answer::Data(data) = answer {
        let got = state.frame + data;
        if state.frame.len() >= 4 {
            assert(le_u32(got) == le_u32(state.frame));
        }
    }
}

/// A reader that is not ready loses nothing: the answer that comes later has
/// the effect it would have had at once.
pub proof fn lemma_resume<E>(state: StreamView, answer: Answer<E>)
    requires
        state.wf(),
        state.admits(answer),
        !(answer is NotReady),
    ensures
        state.next(Answer::<E>::NotReady).admits(answer),
        state.next(Answer::<E>::NotReady).next(answer) == state.next(answer),
        state.next(Answer::<E>::NotReady).outcome(answer) == state.outcome(answer),
{
}

/// Bytes that arrive in two pieces, with the reader not ready in between,
/// have the effect of the same bytes arriving in one piece.
pub proof fn lemma_split_read<E>(state: StreamView, first: Seq<u8>, second: Seq<u8>)
    requires
        state.wf(),
        first.len() > 0,
        second.len() > 0,
        first.len() + second.len() <= state.wanted(),
    ensures
        state.outcome(Answer::<E>::Data(first)) == Outcome::<E>::Read(
            (state.wanted() - first.len()) as nat,
        ),
        state.next(Answer::<E>::Data(first)).next(Answer::<E>::NotReady).next(
            Answer::<E>::Data(second),
        ) == state.next(Answer::<E>::Data(first + second)),
        state.next(Answer::<E>::Data(first)).next(Answer::<E>::NotReady).outcome(
            Answer::<E>::Data(second),
        ) == state.outcome(Answer::<E>::Data(first + second)),
        state.next(Answer::<E>::Data(first)).next(Answer::<E>::Data(second)) == state.next(
            Answer::<E>::Data(first + second),
        ),
        state.next(Answer::<E>::Data(first)).outcome(Answer::<E>::Data(second))
            == state.outcome(Answer::<E>::Data(first + second)),
{
    let got = state.frame + first;
    assert(got + second =~= state.frame + (first + second));
    if state.frame.len() >= 4 {
        assert(le_u32(got) == le_u32(state.frame));
    }
}

/// When a frame is handed out, the bytes taken for it and the filler behind
/// it add up to a multiple of the sector size, and the filler is shorter than
/// one sector: the next frame begins on the nearest sector boundary.
pub proof fn lemma_frame_ends_aligned<E>(state: StreamView, answer: Answer<E>)
    requires
        state.wf(),
        state.admits(answer),
        state.outcome(answer) is Frame,
    ensures
        ({
            let payload = state.outcome(answer)->payload;
            let padding = state.outcome(answer)->padding;
            &&& answer is Data
            &&& state.frame + answer->Data_0 == le_bytes(payload.len() as int)
                + payload
            &&& payload.len() <= u32::MAX
            &&& (4 + payload.len() + padding) % state.sector_size == 0
            &&& padding < state.sector_size
            &&& padding == padding_len(4 + payload.len() as int, state.sector_size as int)
        }),
{
    let data = answer->Data_0;
    let got = state.frame + data;
    let payload = got.skip(4);
    lemma_align_up_bounds(got.len() as int, state.sector_size as int);
    lemma_le_bytes_of_le_u32(got);
    assert(got =~= got.subrange(0, 4) + payload);
}

} // verus!
