//! The decoder itself: it holds what has arrived of the current frame and
//! turns each answer of the reader into the next thing to do.

use vstd::prelude::*;
use crate::align::{lemma_align_up_bounds, lemma_align_up_least, padding_len, val_align_up};
use crate::frame::{decode_length, le_bytes, lemma_le_bytes_of_le_u32, lemma_le_u32_of_le_bytes};
use crate::model::{Answer, Outcome, Phase, StreamView};

verus! {

/// What the reader answered to the last request for bytes.
#[derive(Debug, PartialEq, Eq)]
pub enum ReadEvent<E> {
    /// The bytes that the reader produced. No bytes at all: the data has ended.
    Data(Vec<u8>),
    /// The reader has nothing for now.
    NotReady,
    /// The reader failed.
    Failed(E),
}

impl<E> View for ReadEvent<E> {
    type V = Answer<E>;

    open spec fn view(&self) -> Answer<E> {
        match *self {
            ReadEvent::Data(data) => Answer::Data(data@),
            ReadEvent::NotReady => Answer::NotReady,
            ReadEvent::Failed(e) => Answer::Failed(e),
        }
    }
}

/// What the caller is to do next.
#[derive(Debug, PartialEq, Eq)]
pub enum Step<E> {
    /// Ask the reader for up to this many bytes and report its answer.
    Read(usize),
    /// Try again later, with the same request. What has arrived is kept.
    Pending,
    /// A message is whole: let the reader skip `padding` bytes, then hand
    /// `payload` on.
    Frame { payload: Vec<u8>, padding: u64 },
    /// The reader's failure, as it came. No message follows.
    Failed(E),
    /// The data has ended. No message follows.
    Finished,
}

impl<E> View for Step<E> {
    type V = Outcome<E>;

    open spec fn view(&self) -> Outcome<E> {
        match *self {
            Step::Read(n) => Outcome::Read(n as nat),
            Step::Pending => Outcome::Pending,
            Step::Frame { payload, padding } => Outcome::Frame {
                payload: payload@,
                padding: padding as nat,
            },
            Step::Failed(e) => Outcome::Failed(e),
            Step::Finished => Outcome::Finished,
        }
    }
}

/// Which part of a frame an unfinished read is for.
#[derive(Debug, Clone, Copy)]
enum Reading {
    Length,
    Message,
}

/// An unfinished read: its part, how many bytes of the buffer are valid, and
/// the buffer, which has the full length of the part.
#[derive(Debug)]
enum State {
    Ready,
    Pending(Reading, usize, Vec<u8>),
}

impl State {
    spec fn wf(self) -> bool {
        match self {
            State::Ready => true,
            State::Pending(Reading::Length, valid, buf) => buf.len() == 4 && valid < 4,
            State::Pending(Reading::Message, valid, buf) => buf.len() <= u32::MAX && valid
                < buf.len(),
        }
    }

    spec fn phase(self) -> Phase {
        match self {
            State::Ready => Phase::NotSuspended,
            State::Pending(Reading::Length, _, _) => Phase::ReadingLength,
            State::Pending(Reading::Message, _, _) => Phase::ReadingPayload,
        }
    }

    spec fn frame(self) -> Seq<u8> {
        match self {
            State::Ready => Seq::empty(),
            State::Pending(Reading::Length, valid, buf) => buf@.take(valid as int),
            State::Pending(Reading::Message, valid, buf) => le_bytes(buf.len() as int) + buf@.take(
                valid as int,
            ),
        }
    }
}

/// A decoder of length-prefixed frames that can stop and go on at any byte.
#[derive(Debug)]
pub struct MessageStream {
    sector_size: u64,
    read_bytes: u64,
    message_length: u32,
    state: State,
}

impl View for MessageStream {
    type V = StreamView;

    closed spec fn view(&self) -> StreamView {
        StreamView {
            sector_size: self.sector_size as nat,
            phase: self.state.phase(),
            frame: self.state.frame(),
        }
    }
}

/// Writes `data` into `buf` from index `offset` on.
fn copy_into(buf: &mut Vec<u8>, offset: usize, data: &Vec<u8>)
    requires
        offset + data.len() <= old(buf).len(),
    ensures
        final(buf).len() == old(buf).len(),
        final(buf)@.take(offset + data.len()) == old(buf)@.take(offset as int) + data@,
{
    let ghost before = buf@;
    let mut i: usize = 0;
    while i < data.len()
        invariant
            i <= data.len(),
            buf.len() == before.len(),
            offset + data.len() <= buf.len(),
            forall|j: int| 0 <= j < offset ==> buf@[j] == before[j],
            forall|j: int| 0 <= j < i ==> buf@[offset + j] == data@[j],
        decreases data.len() - i,
    {
        buf.set(offset + i, data[i]);
        i += 1;
    }
    assert(buf@.take(offset + data.len()) =~= before.take(offset as int) + data@);
}

impl MessageStream {
    /// What holds of every decoder: see [`StreamView::wf`]; the two counters
    /// agree with the bytes held.
    pub closed spec fn wf(&self) -> bool {
        &&& self.sector_size > 0
        &&& self.state.wf()
        &&& self.read_bytes == self@.read_bytes()
        &&& self.message_length == self@.message_length()
    }

    /// A well-formed decoder has a well-formed state.
    pub proof fn lemma_view_wf(&self)
        requires
            self.wf(),
        ensures
            self@.wf(),
    {
        match self.state {
            State::Pending(Reading::Message, valid, buf) => {
                lemma_le_u32_of_le_bytes(buf.len() as int);
            },
            _ => {},
        }
    }

    /// A decoder for a medium with sectors of `sector_size` bytes, at the
    /// start of the first frame.
    pub fn new(sector_size: u64) -> (stream: MessageStream)
        requires
            sector_size > 0,
        ensures
            stream.wf(),
            stream@ == StreamView::start(sector_size as nat),
    {
        MessageStream { sector_size, read_bytes: 0, message_length: 0, state: State::Ready }
    }

    /// The alignment unit that the decoder was made with.
    pub fn sector_size(&self) -> (size: u64)
        ensures
            size == self@.sector_size,
    {
        self.sector_size
    }

    /// Bytes of the current frame taken from the reader so far; 0 between
    /// frames.
    pub fn read_bytes(&self) -> (count: u64)
        requires
            self.wf(),
        ensures
            count == self@.read_bytes(),
    {
        self.read_bytes
    }

    /// The payload length of the frame whose payload is being read, else 0.
    pub fn message_length(&self) -> (length: u32)
        requires
            self.wf(),
        ensures
            length == self@.message_length(),
    {
        self.message_length
    }

    /// Whether a read is under way, and of which part.
    pub fn phase(&self) -> (phase: Phase)
        ensures
            phase == self@.phase,
    {
        match &self.state {
            State::Ready => Phase::NotSuspended,
            State::Pending(Reading::Length, _, _) => Phase::ReadingLength,
            State::Pending(Reading::Message, _, _) => Phase::ReadingPayload,
        }
    }

    /// How many bytes to ask the reader for: what is missing of the part
    /// under way, or a whole length prefix between frames.
    pub fn wanted(&self) -> (count: usize)
        requires
            self.wf(),
        ensures
            count == self@.wanted(),
            count > 0,
    {
        proof {
            self.lemma_view_wf();
        }
        match &self.state {
            State::Ready => 4,
            State::Pending(Reading::Length, valid, buf) => 4 - *valid,
            State::Pending(Reading::Message, valid, buf) => {
                proof {
                    lemma_le_u32_of_le_bytes(buf.len() as int);
                }
                buf.len() - *valid
            },
        }
    }

    /// Ends the current frame: works out the filler behind a payload of this
    /// length and returns to the state between frames.
    fn finish<E>(&mut self, payload: Vec<u8>) -> (step: Step<E>)
        requires
            old(self).sector_size > 0,
            payload.len() <= u32::MAX,
        ensures
            final(self).wf(),
            final(self)@ == old(self)@.idle(),
            step@ == (Outcome::<E>::Frame {
                payload: payload@,
                padding: padding_len(4 + payload.len(), old(self).sector_size as int) as nat,
            }),
    {
        let total: u64 = payload.len() as u64 + 4;
        proof {
            let t = total as int;
            let s = self.sector_size as int;
            lemma_align_up_bounds(t, s);
            if t <= s {
                vstd::arithmetic::div_mod::lemma_mod_self_0(s);
                lemma_align_up_least(t, s, s);
            }
        }
        let aligned: u64 = val_align_up(total, self.sector_size);
        let padding: u64 = aligned - total;
        self.read_bytes = 0;
        self.message_length = 0;
        self.state = State::Ready;
        Step::Frame { payload, padding }
    }

    /// Takes the reader's answer to the last request and says what to do
    /// next.
    ///
    /// Bytes that arrive are added to the part under way. When the length
    /// prefix is whole, the payload is read next; when the payload is whole
    /// (at once, if its length is 0), the frame is handed out together with
    /// the number of filler bytes behind it. A reader that is not ready
    /// changes nothing that was received. The end of the data and a failure of
    /// the reader both end the sequence and drop an unfinished frame. The end
    /// of the data is reported in one way wherever it falls; a caller that
    /// wants to know whether it cut a frame short reads [`Self::read_bytes`]
    /// before it hands the answer in.
    pub fn poll_next<E>(&mut self, event: ReadEvent<E>) -> (step: Step<E>)
        requires
            old(self).wf(),
            old(self)@.admits(event@),
        ensures
            final(self).wf(),
            final(self)@.wf(),
            final(self)@ == old(self)@.next(event@),
            step@ == old(self)@.outcome(event@),
    {
        proof {
            self.lemma_view_wf();
        }
        let ghost before = self@;
        let mut state = State::Ready;
        core::mem::swap(&mut self.state, &mut state);
        let (reading, valid, mut buf) = match state {
            State::Ready => (Reading::Length, 0usize, vec![0u8; 4]),
            State::Pending(reading, valid, buf) => (reading, valid, buf),
        };
        assert(State::Pending(reading, valid, buf).frame() == before.frame);
        proof {
            if let Reading::Message = reading {
                lemma_le_u32_of_le_bytes(buf.len() as int);
            }
        }
        let step = match event {
            ReadEvent::NotReady => {
                self.state = State::Pending(reading, valid, buf);
                Step::Pending
            },
            ReadEvent::Failed(e) => {
                self.read_bytes = 0;
                self.message_length = 0;
                Step::Failed(e)
            },
            ReadEvent::Data(data) => {
                let n: usize = data.len();
                if n == 0 {
                    self.read_bytes = 0;
                    self.message_length = 0;
                    Step::Finished
                } else {
                    copy_into(&mut buf, valid, &data);
                    let filled: usize = valid + n;
                    let ghost got = before.frame + data@;
                    assert(State::Pending(reading, filled, buf).frame() =~= got);
                    if filled < buf.len() {
                        let rest: usize = buf.len() - filled;
                        self.read_bytes = self.read_bytes + n as u64;
                        self.state = State::Pending(reading, filled, buf);
                        Step::Read(rest)
                    } else {
                        match reading {
                            Reading::Length => {
                                assert(buf@ =~= got);
                                let length: u32 = decode_length(buf.as_slice());
                                if length == 0 {
                                    assert(got.skip(4) =~= Seq::<u8>::empty());
                                    self.finish(Vec::new())
                                } else {
                                    self.read_bytes = 4;
                                    self.message_length = length;
                                    let payload: Vec<u8> = vec![0u8; length as usize];
                                    proof {
                                        lemma_le_bytes_of_le_u32(got);
                                        assert(got.subrange(0, 4) =~= got);
                                        assert(State::Pending(Reading::Message, 0, payload).frame()
                                            =~= got);
                                    }
                                    self.state = State::Pending(Reading::Message, 0, payload);
                                    Step::Read(length as usize)
                                }
                            },
                            Reading::Message => {
                                assert(got.skip(4) =~= buf@);
                                self.finish(buf)
                            },
                        }
                    }
                }
            },
        };
        proof {
            self.lemma_view_wf();
        }
        step
    }
}

} // verus!
