//! The decoder at work on a reader that holds a fixed run of bytes and hands
//! them out in pieces of any size, at any pace. Whatever the pieces and the
//! pace, the messages that come out are the ones that the bytes hold.

use vstd::prelude::*;
use crate::align::{lemma_align_up_bounds, padding_len};
use crate::frame::{
    decode, encode, fills, frame, frame_with, is_complete, le_bytes, le_u32,
    lemma_le_u32_of_le_bytes,
};
use crate::model::{lemma_next_wf, Answer, Outcome, StreamView};

verus! {

/// How the reader behaves at one request.
pub ghost enum Turn {
    /// It has nothing for now.
    NotReady,
    /// It hands out at most this many of the bytes that it still holds, and
    /// never more than it was asked for.
    Bytes(nat),
    /// It fails.
    Fail,
}

/// Whether a turn that hands out bytes hands out at least one, as long as
/// there is one: a reader produces no bytes only at the end of its data.
pub open spec fn turn_valid(turn: Turn) -> bool {
    turn matches Turn::Bytes(limit) ==> limit >= 1
}

/// Whether every turn is valid.
pub open spec fn turns_valid(turns: Seq<Turn>) -> bool {
    forall|i: int| 0 <= i < turns.len() ==> turn_valid(#[trigger] turns[i])
}

/// The smaller of two numbers.
pub open spec fn at_most(a: nat, b: nat) -> nat {
    if a <= b {
        a
    } else {
        b
    }
}

/// What a reader that still holds `unread` answers at `turn` to the request
/// that `state` makes.
pub open spec fn answer_at(state: StreamView, unread: Seq<u8>, turn: Turn) -> Answer<()> {
    match turn {
        Turn::NotReady => Answer::NotReady,
        Turn::Fail => Answer::Failed(()),
        Turn::Bytes(limit) => Answer::Data(
            unread.take(at_most(limit, at_most(state.wanted(), unread.len())) as int),
        ),
    }
}

/// What the reader still holds after `turn`: the bytes it handed out are
/// gone, and so is the filler behind a frame that became whole.
pub open spec fn unread_after(state: StreamView, unread: Seq<u8>, turn: Turn) -> Seq<u8> {
    let answer = answer_at(state, unread, turn);
    match answer {
        Answer::Data(data) => {
            let rest = unread.skip(data.len() as int);
            match state.outcome(answer) {
                Outcome::Frame { payload, padding } => if padding <= rest.len() {
                    rest.skip(padding as int)
                } else {
                    Seq::empty()
                },
                _ => rest,
            }
        },
        _ => unread,
    }
}

/// The messages that the decoder hands out, in order, when it starts in
/// `state` and the reader holds `unread` and behaves as `turns` say. Nothing
/// comes after a failure or the end of the data.
pub open spec fn emitted(state: StreamView, unread: Seq<u8>, turns: Seq<Turn>) -> Seq<Seq<u8>>
    decreases turns.len(),
{
    if turns.len() == 0 {
        Seq::empty()
    } else {
        let answer = answer_at(state, unread, turns[0]);
        let later = emitted(
            state.next(answer),
            unread_after(state, unread, turns[0]),
            turns.skip(1),
        );
        match state.outcome(answer) {
            Outcome::Frame { payload, padding } => seq![payload] + later,
            Outcome::Failed(_) => Seq::empty(),
            Outcome::Finished => Seq::empty(),
            _ => later,
        }
    }
}

/// Whether the decoder reaches the end of the data within `turns`.
pub open spec fn finished(state: StreamView, unread: Seq<u8>, turns: Seq<Turn>) -> bool
    decreases turns.len(),
{
    if turns.len() == 0 {
        false
    } else {
        let answer = answer_at(state, unread, turns[0]);
        match state.outcome(answer) {
            Outcome::Failed(_) => false,
            Outcome::Finished => true,
            _ => finished(state.next(answer), unread_after(state, unread, turns[0]), turns.skip(1)),
        }
    }
}

/// One turn of the reader changes what is still to be decoded in step with
/// what the decoder hands back: a frame that is handed out is the first one
/// that the bytes hold, the end of the data finds no whole frame left, and a
/// request for more bytes or a reader that is not ready leaves all of it to
/// come.
pub proof fn lemma_turn_is_decoded(state: StreamView, unread: Seq<u8>, turn: Turn)
    requires
        state.wf(),
        turn_valid(turn),
    ensures
        ({
            let answer = answer_at(state, unread, turn);
            let sector = state.sector_size as int;
            let before = decode(state.frame + unread, sector);
            let after = decode(
                state.next(answer).frame + unread_after(state, unread, turn),
                sector,
            );
            &&& state.admits(answer)
            &&& match state.outcome(answer) {
                Outcome::Frame { payload, padding } => before == seq![payload] + after,
                Outcome::Finished => before == Seq::<Seq<u8>>::empty(),
                Outcome::Failed(_) => true,
                _ => before == after,
            }
        }),
{
    let sector = state.sector_size as int;
    let whole = state.frame + unread;
    let answer = answer_at(state, unread, turn);
    let next = state.next(answer);
    let rest = unread_after(state, unread, turn);
    match answer {
        Answer::NotReady => {
            assert(next.frame + rest =~= whole);
        },
        Answer::Failed(_) => {},
        Answer::Data(data) => {
            if data.len() == 0 {
                assert(unread.len() == 0);
                assert(whole =~= state.frame);
            } else {
                let got = state.frame + data;
                let tail = unread.skip(data.len() as int);
                assert(whole =~= got + tail);
                if state.frame.len() >= 4 {
                    assert(le_u32(got) == le_u32(state.frame));
                }
                if is_complete(got) {
                    lemma_whole_frame_is_decoded(got, tail, sector);
                    assert(next.frame + rest =~= rest);
                } else {
                    assert(next.frame + rest =~= whole);
                }
            }
        },
    }
}

/// Bytes that begin with a prefix and the whole payload that it announces
/// decode to that payload, and then to what lies behind the filler.
proof fn lemma_whole_frame_is_decoded(got: Seq<u8>, tail: Seq<u8>, sector: int)
    requires
        is_complete(got),
        sector > 0,
    ensures
        ({
            let padding = padding_len(got.len() as int, sector);
            let rest = if padding <= tail.len() {
                tail.skip(padding)
            } else {
                Seq::empty()
            };
            &&& padding >= 0
            &&& decode(got + tail, sector) == seq![got.skip(4)] + decode(rest, sector)
        }),
{
    let whole = got + tail;
    let len = le_u32(got);
    let padding = padding_len(got.len() as int, sector);
    lemma_align_up_bounds(got.len() as int, sector);
    assert(le_u32(whole) == len);
    assert(whole.subrange(4, 4 + len) =~= got.skip(4));
    let end = 4 + len + padding;
    if end <= whole.len() {
        assert(whole.skip(end) =~= tail.skip(padding));
    }
}

/// The bytes of the current frame that have arrived, followed by what the
/// reader still holds, decide what comes out: at any pace and in pieces of
/// any size the decoder hands out a beginning of the messages that those bytes
/// hold, and all of them once it has reached the end of the data. No message
/// is lost, none comes twice, and none is changed by a reader that was not
/// ready.
pub proof fn lemma_emitted_is_decoded(state: StreamView, unread: Seq<u8>, turns: Seq<Turn>)
    requires
        state.wf(),
        turns_valid(turns),
    ensures
        emitted(state, unread, turns).is_prefix_of(
            decode(state.frame + unread, state.sector_size as int),
        ),
        finished(state, unread, turns) ==> emitted(state, unread, turns) == decode(
            state.frame + unread,
            state.sector_size as int,
        ),
    decreases turns.len(),
{
    let sector = state.sector_size as int;
    let before = decode(state.frame + unread, sector);
    let out = emitted(state, unread, turns);
    if turns.len() == 0 {
        assert(out =~= before.subrange(0, 0));
    } else {
        let turn = turns[0];
        let answer = answer_at(state, unread, turn);
        let next = state.next(answer);
        let rest = unread_after(state, unread, turn);
        let later_turns = turns.skip(1);
        assert(turns_valid(later_turns)) by {
            assert forall|i: int| 0 <= i < later_turns.len() implies turn_valid(
                #[trigger] later_turns[i],
            ) by {
                assert(later_turns[i] == turns[i + 1]);
            }
        }
        lemma_turn_is_decoded(state, unread, turn);
        lemma_next_wf(state, answer);
        lemma_emitted_is_decoded(next, rest, later_turns);
        let later = emitted(next, rest, later_turns);
        let after = decode(next.frame + rest, sector);
        match state.outcome(answer) {
            Outcome::Frame { payload, padding } => {
                assert(out == seq![payload] + later);
                assert(out =~= (seq![payload] + after).subrange(0, out.len() as int));
            },
            Outcome::Finished => {
                assert(out =~= before.subrange(0, 0));
            },
            Outcome::Failed(_) => {
                assert(out =~= before.subrange(0, 0));
            },
            _ => {},
        }
    }
}

/// Whether every turn hands out bytes.
pub open spec fn turns_steady(turns: Seq<Turn>) -> bool {
    forall|i: int| 0 <= i < turns.len() ==> (#[trigger] turns[i]) is Bytes
}

/// A reader that is always ready and never fails brings the decoder to the
/// end of the data: one turn for each byte that it holds, and one more, are
/// enough.
pub proof fn lemma_steady_reader_finishes(state: StreamView, unread: Seq<u8>, turns: Seq<Turn>)
    requires
        state.wf(),
        turns_valid(turns),
        turns_steady(turns),
        turns.len() > unread.len(),
    ensures
        finished(state, unread, turns),
    decreases turns.len(),
{
    let turn = turns[0];
    let answer = answer_at(state, unread, turn);
    let next = state.next(answer);
    let rest = unread_after(state, unread, turn);
    let later_turns = turns.skip(1);
    assert(turn is Bytes);
    if unread.len() > 0 {
        let data = answer->Data_0;
        assert(data.len() >= 1);
        assert(rest.len() < unread.len());
        assert(turns_valid(later_turns) && turns_steady(later_turns)) by {
            assert forall|i: int| 0 <= i < later_turns.len() implies (#[trigger] later_turns[i])
                is Bytes && turn_valid(later_turns[i]) by {
                assert(later_turns[i] == turns[i + 1]);
            }
        }
        lemma_next_wf(state, answer);
        lemma_steady_reader_finishes(next, rest, later_turns);
    }
}

/// The pace of the reader and the size of its pieces do not show in what is
/// decoded: two readers over the same bytes that both reach the end of the
/// data give the same messages.
pub proof fn lemma_pace_does_not_matter(
    state: StreamView,
    unread: Seq<u8>,
    turns: Seq<Turn>,
    other_turns: Seq<Turn>,
)
    requires
        state.wf(),
        turns_valid(turns),
        turns_valid(other_turns),
        finished(state, unread, turns),
        finished(state, unread, other_turns),
    ensures
        emitted(state, unread, turns) == emitted(state, unread, other_turns),
{
    lemma_emitted_is_decoded(state, unread, turns);
    lemma_emitted_is_decoded(state, unread, other_turns);
}

/// A frame at the head of the bytes decodes to its payload, whatever its
/// filler holds, and decoding goes on behind the filler.
pub proof fn lemma_decode_frame(
    payload: Seq<u8>,
    filler: Seq<u8>,
    rest: Seq<u8>,
    sector_size: int,
)
    requires
        payload.len() <= u32::MAX,
        sector_size > 0,
        fills(payload, filler, sector_size),
    ensures
        decode(frame_with(payload, filler) + rest, sector_size) == seq![payload] + decode(
            rest,
            sector_size,
        ),
{
    let len = payload.len() as int;
    let head = frame_with(payload, filler);
    let bytes = head + rest;
    lemma_le_u32_of_le_bytes(len);
    lemma_align_up_bounds(4 + len, sector_size);
    assert(le_u32(bytes) == le_u32(le_bytes(len)));
    assert(bytes.subrange(4, 4 + len) =~= payload);
    let end = 4 + len + padding_len(4 + len, sector_size);
    assert(end == head.len());
    assert(bytes.skip(end) =~= rest);
}

/// Decoding the frames of a sequence of messages gives the messages back, in
/// order.
pub proof fn lemma_decode_encode(messages: Seq<Seq<u8>>, sector_size: int)
    requires
        sector_size > 0,
        forall|i: int| 0 <= i < messages.len() ==> (#[trigger] messages[i]).len() <= u32::MAX,
    ensures
        decode(encode(messages, sector_size), sector_size) == messages,
    decreases messages.len(),
{
    if messages.len() == 0 {
        assert(decode(encode(messages, sector_size), sector_size) =~= messages);
    } else {
        let first = messages[0];
        let others = messages.skip(1);
        assert forall|i: int| 0 <= i < others.len() implies (#[trigger] others[i]).len()
            <= u32::MAX by {
            assert(others[i] == messages[i + 1]);
        }
        lemma_decode_encode(others, sector_size);
        let filler = Seq::new(
            padding_len(4 + first.len() as int, sector_size) as nat,
            |i: int| 0u8,
        );
        lemma_align_up_bounds(4 + first.len() as int, sector_size);
        lemma_decode_frame(first, filler, encode(others, sector_size), sector_size);
        assert(frame(first, sector_size) == frame_with(first, filler));
        assert(seq![first] + others =~= messages);
    }
}

/// Messages that are written as frames and read back through the decoder
/// come out as they went in, in order: at any pace of the reader the decoder
/// hands out a beginning of them, and all of them once it has reached the end
/// of the data.
pub proof fn lemma_round_trip(messages: Seq<Seq<u8>>, sector_size: nat, turns: Seq<Turn>)
    requires
        sector_size > 0,
        forall|i: int| 0 <= i < messages.len() ==> (#[trigger] messages[i]).len() <= u32::MAX,
        turns_valid(turns),
    ensures
        emitted(
            StreamView::start(sector_size),
            encode(messages, sector_size as int),
            turns,
        ).is_prefix_of(messages),
        finished(StreamView::start(sector_size), encode(messages, sector_size as int), turns)
            ==> emitted(
            StreamView::start(sector_size),
            encode(messages, sector_size as int),
            turns,
        ) == messages,
{
    let state = StreamView::start(sector_size);
    let bytes = encode(messages, sector_size as int);
    lemma_emitted_is_decoded(state, bytes, turns);
    lemma_decode_encode(messages, sector_size as int);
    assert(state.frame + bytes =~= bytes);
}

/// A frame with an empty payload is a message like any other: it decodes to
/// the empty payload, and decoding goes on behind its filler.
pub proof fn lemma_empty_payload(filler: Seq<u8>, rest: Seq<u8>, sector_size: int)
    requires
        sector_size > 0,
        fills(Seq::empty(), filler, sector_size),
    ensures
        (4 + filler.len() as int) % sector_size == 0,
        decode(frame_with(Seq::empty(), filler) + rest, sector_size) == seq![Seq::<u8>::empty()]
            + decode(rest, sector_size),
{
    lemma_align_up_bounds(4, sector_size);
    lemma_decode_frame(Seq::empty(), filler, rest, sector_size);
}

/// Bytes that end inside a length prefix or inside a payload end the sequence
/// without a failure: a reader that is always ready brings the decoder to the
/// end of the data, and no message comes out of the part that was cut off.
pub proof fn lemma_cut_off_frame(sector_size: nat, unread: Seq<u8>, turns: Seq<Turn>)
    requires
        sector_size > 0,
        unread.len() < 4 || unread.len() < 4 + le_u32(unread),
        turns_valid(turns),
        turns_steady(turns),
        turns.len() > unread.len(),
    ensures
        finished(StreamView::start(sector_size), unread, turns),
        emitted(StreamView::start(sector_size), unread, turns) == Seq::<Seq<u8>>::empty(),
{
    let state = StreamView::start(sector_size);
    lemma_steady_reader_finishes(state, unread, turns);
    lemma_emitted_is_decoded(state, unread, turns);
    assert(state.frame + unread =~= unread);
}

} // verus!
