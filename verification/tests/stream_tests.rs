use message_stream::align::val_align_up;
use message_stream::frame::decode_length;
use message_stream::model::Phase;
use message_stream::stream::{MessageStream, ReadEvent, Step};

/// How the reader of a test behaves at one request.
#[derive(Clone, Copy)]
enum Turn {
    NotReady,
    Bytes(usize),
}

/// A reader over bytes in memory that follows a list of turns and is always
/// ready once the list is used up.
struct Reader {
    data: Vec<u8>,
    pos: usize,
    turns: Vec<Turn>,
    next_turn: usize,
    requests: Vec<(usize, usize)>,
}

impl Reader {
    fn new(data: Vec<u8>, turns: Vec<Turn>) -> Reader {
        Reader { data, pos: 0, turns, next_turn: 0, requests: Vec::new() }
    }

    fn read(&mut self, wanted: usize) -> ReadEvent<String> {
        self.requests.push((self.pos, wanted));
        let turn = if self.next_turn < self.turns.len() {
            self.turns[self.next_turn]
        } else {
            Turn::Bytes(usize::MAX)
        };
        self.next_turn += 1;
        match turn {
            Turn::NotReady => ReadEvent::NotReady,
            Turn::Bytes(limit) => {
                let n = limit.min(wanted).min(self.data.len() - self.pos);
                let bytes = self.data[self.pos..self.pos + n].to_vec();
                self.pos += n;
                ReadEvent::Data(bytes)
            }
        }
    }

    fn skip(&mut self, count: u64) {
        let left = (self.data.len() - self.pos) as u64;
        self.pos += count.min(left) as usize;
    }
}

/// One poll of the stream: reads until the decoder has something to report.
fn poll(stream: &mut MessageStream, reader: &mut Reader) -> Step<String> {
    let mut wanted = stream.wanted();
    loop {
        let event = reader.read(wanted);
        match stream.poll_next(event) {
            Step::Read(more) => wanted = more,
            Step::Frame { payload, padding } => {
                reader.skip(padding);
                return Step::Frame { payload, padding };
            }
            other => return other,
        }
    }
}

/// Polls until the sequence ends and returns the payloads; a reader that is
/// not ready is polled again.
fn collect(stream: &mut MessageStream, reader: &mut Reader) -> Vec<Vec<u8>> {
    let mut out = Vec::new();
    loop {
        match poll(stream, reader) {
            Step::Frame { payload, .. } => out.push(payload),
            Step::Pending => {}
            Step::Finished => return out,
            other => panic!("unexpected step {:?}", other),
        }
    }
}

fn frame(payload: &[u8], sector_size: u64) -> Vec<u8> {
    let mut bytes = (payload.len() as u32).to_le_bytes().to_vec();
    bytes.extend_from_slice(payload);
    while bytes.len() as u64 % sector_size != 0 {
        bytes.push(0xEE);
    }
    bytes
}

fn encode(messages: &[Vec<u8>], sector_size: u64) -> Vec<u8> {
    let mut bytes = Vec::new();
    for m in messages {
        bytes.extend(frame(m, sector_size));
    }
    bytes
}

fn payload_of(len: usize, seed: u8) -> Vec<u8> {
    (0..len).map(|i| (i as u8).wrapping_mul(31).wrapping_add(seed)).collect()
}

#[test]
fn new_stream_is_between_frames() {
    let stream = MessageStream::new(4096);
    assert_eq!(stream.sector_size(), 4096);
    assert_eq!(stream.read_bytes(), 0);
    assert_eq!(stream.message_length(), 0);
    assert_eq!(stream.phase(), Phase::NotSuspended);
    assert_eq!(stream.wanted(), 4);
}

#[test]
fn align_up_exact_values() {
    assert_eq!(val_align_up(0, 512), 0);
    assert_eq!(val_align_up(1, 512), 512);
    assert_eq!(val_align_up(14, 512), 512);
    assert_eq!(val_align_up(512, 512), 512);
    assert_eq!(val_align_up(513, 512), 1024);
    assert_eq!(val_align_up(4097, 4096), 8192);
    assert_eq!(val_align_up(13, 1), 13);
    assert_eq!(val_align_up(13, 7), 14);
    assert_eq!(val_align_up(9, u64::MAX), u64::MAX);
    assert_eq!(val_align_up(u64::MAX, 1), u64::MAX);
}

#[test]
fn align_up_matches_the_formula() {
    for align in [1u64, 2, 3, 7, 512, 4096] {
        for value in 0u64..10_000 {
            let expected = ((value + align - 1) / align) * align;
            assert_eq!(val_align_up(value, align), expected);
        }
    }
}

#[test]
fn length_prefix_is_little_endian() {
    assert_eq!(decode_length(&[0x78, 0x56, 0x34, 0x12]), 0x1234_5678);
    assert_eq!(decode_length(&[10, 0, 0, 0]), 10);
    assert_eq!(decode_length(&[0, 1, 0, 0]), 256);
    assert_eq!(decode_length(&[0, 0, 0, 1]), 16_777_216);
    assert_eq!(decode_length(&[255, 255, 255, 255]), u32::MAX);
    assert_eq!(decode_length(&[0, 0, 0, 0]), 0);
}

#[test]
fn two_frames_in_sectors_of_512() {
    let first = payload_of(10, 1);
    let second = payload_of(5, 2);
    let mut bytes = frame(&first, 512);
    assert_eq!(bytes.len(), 512);
    bytes.extend(frame(&second, 512));
    let mut reader = Reader::new(bytes, vec![]);
    let mut stream = MessageStream::new(512);

    assert_eq!(poll(&mut stream, &mut reader), Step::Frame { payload: first, padding: 498 });
    assert_eq!(reader.pos, 512);
    assert_eq!(stream.phase(), Phase::NotSuspended);

    assert_eq!(poll(&mut stream, &mut reader), Step::Frame { payload: second, padding: 503 });
    assert_eq!(reader.pos, 1024);
    assert_eq!(poll(&mut stream, &mut reader), Step::Finished);

    // the reads of the second frame begin at offset 512
    assert_eq!(reader.requests, vec![(0, 4), (4, 10), (512, 4), (516, 5), (1024, 4)]);
}

#[test]
fn second_frame_without_its_filler_is_still_read() {
    let mut bytes = frame(&[7u8; 10], 512);
    bytes.extend_from_slice(&[5, 0, 0, 0, 1, 2, 3, 4, 5]);
    let mut reader = Reader::new(bytes, vec![]);
    let mut stream = MessageStream::new(512);
    assert_eq!(collect(&mut stream, &mut reader), vec![vec![7u8; 10], vec![1, 2, 3, 4, 5]]);
}

#[test]
fn empty_payload_is_a_message() {
    let mut stream = MessageStream::new(512);
    let step: Step<String> = stream.poll_next(ReadEvent::Data(vec![0, 0, 0, 0]));
    assert_eq!(step, Step::Frame { payload: vec![], padding: 508 });
    assert_eq!(stream.phase(), Phase::NotSuspended);
    assert_eq!(stream.read_bytes(), 0);
    assert_eq!(stream.message_length(), 0);
}

#[test]
fn empty_payloads_between_others() {
    let messages = vec![vec![], payload_of(3, 9), vec![], vec![]];
    let mut reader = Reader::new(encode(&messages, 16), vec![]);
    let mut stream = MessageStream::new(16);
    assert_eq!(collect(&mut stream, &mut reader), messages);
    assert_eq!(reader.pos, 64);
}

#[test]
fn half_a_length_prefix_ends_the_sequence() {
    let mut reader = Reader::new(vec![10, 0], vec![]);
    let mut stream = MessageStream::new(512);
    assert_eq!(poll(&mut stream, &mut reader), Step::Finished);
    assert_eq!(stream.phase(), Phase::NotSuspended);
    assert_eq!(stream.read_bytes(), 0);
}

#[test]
fn half_a_trailing_prefix_after_a_frame() {
    let mut bytes = frame(&[1, 2, 3], 8);
    bytes.extend_from_slice(&[9, 0]);
    let mut reader = Reader::new(bytes, vec![]);
    let mut stream = MessageStream::new(8);
    assert_eq!(poll(&mut stream, &mut reader), Step::Frame { payload: vec![1, 2, 3], padding: 1 });
    assert_eq!(poll(&mut stream, &mut reader), Step::Finished);
}

#[test]
fn end_of_data_in_the_payload_ends_the_sequence() {
    let mut reader = Reader::new(vec![10, 0, 0, 0, 1, 2, 3], vec![]);
    let mut stream = MessageStream::new(512);
    assert_eq!(poll(&mut stream, &mut reader), Step::Finished);
    assert_eq!(stream.phase(), Phase::NotSuspended);
    assert_eq!(stream.message_length(), 0);
}

#[test]
fn end_of_data_between_frames_ends_the_sequence() {
    let mut stream = MessageStream::new(512);
    let step: Step<String> = stream.poll_next(ReadEvent::Data(vec![]));
    assert_eq!(step, Step::Finished);
}

#[test]
fn failure_is_handed_on_as_it_came() {
    let mut stream = MessageStream::new(512);
    assert_eq!(stream.poll_next(ReadEvent::Data(vec![10, 0, 0, 0])), Step::<String>::Read(10));
    assert_eq!(stream.poll_next(ReadEvent::Data(vec![1, 2])), Step::<String>::Read(8));
    let step = stream.poll_next(ReadEvent::Failed(String::from("disk on fire")));
    assert_eq!(step, Step::Failed(String::from("disk on fire")));
    assert_eq!(stream.phase(), Phase::NotSuspended);
    assert_eq!(stream.read_bytes(), 0);
    assert_eq!(stream.message_length(), 0);
    assert_eq!(stream.wanted(), 4);
}

#[test]
fn failure_between_frames() {
    let mut stream = MessageStream::new(512);
    assert_eq!(stream.poll_next(ReadEvent::Failed(17u32)), Step::Failed(17u32));
    assert_eq!(stream.phase(), Phase::NotSuspended);
}

#[test]
fn not_ready_between_frames_begins_a_length_read() {
    let mut stream = MessageStream::new(512);
    let step: Step<String> = stream.poll_next(ReadEvent::NotReady);
    assert_eq!(step, Step::Pending);
    assert_eq!(stream.phase(), Phase::ReadingLength);
    assert_eq!(stream.read_bytes(), 0);
    assert_eq!(stream.wanted(), 4);
}

#[test]
fn counters_follow_the_frame() {
    let mut stream = MessageStream::new(512);
    assert_eq!(stream.poll_next(ReadEvent::Data(vec![10])), Step::<String>::Read(3));
    assert_eq!(stream.phase(), Phase::ReadingLength);
    assert_eq!(stream.read_bytes(), 1);
    assert_eq!(stream.message_length(), 0);
    assert_eq!(stream.wanted(), 3);

    assert_eq!(stream.poll_next(ReadEvent::Data(vec![0, 0, 0])), Step::<String>::Read(10));
    assert_eq!(stream.phase(), Phase::ReadingPayload);
    assert_eq!(stream.read_bytes(), 4);
    assert_eq!(stream.message_length(), 10);
    assert_eq!(stream.wanted(), 10);

    assert_eq!(stream.poll_next(ReadEvent::Data(vec![1, 2, 3])), Step::<String>::Read(7));
    assert_eq!(stream.read_bytes(), 7);
    assert_eq!(stream.message_length(), 10);
    assert_eq!(stream.poll_next(ReadEvent::NotReady), Step::<String>::Pending);
    assert_eq!(stream.phase(), Phase::ReadingPayload);
    assert_eq!(stream.read_bytes(), 7);
    assert_eq!(stream.wanted(), 7);

    assert_eq!(
        stream.poll_next(ReadEvent::Data(vec![4, 5, 6, 7, 8, 9, 10])),
        Step::<String>::Frame { payload: vec![1, 2, 3, 4, 5, 6, 7, 8, 9, 10], padding: 498 }
    );
    assert_eq!(stream.phase(), Phase::NotSuspended);
    assert_eq!(stream.read_bytes(), 0);
    assert_eq!(stream.message_length(), 0);
}

#[test]
fn a_split_at_any_byte_gives_the_same_message() {
    let payload = payload_of(10, 3);
    let bytes = frame(&payload, 512);
    let whole = {
        let mut reader = Reader::new(bytes.clone(), vec![]);
        let mut stream = MessageStream::new(512);
        poll(&mut stream, &mut reader)
    };
    assert_eq!(whole, Step::Frame { payload: payload.clone(), padding: 498 });

    for split in 0..=14usize {
        // the reader hands out `split` bytes, is not ready once, then hands out the rest
        let mut turns = Vec::new();
        if split > 0 {
            if split > 4 {
                turns.push(Turn::Bytes(4));
                turns.push(Turn::Bytes(split - 4));
            } else {
                turns.push(Turn::Bytes(split));
            }
        }
        if split < 14 {
            turns.push(Turn::NotReady);
        }
        let mut reader = Reader::new(bytes.clone(), turns);
        let mut stream = MessageStream::new(512);
        if split < 14 {
            assert_eq!(poll(&mut stream, &mut reader), Step::Pending, "split {}", split);
            assert_eq!(reader.pos, split);
            assert_eq!(stream.read_bytes(), split as u64);
            let phase = if split < 4 { Phase::ReadingLength } else { Phase::ReadingPayload };
            assert_eq!(stream.phase(), phase);
        }
        assert_eq!(poll(&mut stream, &mut reader), whole, "split {}", split);
        assert_eq!(reader.pos, 512);
    }
}

#[test]
fn not_ready_twice_in_one_read_keeps_every_byte() {
    let payload = payload_of(6, 5);
    let bytes = frame(&payload, 64);
    let turns = vec![
        Turn::Bytes(1),
        Turn::NotReady,
        Turn::Bytes(1),
        Turn::NotReady,
        Turn::NotReady,
        Turn::Bytes(2),
        Turn::Bytes(2),
        Turn::NotReady,
        Turn::Bytes(1),
        Turn::NotReady,
        Turn::Bytes(3),
    ];
    let mut reader = Reader::new(bytes, turns);
    let mut stream = MessageStream::new(64);
    let mut pendings = 0;
    let step = loop {
        match poll(&mut stream, &mut reader) {
            Step::Pending => pendings += 1,
            other => break other,
        }
    };
    assert_eq!(pendings, 5);
    assert_eq!(step, Step::Frame { payload, padding: 54 });
    assert_eq!(reader.pos, 64);
}

#[test]
fn round_trip_at_any_pace() {
    let messages: Vec<Vec<u8>> = vec![
        payload_of(10, 1),
        vec![],
        payload_of(1, 2),
        payload_of(508, 3),
        payload_of(509, 4),
        payload_of(70_000, 5),
        payload_of(4, 6),
    ];
    for sector_size in [1u64, 2, 7, 512, 4096] {
        let bytes = encode(&messages, sector_size);
        assert_eq!(bytes.len() as u64 % sector_size, 0);
        for chunk in [1usize, 2, 3, 5, 64, 4096, usize::MAX] {
            let mut turns = Vec::new();
            for i in 0..2000 {
                if i % 3 == 1 {
                    turns.push(Turn::NotReady);
                }
                turns.push(Turn::Bytes(chunk));
            }
            let mut reader = Reader::new(bytes.clone(), turns);
            let mut stream = MessageStream::new(sector_size);
            assert_eq!(collect(&mut stream, &mut reader), messages);
            assert_eq!(reader.pos, bytes.len());
        }
    }
}

#[test]
fn every_frame_ends_on_a_sector_boundary() {
    for sector_size in [1u64, 2, 3, 7, 512, 4096, 1 << 40, u64::MAX] {
        for len in (0usize..600).chain([4092, 4093, 65_535, 65_536]) {
            let mut stream = MessageStream::new(sector_size);
            let prefix = (len as u32).to_le_bytes().to_vec();
            let mut step: Step<String> = stream.poll_next(ReadEvent::Data(prefix));
            if len > 0 {
                assert_eq!(step, Step::Read(len));
                step = stream.poll_next(ReadEvent::Data(vec![0xAB; len]));
            }
            match step {
                Step::Frame { payload, padding } => {
                    assert_eq!(payload.len(), len);
                    assert!(padding < sector_size);
                    let total = 4 + len as u128 + padding as u128;
                    assert_eq!(total % sector_size as u128, 0);
                }
                other => panic!("unexpected step {:?}", other),
            }
        }
    }
}

#[test]
fn filler_for_the_largest_sector() {
    let mut stream = MessageStream::new(u64::MAX);
    assert_eq!(stream.poll_next(ReadEvent::Data(vec![10, 0, 0, 0])), Step::<String>::Read(10));
    assert_eq!(
        stream.poll_next(ReadEvent::Data(vec![0; 10])),
        Step::<String>::Frame { payload: vec![0; 10], padding: u64::MAX - 14 }
    );
}

#[test]
fn no_filler_when_the_frame_fills_its_sectors() {
    let mut stream = MessageStream::new(8);
    assert_eq!(stream.poll_next(ReadEvent::Data(vec![4, 0, 0, 0])), Step::<String>::Read(4));
    assert_eq!(
        stream.poll_next(ReadEvent::Data(vec![1, 2, 3, 4])),
        Step::<String>::Frame { payload: vec![1, 2, 3, 4], padding: 0 }
    );
}

#[test]
fn dropping_a_stream_in_the_middle_of_a_payload() {
    let mut stream = MessageStream::new(512);
    assert_eq!(stream.poll_next(ReadEvent::Data(vec![0, 0, 1, 0])), Step::<String>::Read(65_536));
    assert_eq!(stream.poll_next(ReadEvent::Data(vec![1; 100])), Step::<String>::Read(65_436));
    assert_eq!(stream.poll_next(ReadEvent::NotReady), Step::<String>::Pending);
    assert_eq!(stream.phase(), Phase::ReadingPayload);
    drop(stream);
}

#[test]
fn a_stream_goes_on_after_the_end_was_seen() {
    // the decoder does not tell a stop between frames from a later arrival of data
    let mut stream = MessageStream::new(4);
    assert_eq!(stream.poll_next(ReadEvent::Data(vec![])), Step::<String>::Finished);
    assert_eq!(
        stream.poll_next(ReadEvent::Data(vec![0, 0, 0, 0])),
        Step::<String>::Frame { payload: vec![], padding: 0 }
    );
}

#[test]
fn a_caller_can_tell_where_the_data_ended() {
    let mut stream = MessageStream::new(512);
    assert_eq!(stream.read_bytes(), 0);
    assert_eq!(stream.poll_next(ReadEvent::Data(vec![3, 0, 0, 0])), Step::<String>::Read(3));
    assert_eq!(stream.poll_next(ReadEvent::Data(vec![1])), Step::<String>::Read(2));
    // five bytes of a frame of seven were taken when the data ended
    assert_eq!(stream.read_bytes(), 5);
    assert_eq!(stream.poll_next(ReadEvent::Data(vec![])), Step::<String>::Finished);
    assert_eq!(stream.read_bytes(), 0);
}
