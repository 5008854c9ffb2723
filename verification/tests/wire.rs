use terribledb::counter::CounterOp;
use terribledb::journal::LogEntry;
use terribledb::message::{Member, RaftMessage, RaftMessageKind};
use terribledb::wire::{decode, decode_entries, encode, encode_entry, WireError, WireOp};

type Message = RaftMessage<CounterOp>;

fn sender() -> Member {
    Member { addr: 0x7F00_0001, port: 55550 }
}

fn header(term: u8, tag: u8) -> Vec<u8> {
    vec![0, 0, 0, 0, 0, 0, 0, term, 6, 0x7F, 0, 0, 1, 0xD8, 0xFE, tag]
}

fn round_trip(message: Message) {
    let bytes = encode(&message).expect("encodes");
    assert_eq!(decode::<CounterOp>(&bytes), Ok(message));
}

#[test]
fn vote_messages_are_a_bare_header() {
    let granted = Message { term: 2, from: sender(), kind: RaftMessageKind::VoteGranted };
    assert_eq!(encode(&granted), Ok(header(2, 1)));
    let denied = Message { term: 3, from: sender(), kind: RaftMessageKind::VoteDenied };
    assert_eq!(encode(&denied), Ok(header(3, 2)));
    let nack = Message { term: 4, from: sender(), kind: RaftMessageKind::AppendNack };
    assert_eq!(encode(&nack), Ok(header(4, 5)));
    round_trip(granted);
    round_trip(denied);
    round_trip(nack);
}

#[test]
fn request_vote_carries_index_and_term() {
    let message = Message {
        term: 7,
        from: sender(),
        kind: RaftMessageKind::RequestVote { last_log_index: 0x0102, last_log_term: 6 },
    };
    let mut expected = header(7, 0);
    expected.extend_from_slice(&[0, 0, 0, 0, 0, 0, 1, 2]);
    expected.extend_from_slice(&[0, 0, 0, 0, 0, 0, 0, 6]);
    assert_eq!(encode(&message), Ok(expected));
    round_trip(message);
}

#[test]
fn append_ack_carries_the_match_index() {
    let message =
        Message { term: 1, from: sender(), kind: RaftMessageKind::AppendAck { match_index: 9 } };
    let mut expected = header(1, 4);
    expected.extend_from_slice(&[0, 0, 0, 0, 0, 0, 0, 9]);
    assert_eq!(encode(&message), Ok(expected));
    round_trip(message);
}

#[test]
fn append_entries_carries_commit_count_and_entries() {
    let message = Message {
        term: 1,
        from: sender(),
        kind: RaftMessageKind::AppendEntries {
            entries: vec![
                LogEntry { index: 1, term: 1, operation: CounterOp::inc(3) },
                LogEntry { index: 2, term: 1, operation: CounterOp::dec(2) },
            ],
            leader_commit: 1,
        },
    };
    let mut expected = header(1, 3);
    expected.extend_from_slice(&[0, 0, 0, 0, 0, 0, 0, 1]);
    expected.extend_from_slice(&[0, 2]);
    expected.extend_from_slice(&[0, 0, 0, 0, 0, 0, 0, 1, 0, 0, 0, 0, 0, 0, 0, 1, 0, 0, 0, 9]);
    expected.extend_from_slice(&[0, 0x80, 0, 0, 0, 0, 0, 0, 3]);
    expected.extend_from_slice(&[0, 0, 0, 0, 0, 0, 0, 2, 0, 0, 0, 0, 0, 0, 0, 1, 0, 0, 0, 9]);
    expected.extend_from_slice(&[1, 0x80, 0, 0, 0, 0, 0, 0, 2]);
    assert_eq!(encode(&message), Ok(expected));
    round_trip(message);
}

#[test]
fn empty_append_entries_round_trips() {
    round_trip(Message {
        term: u64::MAX,
        from: Member { addr: u32::MAX, port: u16::MAX },
        kind: RaftMessageKind::AppendEntries { entries: vec![], leader_commit: u64::MAX },
    });
}

#[test]
fn counter_operations_round_trip() {
    for amount in [0, 1, -1, 42, i64::MAX, i64::MIN] {
        for op in [CounterOp::inc(amount), CounterOp::dec(amount)] {
            let mut bytes = Vec::new();
            op.encode_op(&mut bytes);
            assert_eq!(bytes.len(), 9);
            assert_eq!(CounterOp::decode_op(&bytes), Some(op));
        }
    }
    let mut bytes = vec![0xEE];
    CounterOp::inc(i64::MIN).encode_op(&mut bytes);
    assert_eq!(bytes, vec![0xEE, 0, 0, 0, 0, 0, 0, 0, 0, 0]);
    let mut bytes = Vec::new();
    CounterOp::dec(-1).encode_op(&mut bytes);
    assert_eq!(bytes, vec![1, 0x7F, 0xFF, 0xFF, 0xFF, 0xFF, 0xFF, 0xFF, 0xFF]);
}

#[test]
fn counter_operations_reject_other_bytes() {
    assert_eq!(CounterOp::decode_op(&[]), None);
    assert_eq!(CounterOp::decode_op(&[0; 8]), None);
    assert_eq!(CounterOp::decode_op(&[0; 10]), None);
    assert_eq!(CounterOp::decode_op(&[2, 0, 0, 0, 0, 0, 0, 0, 0]), None);
}

#[test]
fn entries_are_encoded_one_after_the_other() {
    let entry = LogEntry { index: 3, term: 2, operation: CounterOp::inc(0) };
    let mut bytes = vec![0xAB];
    encode_entry(&mut bytes, &entry);
    assert_eq!(bytes.len(), 30);
    assert_eq!(bytes[0], 0xAB);
    assert_eq!(decode_entries::<CounterOp>(&bytes, 1, 1), Some(vec![entry]));
    assert_eq!(decode_entries::<CounterOp>(&bytes, 1, 0), None);
    assert_eq!(decode_entries::<CounterOp>(&bytes, 1, 2), None);
    assert_eq!(decode_entries::<CounterOp>(&bytes, 30, 0), Some(vec![]));
}

#[test]
fn malformed_datagrams_are_refused() {
    let malformed = Err(WireError::Malformed);
    assert_eq!(decode::<CounterOp>(&[]), malformed);
    assert_eq!(decode::<CounterOp>(&header(1, 1)[..15]), malformed);
    let mut bad_address = header(1, 1);
    bad_address[8] = 4;
    assert_eq!(decode::<CounterOp>(&bad_address), malformed);
    assert_eq!(decode::<CounterOp>(&header(1, 6)), malformed);
    assert_eq!(decode::<CounterOp>(&header(1, 255)), malformed);
    let mut trailing = header(1, 1);
    trailing.push(0);
    assert_eq!(decode::<CounterOp>(&trailing), malformed);
    let mut short_vote = header(1, 0);
    short_vote.extend_from_slice(&[0; 15]);
    assert_eq!(decode::<CounterOp>(&short_vote), malformed);
    let mut short_ack = header(1, 4);
    short_ack.extend_from_slice(&[0; 7]);
    assert_eq!(decode::<CounterOp>(&short_ack), malformed);
    assert_eq!(decode::<CounterOp>(&header(1, 3)), malformed);
}

#[test]
fn malformed_entries_are_refused() {
    let malformed = Err(WireError::Malformed);
    let message = Message {
        term: 1,
        from: sender(),
        kind: RaftMessageKind::AppendEntries {
            entries: vec![LogEntry { index: 1, term: 1, operation: CounterOp::inc(3) }],
            leader_commit: 0,
        },
    };
    let good = encode(&message).expect("encodes");
    assert_eq!(good.len(), 16 + 10 + 29);
    assert_eq!(decode::<CounterOp>(&good[..good.len() - 1]), malformed);
    let mut longer = good.clone();
    longer.push(0);
    assert_eq!(decode::<CounterOp>(&longer), malformed);
    let mut miscounted = good.clone();
    miscounted[25] = 2;
    assert_eq!(decode::<CounterOp>(&miscounted), malformed);
    let mut none = good.clone();
    none[25] = 0;
    assert_eq!(decode::<CounterOp>(&none), malformed);
    let mut bad_op = good.clone();
    bad_op[46] = 7;
    assert_eq!(decode::<CounterOp>(&bad_op), malformed);
    let mut bad_len = good.clone();
    bad_len[45] = 8;
    assert_eq!(decode::<CounterOp>(&bad_len), malformed);
    assert_eq!(decode::<CounterOp>(&good), Ok(message));
}

#[test]
fn as_many_entries_as_two_bytes_count_are_sent() {
    let one = LogEntry { index: 1, term: 1, operation: CounterOp::inc(1) };
    let most = Message {
        term: 1,
        from: sender(),
        kind: RaftMessageKind::AppendEntries { entries: vec![one; 65_535], leader_commit: 0 },
    };
    let bytes = encode(&most).expect("encodes");
    assert_eq!(bytes.len(), 16 + 10 + 65_535 * 29);
    assert_eq!(&bytes[24..26], &[0xFF, 0xFF]);
    assert_eq!(decode::<CounterOp>(&bytes), Ok(most));
    let more = Message {
        term: 1,
        from: sender(),
        kind: RaftMessageKind::AppendEntries { entries: vec![one; 65_536], leader_commit: 0 },
    };
    assert_eq!(encode(&more), Err(WireError::TooManyEntries));
}
