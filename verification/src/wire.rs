//! The datagram encoding of messages.
//!
//! A message is laid out as its term in eight bytes, the sender's address
//! (a length byte, always 6, then four address bytes and two port bytes), one
//! byte that tells the kind, and what the kind carries. A request for a vote
//! carries the index and the term of the candidate's last entry, eight bytes
//! each. Entries are sent as the leader's commit index in eight bytes, the
//! number of entries in two, and the entries: index and term in eight bytes
//! each, the length of the operation in four, and the operation. An
//! acknowledgement carries the index it speaks of in eight bytes. All numbers
//! are big-endian. A datagram that holds anything less, or anything more, is
//! not a message.

use vstd::prelude::*;
use vstd::slice::slice_subrange;
use crate::endian::{
    be_bytes, be_value, get_u16, get_u32, get_u64, lemma_be_bytes_len, lemma_be_value_of_bytes,
    lemma_radix_pow_values, put_u16, put_u32, put_u64, radix_pow,
};
use crate::journal::LogEntry;
use crate::message::{KindView, Member, MessageView, RaftMessage, RaftMessageKind};

verus! {

/// An operation that can be sent: it has an encoding in bytes, of four
/// gigabytes at most, from which it is read back.
pub trait WireOp: Sized {
    /// The bytes that stand for the operation.
    spec fn encoded(&self) -> Seq<u8>;

    /// The operation that `bytes` stand for, if any.
    spec fn decoded(bytes: Seq<u8>) -> Option<Self>;

    /// An operation is read back from its encoding, and the encoding is
    /// short enough for its length to be sent in four bytes.
    proof fn lemma_round_trip(&self)
        ensures
            Self::decoded(self.encoded()) == Some(*self),
            self.encoded().len() <= u32::MAX,
    ;

    /// Appends the encoding to `out`.
    fn encode_op(&self, out: &mut Vec<u8>)
        ensures
            final(out)@ == old(out)@ + self.encoded(),
    ;

    /// Reads an operation from exactly `bytes`.
    fn decode_op(bytes: &[u8]) -> (op: Option<Self>)
        ensures
            op == Self::decoded(bytes@),
    ;
}

/// Why a message was not encoded or a datagram not decoded.
#[derive(Clone, Copy, Debug, PartialEq, Eq, Structural)]
pub enum WireError {
    /// The message holds more entries than two bytes can count.
    TooManyEntries,
    /// The datagram is not the encoding of a message.
    Malformed,
}

/// Number of bytes before what the kind carries.
pub const HEADER_LEN: usize = 16;

/// Number of bytes of an entry before its operation.
pub const ENTRY_HEADER_LEN: usize = 20;

/// The length byte of an address.
pub const ADDRESS_LEN: u8 = 6;

pub const TAG_REQUEST_VOTE: u8 = 0;

pub const TAG_VOTE_GRANTED: u8 = 1;

pub const TAG_VOTE_DENIED: u8 = 2;

pub const TAG_APPEND_ENTRIES: u8 = 3;

pub const TAG_APPEND_ACK: u8 = 4;

pub const TAG_APPEND_NACK: u8 = 5;

/// The byte that tells the kind.
pub open spec fn kind_tag<Op>(kind: KindView<Op>) -> u8 {
    match kind {
        KindView::RequestVote { .. } => TAG_REQUEST_VOTE,
        KindView::VoteGranted => TAG_VOTE_GRANTED,
        KindView::VoteDenied => TAG_VOTE_DENIED,
        KindView::AppendEntries { .. } => TAG_APPEND_ENTRIES,
        KindView::AppendAck { .. } => TAG_APPEND_ACK,
        KindView::AppendNack => TAG_APPEND_NACK,
    }
}

/// The encoding of a sender.
pub open spec fn member_bytes(member: Member) -> Seq<u8> {
    seq![ADDRESS_LEN] + be_bytes(member.addr as nat, 4) + be_bytes(member.port as nat, 2)
}

/// The encoding of one entry.
pub open spec fn entry_bytes<Op: WireOp>(entry: LogEntry<Op>) -> Seq<u8> {
    be_bytes(entry.index as nat, 8) + be_bytes(entry.term as nat, 8) + be_bytes(
        entry.operation.encoded().len(),
        4,
    ) + entry.operation.encoded()
}

/// The encodings of a run of entries, one after the other.
pub open spec fn entries_bytes<Op: WireOp>(entries: Seq<LogEntry<Op>>) -> Seq<u8>
    decreases entries.len(),
{
    if entries.len() == 0 {
        Seq::empty()
    } else {
        entry_bytes(entries[0]) + entries_bytes(entries.drop_first())
    }
}

/// The encoding of what a kind carries.
pub open spec fn payload_bytes<Op: WireOp>(kind: KindView<Op>) -> Seq<u8> {
    match kind {
        KindView::RequestVote { last_log_index, last_log_term } => be_bytes(
            last_log_index as nat,
            8,
        ) + be_bytes(last_log_term as nat, 8),
        KindView::AppendEntries { entries, leader_commit } => be_bytes(leader_commit as nat, 8)
            + be_bytes(entries.len(), 2) + entries_bytes(entries),
        KindView::AppendAck { match_index } => be_bytes(match_index as nat, 8),
        _ => Seq::empty(),
    }
}

/// The encoding of a message.
pub open spec fn message_bytes<Op: WireOp>(message: MessageView<Op>) -> Seq<u8> {
    be_bytes(message.term as nat, 8) + member_bytes(message.from) + seq![kind_tag(message.kind)]
        + payload_bytes(message.kind)
}

/// Can the message be encoded? It can unless it holds more entries than
/// two bytes can count.
pub open spec fn encodable<Op>(message: MessageView<Op>) -> bool {
    message.kind matches KindView::AppendEntries { entries, .. } ==> entries.len() <= u16::MAX
}

/// The entry at the front of `bytes` and the number of bytes it takes.
pub open spec fn parse_entry<Op: WireOp>(bytes: Seq<u8>) -> Option<(LogEntry<Op>, int)> {
    if bytes.len() < ENTRY_HEADER_LEN {
        None
    } else {
        let n = be_value(bytes.subrange(16, 20)) as int;
        if bytes.len() < ENTRY_HEADER_LEN + n {
            None
        } else {
            match Op::decoded(bytes.subrange(20, 20 + n)) {
                Some(operation) => Some(
                    (
                        LogEntry {
                            index: be_value(bytes.subrange(0, 8)) as u64,
                            term: be_value(bytes.subrange(8, 16)) as u64,
                            operation,
                        },
                        20 + n,
                    ),
                ),
                None => None,
            }
        }
    }
}

/// The `count` entries that `bytes` are the encoding of, to the last byte.
pub open spec fn parse_entries<Op: WireOp>(bytes: Seq<u8>, count: nat) -> Option<Seq<LogEntry<Op>>>
    decreases count,
{
    if count == 0 {
        if bytes.len() == 0 {
            Some(Seq::empty())
        } else {
            None
        }
    } else {
        match parse_entry::<Op>(bytes) {
            None => None,
            Some((entry, used)) => match parse_entries::<Op>(bytes.skip(used), (count - 1) as nat) {
                None => None,
                Some(rest) => Some(seq![entry] + rest),
            },
        }
    }
}

/// What a kind carries, read from exactly `bytes`.
pub open spec fn parse_payload<Op: WireOp>(tag: u8, bytes: Seq<u8>) -> Option<KindView<Op>> {
    if tag == TAG_REQUEST_VOTE {
        if bytes.len() == 16 {
            Some(
                KindView::RequestVote {
                    last_log_index: be_value(bytes.subrange(0, 8)) as u64,
                    last_log_term: be_value(bytes.subrange(8, 16)) as u64,
                },
            )
        } else {
            None
        }
    } else if tag == TAG_VOTE_GRANTED {
        if bytes.len() == 0 {
            Some(KindView::VoteGranted)
        } else {
            None
        }
    } else if tag == TAG_VOTE_DENIED {
        if bytes.len() == 0 {
            Some(KindView::VoteDenied)
        } else {
            None
        }
    } else if tag == TAG_APPEND_ENTRIES {
        if bytes.len() < 10 {
            None
        } else {
            match parse_entries::<Op>(bytes.skip(10), be_value(bytes.subrange(8, 10))) {
                Some(entries) => Some(
                    KindView::AppendEntries {
                        entries,
                        leader_commit: be_value(bytes.subrange(0, 8)) as u64,
                    },
                ),
                None => None,
            }
        }
    } else if tag == TAG_APPEND_ACK {
        if bytes.len() == 8 {
            Some(KindView::AppendAck { match_index: be_value(bytes) as u64 })
        } else {
            None
        }
    } else if tag == TAG_APPEND_NACK {
        if bytes.len() == 0 {
            Some(KindView::AppendNack)
        } else {
            None
        }
    } else {
        None
    }
}

/// The message that `bytes` are the encoding of, if any.
pub open spec fn parse_message<Op: WireOp>(bytes: Seq<u8>) -> Option<MessageView<Op>> {
    if bytes.len() < HEADER_LEN || bytes[8] != ADDRESS_LEN {
        None
    } else {
        match parse_payload::<Op>(bytes[15], bytes.skip(16)) {
            Some(kind) => Some(
                MessageView {
                    term: be_value(bytes.subrange(0, 8)) as u64,
                    from: Member {
                        addr: be_value(bytes.subrange(9, 13)) as u32,
                        port: be_value(bytes.subrange(13, 15)) as u16,
                    },
                    kind,
                },
            ),
            None => None,
        }
    }
}

/// A fixed-width number is read back from the front of what follows it.
proof fn lemma_field(value: nat, width: nat, rest: Seq<u8>)
    requires
        value < radix_pow(width),
    ensures
        be_bytes(value, width).len() == width,
        (be_bytes(value, width) + rest).subrange(0, width as int) == be_bytes(value, width),
        be_value((be_bytes(value, width) + rest).subrange(0, width as int)) == value,
        (be_bytes(value, width) + rest).skip(width as int) == rest,
{
    lemma_be_bytes_len(value, width);
    lemma_be_value_of_bytes(value, width);
    assert((be_bytes(value, width) + rest).subrange(0, width as int) =~= be_bytes(value, width));
    assert((be_bytes(value, width) + rest).skip(width as int) =~= rest);
}

/// An entry is read back from the front of its encoding, whatever follows.
pub proof fn lemma_parse_entry<Op: WireOp>(entry: LogEntry<Op>, rest: Seq<u8>)
    ensures
        parse_entry::<Op>(entry_bytes(entry) + rest) == Some((entry, entry_bytes(entry).len() as int)),
        (entry_bytes(entry) + rest).skip(entry_bytes(entry).len() as int) == rest,
{
    let op = entry.operation.encoded();
    let n = op.len();
    entry.operation.lemma_round_trip();
    lemma_radix_pow_values();
    let bytes = entry_bytes(entry) + rest;
    let a = be_bytes(entry.index as nat, 8);
    let b = be_bytes(entry.term as nat, 8);
    let c = be_bytes(n, 4);
    lemma_field(entry.index as nat, 8, b + c + op + rest);
    lemma_field(entry.term as nat, 8, c + op + rest);
    lemma_field(n, 4, op + rest);
    assert(bytes =~= a + (b + c + op + rest));
    assert(bytes.subrange(8, 16) =~= (b + (c + op + rest)).subrange(0, 8));
    assert(bytes.subrange(16, 20) =~= (c + (op + rest)).subrange(0, 4));
    assert(bytes.subrange(20, 20 + n as int) =~= op);
    assert(bytes.skip(entry_bytes(entry).len() as int) =~= rest);
}

/// A run of entries is read back from its encoding.
pub proof fn lemma_parse_entries<Op: WireOp>(entries: Seq<LogEntry<Op>>)
    ensures
        parse_entries::<Op>(entries_bytes(entries), entries.len()) == Some(entries),
    decreases entries.len(),
{
    if entries.len() > 0 {
        let rest = entries_bytes(entries.drop_first());
        lemma_parse_entry(entries[0], rest);
        lemma_parse_entries(entries.drop_first());
        assert(seq![entries[0]] + entries.drop_first() =~= entries);
    }
}

/// A message that can be encoded is read back from its encoding.
pub proof fn lemma_round_trip<Op: WireOp>(message: MessageView<Op>)
    requires
        encodable(message),
    ensures
        parse_message::<Op>(message_bytes(message)) == Some(message),
{
    lemma_radix_pow_values();
    let bytes = message_bytes(message);
    let payload = payload_bytes(message.kind);
    let tag = seq![kind_tag(message.kind)];
    let addr = be_bytes(message.from.addr as nat, 4);
    let port = be_bytes(message.from.port as nat, 2);
    lemma_field(message.term as nat, 8, member_bytes(message.from) + tag + payload);
    lemma_field(message.from.addr as nat, 4, port + tag + payload);
    lemma_field(message.from.port as nat, 2, tag + payload);
    assert(bytes =~= be_bytes(message.term as nat, 8) + (member_bytes(message.from) + tag + payload));
    assert(bytes.subrange(9, 13) =~= (addr + (port + tag + payload)).subrange(0, 4));
    assert(bytes.subrange(13, 15) =~= (port + (tag + payload)).subrange(0, 2));
    assert(bytes[8] == ADDRESS_LEN);
    assert(bytes[15] == kind_tag(message.kind));
    assert(bytes.skip(16) =~= payload);
    match message.kind {
        KindView::RequestVote { last_log_index, last_log_term } => {
            let second = be_bytes(last_log_term as nat, 8);
            lemma_field(last_log_index as nat, 8, second);
            lemma_field(last_log_term as nat, 8, Seq::empty());
            assert(payload.subrange(8, 16) =~= (second + Seq::<u8>::empty()).subrange(0, 8));
        },
        KindView::AppendEntries { entries, leader_commit } => {
            let count = be_bytes(entries.len(), 2);
            let body = entries_bytes(entries);
            lemma_field(leader_commit as nat, 8, count + body);
            lemma_field(entries.len(), 2, body);
            assert(payload =~= be_bytes(leader_commit as nat, 8) + (count + body));
            assert(payload.subrange(8, 10) =~= (count + body).subrange(0, 2));
            assert(payload.skip(10) =~= body);
            lemma_parse_entries(entries);
        },
        KindView::AppendAck { match_index } => {
            lemma_field(match_index as nat, 8, Seq::empty());
            assert(payload =~= (be_bytes(match_index as nat, 8) + Seq::<u8>::empty()).subrange(0, 8));
        },
        _ => {},
    }
}

/// The encoding of a run with one more entry is the encoding of the run
/// followed by that of the entry.
pub proof fn lemma_entries_bytes_push<Op: WireOp>(entries: Seq<LogEntry<Op>>, entry: LogEntry<Op>)
    ensures
        entries_bytes(entries.push(entry)) == entries_bytes(entries) + entry_bytes(entry),
    decreases entries.len(),
{
    let longer = entries.push(entry);
    if entries.len() == 0 {
        assert(longer.drop_first() =~= Seq::<LogEntry<Op>>::empty());
        assert(entries_bytes(longer.drop_first()) =~= Seq::<u8>::empty());
        assert(longer[0] == entry);
        assert(entries_bytes(longer) =~= entry_bytes(entry));
        assert(entries_bytes(entries) + entry_bytes(entry) =~= entry_bytes(entry));
    } else {
        assert(longer.drop_first() =~= entries.drop_first().push(entry));
        lemma_entries_bytes_push(entries.drop_first(), entry);
        assert(entries_bytes(longer) =~= entries_bytes(entries) + entry_bytes(entry));
    }
}

/// Appends the encoding of one entry to `out`.
pub fn encode_entry<Op: WireOp + Copy>(out: &mut Vec<u8>, entry: &LogEntry<Op>)
    ensures
        final(out)@ == old(out)@ + entry_bytes(*entry),
{
    put_u64(out, entry.index);
    put_u64(out, entry.term);
    let mut operation: Vec<u8> = Vec::new();
    entry.operation.encode_op(&mut operation);
    proof {
        entry.operation.lemma_round_trip();
        assert(operation@ =~= entry.operation.encoded());
    }
    put_u32(out, operation.len() as u32);
    out.append(&mut operation);
    assert(out@ =~= old(out)@ + entry_bytes(*entry));
}

/// The encoding of `message`, unless it holds too many entries.
pub fn encode<Op: WireOp + Copy>(message: &RaftMessage<Op>) -> (r: Result<Vec<u8>, WireError>)
    ensures
        encodable(message@) ==> r is Ok && r->Ok_0@ == message_bytes(message@),
        !encodable(message@) ==> r == Err::<Vec<u8>, WireError>(WireError::TooManyEntries),
{
    let mut out: Vec<u8> = Vec::new();
    put_u64(&mut out, message.term);
    out.push(ADDRESS_LEN);
    put_u32(&mut out, message.from.addr);
    put_u16(&mut out, message.from.port);
    let ghost head = be_bytes(message.term as nat, 8) + member_bytes(message.from);
    assert(out@ =~= head);
    match &message.kind {
        RaftMessageKind::RequestVote { last_log_index, last_log_term } => {
            out.push(TAG_REQUEST_VOTE);
            put_u64(&mut out, *last_log_index);
            put_u64(&mut out, *last_log_term);
            assert(out@ =~= message_bytes(message@));
        },
        RaftMessageKind::VoteGranted => {
            out.push(TAG_VOTE_GRANTED);
            assert(out@ =~= message_bytes(message@));
        },
        RaftMessageKind::VoteDenied => {
            out.push(TAG_VOTE_DENIED);
            assert(out@ =~= message_bytes(message@));
        },
        RaftMessageKind::AppendAck { match_index } => {
            out.push(TAG_APPEND_ACK);
            put_u64(&mut out, *match_index);
            assert(out@ =~= message_bytes(message@));
        },
        RaftMessageKind::AppendNack => {
            out.push(TAG_APPEND_NACK);
            assert(out@ =~= message_bytes(message@));
        },
        RaftMessageKind::AppendEntries { entries, leader_commit } => {
            let n: usize = entries.len();
            if n > 0xFFFF {
                return Err(WireError::TooManyEntries);
            }
            out.push(TAG_APPEND_ENTRIES);
            put_u64(&mut out, *leader_commit);
            put_u16(&mut out, n as u16);
            let ghost front = head + seq![TAG_APPEND_ENTRIES] + be_bytes(*leader_commit as nat, 8)
                + be_bytes(n as nat, 2);
            assert(out@ =~= front);
            let mut i: usize = 0;
            assert(entries@.take(0) =~= Seq::<LogEntry<Op>>::empty());
            while i < n
                invariant
                    n == entries@.len(),
                    i <= n,
                    out@ == front + entries_bytes(entries@.take(i as int)),
                decreases n - i,
            {
                proof {
                    lemma_entries_bytes_push(entries@.take(i as int), entries@[i as int]);
                    assert(entries@.take(i + 1) =~= entries@.take(i as int).push(entries@[i as int]));
                }
                encode_entry(&mut out, &entries[i]);
                i += 1;
                assert(out@ =~= front + entries_bytes(entries@.take(i as int)));
            }
            assert(entries@.take(n as int) =~= entries@);
            assert(out@ =~= message_bytes(message@));
        },
    }
    Ok(out)
}

/// What reading entries has given so far, followed by what the rest gives.
pub open spec fn joined<Op>(read: Seq<LogEntry<Op>>, rest: Option<Seq<LogEntry<Op>>>) -> Option<
    Seq<LogEntry<Op>>,
> {
    match rest {
        Some(more) => Some(read + more),
        None => None,
    }
}

/// Reads `count` entries from `start` to the end of `bytes`.
pub fn decode_entries<Op: WireOp + Copy>(bytes: &[u8], start: usize, count: u16) -> (r: Option<
    Vec<LogEntry<Op>>,
>)
    requires
        start <= bytes@.len(),
    ensures
        match parse_entries::<Op>(bytes@.skip(start as int), count as nat) {
            Some(entries) => r is Some && r->Some_0@ == entries,
            None => r is None,
        },
{
    let len: usize = bytes.len();
    let mut read: Vec<LogEntry<Op>> = Vec::new();
    let mut at: usize = start;
    let mut i: u16 = 0;
    let ghost whole = parse_entries::<Op>(bytes@.skip(start as int), count as nat);
    assert(joined(read@, whole) == whole) by {
        if whole is Some {
            assert(read@ + whole->Some_0 =~= whole->Some_0);
        }
    }
    while i < count
        invariant
            len == bytes@.len(),
            start <= at <= len,
            i <= count,
            whole == parse_entries::<Op>(bytes@.skip(start as int), count as nat),
            whole == joined(read@, parse_entries::<Op>(bytes@.skip(at as int), (count - i) as nat)),
        decreases count - i,
    {
        let ghost tail = bytes@.skip(at as int);
        assert(tail.len() == len - at);
        if len - at < 20 {
            assert(parse_entry::<Op>(tail) is None);
            return None;
        }
        let index = get_u64(bytes, at);
        let term = get_u64(bytes, at + 8);
        let n = get_u32(bytes, at + 16) as usize;
        proof {
            assert(tail.subrange(0, 8) =~= bytes@.subrange(at as int, at + 8));
            assert(tail.subrange(8, 16) =~= bytes@.subrange(at + 8, at + 16));
            assert(tail.subrange(16, 20) =~= bytes@.subrange(at + 16, at + 20));
        }
        if len - at - 20 < n {
            assert(parse_entry::<Op>(tail) is None);
            return None;
        }
        let body = slice_subrange(bytes, at + 20, at + 20 + n);
        assert(body@ =~= tail.subrange(20, 20 + n));
        let operation = match Op::decode_op(body) {
            Some(operation) => operation,
            None => {
                assert(parse_entry::<Op>(tail) is None);
                return None;
            },
        };
        let entry = LogEntry { index, term, operation };
        proof {
            let used = 20 + n as int;
            assert(parse_entry::<Op>(tail) == Some((entry, used)));
            assert(tail.skip(used) =~= bytes@.skip(at + 20 + n));
            let rest = parse_entries::<Op>(bytes@.skip(at + 20 + n), (count - i - 1) as nat);
            if rest is Some {
                assert(read@ + (seq![entry] + rest->Some_0) =~= read@.push(entry) + rest->Some_0);
            }
        }
        read.push(entry);
        at = at + 20 + n;
        i += 1;
    }
    if at != len {
        return None;
    }
    proof {
        assert(bytes@.skip(at as int).len() == 0);
        assert(read@ + Seq::<LogEntry<Op>>::empty() =~= read@);
    }
    Some(read)
}

/// The message that `bytes` are the encoding of.
pub fn decode<Op: WireOp + Copy>(bytes: &[u8]) -> (r: Result<RaftMessage<Op>, WireError>)
    ensures
        match parse_message::<Op>(bytes@) {
            Some(message) => r is Ok && r->Ok_0@ == message,
            None => r == Err::<RaftMessage<Op>, WireError>(WireError::Malformed),
        },
{
    let len: usize = bytes.len();
    if len < 16 || bytes[8] != ADDRESS_LEN {
        return Err(WireError::Malformed);
    }
    let term = get_u64(bytes, 0);
    let from = Member { addr: get_u32(bytes, 9), port: get_u16(bytes, 13) };
    let tag = bytes[15];
    let ghost body = bytes@.skip(16);
    let kind = if tag == TAG_REQUEST_VOTE {
        if len != 32 {
            return Err(WireError::Malformed);
        }
        proof {
            assert(body.subrange(0, 8) =~= bytes@.subrange(16, 24));
            assert(body.subrange(8, 16) =~= bytes@.subrange(24, 32));
        }
        RaftMessageKind::RequestVote {
            last_log_index: get_u64(bytes, 16),
            last_log_term: get_u64(bytes, 24),
        }
    } else if tag == TAG_VOTE_GRANTED {
        if len != 16 {
            return Err(WireError::Malformed);
        }
        RaftMessageKind::VoteGranted
    } else if tag == TAG_VOTE_DENIED {
        if len != 16 {
            return Err(WireError::Malformed);
        }
        RaftMessageKind::VoteDenied
    } else if tag == TAG_APPEND_ENTRIES {
        if len < 26 {
            return Err(WireError::Malformed);
        }
        proof {
            assert(body.subrange(0, 8) =~= bytes@.subrange(16, 24));
            assert(body.subrange(8, 10) =~= bytes@.subrange(24, 26));
            assert(body.skip(10) =~= bytes@.skip(26));
        }
        let leader_commit = get_u64(bytes, 16);
        let count = get_u16(bytes, 24);
        match decode_entries::<Op>(bytes, 26, count) {
            Some(entries) => RaftMessageKind::AppendEntries { entries, leader_commit },
            None => {
                return Err(WireError::Malformed);
            },
        }
    } else if tag == TAG_APPEND_ACK {
        if len != 24 {
            return Err(WireError::Malformed);
        }
        assert(body =~= bytes@.subrange(16, 24));
        RaftMessageKind::AppendAck { match_index: get_u64(bytes, 16) }
    } else if tag == TAG_APPEND_NACK {
        if len != 16 {
            return Err(WireError::Malformed);
        }
        RaftMessageKind::AppendNack
    } else {
        return Err(WireError::Malformed);
    };
    Ok(RaftMessage { term, from, kind })
}

} // verus!
