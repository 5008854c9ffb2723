//! Members of the cluster, the messages they exchange, and what the
//! consensus engine asks its surroundings to do.

use vstd::prelude::*;
use crate::journal::LogEntry;

verus! {

/// A term: the number of an election cycle.
pub type RaftTerm = u64;

/// The network identity of a member of the cluster: an IPv4 address, as one
/// number, and a port.
#[derive(Clone, Copy, Debug, PartialEq, Eq, Hash, Structural)]
pub struct Member {
    pub addr: u32,
    pub port: u16,
}

/// What a timer reports when it fires.
#[derive(Clone, Copy, Debug, PartialEq, Eq, PartialOrd, Ord, Structural)]
pub enum TimerEvent {
    /// No leader was heard of in time.
    ElectionTimeout,
    /// It is time for a leader to send its entries again.
    HeartbeatTimeout,
}

/// What a message asks or answers.
#[derive(Clone, Debug, PartialEq, Eq)]
pub enum RaftMessageKind<Op> {
    /// A candidate asks for a vote and says where its log ends.
    RequestVote { last_log_index: u64, last_log_term: u64 },
    /// The vote is given.
    VoteGranted,
    /// The vote is refused.
    VoteDenied,
    /// A leader sends entries and its commit index.
    AppendEntries { entries: Vec<LogEntry<Op>>, leader_commit: u64 },
    /// A follower took the entries; its log now reaches `match_index`.
    AppendAck { match_index: u64 },
    /// A follower refused the entries.
    AppendNack,
}

/// A message between two members.
#[derive(Clone, Debug, PartialEq, Eq)]
pub struct RaftMessage<Op> {
    /// The sender's term.
    pub term: RaftTerm,
    /// The sender.
    pub from: Member,
    pub kind: RaftMessageKind<Op>,
}

/// What the engine asks for after an event.
#[derive(Clone, Debug, PartialEq, Eq)]
pub enum Effect<Op> {
    /// Send `message` to `to`.
    Send { to: Member, message: RaftMessage<Op> },
    /// Drop every pending timer and schedule one election timeout at
    /// `deadline`.
    ArmElection { deadline: u64 },
    /// Drop every pending timer and schedule a heartbeat every `period`.
    ArmHeartbeat { period: u64 },
    /// Another leader was seen in the leader's own term: the protocol is
    /// broken and the node must stop.
    ElectionSafetyViolation,
}

/// A message kind with its entries as a sequence.
pub ghost enum KindView<Op> {
    RequestVote { last_log_index: u64, last_log_term: u64 },
    VoteGranted,
    VoteDenied,
    AppendEntries { entries: Seq<LogEntry<Op>>, leader_commit: u64 },
    AppendAck { match_index: u64 },
    AppendNack,
}

/// A message with its entries as a sequence.
pub ghost struct MessageView<Op> {
    pub term: RaftTerm,
    pub from: Member,
    pub kind: KindView<Op>,
}

/// An effect with its entries as a sequence.
pub ghost enum EffectView<Op> {
    Send { to: Member, message: MessageView<Op> },
    ArmElection { deadline: u64 },
    ArmHeartbeat { period: u64 },
    ElectionSafetyViolation,
}

impl<Op> View for RaftMessageKind<Op> {
    type V = KindView<Op>;

    open spec fn view(&self) -> KindView<Op> {
        match *self {
            RaftMessageKind::RequestVote { last_log_index, last_log_term } => KindView::RequestVote {
                last_log_index,
                last_log_term,
            },
            RaftMessageKind::VoteGranted => KindView::VoteGranted,
            RaftMessageKind::VoteDenied => KindView::VoteDenied,
            RaftMessageKind::AppendEntries { entries, leader_commit } => KindView::AppendEntries {
                entries: entries@,
                leader_commit,
            },
            RaftMessageKind::AppendAck { match_index } => KindView::AppendAck { match_index },
            RaftMessageKind::AppendNack => KindView::AppendNack,
        }
    }
}

impl<Op> View for RaftMessage<Op> {
    type V = MessageView<Op>;

    open spec fn view(&self) -> MessageView<Op> {
        MessageView { term: self.term, from: self.from, kind: self.kind@ }
    }
}

impl<Op> View for Effect<Op> {
    type V = EffectView<Op>;

    open spec fn view(&self) -> EffectView<Op> {
        match *self {
            Effect::Send { to, message } => EffectView::Send { to, message: message@ },
            Effect::ArmElection { deadline } => EffectView::ArmElection { deadline },
            Effect::ArmHeartbeat { period } => EffectView::ArmHeartbeat { period },
            Effect::ElectionSafetyViolation => EffectView::ElectionSafetyViolation,
        }
    }
}

/// The effects of a list, each by its view.
pub open spec fn effect_views<Op>(effects: Seq<Effect<Op>>) -> Seq<EffectView<Op>> {
    effects.map_values(|e: Effect<Op>| e@)
}

/// Is `member` one of `members`?
pub fn is_member(members: &Vec<Member>, member: Member) -> (found: bool)
    ensures
        found == members@.contains(member),
{
    let mut i: usize = 0;
    while i < members.len()
        invariant
            i <= members@.len(),
            forall|j: int| 0 <= j < i ==> members@[j] != member,
        decreases members@.len() - i,
    {
        if members[i] == member {
            return true;
        }
        i += 1;
    }
    false
}

/// The first position of `member` in `members`.
pub fn position_of(members: &Vec<Member>, member: Member) -> (at: Option<usize>)
    ensures
        match at {
            Some(i) => i < members@.len() && members@[i as int] == member && forall|j: int|
                0 <= j < i ==> members@[j] != member,
            None => !members@.contains(member),
        },
{
    let mut i: usize = 0;
    while i < members.len()
        invariant
            i <= members@.len(),
            forall|j: int| 0 <= j < i ==> members@[j] != member,
        decreases members@.len() - i,
    {
        if members[i] == member {
            return Some(i);
        }
        i += 1;
    }
    None
}

} // verus!
