//! The role state machine of one member: it reacts to timer events and to
//! messages, one at a time, changes its own state and its journal, and says
//! what is to be sent and which timer is to run.
//!
//! The machine never reads a clock and never draws a random number: each
//! call is handed the time and a random sample.

use vstd::prelude::*;
use crate::journal::{acceptable, merged, suffix_from, LogEntry, StateOp, VecJournal};
use crate::quorum::{quorum_index, spec_quorum_index};
use crate::message::{
    is_member, position_of, Effect, EffectView, KindView, Member, MessageView, RaftMessage,
    RaftMessageKind, RaftTerm, TimerEvent, effect_views,
};

verus! {

/// Shortest election timeout, in milliseconds.
pub const ELECTION_MIN_MS: u64 = 150;

/// Longest election timeout, in milliseconds.
pub const ELECTION_MAX_MS: u64 = 300;

/// Period of a leader's heartbeat, in milliseconds: shorter than any
/// election timeout.
pub const HEARTBEAT_MS: u64 = 50;

/// The election deadline set at time `now` with the random sample `entropy`:
/// between the shortest and the longest timeout after `now`.
pub open spec fn spec_election_deadline(now: u64, entropy: u64) -> int {
    now + ELECTION_MIN_MS + entropy % ((ELECTION_MAX_MS - ELECTION_MIN_MS + 1) as u64)
}

/// The election deadline set at time `now` with the random sample `entropy`.
pub fn election_deadline(now: u64, entropy: u64) -> (deadline: u64)
    requires
        now <= u64::MAX - ELECTION_MAX_MS,
    ensures
        deadline == spec_election_deadline(now, entropy),
        now + ELECTION_MIN_MS <= deadline <= now + ELECTION_MAX_MS,
{
    now + ELECTION_MIN_MS + entropy % (ELECTION_MAX_MS - ELECTION_MIN_MS + 1)
}

/// The number of members that make a strict majority of `cluster` members.
pub open spec fn spec_quorum(cluster: nat) -> nat {
    cluster / 2 + 1
}

/// Is a log that ends at `(last_term, last_index)` at least as up to date as
/// one that ends at `mine`, given as `(index, term)`? The later term wins;
/// with equal terms the longer log wins, and a tie counts as up to date.
pub open spec fn spec_up_to_date(last_term: u64, last_index: u64, mine: (u64, u64)) -> bool {
    last_term > mine.1 || (last_term == mine.1 && last_index >= mine.0)
}

/// The peers of the member `me` in a cluster given as `others`: each member
/// once, in the order of its first occurrence, and `me` left out.
pub open spec fn peers_of(others: Seq<Member>, me: Member) -> Seq<Member>
    decreases others.len(),
{
    if others.len() == 0 {
        Seq::empty()
    } else {
        let before = peers_of(others.drop_last(), me);
        if others.last() == me || before.contains(others.last()) {
            before
        } else {
            before.push(others.last())
        }
    }
}

/// The peers are the other members of the cluster, each once.
pub proof fn lemma_peers_of(others: Seq<Member>, me: Member)
    ensures
        peers_of(others, me).no_duplicates(),
        !peers_of(others, me).contains(me),
        forall|m: Member| peers_of(others, me).contains(m) <==> (others.contains(m) && m != me),
    decreases others.len(),
{
    let peers = peers_of(others, me);
    if others.len() > 0 {
        let rest = others.drop_last();
        let before = peers_of(rest, me);
        let last = others.last();
        lemma_peers_of(rest, me);
        assert forall|m: Member| peers.contains(m) <==> (others.contains(m) && m != me) by {
            if peers.contains(m) {
                let j = choose|j: int| 0 <= j < peers.len() && peers[j] == m;
                if j < before.len() {
                    assert(before[j] == m);
                    assert(before.contains(m));
                    assert(rest.contains(m));
                    let k = choose|k: int| 0 <= k < rest.len() && rest[k] == m;
                    assert(others[k] == rest[k]);
                } else {
                    assert(others[others.len() - 1] == m);
                }
            }
            if others.contains(m) && m != me {
                let k = choose|k: int| 0 <= k < others.len() && others[k] == m;
                if k < rest.len() {
                    assert(rest[k] == m);
                    assert(rest.contains(m));
                    assert(before.contains(m));
                    let j = choose|j: int| 0 <= j < before.len() && before[j] == m;
                    assert(peers[j] == before[j]);
                } else if before.contains(m) {
                    let j = choose|j: int| 0 <= j < before.len() && before[j] == m;
                    assert(peers[j] == before[j]);
                } else {
                    assert(peers[peers.len() - 1] == m);
                }
            }
        }
    }
}

/// The role of a member.
#[derive(Clone, Copy, Debug, PartialEq, Eq, Structural)]
pub enum RaftRole {
    Follower,
    Candidate,
    Leader,
}

/// What the machine reacts to.
#[derive(Clone, Debug, PartialEq, Eq)]
pub enum RaftEvent<Op> {
    /// A timer fired.
    Timeout(TimerEvent),
    /// A message arrived.
    Msg(RaftMessage<Op>),
}

/// An event with its entries as a sequence.
pub ghost enum EventView<Op> {
    Timeout(TimerEvent),
    Msg(MessageView<Op>),
}

impl<Op> View for RaftEvent<Op> {
    type V = EventView<Op>;

    open spec fn view(&self) -> EventView<Op> {
        match *self {
            RaftEvent::Timeout(t) => EventView::Timeout(t),
            RaftEvent::Msg(m) => EventView::Msg(m@),
        }
    }
}

/// Why a submitted operation was not taken.
#[derive(Clone, Copy, Debug, PartialEq, Eq, Structural)]
pub enum SubmitError {
    /// Only a leader takes operations.
    NotLeader,
    /// The operation does not apply to the current state.
    ApplyFailed,
}

/// The consensus state of one member, with its journal.
pub struct RaftState<Op: StateOp> {
    /// This member.
    pub me: Member,
    /// The other members of the cluster.
    pub peers: Vec<Member>,
    pub role: RaftRole,
    pub current_term: RaftTerm,
    /// Whom this member voted for in the current term.
    pub voted_for: Option<Member>,
    /// When the election timer was last set to fire.
    pub election_deadline: u64,
    /// The members whose votes a candidate holds in the current term, itself
    /// included.
    pub votes: Vec<Member>,
    /// A leader's record of how far each peer's log reaches, in the order of
    /// `peers`.
    pub progress: Vec<u64>,
    pub journal: VecJournal<Op>,
}

impl<Op: StateOp + Copy> RaftState<Op> where Op::State: Copy {
    /// The number of members, this one included.
    pub open spec fn cluster_size(&self) -> nat {
        self.peers@.len() + 1
    }

    /// The number of votes that make a leader.
    pub open spec fn quorum(&self) -> nat {
        spec_quorum(self.cluster_size())
    }

    /// The invariant of the state: the journal is valid; the peers are
    /// distinct and this member is none of them; the votes held are distinct
    /// and come from members; there is one record of progress for each peer; a
    /// follower holds no votes; a candidate or leader has voted for itself and
    /// holds its own vote; and a leader holds a quorum of votes.
    pub open spec fn wf(&self) -> bool {
        &&& self.journal.wf()
        &&& self.peers@.no_duplicates()
        &&& !self.peers@.contains(self.me)
        &&& self.votes@.no_duplicates()
        &&& forall|i: int|
            0 <= i < self.votes@.len() ==> self.votes@[i] == self.me || self.peers@.contains(
                #[trigger] self.votes@[i],
            )
        &&& self.progress@.len() == self.peers@.len()
        &&& self.role is Follower ==> self.votes@.len() == 0
        &&& !(self.role is Follower) ==> self.voted_for == Some(self.me) && self.votes@.contains(
            self.me,
        )
        &&& self.role is Leader ==> self.votes@.len() >= self.quorum()
    }

    /// Everything but the journal's contents is as in `pre`, and the journal
    /// holds the same as the journal of `pre`.
    pub open spec fn same_as(&self, pre: &Self) -> bool {
        &&& self.same_cluster(pre)
        &&& self.role == pre.role
        &&& self.current_term == pre.current_term
        &&& self.voted_for == pre.voted_for
        &&& self.election_deadline == pre.election_deadline
        &&& self.votes@ == pre.votes@
        &&& self.progress@ == pre.progress@
        &&& self.journal.same_as(&pre.journal)
    }

    /// The same member of the same cluster.
    pub open spec fn same_cluster(&self, pre: &Self) -> bool {
        &&& self.me == pre.me
        &&& self.peers@ == pre.peers@
    }

    /// The message that this member sends with `kind`.
    pub open spec fn message(&self, kind: KindView<Op>) -> MessageView<Op> {
        MessageView { term: self.current_term, from: self.me, kind }
    }

    /// The request for a vote that this member sends.
    pub open spec fn vote_request(&self) -> MessageView<Op> {
        self.message(
            KindView::RequestVote {
                last_log_index: self.journal.spec_last().0,
                last_log_term: self.journal.spec_last().1,
            },
        )
    }

    /// One request for a vote to each peer, in the order of `peers`.
    pub open spec fn vote_requests(&self) -> Seq<EffectView<Op>> {
        Seq::new(
            self.peers@.len(),
            |i: int| EffectView::Send { to: self.peers@[i], message: self.vote_request() },
        )
    }

    /// This is the state that the member `me` of a cluster given as `others`
    /// starts with: a follower at term 0 that has voted for nobody and has
    /// set no deadline, over an empty journal that starts from `initial`. Its
    /// peers are `others` without the member itself and without what occurs a
    /// second time.
    pub open spec fn fresh(&self, me: Member, others: Seq<Member>, initial: Op::State) -> bool {
        &&& self.me == me
        &&& self.peers@ == peers_of(others, me)
        &&& self.role is Follower
        &&& self.current_term == 0
        &&& self.voted_for is None
        &&& self.election_deadline == 0
        &&& self.votes@ == Seq::<Member>::empty()
        &&& self.progress@ == Seq::new(self.peers@.len(), |i: int| 0u64)
        &&& self.journal.entries() == Seq::<LogEntry<Op>>::empty()
        &&& self.journal.spec_commit_index() == 0
        &&& self.journal.spec_last_applied() == 0
        &&& self.journal.spec_state() == initial
        &&& self.journal.initial() == initial
    }

    /// The state that a member starts with.
    pub fn new(me: Member, others: &Vec<Member>, initial: Op::State) -> (state: Self)
        ensures
            state.wf(),
            state.fresh(me, others@, initial),
    {
        let mut peers: Vec<Member> = Vec::new();
        let mut progress: Vec<u64> = Vec::new();
        let mut i: usize = 0;
        assert(others@.take(0) =~= Seq::<Member>::empty());
        while i < others.len()
            invariant
                i <= others@.len(),
                peers@ == peers_of(others@.take(i as int), me),
                progress@ == Seq::new(peers@.len(), |i: int| 0u64),
            decreases others@.len() - i,
        {
            let m = others[i];
            assert(others@.take(i + 1).drop_last() =~= others@.take(i as int));
            if m != me && !is_member(&peers, m) {
                peers.push(m);
                progress.push(0);
                assert(progress@ =~= Seq::new(peers@.len(), |i: int| 0u64));
            }
            i += 1;
        }
        proof {
            assert(others@.take(i as int) =~= others@);
            lemma_peers_of(others@, me);
        }
        RaftState {
            me,
            peers,
            role: RaftRole::Follower,
            current_term: 0,
            voted_for: None,
            election_deadline: 0,
            votes: Vec::new(),
            progress,
            journal: VecJournal::new(initial),
        }
    }

    /// The number of votes that make a leader.
    pub fn quorum_size(&self) -> (q: usize)
        ensures
            q == self.quorum(),
    {
        let n: usize = self.peers.len();
        n / 2 + n % 2 + 1
    }

    /// What an election timeout does. A leader ignores it. Anyone else
    /// starts an election: it moves to the next term as a candidate, votes for
    /// itself, asks every peer for its vote and sets a new random deadline.
    pub open spec fn election_started(
        pre: &Self,
        post: &Self,
        effects: Seq<EffectView<Op>>,
        now: u64,
        entropy: u64,
    ) -> bool {
        if pre.role is Leader {
            post.same_as(pre) && effects == Seq::<EffectView<Op>>::empty()
        } else {
            &&& post.same_cluster(pre)
            &&& post.role is Candidate
            &&& post.current_term == pre.current_term + 1
            &&& post.voted_for == Some(pre.me)
            &&& post.votes@ == seq![pre.me]
            &&& post.election_deadline == spec_election_deadline(now, entropy)
            &&& post.progress@ == pre.progress@
            &&& post.journal.same_as(&pre.journal)
            &&& effects == post.vote_requests().push(
                EffectView::ArmElection { deadline: post.election_deadline },
            )
        }
    }

    /// Reacts to an election timeout.
    pub fn on_election_timeout(&mut self, now: u64, entropy: u64) -> (effects: Vec<Effect<Op>>)
        requires
            old(self).wf(),
            now <= u64::MAX - ELECTION_MAX_MS,
            !(old(self).role is Leader) ==> old(self).current_term < u64::MAX,
        ensures
            final(self).wf(),
            Self::election_started(old(self), final(self), effect_views(effects@), now, entropy),
    {
        let mut effects: Vec<Effect<Op>> = Vec::new();
        if self.role == RaftRole::Leader {
            assert(effect_views(effects@) =~= Seq::<EffectView<Op>>::empty());
            return effects;
        }
        self.current_term = self.current_term + 1;
        self.role = RaftRole::Candidate;
        self.voted_for = Some(self.me);
        let mut votes: Vec<Member> = Vec::new();
        votes.push(self.me);
        self.votes = votes;
        self.election_deadline = election_deadline(now, entropy);
        assert(self.votes@ =~= seq![self.me]);
        assert(self.votes@[0] == self.me);
        let last_log_index = self.journal.last_index();
        let last_log_term = self.journal.last_term();
        let mut i: usize = 0;
        while i < self.peers.len()
            invariant
                i <= self.peers@.len(),
                self.wf(),
                last_log_index == self.journal.spec_last().0,
                last_log_term == self.journal.spec_last().1,
                effects@.len() == i,
                forall|j: int| 0 <= j < i ==> (#[trigger] effects@[j])@ == self.vote_requests()[j],
            decreases self.peers@.len() - i,
        {
            let message = RaftMessage {
                term: self.current_term,
                from: self.me,
                kind: RaftMessageKind::RequestVote { last_log_index, last_log_term },
            };
            effects.push(Effect::Send { to: self.peers[i], message });
            i += 1;
        }
        effects.push(Effect::ArmElection { deadline: self.election_deadline });
        assert(effect_views(effects@) =~= self.vote_requests().push(
            EffectView::ArmElection { deadline: self.election_deadline },
        ));
        effects
    }

    /// The state after taking over a later term: a follower in that term
    /// that has voted for nobody. A leader that steps down sets a new election
    /// deadline; for anyone else the timer goes on as it was.
    pub open spec fn adopted(
        pre: &Self,
        post: &Self,
        effects: Seq<EffectView<Op>>,
        term: RaftTerm,
        now: u64,
        entropy: u64,
    ) -> bool {
        &&& post.same_cluster(pre)
        &&& post.role is Follower
        &&& post.current_term == term
        &&& post.voted_for is None
        &&& post.votes@ == Seq::<Member>::empty()
        &&& post.progress@ == pre.progress@
        &&& post.journal.same_as(&pre.journal)
        &&& if pre.role is Leader {
            &&& post.election_deadline == spec_election_deadline(now, entropy)
            &&& effects == seq![EffectView::<Op>::ArmElection { deadline: post.election_deadline }]
        } else {
            &&& post.election_deadline == pre.election_deadline
            &&& effects == Seq::<EffectView<Op>>::empty()
        }
    }

    /// What an answer does that carries nothing to act on (a refused vote, a
    /// refused append): a later term is taken over, anything else changes
    /// nothing.
    pub open spec fn term_only(
        pre: &Self,
        post: &Self,
        effects: Seq<EffectView<Op>>,
        term: RaftTerm,
        now: u64,
        entropy: u64,
    ) -> bool {
        if term > pre.current_term {
            Self::adopted(pre, post, effects, term, now, entropy)
        } else {
            post.same_as(pre) && effects == Seq::<EffectView<Op>>::empty()
        }
    }

    /// Takes over the later term `term`.
    pub fn adopt_term(&mut self, term: RaftTerm, now: u64, entropy: u64) -> (effects: Vec<
        Effect<Op>,
    >)
        requires
            old(self).wf(),
            now <= u64::MAX - ELECTION_MAX_MS,
            term > old(self).current_term,
        ensures
            final(self).wf(),
            Self::adopted(old(self), final(self), effect_views(effects@), term, now, entropy),
    {
        let mut effects: Vec<Effect<Op>> = Vec::new();
        if self.role == RaftRole::Leader {
            self.election_deadline = election_deadline(now, entropy);
            effects.push(Effect::ArmElection { deadline: self.election_deadline });
        }
        self.current_term = term;
        self.voted_for = None;
        self.role = RaftRole::Follower;
        self.votes = Vec::new();
        assert(effect_views(effects@) =~= if old(self).role is Leader {
            seq![EffectView::<Op>::ArmElection { deadline: self.election_deadline }]
        } else {
            Seq::<EffectView<Op>>::empty()
        });
        effects
    }

    /// Reacts to an answer that carries nothing to act on.
    pub fn on_term_only(&mut self, term: RaftTerm, now: u64, entropy: u64) -> (effects: Vec<
        Effect<Op>,
    >)
        requires
            old(self).wf(),
            now <= u64::MAX - ELECTION_MAX_MS,
        ensures
            final(self).wf(),
            Self::term_only(old(self), final(self), effect_views(effects@), term, now, entropy),
    {
        if term > self.current_term {
            self.adopt_term(term, now, entropy)
        } else {
            let effects: Vec<Effect<Op>> = Vec::new();
            assert(effect_views(effects@) =~= Seq::<EffectView<Op>>::empty());
            effects
        }
    }

    /// What a request for a vote does. A request from an earlier term is
    /// refused and changes nothing. A later term is taken over first. The vote
    /// is given where this member has voted for nobody else in the term and
    /// the candidate's log is at least as up to date as its own; giving it
    /// sets a new election deadline.
    pub open spec fn vote_requested(
        pre: &Self,
        post: &Self,
        effects: Seq<EffectView<Op>>,
        from: Member,
        term: RaftTerm,
        last_log_index: u64,
        last_log_term: u64,
        now: u64,
        entropy: u64,
    ) -> bool {
        if term < pre.current_term {
            &&& post.same_as(pre)
            &&& effects == seq![
                EffectView::Send { to: from, message: pre.message(KindView::VoteDenied) },
            ]
        } else {
            let later = term > pre.current_term;
            let voted = if later { None } else { pre.voted_for };
            let grant = (voted is None || voted == Some(from)) && spec_up_to_date(
                last_log_term,
                last_log_index,
                pre.journal.spec_last(),
            );
            let rearm = grant || (later && pre.role is Leader);
            let answer = if grant { KindView::<Op>::VoteGranted } else { KindView::<Op>::VoteDenied };
            &&& post.same_cluster(pre)
            &&& post.current_term == term
            &&& post.role == if later { RaftRole::Follower } else { pre.role }
            &&& post.voted_for == if grant { Some(from) } else { voted }
            &&& post.votes@ == if later { Seq::<Member>::empty() } else { pre.votes@ }
            &&& post.progress@ == pre.progress@
            &&& post.journal.same_as(&pre.journal)
            &&& post.election_deadline == if rearm {
                spec_election_deadline(now, entropy) as u64
            } else {
                pre.election_deadline
            }
            &&& effects == seq![EffectView::Send { to: from, message: post.message(answer) }] + if rearm {
                seq![EffectView::<Op>::ArmElection { deadline: post.election_deadline }]
            } else {
                Seq::<EffectView<Op>>::empty()
            }
        }
    }

    /// Reacts to a request for a vote from the peer `from`.
    pub fn on_request_vote(
        &mut self,
        from: Member,
        term: RaftTerm,
        last_log_index: u64,
        last_log_term: u64,
        now: u64,
        entropy: u64,
    ) -> (effects: Vec<Effect<Op>>)
        requires
            old(self).wf(),
            old(self).peers@.contains(from),
            now <= u64::MAX - ELECTION_MAX_MS,
        ensures
            final(self).wf(),
            Self::vote_requested(
                old(self),
                final(self),
                effect_views(effects@),
                from,
                term,
                last_log_index,
                last_log_term,
                now,
                entropy,
            ),
    {
        let mut effects: Vec<Effect<Op>> = Vec::new();
        if term < self.current_term {
            let message = RaftMessage {
                term: self.current_term,
                from: self.me,
                kind: RaftMessageKind::VoteDenied,
            };
            effects.push(Effect::Send { to: from, message });
            assert(effect_views(effects@) =~= seq![
                EffectView::Send { to: from, message: self.message(KindView::VoteDenied) },
            ]);
            return effects;
        }
        let mut rearm = false;
        if term > self.current_term {
            rearm = self.role == RaftRole::Leader;
            self.current_term = term;
            self.voted_for = None;
            self.role = RaftRole::Follower;
            self.votes = Vec::new();
        }
        let free = match self.voted_for {
            None => true,
            Some(v) => v == from,
        };
        let my_index = self.journal.last_index();
        let my_term = self.journal.last_term();
        let fresh = last_log_term > my_term || (last_log_term == my_term && last_log_index
            >= my_index);
        let grant = free && fresh;
        if grant {
            self.voted_for = Some(from);
            rearm = true;
        }
        if rearm {
            self.election_deadline = election_deadline(now, entropy);
        }
        let kind = if grant { RaftMessageKind::VoteGranted } else { RaftMessageKind::VoteDenied };
        let message = RaftMessage { term: self.current_term, from: self.me, kind };
        effects.push(Effect::Send { to: from, message });
        if rearm {
            effects.push(Effect::ArmElection { deadline: self.election_deadline });
        }
        proof {
            let answer = if grant { KindView::<Op>::VoteGranted } else { KindView::<Op>::VoteDenied };
            assert(effect_views(effects@) =~= seq![
                EffectView::Send { to: from, message: self.message(answer) },
            ] + if rearm {
                seq![EffectView::<Op>::ArmElection { deadline: self.election_deadline }]
            } else {
                Seq::<EffectView<Op>>::empty()
            });
        }
        effects
    }

    /// A leader's first record of its peers: each is taken to need the entry
    /// that the leader appends next.
    pub open spec fn fresh_progress(&self) -> Seq<u64> {
        Seq::new(self.peers@.len(), |i: int| (self.journal.entries().len() + 1) as u64)
    }

    /// What a given vote does. A candidate counts it, once for each peer, if
    /// it is of the candidate's own term; with a quorum of votes, its own
    /// included, it becomes leader, starts its record of the peers and has the
    /// heartbeat run in place of the election timer. For anyone else, and for
    /// another term, only the term counts.
    pub open spec fn vote_counted(
        pre: &Self,
        post: &Self,
        effects: Seq<EffectView<Op>>,
        from: Member,
        term: RaftTerm,
        now: u64,
        entropy: u64,
    ) -> bool {
        if term != pre.current_term || !(pre.role is Candidate) {
            Self::term_only(pre, post, effects, term, now, entropy)
        } else {
            let votes = if pre.votes@.contains(from) { pre.votes@ } else { pre.votes@.push(from) };
            let won = votes.len() >= pre.quorum();
            &&& post.same_cluster(pre)
            &&& post.current_term == pre.current_term
            &&& post.voted_for == pre.voted_for
            &&& post.election_deadline == pre.election_deadline
            &&& post.journal.same_as(&pre.journal)
            &&& post.votes@ == votes
            &&& post.role == if won { RaftRole::Leader } else { RaftRole::Candidate }
            &&& post.progress@ == if won { pre.fresh_progress() } else { pre.progress@ }
            &&& effects == if won {
                seq![EffectView::<Op>::ArmHeartbeat { period: HEARTBEAT_MS }]
            } else {
                Seq::<EffectView<Op>>::empty()
            }
        }
    }

    /// Reacts to a vote given by the peer `from`.
    pub fn on_vote_granted(&mut self, from: Member, term: RaftTerm, now: u64, entropy: u64) -> (effects:
        Vec<Effect<Op>>)
        requires
            old(self).wf(),
            old(self).peers@.contains(from),
            now <= u64::MAX - ELECTION_MAX_MS,
        ensures
            final(self).wf(),
            Self::vote_counted(old(self), final(self), effect_views(effects@), from, term, now, entropy),
    {
        if term != self.current_term || self.role != RaftRole::Candidate {
            return self.on_term_only(term, now, entropy);
        }
        let mut effects: Vec<Effect<Op>> = Vec::new();
        if !is_member(&self.votes, from) {
            self.votes.push(from);
            assert(forall|j: int| 0 <= j < old(self).votes@.len() ==> self.votes@[j] == old(self).votes@[j]);
            assert(self.votes@[self.votes@.len() - 1] == from);
            assert(self.votes@.contains(self.me)) by {
                let j = choose|j: int| 0 <= j < old(self).votes@.len() && old(self).votes@[j] == self.me;
                assert(self.votes@[j] == self.me);
            }
        }
        if self.votes.len() >= self.quorum_size() {
            self.role = RaftRole::Leader;
            let next = self.journal.next_index();
            let mut progress: Vec<u64> = Vec::new();
            let mut i: usize = 0;
            while i < self.peers.len()
                invariant
                    i <= self.peers@.len(),
                    progress@.len() == i,
                    forall|j: int| 0 <= j < i ==> progress@[j] == next,
                decreases self.peers@.len() - i,
            {
                progress.push(next);
                i += 1;
            }
            self.progress = progress;
            assert(self.progress@ =~= old(self).fresh_progress());
            effects.push(Effect::ArmHeartbeat { period: HEARTBEAT_MS });
            assert(effect_views(effects@) =~= seq![
                EffectView::<Op>::ArmHeartbeat { period: HEARTBEAT_MS },
            ]);
        } else {
            assert(effect_views(effects@) =~= Seq::<EffectView<Op>>::empty());
        }
        effects
    }

    /// What a leader's entries do. Entries from an earlier term are refused
    /// and change nothing. A leader that sees entries of its own term has
    /// found a second leader: it changes nothing and reports the violation.
    /// Anyone else becomes, or stays, a follower in the sender's term and sets
    /// a new election deadline; it takes over the run where that is
    /// acceptable, raises its commit index to the leader's as far as its own
    /// log reaches, and acknowledges with the index of its last entry. A run
    /// that is not acceptable is refused and leaves the journal as it was.
    pub open spec fn entries_received(
        pre: &Self,
        post: &Self,
        effects: Seq<EffectView<Op>>,
        from: Member,
        term: RaftTerm,
        run: Seq<LogEntry<Op>>,
        leader_commit: u64,
        now: u64,
        entropy: u64,
    ) -> bool {
        if term < pre.current_term {
            &&& post.same_as(pre)
            &&& effects == seq![
                EffectView::Send { to: from, message: pre.message(KindView::AppendNack) },
            ]
        } else if term == pre.current_term && pre.role is Leader {
            &&& post.same_as(pre)
            &&& effects == seq![EffectView::<Op>::ElectionSafetyViolation]
        } else {
            let rearm = EffectView::<Op>::ArmElection { deadline: post.election_deadline };
            &&& post.same_cluster(pre)
            &&& post.role is Follower
            &&& post.current_term == term
            &&& post.voted_for == if term > pre.current_term { None } else { pre.voted_for }
            &&& post.votes@ == Seq::<Member>::empty()
            &&& post.progress@ == pre.progress@
            &&& post.election_deadline == spec_election_deadline(now, entropy)
            &&& if acceptable(pre.journal.entries(), pre.journal.spec_commit_index(), run) {
                let log = merged(pre.journal.entries(), run);
                let reach = if leader_commit < log.len() { leader_commit } else { log.len() as u64 };
                &&& post.journal.commit_of(&pre.journal, log, reach)
                &&& effects == seq![
                    EffectView::Send {
                        to: from,
                        message: post.message(KindView::AppendAck { match_index: log.len() as u64 }),
                    },
                    rearm,
                ]
            } else {
                &&& post.journal.same_as(&pre.journal)
                &&& effects == seq![
                    EffectView::Send { to: from, message: post.message(KindView::AppendNack) },
                    rearm,
                ]
            }
        }
    }

    /// Reacts to entries sent by the peer `from`.
    pub fn on_append_entries(
        &mut self,
        from: Member,
        term: RaftTerm,
        run: &Vec<LogEntry<Op>>,
        leader_commit: u64,
        now: u64,
        entropy: u64,
    ) -> (effects: Vec<Effect<Op>>)
        requires
            old(self).wf(),
            old(self).peers@.contains(from),
            now <= u64::MAX - ELECTION_MAX_MS,
        ensures
            final(self).wf(),
            Self::entries_received(
                old(self),
                final(self),
                effect_views(effects@),
                from,
                term,
                run@,
                leader_commit,
                now,
                entropy,
            ),
    {
        let mut effects: Vec<Effect<Op>> = Vec::new();
        if term < self.current_term {
            let message = RaftMessage {
                term: self.current_term,
                from: self.me,
                kind: RaftMessageKind::AppendNack,
            };
            effects.push(Effect::Send { to: from, message });
            assert(effect_views(effects@) =~= seq![
                EffectView::Send { to: from, message: self.message(KindView::AppendNack) },
            ]);
            return effects;
        }
        if term == self.current_term && self.role == RaftRole::Leader {
            effects.push(Effect::ElectionSafetyViolation);
            assert(effect_views(effects@) =~= seq![EffectView::<Op>::ElectionSafetyViolation]);
            return effects;
        }
        if term > self.current_term {
            self.current_term = term;
            self.voted_for = None;
        }
        self.role = RaftRole::Follower;
        self.votes = Vec::new();
        self.election_deadline = election_deadline(now, entropy);
        let accepted = self.journal.merge(run);
        let kind = if accepted {
            let last = self.journal.last_index();
            let reach = if leader_commit < last { leader_commit } else { last };
            self.journal.commit_to(reach);
            RaftMessageKind::AppendAck { match_index: last }
        } else {
            RaftMessageKind::AppendNack
        };
        let message = RaftMessage { term: self.current_term, from: self.me, kind };
        effects.push(Effect::Send { to: from, message });
        effects.push(Effect::ArmElection { deadline: self.election_deadline });
        proof {
            let rearm = EffectView::<Op>::ArmElection { deadline: self.election_deadline };
            assert(effect_views(effects@) =~= seq![
                EffectView::Send { to: from, message: self.message(kind@) },
                rearm,
            ]);
        }
        effects
    }

    /// The entries that a leader sends to each peer, in the order of `peers`:
    /// its log from the index on that it has on record for the peer, and its
    /// commit index.
    pub open spec fn heartbeats(&self) -> Seq<EffectView<Op>> {
        Seq::new(
            self.peers@.len(),
            |i: int|
                EffectView::Send {
                    to: self.peers@[i],
                    message: self.message(
                        KindView::AppendEntries {
                            entries: suffix_from(self.journal.entries(), self.progress@[i]),
                            leader_commit: self.journal.spec_commit_index(),
                        },
                    ),
                },
        )
    }

    /// What a heartbeat timeout does: a leader sends each peer the entries
    /// it is taken to miss, none where it misses none. Nothing changes, and
    /// anyone else sends nothing.
    pub open spec fn heartbeat_sent(pre: &Self, post: &Self, effects: Seq<EffectView<Op>>) -> bool {
        &&& post.same_as(pre)
        &&& effects == if pre.role is Leader {
            pre.heartbeats()
        } else {
            Seq::<EffectView<Op>>::empty()
        }
    }

    /// Reacts to a heartbeat timeout.
    pub fn on_heartbeat_timeout(&mut self) -> (effects: Vec<Effect<Op>>)
        requires
            old(self).wf(),
        ensures
            final(self).wf(),
            Self::heartbeat_sent(old(self), final(self), effect_views(effects@)),
    {
        let mut effects: Vec<Effect<Op>> = Vec::new();
        if self.role != RaftRole::Leader {
            assert(effect_views(effects@) =~= Seq::<EffectView<Op>>::empty());
            return effects;
        }
        let leader_commit = self.journal.commit_index();
        let mut i: usize = 0;
        while i < self.peers.len()
            invariant
                i <= self.peers@.len(),
                self.wf(),
                leader_commit == self.journal.spec_commit_index(),
                effects@.len() == i,
                forall|j: int| 0 <= j < i ==> (#[trigger] effects@[j])@ == self.heartbeats()[j],
            decreases self.peers@.len() - i,
        {
            let entries = self.journal.entries_from(self.progress[i]);
            let message = RaftMessage {
                term: self.current_term,
                from: self.me,
                kind: RaftMessageKind::AppendEntries { entries, leader_commit },
            };
            effects.push(Effect::Send { to: self.peers[i], message });
            i += 1;
        }
        assert(effect_views(effects@) =~= self.heartbeats());
        effects
    }

    /// What submitting an operation does. Only a leader takes it: it is
    /// appended to the journal under the leader's term, unless it does not
    /// apply to the current state. It is committed later, when a quorum holds
    /// it.
    pub open spec fn submitted(
        pre: &Self,
        post: &Self,
        op: Op,
        result: Result<LogEntry<Op>, SubmitError>,
    ) -> bool {
        let entry = LogEntry {
            index: (pre.journal.entries().len() + 1) as u64,
            term: pre.current_term,
            operation: op,
        };
        if !(pre.role is Leader) {
            post.same_as(pre) && result == Err::<LogEntry<Op>, SubmitError>(SubmitError::NotLeader)
        } else if op.applied(pre.journal.spec_state()) is None {
            post.same_as(pre) && result == Err::<LogEntry<Op>, SubmitError>(
                SubmitError::ApplyFailed,
            )
        } else {
            &&& result == Ok::<LogEntry<Op>, SubmitError>(entry)
            &&& post.same_cluster(pre)
            &&& post.role == pre.role
            &&& post.current_term == pre.current_term
            &&& post.voted_for == pre.voted_for
            &&& post.election_deadline == pre.election_deadline
            &&& post.votes@ == pre.votes@
            &&& post.progress@ == pre.progress@
            &&& post.journal.entries() == pre.journal.entries().push(entry)
            &&& post.journal.spec_commit_index() == pre.journal.spec_commit_index()
            &&& post.journal.spec_last_applied() == pre.journal.spec_last_applied()
            &&& post.journal.spec_state() == pre.journal.spec_state()
            &&& post.journal.initial() == pre.journal.initial()
        }
    }

    /// Takes an operation from a client.
    pub fn submit(&mut self, op: &Op) -> (result: Result<LogEntry<Op>, SubmitError>)
        requires
            old(self).wf(),
            old(self).journal.entries().len() + 1 < u64::MAX,
        ensures
            final(self).wf(),
            Self::submitted(old(self), final(self), *op, result),
    {
        if self.role != RaftRole::Leader {
            return Err(SubmitError::NotLeader);
        }
        match self.journal.propose(op, self.current_term) {
            Ok(entry) => Ok(entry),
            Err(_) => Err(SubmitError::ApplyFailed),
        }
    }

    /// The indices that the members of a leader's cluster are taken to hold,
    /// once the peer at position `at` has acknowledged `match_index`: each
    /// peer's record, raised for that peer where the acknowledged index is
    /// higher, and then the leader's own last index.
    pub open spec fn held_after(&self, at: int, match_index: u64) -> Seq<u64> {
        self.progress_after(at, match_index).push(self.journal.entries().len() as u64)
    }

    /// A leader's record of its peers once the peer at position `at` has
    /// acknowledged `match_index`: a record is raised, never lowered.
    pub open spec fn progress_after(&self, at: int, match_index: u64) -> Seq<u64> {
        let reached = if match_index > self.progress@[at] { match_index } else { self.progress@[at] };
        self.progress@.update(at, reached)
    }

    /// What an acknowledgement does. A leader takes one of its own term: it
    /// raises its record of the peer, and raises the commit index to the
    /// highest index that a quorum holds, itself included. For anyone else,
    /// and for another term, only the term counts.
    pub open spec fn acknowledged(
        pre: &Self,
        post: &Self,
        effects: Seq<EffectView<Op>>,
        from: Member,
        term: RaftTerm,
        match_index: u64,
        now: u64,
        entropy: u64,
    ) -> bool {
        if term != pre.current_term || !(pre.role is Leader) {
            Self::term_only(pre, post, effects, term, now, entropy)
        } else {
            let at = pre.peers@.index_of(from);
            &&& post.same_cluster(pre)
            &&& post.role == pre.role
            &&& post.current_term == pre.current_term
            &&& post.voted_for == pre.voted_for
            &&& post.election_deadline == pre.election_deadline
            &&& post.votes@ == pre.votes@
            &&& post.progress@ == pre.progress_after(at, match_index)
            &&& post.journal.commit_of(
                &pre.journal,
                pre.journal.entries(),
                spec_quorum_index(pre.held_after(at, match_index), pre.quorum()),
            )
            &&& effects == Seq::<EffectView<Op>>::empty()
        }
    }

    /// Reacts to an acknowledgement from the peer `from`.
    pub fn on_append_ack(
        &mut self,
        from: Member,
        term: RaftTerm,
        match_index: u64,
        now: u64,
        entropy: u64,
    ) -> (effects: Vec<Effect<Op>>)
        requires
            old(self).wf(),
            old(self).peers@.contains(from),
            now <= u64::MAX - ELECTION_MAX_MS,
        ensures
            final(self).wf(),
            Self::acknowledged(
                old(self),
                final(self),
                effect_views(effects@),
                from,
                term,
                match_index,
                now,
                entropy,
            ),
    {
        if term != self.current_term || self.role != RaftRole::Leader {
            return self.on_term_only(term, now, entropy);
        }
        let effects: Vec<Effect<Op>> = Vec::new();
        assert(effect_views(effects@) =~= Seq::<EffectView<Op>>::empty());
        let at = match position_of(&self.peers, from) {
            Some(i) => i,
            None => {
                return effects;
            },
        };
        assert(at == self.peers@.index_of(from)) by {
            let other = self.peers@.index_of(from);
            assert(self.peers@[other] == from);
        }
        if match_index > self.progress[at] {
            self.progress.set(at, match_index);
        }
        assert(self.progress@ =~= old(self).progress_after(at as int, match_index));
        let mut held: Vec<u64> = Vec::new();
        let mut i: usize = 0;
        while i < self.progress.len()
            invariant
                i <= self.progress@.len(),
                held@ == self.progress@.take(i as int),
            decreases self.progress@.len() - i,
        {
            held.push(self.progress[i]);
            i += 1;
            assert(held@ =~= self.progress@.take(i as int));
        }
        assert(self.progress@.take(i as int) =~= self.progress@);
        held.push(self.journal.last_index());
        let quorum = self.quorum_size();
        let reach = quorum_index(&held, quorum);
        self.journal.commit_to(reach);
        effects
    }

    /// What an event does: a timeout by its kind, and a message by its
    /// kind where it comes from a peer. A message from anyone else is dropped.
    pub open spec fn stepped(
        pre: &Self,
        post: &Self,
        effects: Seq<EffectView<Op>>,
        event: EventView<Op>,
        now: u64,
        entropy: u64,
    ) -> bool {
        match event {
            EventView::Timeout(TimerEvent::ElectionTimeout) => Self::election_started(
                pre,
                post,
                effects,
                now,
                entropy,
            ),
            EventView::Timeout(TimerEvent::HeartbeatTimeout) => Self::heartbeat_sent(
                pre,
                post,
                effects,
            ),
            EventView::Msg(m) => if !pre.peers@.contains(m.from) {
                post.same_as(pre) && effects == Seq::<EffectView<Op>>::empty()
            } else {
                match m.kind {
                    KindView::RequestVote { last_log_index, last_log_term } => Self::vote_requested(
                        pre,
                        post,
                        effects,
                        m.from,
                        m.term,
                        last_log_index,
                        last_log_term,
                        now,
                        entropy,
                    ),
                    KindView::VoteGranted => Self::vote_counted(
                        pre,
                        post,
                        effects,
                        m.from,
                        m.term,
                        now,
                        entropy,
                    ),
                    KindView::VoteDenied => Self::term_only(pre, post, effects, m.term, now, entropy),
                    KindView::AppendEntries { entries, leader_commit } => Self::entries_received(
                        pre,
                        post,
                        effects,
                        m.from,
                        m.term,
                        entries,
                        leader_commit,
                        now,
                        entropy,
                    ),
                    KindView::AppendAck { match_index } => Self::acknowledged(
                        pre,
                        post,
                        effects,
                        m.from,
                        m.term,
                        match_index,
                        now,
                        entropy,
                    ),
                    KindView::AppendNack => Self::term_only(pre, post, effects, m.term, now, entropy),
                }
            },
        }
    }

    /// Reacts to one event at time `now`, with the random sample `entropy`
    /// for the election deadline, and says what is to be done.
    pub fn handle_event(&mut self, event: RaftEvent<Op>, now: u64, entropy: u64) -> (effects: Vec<
        Effect<Op>,
    >)
        requires
            old(self).wf(),
            now <= u64::MAX - ELECTION_MAX_MS,
            event@ == EventView::<Op>::Timeout(TimerEvent::ElectionTimeout) && !(old(self).role
                is Leader) ==> old(self).current_term < u64::MAX,
        ensures
            final(self).wf(),
            Self::stepped(old(self), final(self), effect_views(effects@), event@, now, entropy),
    {
        match event {
            RaftEvent::Timeout(TimerEvent::ElectionTimeout) => self.on_election_timeout(
                now,
                entropy,
            ),
            RaftEvent::Timeout(TimerEvent::HeartbeatTimeout) => self.on_heartbeat_timeout(),
            RaftEvent::Msg(message) => {
                let from = message.from;
                let term = message.term;
                if !is_member(&self.peers, from) {
                    let effects: Vec<Effect<Op>> = Vec::new();
                    assert(effect_views(effects@) =~= Seq::<EffectView<Op>>::empty());
                    return effects;
                }
                match message.kind {
                    RaftMessageKind::RequestVote {
                        last_log_index,
                        last_log_term,
                    } => self.on_request_vote(
                        from,
                        term,
                        last_log_index,
                        last_log_term,
                        now,
                        entropy,
                    ),
                    RaftMessageKind::VoteGranted => self.on_vote_granted(from, term, now, entropy),
                    RaftMessageKind::VoteDenied => self.on_term_only(term, now, entropy),
                    RaftMessageKind::AppendEntries {
                        entries,
                        leader_commit,
                    } => self.on_append_entries(from, term, &entries, leader_commit, now, entropy),
                    RaftMessageKind::AppendAck { match_index } => self.on_append_ack(
                        from,
                        term,
                        match_index,
                        now,
                        entropy,
                    ),
                    RaftMessageKind::AppendNack => self.on_term_only(term, now, entropy),
                }
            },
        }
    }
}

} // verus!
