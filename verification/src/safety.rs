//! Election safety: in a cluster whose members run the state machine of
//! `consensus`, over a network that may lose, repeat and reorder messages,
//! no term ever has two leaders.
//!
//! The cluster is modelled as the states of its members, the set of all
//! messages sent so far, and a record of what has happened: the votes cast
//! and the elections won. A step is one member reacting to a timeout, to any
//! message ever sent to it, or to a client. Nothing here is executable.

use vstd::prelude::*;
use vstd::set_lib::{lemma_len_subset, lemma_set_intersect_union_lens};
use crate::consensus::{spec_quorum, spec_up_to_date, EventView, RaftState, SubmitError};
use crate::journal::{acceptable, lemma_merged_keeps_committed, LogEntry, StateOp};
use crate::message::{EffectView, KindView, Member, MessageView, RaftTerm, TimerEvent};

verus! {

/// Where a vote that a candidate or leader holds after a step comes from:
/// it is its own, it was held before the step in the same term, or the step
/// reacted to this vote being given for this term.
pub open spec fn vote_origin<Op: StateOp + Copy>(
    pre: &RaftState<Op>,
    post: &RaftState<Op>,
    event: EventView<Op>,
    voter: Member,
) -> bool where Op::State: Copy {
    ||| voter == post.me
    ||| (!(pre.role is Follower) && pre.current_term == post.current_term && pre.votes@.contains(
        voter,
    ))
    ||| (event matches EventView::Msg(m) && m.kind is VoteGranted && m.from == voter && m.term
        == post.current_term)
}

/// A message that is sent bears the sender's name and goes to a peer; a
/// given vote bears the term in which the sender has voted for the receiver;
/// and entries are sent by a leader, under its term.
pub open spec fn honest_effect<Op: StateOp + Copy>(
    pre: &RaftState<Op>,
    post: &RaftState<Op>,
    effect: EffectView<Op>,
) -> bool where Op::State: Copy {
    effect matches EffectView::Send { to, message } ==> {
        &&& message.from == pre.me
        &&& message.kind is VoteGranted ==> message.term == post.current_term && post.voted_for
            == Some(to)
        &&& message.kind is AppendEntries ==> message.term == post.current_term && post.role
            is Leader
    }
}

/// What every step keeps of a member's part in elections: the term never
/// falls, a vote is not changed within its term, what is sent is honest, and
/// every vote held has an origin.
pub open spec fn election_step<Op: StateOp + Copy>(
    pre: &RaftState<Op>,
    post: &RaftState<Op>,
    effects: Seq<EffectView<Op>>,
    event: EventView<Op>,
) -> bool where Op::State: Copy {
    &&& post.same_cluster(pre)
    &&& post.current_term >= pre.current_term
    &&& post.current_term == pre.current_term && pre.voted_for is Some ==> post.voted_for
        == pre.voted_for
    &&& forall|i: int| 0 <= i < effects.len() ==> honest_effect(pre, post, #[trigger] effects[i])
    &&& !(post.role is Follower) ==> forall|i: int|
        0 <= i < post.votes@.len() ==> vote_origin(pre, post, event, #[trigger] post.votes@[i])
}

/// Every reaction to an event is an election step.
pub proof fn lemma_event_is_election_step<Op: StateOp + Copy>(
    pre: &RaftState<Op>,
    post: &RaftState<Op>,
    effects: Seq<EffectView<Op>>,
    event: EventView<Op>,
    now: u64,
    entropy: u64,
) where Op::State: Copy
    requires
        pre.wf(),
        post.wf(),
        RaftState::stepped(pre, post, effects, event, now, entropy),
    ensures
        election_step(pre, post, effects, event),
{
    assert forall|i: int| 0 <= i < post.votes@.len() && !(post.role is Follower) implies vote_origin(
        pre,
        post,
        event,
        #[trigger] post.votes@[i],
    ) by {
        let v = post.votes@[i];
        if post.votes@ == pre.votes@ {
            assert(pre.votes@.contains(v));
        } else if i < pre.votes@.len() && post.votes@[i] == pre.votes@[i] {
            assert(pre.votes@.contains(v));
        }
    }
}

/// Taking an operation from a client is an election step that sends nothing.
pub proof fn lemma_submit_is_election_step<Op: StateOp + Copy>(
    pre: &RaftState<Op>,
    post: &RaftState<Op>,
    op: Op,
    result: Result<LogEntry<Op>, SubmitError>,
    event: EventView<Op>,
) where Op::State: Copy
    requires
        pre.wf(),
        post.wf(),
        RaftState::submitted(pre, post, op, result),
    ensures
        election_step(pre, post, Seq::empty(), event),
{
    assert forall|i: int| 0 <= i < post.votes@.len() && !(post.role is Follower) implies vote_origin(
        pre,
        post,
        event,
        #[trigger] post.votes@[i],
    ) by {
        assert(pre.votes@.contains(post.votes@[i]));
    }
}

/// A vote is given only to a candidate whose log is at least as up to date
/// as the voter's own: its last entry is of a later term, or of the same
/// term and at no lower index.
pub proof fn lemma_vote_needs_up_to_date_log<Op: StateOp + Copy>(
    pre: &RaftState<Op>,
    post: &RaftState<Op>,
    effects: Seq<EffectView<Op>>,
    from: Member,
    term: RaftTerm,
    last_log_index: u64,
    last_log_term: u64,
    now: u64,
    entropy: u64,
) where Op::State: Copy
    requires
        RaftState::vote_requested(
            pre,
            post,
            effects,
            from,
            term,
            last_log_index,
            last_log_term,
            now,
            entropy,
        ),
        effects.len() > 0,
        effects[0] matches EffectView::Send { message, .. } && message.kind is VoteGranted,
    ensures
        spec_up_to_date(last_log_term, last_log_index, pre.journal.spec_last()),
        term >= pre.current_term,
        post.voted_for == Some(from),
{
}

/// What is committed stays: no reaction to an event lowers the term, the
/// commit index or the applied index of a member, and none removes or
/// changes an entry at or below the commit index.
pub proof fn lemma_event_keeps_committed<Op: StateOp + Copy>(
    pre: &RaftState<Op>,
    post: &RaftState<Op>,
    effects: Seq<EffectView<Op>>,
    event: EventView<Op>,
    now: u64,
    entropy: u64,
) where Op::State: Copy
    requires
        pre.wf(),
        RaftState::stepped(pre, post, effects, event, now, entropy),
    ensures
        post.current_term >= pre.current_term,
        post.journal.spec_commit_index() >= pre.journal.spec_commit_index(),
        post.journal.spec_last_applied() >= pre.journal.spec_last_applied(),
        post.journal.entries().len() >= pre.journal.spec_commit_index(),
        post.journal.entries().take(pre.journal.spec_commit_index() as int)
            == pre.journal.entries().take(pre.journal.spec_commit_index() as int),
{
    if let EventView::Msg(m) = event {
        if let KindView::AppendEntries { entries, leader_commit } = m.kind {
            if acceptable(pre.journal.entries(), pre.journal.spec_commit_index(), entries) {
                lemma_merged_keeps_committed(
                    pre.journal.entries(),
                    pre.journal.spec_commit_index(),
                    entries,
                );
            }
        }
    }
}

/// What is committed stays when a leader takes an operation from a client:
/// the new entry goes behind all others.
pub proof fn lemma_submit_keeps_committed<Op: StateOp + Copy>(
    pre: &RaftState<Op>,
    post: &RaftState<Op>,
    op: Op,
    result: Result<LogEntry<Op>, SubmitError>,
) where Op::State: Copy
    requires
        pre.wf(),
        RaftState::submitted(pre, post, op, result),
    ensures
        post.current_term == pre.current_term,
        post.journal.spec_commit_index() == pre.journal.spec_commit_index(),
        post.journal.spec_last_applied() == pre.journal.spec_last_applied(),
        post.journal.spec_state() == pre.journal.spec_state(),
        post.journal.entries().take(pre.journal.entries().len() as int) == pre.journal.entries(),
{
    assert(post.journal.entries().take(pre.journal.entries().len() as int)
        =~= pre.journal.entries());
}

/// A message on its way to a member.
pub ghost struct Envelope<Op> {
    pub to: Member,
    pub message: MessageView<Op>,
}

/// A vote that was cast: `voter` voted for `candidate` in `term`.
pub ghost struct Ballot {
    pub voter: Member,
    pub term: RaftTerm,
    pub candidate: Member,
}

/// A cluster and its past.
#[verifier::reject_recursive_types(Op)]
pub ghost struct Cluster<Op: StateOp> {
    /// Who belongs to the cluster.
    pub members: Set<Member>,
    /// The state of each member.
    pub nodes: Map<Member, RaftState<Op>>,
    /// Every message sent so far. Any of them may arrive, at any time, any
    /// number of times, or never.
    pub network: Set<Envelope<Op>>,
    /// Every vote cast so far.
    pub ballots: Set<Ballot>,
    /// Every term and member that was ever leader in it, with the votes it
    /// held.
    pub elections: Map<(RaftTerm, Member), Set<Member>>,
}

/// The messages that a list of effects sends.
pub open spec fn sent<Op>(effects: Seq<EffectView<Op>>) -> Set<Envelope<Op>> {
    Set::new(
        |e: Envelope<Op>| effects.contains(EffectView::Send { to: e.to, message: e.message }),
    )
}

impl<Op: StateOp + Copy> Cluster<Op> where Op::State: Copy {
    /// The number of votes that make a leader.
    pub open spec fn quorum(&self) -> nat {
        spec_quorum(self.members.len())
    }

    /// Every member has a valid state of its own, and all agree on who
    /// belongs to the cluster.
    pub open spec fn well_formed(&self) -> bool {
        &&& self.members.finite()
        &&& self.nodes.dom() == self.members
        &&& forall|n: Member| #[trigger]
            self.members.contains(n) ==> {
                &&& self.nodes[n].wf()
                &&& self.nodes[n].me == n
                &&& self.nodes[n].peers@.to_set() == self.members.remove(n)
            }
    }

    /// Nobody has cast two different votes in one term.
    pub open spec fn one_vote_per_term(&self) -> bool {
        forall|a: Ballot, b: Ballot| #![trigger self.ballots.contains(a), self.ballots.contains(b)]
            self.ballots.contains(a) && self.ballots.contains(b) && a.voter == b.voter && a.term
                == b.term ==> a.candidate == b.candidate
    }

    /// A vote was cast by a member, in a term that the member has reached,
    /// and while the member is in that term it stands by the vote.
    pub open spec fn ballots_stand(&self) -> bool {
        forall|b: Ballot| #[trigger]
            self.ballots.contains(b) ==> {
                &&& self.members.contains(b.voter)
                &&& self.nodes[b.voter].current_term >= b.term
                &&& self.nodes[b.voter].current_term == b.term ==> self.nodes[b.voter].voted_for
                    == Some(b.candidate)
            }
    }

    /// A vote is only sent once it is cast.
    pub open spec fn grants_are_cast(&self) -> bool {
        forall|e: Envelope<Op>| #[trigger]
            self.network.contains(e) && e.message.kind is VoteGranted ==> self.ballots.contains(
                Ballot { voter: e.message.from, term: e.message.term, candidate: e.to },
            )
    }

    /// Every vote that a candidate or leader holds was cast for it in its
    /// term.
    pub open spec fn votes_are_cast(&self) -> bool {
        forall|n: Member, i: int|
            #![trigger self.nodes[n].votes@[i]]
            self.members.contains(n) && !(self.nodes[n].role is Follower) && 0 <= i
                < self.nodes[n].votes@.len() ==> self.ballots.contains(
                Ballot {
                    voter: self.nodes[n].votes@[i],
                    term: self.nodes[n].current_term,
                    candidate: n,
                },
            )
    }

    /// Every election on record was won by a quorum of members whose votes
    /// were cast for the winner in that term.
    pub open spec fn elections_were_won(&self) -> bool {
        forall|key: (RaftTerm, Member)| #[trigger]
            self.elections.dom().contains(key) ==> {
                &&& self.elections[key].subset_of(self.members)
                &&& self.elections[key].len() >= self.quorum()
                &&& forall|v: Member| #[trigger]
                    self.elections[key].contains(v) ==> self.ballots.contains(
                        Ballot { voter: v, term: key.0, candidate: key.1 },
                    )
            }
    }

    /// Entries are only sent by a leader that is on record for the term it
    /// sends them under.
    pub open spec fn entries_come_from_leaders(&self) -> bool {
        forall|e: Envelope<Op>| #[trigger]
            self.network.contains(e) && e.message.kind is AppendEntries
                ==> self.elections.dom().contains((e.message.term, e.message.from))
    }

    /// Every leader is on record.
    pub open spec fn leaders_on_record(&self) -> bool {
        forall|n: Member| #[trigger]
            self.members.contains(n) && self.nodes[n].role is Leader
                ==> self.elections.dom().contains((self.nodes[n].current_term, n))
    }

    /// What holds of a cluster at all times.
    pub open spec fn inv(&self) -> bool {
        &&& self.well_formed()
        &&& self.one_vote_per_term()
        &&& self.ballots_stand()
        &&& self.grants_are_cast()
        &&& self.votes_are_cast()
        &&& self.elections_were_won()
        &&& self.leaders_on_record()
        &&& self.entries_come_from_leaders()
    }

    /// A cluster at its start: every member is a follower that has not
    /// voted, nothing was sent, and nothing is on record.
    pub open spec fn init(&self) -> bool {
        &&& self.well_formed()
        &&& forall|n: Member| #[trigger]
            self.members.contains(n) ==> self.nodes[n].role is Follower
                && self.nodes[n].voted_for is None
        &&& self.network == Set::<Envelope<Op>>::empty()
        &&& self.ballots == Set::<Ballot>::empty()
        &&& self.elections == Map::<(RaftTerm, Member), Set<Member>>::empty()
    }

    /// The cluster `post` is `pre` after the member `n` has moved to the
    /// state `node` and asked for `effects`: the messages are on the network,
    /// the member's vote is on record, and so is its election if it leads.
    pub open spec fn recorded(
        pre: &Self,
        post: &Self,
        n: Member,
        node: RaftState<Op>,
        effects: Seq<EffectView<Op>>,
    ) -> bool {
        &&& post.members == pre.members
        &&& post.nodes == pre.nodes.insert(n, node)
        &&& post.network == pre.network.union(sent(effects))
        &&& post.ballots == match node.voted_for {
            Some(c) => pre.ballots.insert(
                Ballot { voter: n, term: node.current_term, candidate: c },
            ),
            None => pre.ballots,
        }
        &&& post.elections == if node.role is Leader {
            pre.elections.insert((node.current_term, n), node.votes@.to_set())
        } else {
            pre.elections
        }
    }

    /// The member `n` reacts to `event`: a timeout, or a message that was
    /// sent to it at some time.
    pub open spec fn event_step(
        pre: &Self,
        post: &Self,
        n: Member,
        event: EventView<Op>,
        effects: Seq<EffectView<Op>>,
        now: u64,
        entropy: u64,
    ) -> bool {
        &&& pre.members.contains(n)
        &&& event matches EventView::Msg(m) ==> pre.network.contains(
            Envelope { to: n, message: m },
        )
        &&& post.nodes.dom().contains(n)
        &&& post.nodes[n].wf()
        &&& RaftState::stepped(&pre.nodes[n], &post.nodes[n], effects, event, now, entropy)
        &&& Self::recorded(pre, post, n, post.nodes[n], effects)
    }

    /// The member `n` takes the operation `op` from a client.
    pub open spec fn submit_step(
        pre: &Self,
        post: &Self,
        n: Member,
        op: Op,
        result: Result<LogEntry<Op>, SubmitError>,
    ) -> bool {
        &&& pre.members.contains(n)
        &&& post.nodes.dom().contains(n)
        &&& post.nodes[n].wf()
        &&& RaftState::submitted(&pre.nodes[n], &post.nodes[n], op, result)
        &&& Self::recorded(pre, post, n, post.nodes[n], Seq::empty())
    }

    /// One step of the cluster.
    pub open spec fn next(pre: &Self, post: &Self) -> bool {
        ||| exists|n: Member, event: EventView<Op>, effects: Seq<EffectView<Op>>, now: u64, entropy: u64|
            Self::event_step(pre, post, n, event, effects, now, entropy)
        ||| exists|n: Member, op: Op, result: Result<LogEntry<Op>, SubmitError>|
            Self::submit_step(pre, post, n, op, result)
    }

    /// A cluster at its start is as a cluster is at all times.
    pub proof fn lemma_init_inv(&self)
        requires
            self.init(),
        ensures
            self.inv(),
    {
    }

    /// The cluster has one member more than each member has peers.
    proof fn lemma_cluster_size(&self, n: Member)
        requires
            self.well_formed(),
            self.members.contains(n),
        ensures
            self.members.len() == self.nodes[n].peers@.len() + 1,
            self.quorum() == self.nodes[n].quorum(),
    {
        self.nodes[n].peers@.unique_seq_to_set();
    }

    /// A recorded election step keeps what holds at all times.
    proof fn lemma_recorded_step(
        pre: &Self,
        post: &Self,
        n: Member,
        effects: Seq<EffectView<Op>>,
        event: EventView<Op>,
    )
        requires
            pre.inv(),
            pre.members.contains(n),
            post.nodes.dom().contains(n),
            post.nodes[n].wf(),
            event matches EventView::Msg(m) ==> pre.network.contains(Envelope { to: n, message: m }),
            election_step(&pre.nodes[n], &post.nodes[n], effects, event),
            Self::recorded(pre, post, n, post.nodes[n], effects),
        ensures
            post.inv(),
    {
        let a = pre.nodes[n];
        let b = post.nodes[n];
        assert(post.nodes.dom() =~= post.members);
        assert forall|m: Member| #[trigger] post.members.contains(m) implies {
            &&& post.nodes[m].wf()
            &&& post.nodes[m].me == m
            &&& post.nodes[m].peers@.to_set() == post.members.remove(m)
        } by {
            assert(pre.members.contains(m));
        }
        assert(post.well_formed());
        assert forall|x: Ballot| #[trigger] pre.ballots.contains(x) implies post.ballots.contains(
            x,
        ) by {}
        assert forall|x: Ballot| #[trigger]
            post.ballots.contains(x) && !pre.ballots.contains(x) implies b.voted_for == Some(
            x.candidate,
        ) && x.voter == n && x.term == b.current_term by {}
        assert(post.ballots_stand()) by {
            assert forall|x: Ballot| #[trigger] post.ballots.contains(x) implies {
                &&& post.members.contains(x.voter)
                &&& post.nodes[x.voter].current_term >= x.term
                &&& post.nodes[x.voter].current_term == x.term ==> post.nodes[x.voter].voted_for
                    == Some(x.candidate)
            } by {
                if pre.ballots.contains(x) {
                    assert(pre.members.contains(x.voter));
                }
            }
        }
        assert(post.one_vote_per_term()) by {
            assert forall|x: Ballot, y: Ballot|
                #![trigger post.ballots.contains(x), post.ballots.contains(y)]
                post.ballots.contains(x) && post.ballots.contains(y) && x.voter == y.voter
                    && x.term == y.term implies x.candidate == y.candidate by {
                if pre.ballots.contains(x) && pre.ballots.contains(y) {
                } else if pre.ballots.contains(x) {
                    assert(pre.members.contains(x.voter));
                } else if pre.ballots.contains(y) {
                    assert(pre.members.contains(y.voter));
                }
            }
        }
        assert(post.grants_are_cast()) by {
            assert forall|e: Envelope<Op>| #[trigger]
                post.network.contains(e) && e.message.kind is VoteGranted implies post.ballots.contains(
                Ballot { voter: e.message.from, term: e.message.term, candidate: e.to },
            ) by {
                if pre.network.contains(e) {
                    assert(pre.ballots.contains(
                        Ballot { voter: e.message.from, term: e.message.term, candidate: e.to },
                    ));
                } else {
                    let effect = EffectView::Send { to: e.to, message: e.message };
                    assert(effects.contains(effect));
                    let k = choose|k: int| 0 <= k < effects.len() && effects[k] == effect;
                    assert(honest_effect(&a, &b, effects[k]));
                }
            }
        }
        assert(post.votes_are_cast()) by {
            assert forall|m: Member, i: int|
                #![trigger post.nodes[m].votes@[i]]
                post.members.contains(m) && !(post.nodes[m].role is Follower) && 0 <= i
                    < post.nodes[m].votes@.len() implies post.ballots.contains(
                Ballot {
                    voter: post.nodes[m].votes@[i],
                    term: post.nodes[m].current_term,
                    candidate: m,
                },
            ) by {
                let v = post.nodes[m].votes@[i];
                let wanted = Ballot { voter: v, term: post.nodes[m].current_term, candidate: m };
                if m != n {
                    assert(pre.members.contains(m));
                    assert(pre.ballots.contains(
                        Ballot {
                            voter: pre.nodes[m].votes@[i],
                            term: pre.nodes[m].current_term,
                            candidate: m,
                        },
                    ));
                } else {
                    assert(vote_origin(&a, &b, event, b.votes@[i]));
                    if v == b.me {
                        assert(post.ballots.contains(wanted));
                    } else if !(a.role is Follower) && a.current_term == b.current_term
                        && a.votes@.contains(v) {
                        let j = choose|j: int| 0 <= j < a.votes@.len() && a.votes@[j] == v;
                        assert(pre.ballots.contains(
                            Ballot {
                                voter: pre.nodes[n].votes@[j],
                                term: pre.nodes[n].current_term,
                                candidate: n,
                            },
                        ));
                    } else {
                        let msg = event->Msg_0;
                        let e = Envelope { to: n, message: msg };
                        assert(pre.network.contains(e));
                        assert(pre.ballots.contains(
                            Ballot { voter: e.message.from, term: e.message.term, candidate: e.to },
                        ));
                    }
                }
            }
        }
        assert(post.elections_were_won()) by {
            assert forall|key: (RaftTerm, Member)| #[trigger]
                post.elections.dom().contains(key) implies {
                &&& post.elections[key].subset_of(post.members)
                &&& post.elections[key].len() >= post.quorum()
                &&& forall|v: Member| #[trigger]
                    post.elections[key].contains(v) ==> post.ballots.contains(
                        Ballot { voter: v, term: key.0, candidate: key.1 },
                    )
            } by {
                if b.role is Leader && key == (b.current_term, n) {
                    let held = b.votes@.to_set();
                    assert(post.elections[key] == held);
                    assert forall|v: Member| held.contains(v) implies post.members.contains(v)
                        && post.ballots.contains(
                        Ballot { voter: v, term: key.0, candidate: key.1 },
                    ) by {
                        let j = choose|j: int| 0 <= j < b.votes@.len() && b.votes@[j] == v;
                        assert(b.votes@[j] == b.me || b.peers@.contains(b.votes@[j]));
                        if v != n {
                            assert(b.peers@.to_set().contains(v));
                        }
                        assert(post.ballots.contains(
                            Ballot {
                                voter: post.nodes[n].votes@[j],
                                term: post.nodes[n].current_term,
                                candidate: n,
                            },
                        ));
                    }
                    b.votes@.unique_seq_to_set();
                    post.lemma_cluster_size(n);
                } else {
                    assert(pre.elections.dom().contains(key));
                    assert(post.elections[key] == pre.elections[key]);
                    assert(post.quorum() == pre.quorum());
                }
            }
        }
        assert(post.entries_come_from_leaders()) by {
            assert forall|e: Envelope<Op>| #[trigger]
                post.network.contains(e) && e.message.kind is AppendEntries implies post.elections.dom().contains(
                (e.message.term, e.message.from),
            ) by {
                if pre.network.contains(e) {
                    assert(pre.elections.dom().contains((e.message.term, e.message.from)));
                } else {
                    let effect = EffectView::Send { to: e.to, message: e.message };
                    assert(effects.contains(effect));
                    let k = choose|k: int| 0 <= k < effects.len() && effects[k] == effect;
                    assert(honest_effect(&a, &b, effects[k]));
                }
            }
        }
        assert(post.leaders_on_record()) by {
            assert forall|m: Member| #[trigger]
                post.members.contains(m) && post.nodes[m].role is Leader implies post.elections.dom().contains(
                (post.nodes[m].current_term, m),
            ) by {
                if m != n {
                    assert(pre.members.contains(m));
                    assert(pre.elections.dom().contains((pre.nodes[m].current_term, m)));
                }
            }
        }
    }

    /// A step keeps what holds at all times.
    pub proof fn lemma_next_inv(pre: &Self, post: &Self)
        requires
            pre.inv(),
            Self::next(pre, post),
        ensures
            post.inv(),
    {
        if exists|n: Member, event: EventView<Op>, effects: Seq<EffectView<Op>>, now: u64, entropy: u64|
            Self::event_step(pre, post, n, event, effects, now, entropy) {
            let (n, event, effects, now, entropy) = choose|
                n: Member,
                event: EventView<Op>,
                effects: Seq<EffectView<Op>>,
                now: u64,
                entropy: u64,
            | Self::event_step(pre, post, n, event, effects, now, entropy);
            lemma_event_is_election_step(&pre.nodes[n], &post.nodes[n], effects, event, now, entropy);
            Self::lemma_recorded_step(pre, post, n, effects, event);
        } else {
            let (n, op, result) = choose|n: Member, op: Op, result: Result<LogEntry<Op>, SubmitError>|
                Self::submit_step(pre, post, n, op, result);
            let event = EventView::<Op>::Timeout(TimerEvent::HeartbeatTimeout);
            lemma_submit_is_election_step(&pre.nodes[n], &post.nodes[n], op, result, event);
            Self::lemma_recorded_step(pre, post, n, Seq::empty(), event);
        }
    }

    /// Election safety: whatever was lost, repeated or reordered on the way,
    /// no term has two members that were ever leader in it.
    pub proof fn lemma_election_safety(&self, term: RaftTerm, a: Member, b: Member)
        requires
            self.inv(),
            self.elections.dom().contains((term, a)),
            self.elections.dom().contains((term, b)),
        ensures
            a == b,
    {
        let va = self.elections[(term, a)];
        let vb = self.elections[(term, b)];
        lemma_len_subset(va, self.members);
        lemma_len_subset(vb, self.members);
        lemma_set_intersect_union_lens(va, vb);
        assert((va + vb).subset_of(self.members));
        lemma_len_subset(va + vb, self.members);
        let both = va.intersect(vb);
        assert(both.len() > 0);
        assert(both.finite());
        let v = both.choose();
        assert(both.contains(v)) by {
            if !both.contains(v) {
                assert(both =~= Set::<Member>::empty());
            }
        }
        assert(self.ballots.contains(Ballot { voter: v, term, candidate: a }));
        assert(self.ballots.contains(Ballot { voter: v, term, candidate: b }));
    }

    /// No two members lead in one term.
    pub proof fn lemma_one_leader_per_term(&self, a: Member, b: Member)
        requires
            self.inv(),
            self.members.contains(a),
            self.members.contains(b),
            self.nodes[a].role is Leader,
            self.nodes[b].role is Leader,
            self.nodes[a].current_term == self.nodes[b].current_term,
        ensures
            a == b,
    {
        self.lemma_election_safety(self.nodes[a].current_term, a, b);
    }

    /// No leader ever sees a second leader in its term: whatever a member
    /// of the cluster reacts to, it does not find election safety violated.
    pub proof fn lemma_no_violation_is_seen(
        pre: &Self,
        post: &Self,
        n: Member,
        event: EventView<Op>,
        effects: Seq<EffectView<Op>>,
        now: u64,
        entropy: u64,
    )
        requires
            pre.inv(),
            Self::event_step(pre, post, n, event, effects, now, entropy),
        ensures
            !effects.contains(EffectView::<Op>::ElectionSafetyViolation),
    {
        let violation = EffectView::<Op>::ElectionSafetyViolation;
        if effects.contains(violation) {
            let k = choose|k: int| 0 <= k < effects.len() && effects[k] == violation;
            let node = pre.nodes[n];
            let m = event->Msg_0;
            assert(event is Msg && m.kind is AppendEntries && node.role is Leader && m.term
                == node.current_term && node.peers@.contains(m.from)) by {
                if event is Msg && node.peers@.contains(m.from) && m.kind is AppendEntries {
                    if !(m.term == node.current_term && node.role is Leader) {
                        assert(effects[k] == violation);
                    }
                } else {
                    assert(effects[k] == violation);
                }
            }
            let e = Envelope { to: n, message: m };
            assert(pre.network.contains(e));
            assert(pre.elections.dom().contains((m.term, m.from)));
            pre.lemma_election_safety(m.term, m.from, n);
        }
    }
}

} // verus!
