//! One turn of a node's event loop.
//!
//! The loop itself waits on the socket and on the timer; what arrives is
//! handed over here, one event at a time, and what comes back says what to
//! send, which timer to run, and whether to go on.

use vstd::prelude::*;
use crate::config::{decoding, load, ConfigError, TerribleConfig};
use crate::consensus::{EventView, RaftEvent, RaftState, ELECTION_MAX_MS};
use crate::journal::StateOp;
use crate::message::{effect_views, Effect, Member, TimerEvent};
use crate::wire::{decode, parse_message, WireOp};

verus! {

/// What a turn of the loop found.
#[derive(Clone, Debug, PartialEq, Eq)]
pub enum LoopInput {
    /// A datagram arrived.
    Datagram(Vec<u8>),
    /// A timer fired.
    Timer(TimerEvent),
    /// Nothing arrived in time.
    Idle,
    /// The transport failed for good.
    TransportFailed,
}

/// What the loop does after a turn.
#[derive(Clone, Debug, PartialEq, Eq)]
pub enum LoopAction<Op> {
    /// Carry out the effects and go on.
    Continue(Vec<Effect<Op>>),
    /// Stop and report the failure.
    Shutdown,
}

/// What a node's loop holds.
pub struct LoopState<Op: StateOp> {
    /// The node's identity record.
    pub cfg: TerribleConfig,
    /// The node's consensus state.
    pub node: RaftState<Op>,
}

/// The state that a node's loop starts with: the identity record read from
/// `record`, and a follower at term 0 for the member `me` of `cluster`, over
/// an empty journal that starts from `initial`. Without a cluster the node is
/// alone.
pub fn init_loop_state<Op: StateOp + Copy>(
    record: &[u8],
    me: Member,
    cluster: Option<Vec<Member>>,
    initial: Op::State,
) -> (r: Result<LoopState<Op>, ConfigError>) where Op::State: Copy
    ensures
        match decoding(record@) {
            Err(e) => r == Err::<LoopState<Op>, ConfigError>(e),
            Ok((version, name)) => {
                &&& r is Ok
                &&& r->Ok_0.cfg.spec_version() == version
                &&& r->Ok_0.cfg.spec_name() == name
                &&& r->Ok_0.node.wf()
                &&& r->Ok_0.node.fresh(
                    me,
                    match cluster {
                        Some(members) => members@,
                        None => Seq::<Member>::empty(),
                    },
                    initial,
                )
            },
        },
{
    let cfg = match load(record) {
        Ok(cfg) => cfg,
        Err(e) => {
            return Err(e);
        },
    };
    let others: Vec<Member> = match cluster {
        Some(members) => members,
        None => Vec::new(),
    };
    Ok(LoopState { cfg, node: RaftState::new(me, &others, initial) })
}

impl<Op: StateOp + WireOp + Copy> LoopState<Op> where Op::State: Copy {
    /// What one turn does. A datagram that is a message is handed to the
    /// state machine; one that is not is dropped. A timer event is handed
    /// to the state machine. An idle turn changes nothing. A failed
    /// transport ends the loop.
    pub open spec fn turned(
        pre: &Self,
        post: &Self,
        input: LoopInput,
        action: LoopAction<Op>,
        now: u64,
        entropy: u64,
    ) -> bool {
        let quiet = action matches LoopAction::Continue(effects) && effects@.len() == 0
            && post.node.same_as(&pre.node);
        &&& post.cfg == pre.cfg
        &&& match input {
            LoopInput::Datagram(bytes) => match parse_message::<Op>(bytes@) {
                Some(message) => action matches LoopAction::Continue(effects) && RaftState::stepped(
                    &pre.node,
                    &post.node,
                    effect_views(effects@),
                    EventView::Msg(message),
                    now,
                    entropy,
                ),
                None => quiet,
            },
            LoopInput::Timer(event) => action matches LoopAction::Continue(effects)
                && RaftState::stepped(
                &pre.node,
                &post.node,
                effect_views(effects@),
                EventView::Timeout(event),
                now,
                entropy,
            ),
            LoopInput::Idle => quiet,
            LoopInput::TransportFailed => action is Shutdown && post.node.same_as(&pre.node),
        }
    }

    /// Takes one turn of the loop at time `now`, with the random sample
    /// `entropy` for the election deadline.
    pub fn step(&mut self, input: LoopInput, now: u64, entropy: u64) -> (action: LoopAction<Op>)
        requires
            old(self).node.wf(),
            now <= u64::MAX - ELECTION_MAX_MS,
            input == LoopInput::Timer(TimerEvent::ElectionTimeout) && !(old(self).node.role
                is Leader) ==> old(self).node.current_term < u64::MAX,
        ensures
            final(self).node.wf(),
            Self::turned(old(self), final(self), input, action, now, entropy),
    {
        match input {
            LoopInput::Datagram(bytes) => match decode::<Op>(bytes.as_slice()) {
                Ok(message) => LoopAction::Continue(
                    self.node.handle_event(RaftEvent::Msg(message), now, entropy),
                ),
                Err(_) => LoopAction::Continue(Vec::new()),
            },
            LoopInput::Timer(event) => LoopAction::Continue(
                self.node.handle_event(RaftEvent::Timeout(event), now, entropy),
            ),
            LoopInput::Idle => LoopAction::Continue(Vec::new()),
            LoopInput::TransportFailed => LoopAction::Shutdown,
        }
    }
}

} // verus!
