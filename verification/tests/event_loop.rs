use terribledb::config::{save, with_name, ConfigError};
use terribledb::consensus::RaftRole;
use terribledb::counter::CounterOp;
use terribledb::event_loop::{init_loop_state, LoopAction, LoopInput, LoopState};
use terribledb::message::{Effect, Member, RaftMessage, RaftMessageKind, TimerEvent};
use terribledb::wire::encode;

fn member(n: u16) -> Member {
    Member { addr: 0x7F00_0001, port: 55550 + n }
}

fn started() -> LoopState<CounterOp> {
    let record = save(&with_name("node"));
    let cluster = vec![member(0), member(1), member(2)];
    init_loop_state(&record, member(0), Some(cluster), 0).expect("a saved record")
}

#[test]
fn loop_starts_as_a_follower_of_its_cluster() {
    let state = started();
    assert_eq!(state.cfg.name(), with_name("node").name());
    assert_eq!(state.node.me, member(0));
    assert_eq!(state.node.peers, vec![member(1), member(2)]);
    assert_eq!(state.node.role, RaftRole::Follower);
    assert_eq!(state.node.current_term, 0);
    assert_eq!(*state.node.journal.current_state(), 0);
}

#[test]
fn loop_without_a_cluster_is_alone() {
    let record = save(&with_name("solo"));
    let state: LoopState<CounterOp> =
        init_loop_state(&record, member(0), None, 5).expect("a saved record");
    assert_eq!(state.node.peers, vec![]);
    assert_eq!(*state.node.journal.current_state(), 5);
}

#[test]
fn loop_does_not_start_without_a_record() {
    let r = init_loop_state::<CounterOp>(&[1, 2, 3, 4], member(0), None, 0);
    assert_eq!(r.err(), Some(ConfigError::MagicMismatch));
    let r = init_loop_state::<CounterOp>(&[], member(0), None, 0);
    assert_eq!(r.err(), Some(ConfigError::UnexpectedEof));
}

#[test]
fn timer_event_reaches_the_state_machine() {
    let mut state = started();
    let action = state.step(LoopInput::Timer(TimerEvent::ElectionTimeout), 1_000, 0);
    assert_eq!(state.node.role, RaftRole::Candidate);
    assert_eq!(state.node.current_term, 1);
    match action {
        LoopAction::Continue(effects) => {
            assert_eq!(effects.len(), 3);
            assert_eq!(effects[2], Effect::ArmElection { deadline: 1_150 });
        }
        LoopAction::Shutdown => panic!("the loop goes on"),
    }
}

#[test]
fn datagram_is_decoded_and_handled() {
    let mut state = started();
    let ask: RaftMessage<CounterOp> = RaftMessage {
        term: 1,
        from: member(1),
        kind: RaftMessageKind::RequestVote { last_log_index: 0, last_log_term: 0 },
    };
    let bytes = encode(&ask).expect("encodes");
    let action = state.step(LoopInput::Datagram(bytes), 10, 0);
    let reply = RaftMessage { term: 1, from: member(0), kind: RaftMessageKind::VoteGranted };
    assert_eq!(
        action,
        LoopAction::Continue(vec![
            Effect::Send { to: member(1), message: reply },
            Effect::ArmElection { deadline: 160 },
        ])
    );
    assert_eq!(state.node.voted_for, Some(member(1)));
}

#[test]
fn malformed_datagram_is_dropped() {
    let mut state = started();
    let action = state.step(LoopInput::Datagram(b"stahp".to_vec()), 10, 0);
    assert_eq!(action, LoopAction::Continue(vec![]));
    assert_eq!(state.node.current_term, 0);
    assert_eq!(state.node.voted_for, None);
}

#[test]
fn idle_turn_changes_nothing() {
    let mut state = started();
    assert_eq!(state.step(LoopInput::Idle, 10, 0), LoopAction::Continue(vec![]));
    assert_eq!(state.node.role, RaftRole::Follower);
    assert_eq!(state.node.current_term, 0);
}

#[test]
fn failed_transport_ends_the_loop() {
    let mut state = started();
    assert_eq!(state.step(LoopInput::TransportFailed, 10, 0), LoopAction::Shutdown);
    assert_eq!(state.node.current_term, 0);
}
