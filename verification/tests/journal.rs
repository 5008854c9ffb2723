use terribledb::counter::CounterOp;
use terribledb::journal::{Journal, JournalError, LogEntry, StateOp, VecJournal};

#[test]
fn state_ops() {
    let mut state: i64 = 0;
    let ops = vec![CounterOp::inc(3), CounterOp::dec(2)];
    assert_eq!(state, 0);
    ops[0].apply(&mut state).expect("apply [0] failed");
    assert_eq!(state, 3);
    ops[1].apply(&mut state).expect("apply [0] failed");
    assert_eq!(state, 1);
}

#[test]
fn journal_ops() {
    let mut journal: VecJournal<CounterOp> = VecJournal::new(0);
    let ops = vec![CounterOp::inc(3), CounterOp::dec(2)];
    assert_eq!(*journal.state(), 0);
    journal.append_entry(&ops[0]).expect("apply [0] failed");
    assert_eq!(*journal.state(), 3);
    journal.append_entry(&ops[1]).expect("apply [0] failed");
    assert_eq!(*journal.state(), 1);
}

#[test]
fn failed_append_entry_leaves_journal_as_it_was() {
    let mut journal: VecJournal<CounterOp> = VecJournal::new(0);
    journal.append_entry(&CounterOp::inc(5)).expect("first append");
    let before_next = Journal::next_index(&journal);
    assert_eq!(before_next, 2);
    assert!(journal.append_entry(&CounterOp::inc(i64::MAX)).is_err());
    assert_eq!(Journal::next_index(&journal), before_next);
    assert_eq!(*journal.state(), 5);
    assert_eq!(*journal.get_entry(1).expect("entry 1"), CounterOp::inc(5));
    assert!(journal.get_entry(2).is_err());
    assert!(journal.get_entry(0).is_err());
}

#[test]
fn propose_validates_without_moving_state() {
    let mut journal: VecJournal<CounterOp> = VecJournal::new(10);
    let entry = journal.propose(&CounterOp::dec(4), 7).expect("propose");
    assert_eq!(entry.index, 1);
    assert_eq!(entry.term, 7);
    assert_eq!(entry.operation, CounterOp::dec(4));
    assert_eq!(*journal.current_state(), 10);
    assert_eq!(journal.commit_index(), 0);
    assert_eq!(journal.last_applied(), 0);
    assert_eq!(journal.next_index(), 2);
    assert_eq!(journal.last_index(), 1);
    assert_eq!(journal.last_term(), 7);
    assert_eq!(journal.propose(&CounterOp::inc(i64::MAX), 7).err(), Some(JournalError::ApplyFailed));
    assert_eq!(journal.next_index(), 2);
    journal.commit_to(9);
    assert_eq!(journal.commit_index(), 1);
    assert_eq!(journal.last_applied(), 1);
    assert_eq!(*journal.current_state(), 6);
}

fn entry(index: u64, term: u64, op: CounterOp) -> LogEntry<CounterOp> {
    LogEntry { index, term, operation: op }
}

#[test]
fn state_is_the_fold_of_what_was_appended() {
    let ops = [CounterOp::inc(10), CounterOp::dec(3), CounterOp::inc(-4), CounterOp::dec(-1)];
    let mut journal: VecJournal<CounterOp> = VecJournal::new(100);
    let mut folded: i64 = 100;
    for op in ops.iter() {
        journal.append_entry(op).expect("applies");
        op.apply(&mut folded).expect("applies");
        assert_eq!(*journal.state(), folded);
    }
    assert_eq!(*journal.state(), 104);
    assert_eq!(journal.commit_index(), 4);
    assert_eq!(journal.last_applied(), 4);
    for (i, op) in ops.iter().enumerate() {
        assert_eq!(journal.get_entry(i as u64 + 1), Ok(op));
    }
}

#[test]
fn operations_that_overflow_do_not_apply() {
    let mut state = i64::MAX;
    assert_eq!(CounterOp::inc(1).apply(&mut state), Err(()));
    assert_eq!(state, i64::MAX);
    assert_eq!(CounterOp::dec(-1).apply(&mut state), Err(()));
    assert_eq!(CounterOp::inc(0).apply(&mut state), Ok(()));
    let mut low = i64::MIN;
    assert_eq!(CounterOp::dec(1).apply(&mut low), Err(()));
    assert_eq!(CounterOp::inc(-1).apply(&mut low), Err(()));
    assert_eq!(CounterOp::inc(i64::MAX).apply(&mut low), Ok(()));
    assert_eq!(low, -1);
    let mut zero = 0;
    assert_eq!(CounterOp::dec(i64::MIN).apply(&mut zero), Err(()));
    assert_eq!(CounterOp::dec(i64::MAX).apply(&mut zero), Ok(()));
    assert_eq!(zero, -i64::MAX);
}

#[test]
fn get_reaches_the_entries_from_one() {
    let mut journal: VecJournal<CounterOp> = VecJournal::new(0);
    assert_eq!(journal.get(1).err(), Some(JournalError::OutOfRange));
    journal.propose(&CounterOp::inc(1), 3).expect("first");
    journal.propose(&CounterOp::inc(2), 4).expect("second");
    assert_eq!(journal.get(0).err(), Some(JournalError::OutOfRange));
    assert_eq!(journal.get(1), Ok(&entry(1, 3, CounterOp::inc(1))));
    assert_eq!(journal.get(2), Ok(&entry(2, 4, CounterOp::inc(2))));
    assert_eq!(journal.get(3).err(), Some(JournalError::OutOfRange));
    assert_eq!(journal.get(u64::MAX).err(), Some(JournalError::OutOfRange));
    assert_eq!(journal.len(), 2);
}

#[test]
fn truncate_suffix_removes_from_the_index_on() {
    let mut journal: VecJournal<CounterOp> = VecJournal::new(0);
    for i in 1..=5 {
        journal.store(entry(i, 1, CounterOp::inc(i as i64)));
    }
    journal.commit_to(2);
    assert_eq!(*journal.current_state(), 3);
    journal.truncate_suffix(9);
    assert_eq!(journal.len(), 5);
    journal.truncate_suffix(6);
    assert_eq!(journal.len(), 5);
    journal.truncate_suffix(4);
    assert_eq!(journal.len(), 3);
    assert_eq!(journal.last_index(), 3);
    journal.truncate_suffix(3);
    assert_eq!(journal.entries_from(1), vec![entry(1, 1, CounterOp::inc(1)), entry(2, 1, CounterOp::inc(2))]);
    assert_eq!(journal.commit_index(), 2);
    assert_eq!(journal.last_applied(), 2);
    assert_eq!(*journal.current_state(), 3);
    assert_eq!(journal.next_index(), 3);
}

#[test]
fn commit_never_falls_and_stops_at_the_log_end() {
    let mut journal: VecJournal<CounterOp> = VecJournal::new(0);
    for i in 1..=3 {
        journal.store(entry(i, 1, CounterOp::inc(10)));
    }
    journal.commit_to(2);
    assert_eq!(journal.commit_index(), 2);
    journal.commit_to(1);
    assert_eq!(journal.commit_index(), 2);
    journal.commit_to(0);
    assert_eq!(journal.commit_index(), 2);
    assert_eq!(*journal.current_state(), 20);
    journal.commit_to(u64::MAX);
    assert_eq!(journal.commit_index(), 3);
    assert_eq!(journal.last_applied(), 3);
    assert_eq!(*journal.current_state(), 30);
}

#[test]
fn commit_stops_folding_at_an_operation_that_does_not_apply() {
    let mut journal: VecJournal<CounterOp> = VecJournal::new(0);
    journal.store(entry(1, 1, CounterOp::inc(i64::MAX)));
    journal.store(entry(2, 1, CounterOp::inc(1)));
    journal.store(entry(3, 1, CounterOp::dec(5)));
    journal.commit_to(3);
    assert_eq!(journal.commit_index(), 3);
    assert_eq!(journal.last_applied(), 1);
    assert_eq!(*journal.current_state(), i64::MAX);
    journal.commit_to(3);
    assert_eq!(journal.last_applied(), 1);
}

#[test]
fn merge_keeps_what_agrees_and_replaces_what_differs() {
    let mut journal: VecJournal<CounterOp> = VecJournal::new(0);
    journal.store(entry(1, 1, CounterOp::inc(1)));
    journal.store(entry(2, 1, CounterOp::inc(2)));
    journal.store(entry(3, 1, CounterOp::inc(3)));
    assert!(journal.merge(&vec![]));
    assert!(journal.merge(&vec![entry(2, 1, CounterOp::inc(99))]));
    assert_eq!(journal.len(), 3);
    assert_eq!(journal.get(2), Ok(&entry(2, 1, CounterOp::inc(2))));
    assert!(journal.merge(&vec![entry(4, 2, CounterOp::inc(4))]));
    assert_eq!(journal.len(), 4);
    assert!(journal.merge(&vec![entry(2, 1, CounterOp::inc(2)), entry(3, 3, CounterOp::inc(30))]));
    assert_eq!(
        journal.entries_from(1),
        vec![entry(1, 1, CounterOp::inc(1)), entry(2, 1, CounterOp::inc(2)), entry(3, 3, CounterOp::inc(30))]
    );
    assert!(!journal.merge(&vec![entry(5, 3, CounterOp::inc(5))]));
    assert!(!journal.merge(&vec![entry(0, 3, CounterOp::inc(5))]));
    assert!(!journal.merge(&vec![entry(4, 3, CounterOp::inc(5)), entry(4, 3, CounterOp::inc(5))]));
    assert!(!journal.merge(&vec![entry(u64::MAX, 3, CounterOp::inc(5))]));
    assert_eq!(journal.len(), 3);
    journal.commit_to(3);
    assert!(!journal.merge(&vec![entry(3, 4, CounterOp::inc(5))]));
    assert!(journal.merge(&vec![entry(3, 3, CounterOp::inc(5))]));
    assert_eq!(journal.len(), 3);
}

#[test]
fn entries_from_copies_a_suffix() {
    let mut journal: VecJournal<CounterOp> = VecJournal::new(0);
    journal.store(entry(1, 1, CounterOp::inc(1)));
    journal.store(entry(2, 1, CounterOp::inc(2)));
    assert_eq!(journal.entries_from(0).len(), 2);
    assert_eq!(journal.entries_from(1).len(), 2);
    assert_eq!(journal.entries_from(2), vec![entry(2, 1, CounterOp::inc(2))]);
    assert_eq!(journal.entries_from(3), vec![]);
    assert_eq!(journal.entries_from(u64::MAX), vec![]);
}

#[test]
fn append_applies_at_once() {
    let mut journal: VecJournal<CounterOp> = VecJournal::new(1);
    assert_eq!(journal.append(&CounterOp::inc(2)), Ok(entry(1, 0, CounterOp::inc(2))));
    assert_eq!(*journal.current_state(), 3);
    assert_eq!(journal.commit_index(), 1);
    assert_eq!(journal.last_applied(), 1);
    assert_eq!(journal.append(&CounterOp::dec(10)), Ok(entry(2, 0, CounterOp::dec(10))));
    assert_eq!(*journal.current_state(), -7);
    assert_eq!(journal.next_index(), 3);
}

#[test]
fn failed_append_changes_nothing() {
    let mut journal: VecJournal<CounterOp> = VecJournal::new(i64::MIN + 1);
    journal.append(&CounterOp::dec(1)).expect("fits");
    assert_eq!(journal.append(&CounterOp::dec(1)), Err(JournalError::ApplyFailed));
    assert_eq!(journal.append(&CounterOp::inc(-1)), Err(JournalError::ApplyFailed));
    assert_eq!(journal.next_index(), 2);
    assert_eq!(journal.len(), 1);
    assert_eq!(*journal.current_state(), i64::MIN);
    assert_eq!(journal.commit_index(), 1);
    assert_eq!(journal.last_applied(), 1);
    assert_eq!(journal.entries_from(1), vec![entry(1, 0, CounterOp::dec(1))]);
    assert_eq!(journal.append(&CounterOp::inc(5)), Ok(entry(2, 0, CounterOp::inc(5))));
    assert_eq!(*journal.current_state(), i64::MIN + 5);
}
