//! The operation journal: an append-only log of entries, the prefix of it
//! that is committed, and the state that folding the applied prefix gives.
//!
//! Entries are numbered from 1. Index 0 stands for "no entry".

use vstd::prelude::*;

verus! {

/// A command that turns one state into the next, or does not apply to it.
pub trait StateOp: Sized {
    type State;

    /// The state that applying the operation to `state` gives, and `None`
    /// where it does not apply.
    spec fn applied(&self, state: Self::State) -> Option<Self::State>;

    /// Applies the operation to `state` in place. Where it fails, what it
    /// leaves in `state` is not to be relied on.
    fn apply(&self, state: &mut Self::State) -> (r: Result<(), ()>)
        ensures
            r is Ok <==> self.applied(*old(state)) is Some,
            r is Ok ==> self.applied(*old(state)) == Some(*final(state)),
    ;
}

/// The left fold of `applied` over `ops` from `init`: `None` as soon as one
/// of them does not apply.
pub open spec fn fold_ops<Op: StateOp>(init: Op::State, ops: Seq<Op>) -> Option<Op::State>
    decreases ops.len(),
{
    if ops.len() == 0 {
        Some(init)
    } else {
        match fold_ops(init, ops.drop_last()) {
            Some(state) => ops.last().applied(state),
            None => None,
        }
    }
}

/// Folding one more operation is applying it to the fold of the others.
pub proof fn lemma_fold_push<Op: StateOp>(init: Op::State, ops: Seq<Op>, op: Op)
    ensures
        fold_ops(init, ops.push(op)) == match fold_ops(init, ops) {
            Some(state) => op.applied(state),
            None => None,
        },
{
    assert(ops.push(op).drop_last() =~= ops);
}

/// One position of the journal.
#[derive(Clone, Copy, Debug, PartialEq, Eq)]
pub struct LogEntry<Op> {
    /// Position in the journal, from 1.
    pub index: u64,
    /// Term of the leader that appended the entry.
    pub term: u64,
    /// The command itself.
    pub operation: Op,
}

/// Why a journal call did not succeed.
#[derive(Clone, Copy, Debug, PartialEq, Eq, Structural)]
pub enum JournalError {
    /// The operation does not apply to the current state.
    ApplyFailed,
    /// No entry has the index that was asked for.
    OutOfRange,
}

/// The operations of a run of entries, in order.
pub open spec fn ops_of<Op>(entries: Seq<LogEntry<Op>>) -> Seq<Op> {
    entries.map_values(|e: LogEntry<Op>| e.operation)
}

/// Entries are numbered 1, 2, 3, ... without a gap.
pub open spec fn contiguous<Op>(entries: Seq<LogEntry<Op>>) -> bool {
    forall|i: int| 0 <= i < entries.len() ==> (#[trigger] entries[i]).index == i + 1
}

/// An in-memory journal.
pub struct VecJournal<Op: StateOp> {
    log: Vec<LogEntry<Op>>,
    commit_index: u64,
    last_applied: u64,
    state: Op::State,
    initial: Ghost<Op::State>,
}

impl<Op: StateOp + Copy> VecJournal<Op> where Op::State: Copy {
    /// The entries, oldest first.
    pub closed spec fn entries(&self) -> Seq<LogEntry<Op>> {
        self.log@
    }

    /// The highest index known to be committed.
    pub closed spec fn spec_commit_index(&self) -> u64 {
        self.commit_index
    }

    /// The highest index folded into the state.
    pub closed spec fn spec_last_applied(&self) -> u64 {
        self.last_applied
    }

    /// The state the journal holds.
    pub closed spec fn spec_state(&self) -> Op::State {
        self.state
    }

    /// The state the journal started from.
    pub closed spec fn initial(&self) -> Op::State {
        self.initial@
    }

    /// The operations of all entries, in order.
    pub open spec fn ops(&self) -> Seq<Op> {
        ops_of(self.entries())
    }

    /// The invariant of a journal: entries are numbered without a gap, what
    /// is applied is committed, what is committed is in the log, and the state
    /// is the fold of the applied operations.
    pub open spec fn wf(&self) -> bool {
        &&& self.entries().len() < u64::MAX
        &&& contiguous(self.entries())
        &&& self.spec_last_applied() <= self.spec_commit_index()
        &&& self.spec_commit_index() <= self.entries().len()
        &&& fold_ops(self.initial(), self.ops().take(self.spec_last_applied() as int)) == Some(
            self.spec_state(),
        )
    }

    /// Two journals hold the same entries, commit index, applied index and
    /// state, and started from the same state.
    pub open spec fn same_as(&self, other: &Self) -> bool {
        &&& self.entries() == other.entries()
        &&& self.spec_commit_index() == other.spec_commit_index()
        &&& self.spec_last_applied() == other.spec_last_applied()
        &&& self.spec_state() == other.spec_state()
        &&& self.initial() == other.initial()
    }

    /// This journal is what raising the commit index to `index` makes of a
    /// journal that holds `log` and is otherwise as `pre`: the commit index is
    /// raised as far as the log reaches and never lowered, and the newly
    /// committed operations are folded into the state, in order, up to the
    /// first one that does not apply.
    pub open spec fn commit_of(&self, pre: &Self, log: Seq<LogEntry<Op>>, index: u64) -> bool {
        &&& self.entries() == log
        &&& self.initial() == pre.initial()
        &&& self.spec_commit_index() == spec_commit_target(
            pre.spec_commit_index(),
            index,
            log.len(),
        )
        &&& pre.spec_last_applied() <= self.spec_last_applied() <= self.spec_commit_index()
        &&& fold_ops(self.initial(), ops_of(log).take(self.spec_last_applied() as int)) == Some(
            self.spec_state(),
        )
        &&& self.spec_last_applied() < self.spec_commit_index() ==> ops_of(
            log,
        )[self.spec_last_applied() as int].applied(self.spec_state()) is None
        &&& self.spec_last_applied() == pre.spec_last_applied() ==> self.spec_state()
            == pre.spec_state()
    }

    /// Index and term of the last entry, `(0, 0)` for an empty log.
    pub open spec fn spec_last(&self) -> (u64, u64) {
        if self.entries().len() == 0 {
            (0, 0)
        } else {
            (self.entries().last().index, self.entries().last().term)
        }
    }

    /// An empty journal over `initial`.
    pub fn new(initial: Op::State) -> (journal: Self)
        ensures
            journal.wf(),
            journal.entries() == Seq::<LogEntry<Op>>::empty(),
            journal.spec_commit_index() == 0,
            journal.spec_last_applied() == 0,
            journal.spec_state() == initial,
            journal.initial() == initial,
    {
        let journal = VecJournal {
            log: Vec::new(),
            commit_index: 0,
            last_applied: 0,
            state: initial,
            initial: Ghost(initial),
        };
        assert(journal.ops().take(0) =~= Seq::<Op>::empty());
        journal
    }

    /// The number of entries.
    pub fn len(&self) -> (n: u64)
        requires
            self.wf(),
        ensures
            n == self.entries().len(),
    {
        self.log.len() as u64
    }

    /// The index that the next appended entry gets.
    pub fn next_index(&self) -> (n: u64)
        requires
            self.wf(),
        ensures
            n == self.entries().len() + 1,
    {
        self.log.len() as u64 + 1
    }

    /// The index of the last entry, 0 for an empty log.
    pub fn last_index(&self) -> (n: u64)
        requires
            self.wf(),
        ensures
            n == self.spec_last().0,
            n == self.entries().len(),
    {
        self.log.len() as u64
    }

    /// The term of the last entry, 0 for an empty log.
    pub fn last_term(&self) -> (t: u64)
        requires
            self.wf(),
        ensures
            t == self.spec_last().1,
    {
        let n = self.log.len();
        if n == 0 {
            0
        } else {
            self.log[n - 1].term
        }
    }

    /// The highest index known to be committed.
    pub fn commit_index(&self) -> (n: u64)
        ensures
            n == self.spec_commit_index(),
    {
        self.commit_index
    }

    /// The highest index folded into the state.
    pub fn last_applied(&self) -> (n: u64)
        ensures
            n == self.spec_last_applied(),
    {
        self.last_applied
    }

    /// The state: the fold of the operations up to the applied index.
    pub fn current_state(&self) -> (state: &Op::State)
        ensures
            *state == self.spec_state(),
    {
        &self.state
    }

    /// The entry at `index`, where there is one.
    pub fn get(&self, index: u64) -> (r: Result<&LogEntry<Op>, JournalError>)
        requires
            self.wf(),
        ensures
            1 <= index <= self.entries().len() ==> r is Ok && *r->Ok_0 == self.entries()[index
                - 1],
            !(1 <= index <= self.entries().len()) ==> r == Err::<&LogEntry<Op>, JournalError>(
                JournalError::OutOfRange,
            ),
    {
        if index == 0 || index > self.log.len() as u64 {
            Err(JournalError::OutOfRange)
        } else {
            Ok(&self.log[(index - 1) as usize])
        }
    }

    /// Nothing is pending: every entry is committed and applied. A journal
    /// that is used on its own, with `append`, is always so.
    pub open spec fn settled(&self) -> bool {
        self.spec_last_applied() == self.entries().len()
    }

    /// Appends `op` at the next index, under the term of the last entry, and
    /// applies it: the operation is tried on a copy of the state, and where it
    /// applies the entry is stored and committed and the copy becomes the
    /// state. Where it does not apply, the journal is left as it was.
    pub fn append(&mut self, op: &Op) -> (r: Result<LogEntry<Op>, JournalError>)
        requires
            old(self).wf(),
            old(self).settled(),
            old(self).entries().len() + 1 < u64::MAX,
        ensures
            final(self).wf(),
            final(self).settled(),
            final(self).initial() == old(self).initial(),
            match op.applied(old(self).spec_state()) {
                Some(next) => {
                    &&& r == Ok::<LogEntry<Op>, JournalError>(
                        LogEntry {
                            index: (old(self).entries().len() + 1) as u64,
                            term: old(self).spec_last().1,
                            operation: *op,
                        },
                    )
                    &&& final(self).entries() == old(self).entries().push(r->Ok_0)
                    &&& final(self).spec_state() == next
                    &&& final(self).spec_commit_index() == old(self).entries().len() + 1
                },
                None => {
                    &&& r == Err::<LogEntry<Op>, JournalError>(JournalError::ApplyFailed)
                    &&& final(self).same_as(old(self))
                },
            },
    {
        let term = self.last_term();
        match self.propose(op, term) {
            Err(e) => Err(e),
            Ok(entry) => {
                let ghost before = *self;
                self.commit_to(entry.index);
                proof {
                    let n = before.entries().len() as int;
                    assert(before.ops()[n - 1] == *op);
                    assert(old(self).ops().take(n - 1) =~= old(self).ops());
                    assert(before.ops().take(n - 1) =~= old(self).ops());
                    assert(self.ops().take(n).drop_last() =~= old(self).ops());
                }
                Ok(entry)
            },
        }
    }

    /// Stores `op` under `term` at the next index without committing it,
    /// after trying it on a copy of the current state. Where it does not apply,
    /// nothing changes. The state itself moves when the entry is committed.
    pub fn propose(&mut self, op: &Op, term: u64) -> (r: Result<LogEntry<Op>, JournalError>)
        requires
            old(self).wf(),
            old(self).entries().len() + 1 < u64::MAX,
        ensures
            final(self).wf(),
            final(self).spec_commit_index() == old(self).spec_commit_index(),
            final(self).spec_last_applied() == old(self).spec_last_applied(),
            final(self).spec_state() == old(self).spec_state(),
            final(self).initial() == old(self).initial(),
            match op.applied(old(self).spec_state()) {
                Some(_) => {
                    &&& r == Ok::<LogEntry<Op>, JournalError>(
                        LogEntry {
                            index: (old(self).entries().len() + 1) as u64,
                            term,
                            operation: *op,
                        },
                    )
                    &&& final(self).entries() == old(self).entries().push(r->Ok_0)
                },
                None => {
                    &&& r == Err::<LogEntry<Op>, JournalError>(JournalError::ApplyFailed)
                    &&& final(self).entries() == old(self).entries()
                },
            },
    {
        let mut trial = self.state;
        match op.apply(&mut trial) {
            Err(_) => Err(JournalError::ApplyFailed),
            Ok(_) => {
                let entry = LogEntry { index: self.log.len() as u64 + 1, term, operation: *op };
                self.log.push(entry);
                proof {
                    let k = self.spec_last_applied() as int;
                    assert(self.ops().take(k) =~= old(self).ops().take(k));
                }
                Ok(entry)
            },
        }
    }

    /// A copy of the entries from index `from` on.
    pub fn entries_from(&self, from: u64) -> (run: Vec<LogEntry<Op>>)
        requires
            self.wf(),
        ensures
            run@ == suffix_from(self.entries(), from),
    {
        let mut run: Vec<LogEntry<Op>> = Vec::new();
        let len: usize = self.log.len();
        if from > len as u64 {
            return run;
        }
        let start: usize = if from == 0 { 0 } else { (from - 1) as usize };
        let mut i: usize = start;
        while i < len
            invariant
                len == self.log@.len(),
                start <= i <= len,
                run@ == self.log@.subrange(start as int, i as int),
            decreases len - i,
        {
            run.push(self.log[i]);
            i += 1;
            assert(run@ =~= self.log@.subrange(start as int, i as int));
        }
        assert(run@ =~= suffix_from(self.entries(), from));
        run
    }

    /// Stores an entry that a leader sent, as it is. Its index must be the
    /// next one; the operation is not tried, it is applied when committed.
    pub fn store(&mut self, entry: LogEntry<Op>)
        requires
            old(self).wf(),
            old(self).entries().len() + 1 < u64::MAX,
            entry.index == old(self).entries().len() + 1,
        ensures
            final(self).wf(),
            final(self).entries() == old(self).entries().push(entry),
            final(self).spec_commit_index() == old(self).spec_commit_index(),
            final(self).spec_last_applied() == old(self).spec_last_applied(),
            final(self).spec_state() == old(self).spec_state(),
            final(self).initial() == old(self).initial(),
    {
        self.log.push(entry);
        proof {
            let k = self.spec_last_applied() as int;
            assert(self.ops().take(k) =~= old(self).ops().take(k));
        }
    }

    /// Removes every entry whose index is `from_index` or more. Committed
    /// entries are never removed, so `from_index` lies above the commit index.
    pub fn truncate_suffix(&mut self, from_index: u64)
        requires
            old(self).wf(),
            from_index > old(self).spec_commit_index(),
        ensures
            final(self).wf(),
            final(self).entries() == if from_index <= old(self).entries().len() {
                old(self).entries().take(from_index - 1)
            } else {
                old(self).entries()
            },
            final(self).spec_commit_index() == old(self).spec_commit_index(),
            final(self).spec_last_applied() == old(self).spec_last_applied(),
            final(self).spec_state() == old(self).spec_state(),
            final(self).initial() == old(self).initial(),
    {
        if from_index <= self.log.len() as u64 {
            self.log.truncate((from_index - 1) as usize);
            proof {
                let k = self.spec_last_applied() as int;
                assert(self.entries() =~= old(self).entries().take(from_index - 1));
                assert(self.ops().take(k) =~= old(self).ops().take(k));
            }
        }
    }

    /// Takes over the run of entries that a leader sent, where it is
    /// acceptable: entries that the log already holds under the same term are
    /// kept, and from the first one that is new or differs the log is cut and
    /// the run is stored. A run that is not acceptable changes nothing.
    pub fn merge(&mut self, run: &Vec<LogEntry<Op>>) -> (accepted: bool)
        requires
            old(self).wf(),
        ensures
            final(self).wf(),
            accepted == acceptable(old(self).entries(), old(self).spec_commit_index(), run@),
            final(self).entries() == if accepted {
                merged(old(self).entries(), run@)
            } else {
                old(self).entries()
            },
            final(self).spec_commit_index() == old(self).spec_commit_index(),
            final(self).spec_last_applied() == old(self).spec_last_applied(),
            final(self).spec_state() == old(self).spec_state(),
            final(self).initial() == old(self).initial(),
    {
        let n: usize = run.len();
        if n == 0 {
            return true;
        }
        let len: usize = self.log.len();
        let first: u64 = run[0].index;
        if first == 0 || first > len as u64 + 1 || n as u64 > u64::MAX - first {
            return false;
        }
        let mut i: usize = 0;
        while i < n
            invariant
                self.wf(),
                n == run@.len(),
                n > 0,
                len == self.log@.len(),
                first == run@[0].index,
                1 <= first <= len + 1,
                first + n <= u64::MAX,
                i <= n,
                forall|j: int| 0 <= j < i ==> (#[trigger] run@[j]).index == first + j,
                forall|j: int|
                    0 <= j < i && (#[trigger] run@[j]).index <= self.commit_index ==> run@[j].term
                        == self.log@[run@[j].index - 1].term,
            decreases n - i,
        {
            let e = run[i];
            if e.index != first + i as u64 {
                return false;
            }
            if e.index <= self.commit_index && e.term != self.log[(e.index - 1) as usize].term {
                return false;
            }
            i += 1;
        }
        assert(acceptable(self.entries(), self.spec_commit_index(), run@));
        let mut k: usize = 0;
        while k < n && run[k].index <= len as u64 && self.log[(run[k].index - 1) as usize].term
            == run[k].term
            invariant
                self.wf(),
                n == run@.len(),
                len == self.log@.len(),
                k <= n,
                forall|j: int| 0 <= j < n ==> (#[trigger] run@[j]).index == first + j,
                1 <= first,
                first + k <= len + 1,
                first + n <= u64::MAX,
                first_new(self.entries(), run@, 0) == first_new(self.entries(), run@, k as int),
            decreases n - k,
        {
            k += 1;
        }
        assert(first_new(self.entries(), run@, 0) == k);
        if k < n {
            let ghost log = self.entries();
            self.truncate_suffix(run[k].index);
            assert(self.entries() =~= log.take(run@[k as int].index - 1));
            let mut j: usize = k;
            while j < n
                invariant
                    self.wf(),
                    n == run@.len(),
                    k <= j <= n,
                    forall|j: int| 0 <= j < n ==> (#[trigger] run@[j]).index == first + j,
                    1 <= first,
                    first + n <= u64::MAX,
                    self.entries().len() == first + j - 1,
                    self.entries() == log.take(run@[k as int].index - 1) + run@.subrange(
                        k as int,
                        j as int,
                    ),
                    self.spec_commit_index() == old(self).spec_commit_index(),
                    self.spec_last_applied() == old(self).spec_last_applied(),
                    self.spec_state() == old(self).spec_state(),
                    self.initial() == old(self).initial(),
                decreases n - j,
            {
                let ghost before = self.entries();
                self.store(run[j]);
                j += 1;
                assert(self.entries() =~= log.take(run@[k as int].index - 1) + run@.subrange(
                    k as int,
                    j as int,
                ));
            }
            assert(run@.subrange(k as int, n as int) =~= run@.skip(k as int));
        }
        true
    }

    /// Raises the commit index to `index`, or to the last entry where the log
    /// is shorter; it never lowers it. Then folds the newly committed
    /// operations into the state, in order, and stops before the first one
    /// that does not apply.
    pub fn commit_to(&mut self, index: u64)
        requires
            old(self).wf(),
        ensures
            final(self).wf(),
            final(self).commit_of(old(self), old(self).entries(), index),
    {
        let len = self.log.len() as u64;
        let capped = if index < len { index } else { len };
        if capped > self.commit_index {
            self.commit_index = capped;
        }
        proof {
            let k = self.spec_last_applied() as int;
            assert(self.ops().take(k) =~= old(self).ops().take(k));
        }
        while self.last_applied < self.commit_index
            invariant
                self.wf(),
                self.entries() == old(self).entries(),
                self.initial() == old(self).initial(),
                self.spec_commit_index() == spec_commit_target(
                    old(self).spec_commit_index(),
                    index,
                    old(self).entries().len(),
                ),
                old(self).spec_last_applied() <= self.spec_last_applied(),
                self.spec_last_applied() == old(self).spec_last_applied() ==> self.spec_state()
                    == old(self).spec_state(),
            ensures
                self.spec_last_applied() < self.spec_commit_index() ==> self.ops()[
                    self.spec_last_applied() as int
                ].applied(self.spec_state()) is None,
            decreases self.commit_index - self.last_applied,
        {
            let total: usize = self.log.len();
            let op = self.log[self.last_applied as usize].operation;
            assert(self.ops()[self.spec_last_applied() as int] == op);
            let mut next = self.state;
            match op.apply(&mut next) {
                Err(_) => {
                    break ;
                },
                Ok(_) => {
                    proof {
                        let k = self.spec_last_applied() as int;
                        assert(self.ops().take(k + 1).drop_last() =~= self.ops().take(k));
                        assert(self.ops().take(k + 1).last() == op);
                    }
                    self.state = next;
                    self.last_applied = self.last_applied + 1;
                },
            }
        }
    }
}

/// The entries whose index is `from` or more.
pub open spec fn suffix_from<Op>(entries: Seq<LogEntry<Op>>, from: u64) -> Seq<LogEntry<Op>> {
    if from > entries.len() {
        Seq::empty()
    } else if from == 0 {
        entries
    } else {
        entries.skip(from - 1)
    }
}

/// Does the log hold an entry at the index of `entry`, under the same term?
pub open spec fn agrees<Op>(log: Seq<LogEntry<Op>>, entry: LogEntry<Op>) -> bool {
    1 <= entry.index <= log.len() && log[entry.index - 1].term == entry.term
}

/// The position in `run`, from `from` on, of the first entry that the log
/// does not hold under the same term; the length of `run` where there is
/// none.
pub open spec fn first_new<Op>(log: Seq<LogEntry<Op>>, run: Seq<LogEntry<Op>>, from: int) -> int
    decreases run.len() - from,
{
    if from < 0 || from >= run.len() {
        run.len() as int
    } else if agrees(log, run[from]) {
        first_new(log, run, from + 1)
    } else {
        from
    }
}

/// Can a follower with `log`, committed up to `commit`, take over `run`? An
/// empty run always. Otherwise the run is numbered without a gap, starts
/// inside the log or right behind it, ends below the largest index, and
/// differs from no committed entry.
pub open spec fn acceptable<Op>(log: Seq<LogEntry<Op>>, commit: u64, run: Seq<LogEntry<Op>>) -> bool {
    run.len() == 0 || {
        &&& 1 <= run[0].index <= log.len() + 1
        &&& run[0].index + run.len() <= u64::MAX
        &&& forall|j: int| 0 <= j < run.len() ==> (#[trigger] run[j]).index == run[0].index + j
        &&& forall|j: int|
            0 <= j < run.len() && (#[trigger] run[j]).index <= commit ==> run[j].term == log[run[j].index
                - 1].term
    }
}

/// The log after taking over an acceptable `run`.
pub open spec fn merged<Op>(log: Seq<LogEntry<Op>>, run: Seq<LogEntry<Op>>) -> Seq<LogEntry<Op>> {
    let k = first_new(log, run, 0);
    if k >= run.len() {
        log
    } else {
        log.take(run[k].index - 1) + run.skip(k)
    }
}

/// The first new entry of a run lies in the run or at its end; every entry
/// before it is in the log under the same term, and it is not.
pub proof fn lemma_first_new<Op>(log: Seq<LogEntry<Op>>, run: Seq<LogEntry<Op>>, from: int)
    requires
        0 <= from <= run.len(),
    ensures
        from <= first_new(log, run, from) <= run.len(),
        forall|j: int| from <= j < first_new(log, run, from) ==> agrees(log, #[trigger] run[j]),
        first_new(log, run, from) < run.len() ==> !agrees(log, run[first_new(log, run, from)]),
    decreases run.len() - from,
{
    if from < run.len() && agrees(log, run[from]) {
        lemma_first_new(log, run, from + 1);
    }
}

/// Taking over an acceptable run removes and changes no committed entry,
/// and leaves the entries numbered without a gap.
pub proof fn lemma_merged_keeps_committed<Op>(
    log: Seq<LogEntry<Op>>,
    commit: u64,
    run: Seq<LogEntry<Op>>,
)
    requires
        commit <= log.len(),
        contiguous(log),
        acceptable(log, commit, run),
    ensures
        merged(log, run).len() >= commit,
        merged(log, run).take(commit as int) == log.take(commit as int),
        contiguous(merged(log, run)),
{
    lemma_first_new(log, run, 0);
    let k = first_new(log, run, 0);
    if k < run.len() {
        if k > 0 {
            assert(agrees(log, run[k - 1]));
        }
        let cut = run[k].index - 1;
        assert(commit <= cut <= log.len());
        let after = merged(log, run);
        assert(after.take(commit as int) =~= log.take(commit as int));
        assert forall|i: int| 0 <= i < after.len() implies (#[trigger] after[i]).index == i + 1 by {
            if i >= cut {
                assert(after[i] == run[k + (i - cut)]);
            }
        }
    }
}

/// The commit index after a call to raise it from `old_commit` to `index` in
/// a log of `len` entries.
pub open spec fn spec_commit_target(old_commit: u64, index: u64, len: nat) -> u64 {
    let capped = if index < len { index } else { len as u64 };
    if capped > old_commit { capped } else { old_commit }
}

/// A journal as its own user sees it: operations are appended and take
/// effect at once.
pub trait Journal {
    type Index;

    type Op: StateOp<State = Self::State> + Copy;

    type State;

    /// The invariant that every call keeps.
    spec fn valid(&self) -> bool;

    /// There is room for one more entry.
    spec fn has_room(&self) -> bool;

    /// The state the journal started from.
    spec fn origin(&self) -> Self::State;

    /// The operations appended so far, in order.
    spec fn appended(&self) -> Seq<Self::Op>;

    /// The state the journal holds.
    spec fn folded(&self) -> Self::State;

    /// The position, from 1, that an index stands for.
    spec fn position(index: Self::Index) -> int;

    /// The state is the left fold of the appended operations over the
    /// state the journal started from.
    proof fn lemma_state_is_fold(&self)
        requires
            self.valid(),
        ensures
            fold_ops(self.origin(), self.appended()) == Some(self.folded()),
    ;

    /// Appends `op` and applies it. Where it does not apply, the journal is
    /// as it was.
    fn append_entry(&mut self, op: &Self::Op) -> (r: Result<(), ()>)
        requires
            old(self).valid(),
            old(self).has_room(),
        ensures
            final(self).valid(),
            final(self).origin() == old(self).origin(),
            match op.applied(old(self).folded()) {
                Some(next) => {
                    &&& r is Ok
                    &&& final(self).appended() == old(self).appended().push(*op)
                    &&& final(self).folded() == next
                },
                None => {
                    &&& r is Err
                    &&& final(self).appended() == old(self).appended()
                    &&& final(self).folded() == old(self).folded()
                },
            },
    ;

    /// The operation at `idx`, where there is one.
    fn get_entry(&self, idx: Self::Index) -> (r: Result<&Self::Op, ()>)
        requires
            self.valid(),
        ensures
            1 <= Self::position(idx) <= self.appended().len() ==> r is Ok && *r->Ok_0
                == self.appended()[Self::position(idx) - 1],
            !(1 <= Self::position(idx) <= self.appended().len()) ==> r is Err,
    ;

    /// The index that the next appended operation gets.
    fn next_index(&self) -> (r: Self::Index)
        requires
            self.valid(),
        ensures
            Self::position(r) == self.appended().len() + 1,
    ;

    /// The state after all appended operations.
    fn state(&mut self) -> (r: &Self::State)
        requires
            old(self).valid(),
        ensures
            *r == old(self).folded(),
            final(self).valid(),
            final(self).origin() == old(self).origin(),
            final(self).appended() == old(self).appended(),
            final(self).folded() == old(self).folded(),
    ;
}

impl<Op: StateOp + Copy> Journal for VecJournal<Op> where Op::State: Copy {
    type Index = u64;

    type Op = Op;

    type State = Op::State;

    /// Used on its own, a journal has applied all it holds.
    open spec fn valid(&self) -> bool {
        self.wf() && self.settled()
    }

    open spec fn has_room(&self) -> bool {
        self.entries().len() + 1 < u64::MAX
    }

    open spec fn origin(&self) -> Op::State {
        self.initial()
    }

    open spec fn appended(&self) -> Seq<Op> {
        self.ops()
    }

    open spec fn folded(&self) -> Op::State {
        self.spec_state()
    }

    open spec fn position(index: u64) -> int {
        index as int
    }

    proof fn lemma_state_is_fold(&self) {
        assert(self.ops().take(self.spec_last_applied() as int) =~= self.ops());
    }

    fn append_entry(&mut self, op: &Op) -> (r: Result<(), ()>) {
        match self.append(op) {
            Ok(_) => Ok(()),
            Err(_) => Err(()),
        }
    }

    fn get_entry(&self, idx: u64) -> (r: Result<&Op, ()>) {
        match self.get(idx) {
            Ok(entry) => Ok(&entry.operation),
            Err(_) => Err(()),
        }
    }

    fn next_index(&self) -> (r: u64) {
        self.log.len() as u64 + 1
    }

    fn state(&mut self) -> (r: &Op::State) {
        &self.state
    }
}

} // verus!
