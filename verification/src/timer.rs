//! The deadline queue of the timer.
//!
//! The queue holds what is scheduled, nearest deadline first. It never reads
//! a clock and never waits: whoever runs it hands it the time, waits as long
//! as it says, and passes on what it emits. Times and periods are counts of
//! one unit from one starting point, milliseconds for the election and
//! heartbeat timers.

use vstd::prelude::*;

verus! {

/// One scheduled event.
#[derive(Clone, Copy, Debug, PartialEq, Eq)]
pub struct Scheduled<T> {
    /// When it fires next.
    pub at: u64,
    /// How long after that it fires again; 0 for an event that fires once.
    pub period: u64,
    /// What is emitted when it fires.
    pub payload: T,
}

/// What the owner of a timer asks of it.
#[derive(Clone, Copy, Debug, PartialEq, Eq)]
pub enum TimerSignal<T> {
    /// End the timer.
    Stop,
    /// Drop everything that is scheduled.
    Clear,
    /// Emit the payload every period from now on; with a period of 0, once
    /// and at once.
    Recurring(u64, T),
    /// Emit the payload once, at the given time.
    Once(u64, T),
}

/// What the queue has its runner do next.
#[derive(Clone, Copy, Debug, PartialEq, Eq)]
pub enum TimerAction<T> {
    /// Emit the payload, then ask again.
    Emit(T),
    /// Wait for a signal, for the given time at most, then ask again.
    WaitFor(u64),
    /// Nothing is scheduled: wait for a signal.
    WaitForSignal,
}

/// Deadlines never decrease along the queue.
pub open spec fn ordered<T>(queue: Seq<Scheduled<T>>) -> bool {
    forall|i: int, j: int| 0 <= i <= j < queue.len() ==> queue[i].at <= queue[j].at
}

/// Where an event with deadline `at` goes into the queue: behind every event
/// that fires no later, so that events with one deadline fire in the order in
/// which they were scheduled.
pub open spec fn slot<T>(queue: Seq<Scheduled<T>>, at: u64) -> int
    decreases queue.len(),
{
    if queue.len() == 0 || queue[0].at > at {
        0
    } else {
        1 + slot(queue.drop_first(), at)
    }
}

/// The queue with one more event.
pub open spec fn enqueued<T>(queue: Seq<Scheduled<T>>, event: Scheduled<T>) -> Seq<Scheduled<T>> {
    queue.insert(slot(queue, event.at), event)
}

/// The queue once its first event has fired: the event is taken out, and
/// put back one period later where it recurs and that time can still be told.
pub open spec fn fired<T>(queue: Seq<Scheduled<T>>) -> Seq<Scheduled<T>> {
    let head = queue[0];
    let rest = queue.drop_first();
    if head.period > 0 && head.at + head.period <= u64::MAX {
        enqueued(
            rest,
            Scheduled { at: (head.at + head.period) as u64, period: head.period, payload: head.payload },
        )
    } else {
        rest
    }
}

/// What is to be done at time `now`: emit the first event where its
/// deadline has come, wait until its deadline where it has not, and wait for
/// a signal where nothing is scheduled.
pub open spec fn poll_action<T>(queue: Seq<Scheduled<T>>, now: u64) -> TimerAction<T> {
    if queue.len() == 0 {
        TimerAction::WaitForSignal
    } else if queue[0].at > now {
        TimerAction::WaitFor((queue[0].at - now) as u64)
    } else {
        TimerAction::Emit(queue[0].payload)
    }
}

/// The queue after asking what is to be done at time `now`: the first
/// event has fired where its deadline has come, and nothing has changed where
/// it has not.
pub open spec fn polled<T>(queue: Seq<Scheduled<T>>, now: u64) -> Seq<Scheduled<T>> {
    if queue.len() > 0 && queue[0].at <= now {
        fired(queue)
    } else {
        queue
    }
}

/// The queue after a signal at time `now`.
pub open spec fn signalled<T>(queue: Seq<Scheduled<T>>, signal: TimerSignal<T>, now: u64) -> Seq<
    Scheduled<T>,
> {
    match signal {
        TimerSignal::Stop => queue,
        TimerSignal::Clear => Seq::empty(),
        TimerSignal::Once(at, payload) => enqueued(queue, Scheduled { at, period: 0, payload }),
        TimerSignal::Recurring(period, payload) => if now + period <= u64::MAX {
            enqueued(queue, Scheduled { at: (now + period) as u64, period, payload })
        } else {
            queue
        },
    }
}

/// The slot of a deadline lies inside the queue, behind every event that
/// fires no later and before every event that fires later.
pub proof fn lemma_slot<T>(queue: Seq<Scheduled<T>>, at: u64)
    requires
        ordered(queue),
    ensures
        0 <= slot(queue, at) <= queue.len(),
        forall|i: int| 0 <= i < slot(queue, at) ==> queue[i].at <= at,
        forall|i: int| slot(queue, at) <= i < queue.len() ==> queue[i].at > at,
    decreases queue.len(),
{
    if queue.len() > 0 && queue[0].at <= at {
        let rest = queue.drop_first();
        assert forall|i: int, j: int| 0 <= i <= j < rest.len() implies rest[i].at <= rest[j].at by {
            assert(rest[i] == queue[i + 1] && rest[j] == queue[j + 1]);
        }
        lemma_slot(rest, at);
        assert forall|i: int| 0 <= i < slot(queue, at) implies queue[i].at <= at by {
            if i > 0 {
                assert(queue[i] == rest[i - 1]);
            }
        }
        assert forall|i: int| slot(queue, at) <= i < queue.len() implies queue[i].at > at by {
            assert(queue[i] == rest[i - 1]);
        }
    }
}

/// The one position that is behind every event that fires no later and
/// before every event that fires later is the slot.
pub proof fn lemma_slot_is<T>(queue: Seq<Scheduled<T>>, at: u64, k: int)
    requires
        0 <= k <= queue.len(),
        forall|i: int| 0 <= i < k ==> queue[i].at <= at,
        k < queue.len() ==> queue[k].at > at,
    ensures
        slot(queue, at) == k,
    decreases k,
{
    if k > 0 {
        let rest = queue.drop_first();
        assert forall|i: int| 0 <= i < k - 1 implies rest[i].at <= at by {
            assert(rest[i] == queue[i + 1]);
        }
        if k < queue.len() {
            assert(rest[k - 1] == queue[k]);
        }
        lemma_slot_is(rest, at, k - 1);
    }
}

/// A queue stays ordered when an event is put into it.
pub proof fn lemma_enqueued_ordered<T>(queue: Seq<Scheduled<T>>, event: Scheduled<T>)
    requires
        ordered(queue),
    ensures
        ordered(enqueued(queue, event)),
        enqueued(queue, event).len() == queue.len() + 1,
{
    lemma_slot(queue, event.at);
    let k = slot(queue, event.at);
    let after = enqueued(queue, event);
    assert forall|i: int, j: int| 0 <= i <= j < after.len() implies after[i].at <= after[j].at by {
        if i < k {
            assert(after[i] == queue[i]);
        } else if i > k {
            assert(after[i] == queue[i - 1]);
        }
        if j < k {
            assert(after[j] == queue[j]);
        } else if j > k {
            assert(after[j] == queue[j - 1]);
        }
    }
}

/// What is scheduled, nearest deadline first.
pub struct TimerQueue<T> {
    events: Vec<Scheduled<T>>,
}

impl<T: Copy> View for TimerQueue<T> {
    type V = Seq<Scheduled<T>>;

    closed spec fn view(&self) -> Seq<Scheduled<T>> {
        self.events@
    }
}

impl<T: Copy> TimerQueue<T> {
    /// The invariant of the queue: deadlines never decrease along it.
    pub open spec fn wf(&self) -> bool {
        ordered(self@)
    }

    /// A queue with nothing scheduled.
    pub fn new() -> (queue: Self)
        ensures
            queue.wf(),
            queue@ == Seq::<Scheduled<T>>::empty(),
    {
        TimerQueue { events: Vec::new() }
    }

    /// The number of scheduled events.
    pub fn len(&self) -> (n: usize)
        ensures
            n == self@.len(),
    {
        self.events.len()
    }

    /// The nearest deadline, where anything is scheduled.
    pub fn next_deadline(&self) -> (deadline: Option<u64>)
        requires
            self.wf(),
        ensures
            self@.len() == 0 ==> deadline is None,
            self@.len() > 0 ==> deadline == Some(self@[0].at),
            forall|i: int| 0 <= i < self@.len() ==> deadline->Some_0 <= self@[i].at,
    {
        if self.events.len() == 0 {
            None
        } else {
            Some(self.events[0].at)
        }
    }

    fn enqueue(&mut self, event: Scheduled<T>)
        requires
            old(self).wf(),
        ensures
            final(self).wf(),
            final(self)@ == enqueued(old(self)@, event),
    {
        let mut k: usize = 0;
        while k < self.events.len() && self.events[k].at <= event.at
            invariant
                k <= self.events@.len(),
                self.events@ == old(self).events@,
                forall|i: int| 0 <= i < k ==> self.events@[i].at <= event.at,
            decreases self.events@.len() - k,
        {
            k += 1;
        }
        proof {
            lemma_slot_is(self@, event.at, k as int);
            lemma_enqueued_ordered(self@, event);
        }
        self.events.insert(k, event);
    }

    /// Schedules `payload` once, at `deadline`.
    pub fn schedule_once(&mut self, deadline: u64, payload: T)
        requires
            old(self).wf(),
        ensures
            final(self).wf(),
            final(self)@ == enqueued(old(self)@, Scheduled { at: deadline, period: 0, payload }),
    {
        self.enqueue(Scheduled { at: deadline, period: 0, payload });
    }

    /// Schedules `payload` once, `delay` after `now`. Where that lies beyond
    /// the last time that can be told, nothing is scheduled: that time never
    /// comes.
    pub fn schedule_after(&mut self, now: u64, delay: u64, payload: T)
        requires
            old(self).wf(),
        ensures
            final(self).wf(),
            final(self)@ == if now + delay <= u64::MAX {
                enqueued(old(self)@, Scheduled { at: (now + delay) as u64, period: 0, payload })
            } else {
                old(self)@
            },
    {
        if delay <= u64::MAX - now {
            self.enqueue(Scheduled { at: now + delay, period: 0, payload });
        }
    }

    /// Schedules `payload` every `period` from `now` on, first at `now` plus
    /// `period`. With a period of 0 it is emitted once, at `now`. Where the
    /// first deadline lies beyond the last time that can be told, nothing is
    /// scheduled: that time never comes.
    pub fn schedule_recurring(&mut self, now: u64, period: u64, payload: T)
        requires
            old(self).wf(),
        ensures
            final(self).wf(),
            final(self)@ == signalled(old(self)@, TimerSignal::Recurring(period, payload), now),
    {
        if period <= u64::MAX - now {
            self.enqueue(Scheduled { at: now + period, period, payload });
        }
    }

    /// Drops everything that is scheduled.
    pub fn clear(&mut self)
        ensures
            final(self).wf(),
            final(self)@ == Seq::<Scheduled<T>>::empty(),
    {
        self.events.clear();
    }

    /// Takes in a signal at time `now` and says whether the timer goes on:
    /// it does unless the signal is `Stop`.
    pub fn signal(&mut self, signal: TimerSignal<T>, now: u64) -> (running: bool)
        requires
            old(self).wf(),
        ensures
            final(self).wf(),
            final(self)@ == signalled(old(self)@, signal, now),
            running == !(signal is Stop),
    {
        match signal {
            TimerSignal::Stop => false,
            TimerSignal::Clear => {
                self.clear();
                true
            },
            TimerSignal::Once(at, payload) => {
                self.schedule_once(at, payload);
                true
            },
            TimerSignal::Recurring(period, payload) => {
                self.schedule_recurring(now, period, payload);
                true
            },
        }
    }

    /// What is to be done at time `now`. Where the nearest deadline has come,
    /// its event fires: the payload is to be emitted, and the event is put back
    /// one period later where it recurs. An event never fires before its
    /// deadline: where the nearest one lies ahead, the wait lasts until then
    /// at most, and nothing changes.
    pub fn poll(&mut self, now: u64) -> (action: TimerAction<T>)
        requires
            old(self).wf(),
        ensures
            final(self).wf(),
            action == poll_action(old(self)@, now),
            final(self)@ == polled(old(self)@, now),
    {
        if self.events.len() == 0 {
            return TimerAction::WaitForSignal;
        }
        let head = self.events[0];
        if head.at > now {
            return TimerAction::WaitFor(head.at - now);
        }
        self.events.remove(0);
        proof {
            assert(self@ =~= old(self)@.drop_first());
            assert forall|i: int, j: int| 0 <= i <= j < self@.len() implies self@[i].at
                <= self@[j].at by {
                assert(self@[i] == old(self)@[i + 1] && self@[j] == old(self)@[j + 1]);
            }
        }
        if head.period > 0 && head.period <= u64::MAX - head.at {
            self.enqueue(Scheduled { at: head.at + head.period, period: head.period, payload: head.payload });
        }
        TimerAction::Emit(head.payload)
    }
}

/// An event that was put into the queue is in it.
pub proof fn lemma_enqueued_is_pending<T>(queue: Seq<Scheduled<T>>, event: Scheduled<T>)
    requires
        ordered(queue),
    ensures
        enqueued(queue, event).contains(event),
        forall|i: int| 0 <= i < queue.len() ==> enqueued(queue, event).contains(queue[i]),
{
    lemma_slot(queue, event.at);
    let k = slot(queue, event.at);
    let after = enqueued(queue, event);
    assert(after[k] == event);
    assert forall|i: int| 0 <= i < queue.len() implies after.contains(queue[i]) by {
        if i < k {
            assert(after[i] == queue[i]);
        } else {
            assert(after[i + 1] == queue[i]);
        }
    }
}

/// No event fires before its deadline: what is emitted at time `now` is the
/// payload of an event whose deadline is `now` or earlier, and an event whose
/// deadline lies ahead is still scheduled afterwards.
pub proof fn lemma_never_early<T>(queue: Seq<Scheduled<T>>, now: u64, i: int)
    requires
        ordered(queue),
        0 <= i < queue.len(),
        queue[i].at > now,
    ensures
        poll_action(queue, now) matches TimerAction::Emit(payload) ==> queue[0].at <= now
            && payload == queue[0].payload && i > 0,
        polled(queue, now).contains(queue[i]),
{
    if queue[0].at <= now {
        let rest = queue.drop_first();
        assert(rest[i - 1] == queue[i]);
        assert forall|a: int, b: int| 0 <= a <= b < rest.len() implies rest[a].at <= rest[b].at by {
            assert(rest[a] == queue[a + 1] && rest[b] == queue[b + 1]);
        }
        let head = queue[0];
        if head.period > 0 && head.at + head.period <= u64::MAX {
            let again = Scheduled {
                at: (head.at + head.period) as u64,
                period: head.period,
                payload: head.payload,
            };
            lemma_enqueued_is_pending(rest, again);
        }
    } else {
        assert(polled(queue, now)[i] == queue[i]);
    }
}

/// An event that recurs fires again one period later: once it has fired it
/// is scheduled for its deadline plus its period, with the same period and
/// payload, as long as that time can be told.
pub proof fn lemma_recurring_is_rescheduled<T>(queue: Seq<Scheduled<T>>, now: u64)
    requires
        ordered(queue),
        queue.len() > 0,
        queue[0].at <= now,
        queue[0].period > 0,
        queue[0].at + queue[0].period <= u64::MAX,
    ensures
        poll_action(queue, now) == TimerAction::Emit(queue[0].payload),
        polled(queue, now).contains(
            Scheduled {
                at: (queue[0].at + queue[0].period) as u64,
                period: queue[0].period,
                payload: queue[0].payload,
            },
        ),
{
    let rest = queue.drop_first();
    assert forall|a: int, b: int| 0 <= a <= b < rest.len() implies rest[a].at <= rest[b].at by {
        assert(rest[a] == queue[a + 1] && rest[b] == queue[b + 1]);
    }
    let head = queue[0];
    lemma_enqueued_is_pending(
        rest,
        Scheduled { at: (head.at + head.period) as u64, period: head.period, payload: head.payload },
    );
}

/// After `Clear` nothing is scheduled, so nothing fires until something is
/// scheduled again.
pub proof fn lemma_clear_silences<T>(queue: Seq<Scheduled<T>>, now: u64, later: u64)
    ensures
        poll_action(signalled(queue, TimerSignal::<T>::Clear, now), later)
            == TimerAction::<T>::WaitForSignal,
{
}

} // verus!
