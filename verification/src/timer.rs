//! Repeating timers: each has a period, is due when its deadline passes,
//! and re-arms itself.
//!
//! The list is a pure scheduler: a timer carries a task, and a pass over
//! the list hands out the tasks that are due. Each due timer fires at most
//! once per pass and re-arms from the time of the pass, not from the missed
//! deadline, so that a late pass never causes a burst of catch-up fires.

use vstd::prelude::*;

verus! {

/// A timer: what it does, how often, and when next. Times are in
/// milliseconds.
pub struct Timer<C> {
    pub period: u64,
    pub next_fire: u64,
    pub task: C,
}

/// A list of repeating timers, in the order in which they were registered.
pub struct TimerList<C> {
    timers: Vec<Timer<C>>,
}

/// The timer after a pass at `now`.
pub open spec fn after_pass<C>(timer: Timer<C>, now: u64) -> Timer<C> {
    if timer.next_fire <= now {
        Timer { next_fire: (now + timer.period) as u64, ..timer }
    } else {
        timer
    }
}

/// The tasks of the timers that are due at `now`, in order.
pub open spec fn due_tasks<C>(timers: Seq<Timer<C>>, now: u64) -> Seq<C>
    decreases timers.len(),
{
    if timers.len() == 0 {
        Seq::empty()
    } else {
        let earlier = due_tasks(timers.drop_last(), now);
        if timers.last().next_fire <= now {
            earlier.push(timers.last().task)
        } else {
            earlier
        }
    }
}

/// Is `earliest` the first deadline of the timers?
pub open spec fn is_first_deadline<C>(timers: Seq<Timer<C>>, earliest: Option<u64>) -> bool {
    match earliest {
        None => timers.len() == 0,
        Some(deadline) => {
            &&& forall|i: int| 0 <= i < timers.len() ==> deadline <= (#[trigger] timers[i]).next_fire
            &&& exists|i: int|
                0 <= i < timers.len() && (#[trigger] timers[i]).next_fire == deadline
        },
    }
}

impl<C> View for TimerList<C> {
    type V = Seq<Timer<C>>;

    closed spec fn view(&self) -> Seq<Timer<C>> {
        self.timers@
    }
}

impl<C: Copy> TimerList<C> {
    pub fn new() -> (list: Self)
        ensures
            list@ == Seq::<Timer<C>>::empty(),
    {
        TimerList { timers: Vec::new() }
    }

    /// Registers a repeating timer: its task is due each time `period`
    /// elapses, the first time after `now`.
    pub fn register(&mut self, now: u64, period: u64, task: C)
        requires
            now + period <= u64::MAX,
        ensures
            final(self)@ == old(self)@.push(
                Timer { period, next_fire: (now + period) as u64, task },
            ),
    {
        self.timers.push(Timer { period, next_fire: now + period, task });
    }

    /// The earliest deadline across all timers. The loop waits up to this,
    /// then makes a pass.
    pub fn next_deadline(&self) -> (earliest: Option<u64>)
        ensures
            is_first_deadline(self@, earliest),
    {
        let n: usize = self.timers.len();
        if n == 0 {
            return None;
        }
        let mut earliest: u64 = self.timers[0].next_fire;
        let mut i: usize = 1;
        while i < n
            invariant
                1 <= i <= n,
                n == self.timers@.len(),
                forall|j: int| 0 <= j < i ==> earliest <= (#[trigger] self.timers@[j]).next_fire,
                exists|j: int| 0 <= j < i && (#[trigger] self.timers@[j]).next_fire == earliest,
            decreases n - i,
        {
            if self.timers[i].next_fire < earliest {
                earliest = self.timers[i].next_fire;
                assert(self.timers@[i as int].next_fire == earliest);
            }
            i = i + 1;
        }
        Some(earliest)
    }

    /// Fires every timer whose deadline has passed, once each, and re-arms
    /// it from `now`. Returns the tasks to run, in registration order.
    pub fn fire_due(&mut self, now: u64) -> (due: Vec<C>)
        requires
            forall|i: int|
                0 <= i < old(self)@.len() && (#[trigger] old(self)@[i]).next_fire <= now ==> now
                    + old(self)@[i].period <= u64::MAX,
        ensures
            due@ == due_tasks(old(self)@, now),
            final(self)@ == old(self)@.map_values(|timer: Timer<C>| after_pass(timer, now)),
    {
        let ghost timers = self.timers@;
        assert(timers == old(self)@);
        let mut due: Vec<C> = Vec::new();
        let n: usize = self.timers.len();
        let mut i: usize = 0;
        while i < n
            invariant
                i <= n,
                n == self.timers@.len(),
                n == timers.len(),
                forall|j: int|
                    0 <= j < timers.len() && (#[trigger] timers[j]).next_fire <= now ==> now
                        + timers[j].period <= u64::MAX,
                forall|j: int| 0 <= j < i ==> #[trigger] self.timers@[j] == after_pass(timers[j], now),
                forall|j: int| i <= j < n ==> #[trigger] self.timers@[j] == timers[j],
                due@ == due_tasks(timers.take(i as int), now),
            decreases n - i,
        {
            proof {
                assert(timers.take(i + 1).drop_last() =~= timers.take(i as int));
                assert(timers.take(i + 1).last() == timers[i as int]);
            }
            if now >= self.timers[i].next_fire {
                due.push(self.timers[i].task);
                self.timers[i].next_fire = now + self.timers[i].period;
            }
            i = i + 1;
        }
        proof {
            assert(timers.take(n as int) =~= timers);
            assert(self.timers@ =~= timers.map_values(|timer: Timer<C>| after_pass(timer, now)));
        }
        due
    }
}

/// A pass before the first deadline fires nothing and changes nothing.
pub proof fn nothing_fires_early<C>(timers: Seq<Timer<C>>, earliest: Option<u64>, now: u64)
    requires
        is_first_deadline(timers, earliest),
        earliest is None || now < earliest->0,
    ensures
        due_tasks(timers, now) == Seq::<C>::empty(),
        timers.map_values(|timer: Timer<C>| after_pass(timer, now)) == timers,
{
    assert forall|i: int| 0 <= i < timers.len() implies now < (#[trigger] timers[i]).next_fire by {}
    none_due(timers, now);
    assert(timers.map_values(|timer: Timer<C>| after_pass(timer, now)) =~= timers);
}

proof fn none_due<C>(timers: Seq<Timer<C>>, now: u64)
    requires
        forall|i: int| 0 <= i < timers.len() ==> now < (#[trigger] timers[i]).next_fire,
    ensures
        due_tasks(timers, now) == Seq::<C>::empty(),
    decreases timers.len(),
{
    if timers.len() > 0 {
        let shorter = timers.drop_last();
        assert forall|i: int| 0 <= i < shorter.len() implies now < (
        #[trigger] shorter[i]).next_fire by {
            assert(shorter[i] == timers[i]);
        }
        none_due(shorter, now);
    }
}

/// However late a pass is, each timer fires at most once in it: a second
/// pass at the same time fires nothing more.
pub proof fn late_pass_fires_once<C>(timers: Seq<Timer<C>>, now: u64)
    requires
        forall|i: int|
            0 <= i < timers.len() ==> (#[trigger] timers[i]).period > 0 && now + timers[i].period
                <= u64::MAX,
    ensures
        due_tasks(timers.map_values(|timer: Timer<C>| after_pass(timer, now)), now)
            == Seq::<C>::empty(),
        due_tasks(timers, now).len() <= timers.len(),
{
    let later = timers.map_values(|timer: Timer<C>| after_pass(timer, now));
    assert forall|i: int| 0 <= i < later.len() implies now < (#[trigger] later[i]).next_fire by {
        assert(later[i] == after_pass(timers[i], now));
    }
    none_due(later, now);
    due_are_few(timers, now);
}

proof fn due_are_few<C>(timers: Seq<Timer<C>>, now: u64)
    ensures
        due_tasks(timers, now).len() <= timers.len(),
    decreases timers.len(),
{
    if timers.len() > 0 {
        due_are_few(timers.drop_last(), now);
    }
}

/// Timers fire independently: what is due of two lists together is what is
/// due of each.
pub proof fn timers_fire_independently<C>(first: Seq<Timer<C>>, second: Seq<Timer<C>>, now: u64)
    ensures
        due_tasks(first + second, now) == due_tasks(first, now) + due_tasks(second, now),
    decreases second.len(),
{
    if second.len() == 0 {
        assert(first + second =~= first);
        assert(due_tasks(first, now) + due_tasks(second, now) =~= due_tasks(first, now));
    } else {
        timers_fire_independently(first, second.drop_last(), now);
        assert((first + second).drop_last() =~= first + second.drop_last());
        assert(due_tasks(first + second, now) =~= due_tasks(first, now) + due_tasks(second, now));
    }
}

/// A pass fires the timers whose time has come, each once, in the order in
/// which they were registered, and no others.
pub proof fn due_timers_are_those_whose_time_has_come<C>(timers: Seq<Timer<C>>, now: u64)
    ensures
        due_tasks(timers, now) == timers.filter(
            |timer: Timer<C>| timer.next_fire <= now,
        ).map_values(|timer: Timer<C>| timer.task),
    decreases timers.len(),
{
    reveal(Seq::filter);
    let due = |timer: Timer<C>| timer.next_fire <= now;
    let task = |timer: Timer<C>| timer.task;
    if timers.len() > 0 {
        let shorter = timers.drop_last();
        due_timers_are_those_whose_time_has_come(shorter, now);
        if due(timers.last()) {
            assert(timers.filter(due) =~= shorter.filter(due).push(timers.last()));
            assert(timers.filter(due).map_values(task) =~= shorter.filter(due).map_values(
                task,
            ).push(timers.last().task));
        } else {
            assert(timers.filter(due) =~= shorter.filter(due));
        }
    } else {
        assert(timers.filter(due).map_values(task) =~= Seq::empty());
    }
}

/// A timer that fired is due again one period after the pass, not after the
/// deadline that it missed; one that did not fire stays as it is. What it
/// does and how often does not change.
pub proof fn fired_timer_waits_a_period<C>(timer: Timer<C>, now: u64)
    requires
        now + timer.period <= u64::MAX,
    ensures
        after_pass(timer, now).period == timer.period,
        after_pass(timer, now).task == timer.task,
        timer.next_fire <= now ==> after_pass(timer, now).next_fire == now + timer.period,
        timer.next_fire > now ==> after_pass(timer, now).next_fire == timer.next_fire,
{
}

/// The first deadline is when something is next due: from then on, and not
/// before, a pass fires.
pub proof fn first_deadline_is_when_something_is_due<C>(
    timers: Seq<Timer<C>>,
    earliest: Option<u64>,
    now: u64,
)
    requires
        is_first_deadline(timers, earliest),
    ensures
        due_tasks(timers, now).len() > 0 <==> earliest is Some && earliest->0 <= now,
{
    if earliest is Some && earliest->0 <= now {
        let i = choose|i: int|
            0 <= i < timers.len() && (#[trigger] timers[i]).next_fire == earliest->0;
        due_timers_are_those_whose_time_has_come(timers, now);
        timers.lemma_filter_contains(|timer: Timer<C>| timer.next_fire <= now, i);
    } else {
        nothing_fires_early(timers, earliest, now);
    }
}

/// There is one first deadline.
pub proof fn first_deadline_is_unique<C>(timers: Seq<Timer<C>>, a: Option<u64>, b: Option<u64>)
    requires
        is_first_deadline(timers, a),
        is_first_deadline(timers, b),
    ensures
        a == b,
{
}

} // verus!
