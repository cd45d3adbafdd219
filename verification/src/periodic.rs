//! A task that dings at regular intervals.

use crate::task::{Async, ToyTask, Waker};
use crate::timer::{Registration, ToyTimer};
use vstd::prelude::*;

verus! {

/// What a periodic task is polled with: the time, the timer that it registers with and
/// the names of the tasks that dinged.
pub struct PeriodicContext<W> {
    pub now: u128,
    pub timer: ToyTimer<W>,
    pub dings: Vec<u64>,
}

/// When the next ding is due after a poll at `now`, given when it was due before.
pub open spec fn next_due(due: int, interval: u128, now: u128) -> int {
    if now >= due {
        now + interval
    } else {
        due
    }
}

/// A task that never completes and dings once in every period.
#[derive(Copy, Clone, Debug, PartialEq, Eq, Structural)]
pub struct Periodic {
    // a name for the task
    id: u64,
    // how often to "ding", in nanoseconds
    period: u128,
    // when the next "ding" is scheduled
    next: u128,
}

impl Periodic {
    /// The name of the task.
    pub closed spec fn name(&self) -> u64 {
        self.id
    }

    /// The nanoseconds from a ding to the next.
    pub closed spec fn interval(&self) -> u128 {
        self.period
    }

    /// When the next ding is due.
    pub closed spec fn due(&self) -> u128 {
        self.next
    }

    /// A task whose first ding is due one period after `now`.
    pub fn new(id: u64, period: u128, now: u128) -> (r: Periodic)
        requires
            now + period <= u128::MAX,
        ensures
            r.name() == id,
            r.interval() == period,
            r.due() == now + period,
    {
        Periodic { id, period, next: now + period }
    }

    /// Whether the task can be polled at `now`: the ding after the one that is due then
    /// is within the range of times.
    pub fn in_range(&self, now: u128) -> (r: bool)
        ensures
            r == (now >= self.due() ==> now + self.interval() <= u128::MAX),
    {
        now < self.next || now <= u128::MAX - self.period
    }
}

impl<W> ToyTask<W> for Periodic {
    type Context = PeriodicContext<W>;

    open spec fn can_poll(&self, context: PeriodicContext<W>) -> bool {
        context.now >= self.due() ==> context.now + self.interval() <= u128::MAX
    }

    /// A task that is due dings and schedules the next ding one period from now. In any
    /// case it registers for the ding that is scheduled then, and goes on.
    open spec fn polled(
        self,
        waker: Waker<W>,
        context: PeriodicContext<W>,
        after: Periodic,
        context_after: PeriodicContext<W>,
        result: Async<()>,
    ) -> bool {
        let is_due = context.now >= self.due();
        &&& after.name() == self.name()
        &&& after.interval() == self.interval()
        &&& after.due() == next_due(self.due() as int, self.interval(), context.now)
        &&& context_after.now == context.now
        &&& context_after.dings@ == if is_due {
            context.dings@.push(self.name())
        } else {
            context.dings@
        }
        &&& context_after.timer@ == context.timer@.push(
            Registration { at: after.due(), wake: waker },
        )
        &&& result == Async::<()>::Pending
    }

    fn poll(&mut self, waker: &Waker<W>, context: &mut PeriodicContext<W>) -> (r: Async<()>)
        ensures
            r is Pending,
            final(self).name() == old(self).name(),
            final(self).interval() == old(self).interval(),
            old(context).now >= old(self).due() ==> final(self).due() == old(context).now + old(
                self,
            ).interval(),
            old(context).now < old(self).due() ==> final(self).due() == old(self).due(),
            final(context).now == old(context).now,
            old(context).now >= old(self).due() ==> final(context).dings@ == old(
                context,
            ).dings@.push(old(self).name()),
            old(context).now < old(self).due() ==> final(context).dings@ == old(context).dings@,
            final(context).timer@ == old(context).timer@.push(
                (Registration { at: final(self).due(), wake: *waker }),
            ),
    {
        // are we ready to ding yet?
        if context.now >= self.next {
            self.next = context.now + self.period;
            context.dings.push(self.id);
        }
        // make sure we're registered to wake up at the next expected `ding`
        context.timer.register(self.next, waker.clone());
        Async::Pending
    }
}

/// However a periodic task is polled, it never completes, and it leaves behind one
/// registration, for a time that has not come yet unless the period is zero.
pub proof fn law_always_scheduled<W>(
    task: Periodic,
    waker: Waker<W>,
    context: PeriodicContext<W>,
    after: Periodic,
    context_after: PeriodicContext<W>,
    result: Async<()>,
)
    requires
        task.polled(waker, context, after, context_after, result),
    ensures
        result is Pending,
        context_after.timer@.len() == context.timer@.len() + 1,
        context_after.timer@.last().at == after.due(),
        context_after.timer@.last().wake == waker,
        task.interval() > 0 ==> context.now < after.due(),
{
}

/// When the next ding is due before poll number `i` of a task that is polled at the
/// times `nows`, given when the first was due.
pub open spec fn due_at(due: int, interval: u128, nows: Seq<u128>, i: int) -> int
    decreases i,
{
    if i <= 0 {
        due
    } else {
        next_due(due_at(due, interval, nows, i - 1), interval, nows[i - 1])
    }
}

/// Of a task that is polled at any times, any two polls at which it dings are at least
/// one period apart.
pub proof fn law_dings_are_a_period_apart(
    due: int,
    interval: u128,
    nows: Seq<u128>,
    i: int,
    j: int,
)
    requires
        0 <= i < j < nows.len(),
        nows[i] >= due_at(due, interval, nows, i),
        nows[j] >= due_at(due, interval, nows, j),
    ensures
        nows[j] - nows[i] >= interval,
{
    lemma_due_after_ding(due, interval, nows, i, j);
}

/// After a ding the next one is due no earlier than one period later.
proof fn lemma_due_after_ding(due: int, interval: u128, nows: Seq<u128>, i: int, j: int)
    requires
        0 <= i < j <= nows.len(),
        nows[i] >= due_at(due, interval, nows, i),
    ensures
        due_at(due, interval, nows, j) >= nows[i] + interval,
    decreases j,
{
    if j > i + 1 {
        lemma_due_after_ding(due, interval, nows, i, j - 1);
    }
}

/// A periodic task can be polled unless the ding after one that is due would be beyond the
/// range of times.
pub proof fn law_when_it_can_be_polled<W>(task: Periodic, context: PeriodicContext<W>)
    ensures
        ToyTask::<W>::can_poll(&task, context) <==> context.now < task.due() || context.now
            + task.interval() <= u128::MAX,
{
}

/// What a poll of a periodic task does. A task that is due adds its name to the dings and has
/// the next ding due a whole period after the poll; one that is not due adds nothing and is
/// due when it was. Either registers once, with the waker it was polled with, for the time
/// at which it is due then. Its name and its period stay.
pub proof fn law_poll_of_a_periodic_task<W>(
    task: Periodic,
    waker: Waker<W>,
    context: PeriodicContext<W>,
    after: Periodic,
    context_after: PeriodicContext<W>,
    result: Async<()>,
)
    requires
        task.polled(waker, context, after, context_after, result),
    ensures
        result is Pending,
        after.name() == task.name(),
        after.interval() == task.interval(),
        context.now >= task.due() ==> after.due() - context.now == task.interval(),
        context.now < task.due() ==> after.due() == task.due(),
        context.now >= task.due() ==> context_after.dings@ == context.dings@ + seq![task.name()],
        context.now < task.due() ==> context_after.dings@ == context.dings@,
        context_after.now == context.now,
        context_after.timer@.len() == context.timer@.len() + 1,
        context_after.timer@.drop_last() == context.timer@,
        context_after.timer@.last().at == after.due(),
        context_after.timer@.last().wake == waker,
{
    assert(context_after.timer@.drop_last() =~= context.timer@);
    if context.now >= task.due() {
        assert(context_after.dings@ =~= context.dings@ + seq![task.name()]);
    }
}

/// `tasks` are the states of one task along a sequence of polls, each of which relates a
/// state to the next; `before` and `after` are the contexts of the polls.
pub open spec fn polled_along<W>(
    tasks: Seq<Periodic>,
    wakers: Seq<Waker<W>>,
    before: Seq<PeriodicContext<W>>,
    after: Seq<PeriodicContext<W>>,
    results: Seq<Async<()>>,
) -> bool {
    &&& tasks.len() == before.len() + 1
    &&& wakers.len() == before.len()
    &&& after.len() == before.len()
    &&& results.len() == before.len()
    &&& forall|i: int|
        #![trigger before[i]]
        0 <= i < before.len() ==> tasks[i].polled(
            wakers[i],
            before[i],
            tasks[i + 1],
            after[i],
            results[i],
        )
}

/// Along any sequence of polls, whatever the clock says at each: two polls that add a ding are
/// at least a period apart, and of the polls after one that adds a ding the first that is a
/// period later or more adds the next.
pub proof fn law_polls_ding_once_in_a_period<W>(
    tasks: Seq<Periodic>,
    wakers: Seq<Waker<W>>,
    before: Seq<PeriodicContext<W>>,
    after: Seq<PeriodicContext<W>>,
    results: Seq<Async<()>>,
    i: int,
    j: int,
)
    requires
        polled_along(tasks, wakers, before, after, results),
        0 <= i < j < before.len(),
        after[i].dings@.len() > before[i].dings@.len(),
    ensures
        after[j].dings@.len() > before[j].dings@.len() ==> before[j].now - before[i].now
            >= tasks[0].interval(),
        before[j].now - before[i].now >= tasks[0].interval() && (forall|k: int|
            i < k < j ==> (#[trigger] after[k]).dings@.len() == before[k].dings@.len())
            ==> after[j].dings@.len() == before[j].dings@.len() + 1,
{
    assert(tasks[i].polled(wakers[i], before[i], tasks[i + 1], after[i], results[i]));
    lemma_interval_along(tasks, wakers, before, after, results, i);
    assert(tasks[i + 1].due() == before[i].now + tasks[0].interval());
    lemma_due_along(tasks, wakers, before, after, results, i, j);
    assert(tasks[j].polled(wakers[j], before[j], tasks[j + 1], after[j], results[j]));
}

/// The period stays along a sequence of polls.
proof fn lemma_interval_along<W>(
    tasks: Seq<Periodic>,
    wakers: Seq<Waker<W>>,
    before: Seq<PeriodicContext<W>>,
    after: Seq<PeriodicContext<W>>,
    results: Seq<Async<()>>,
    i: int,
)
    requires
        polled_along(tasks, wakers, before, after, results),
        0 <= i < tasks.len(),
    ensures
        tasks[i].interval() == tasks[0].interval(),
    decreases i,
{
    if i > 0 {
        lemma_interval_along(tasks, wakers, before, after, results, i - 1);
        let b = before[i - 1];
        assert(tasks[i - 1].polled(wakers[i - 1], b, tasks[i], after[i - 1], results[i - 1]));
    }
}

/// After a ding at poll `i` the next is due a period later, and stays due then until it comes;
/// it is never due earlier again.
proof fn lemma_due_along<W>(
    tasks: Seq<Periodic>,
    wakers: Seq<Waker<W>>,
    before: Seq<PeriodicContext<W>>,
    after: Seq<PeriodicContext<W>>,
    results: Seq<Async<()>>,
    i: int,
    j: int,
)
    requires
        polled_along(tasks, wakers, before, after, results),
        0 <= i < j < tasks.len(),
        tasks[i + 1].due() == before[i].now + tasks[0].interval(),
    ensures
        tasks[j].due() >= before[i].now + tasks[0].interval(),
        (forall|k: int| i < k < j ==> (#[trigger] after[k]).dings@.len() == before[k].dings@.len())
            ==> tasks[j].due() == before[i].now + tasks[0].interval(),
    decreases j,
{
    if j > i + 1 {
        lemma_due_along(tasks, wakers, before, after, results, i, j - 1);
        lemma_interval_along(tasks, wakers, before, after, results, j - 1);
        let b = before[j - 1];
        assert(tasks[j - 1].polled(wakers[j - 1], b, tasks[j], after[j - 1], results[j - 1]));
        if forall|k: int|
            i < k < j ==> (#[trigger] after[k]).dings@.len() == before[k].dings@.len() {
            assert(after[j - 1].dings@.len() == before[j - 1].dings@.len());
        }
    }
}

} // verus!
