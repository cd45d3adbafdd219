//! What becomes of the registrations of a timer over a whole run of its worker.

use crate::timer::{
    due_first, enrolled, free_slot, is_earliest, law_enroll_keeps_all, lemma_earliest_exists,
    lemma_is_there, lemma_was_there, shifted, turned, unshifted,
};
use vstd::prelude::*;

verus! {

/// One thing that a worker does.
pub ghost enum TimerStep<V> {
    /// It takes a registration in.
    Enroll { at: u128, wake: V },
    /// It takes a turn at the time `now`.
    Turn { now: u128 },
}

/// The wakeups that a worker has after `steps`, if it had `start` before them.
pub open spec fn table_after<V>(start: Map<u128, V>, steps: Seq<TimerStep<V>>) -> Map<u128, V>
    decreases steps.len(),
{
    if steps.len() == 0 {
        start
    } else {
        let before = table_after(start, steps.drop_last());
        match steps.last() {
            TimerStep::Enroll { at, wake } => enrolled(before, at, wake),
            TimerStep::Turn { now } => turned(before, now),
        }
    }
}

/// No step pushes a wakeup out of the range of times.
pub open spec fn in_range<V>(start: Map<u128, V>, steps: Seq<TimerStep<V>>) -> bool
    decreases steps.len(),
{
    steps.len() > 0 ==> {
        &&& in_range(start, steps.drop_last())
        &&& steps.last() matches TimerStep::Enroll { at, .. } ==> free_slot(
            table_after(start, steps.drop_last()),
            at,
        ) <= u128::MAX
    }
}

/// How a wakeup came to be there.
pub ghost enum Origin {
    /// It was there at this time at the start.
    Start { at: u128 },
    /// This step of the run enrolled it.
    Step { index: int },
}

/// What was registered, and for which time: `None` if nothing was.
pub open spec fn registered<V>(
    start: Map<u128, V>,
    steps: Seq<TimerStep<V>>,
    origin: Origin,
) -> Option<(u128, V)> {
    match origin {
        Origin::Start { at } => if start.contains_key(at) {
            Some((at, start[at]))
        } else {
            None
        },
        Origin::Step { index } => if 0 <= index < steps.len() {
            match steps[index] {
                TimerStep::Enroll { at, wake } => Some((at, wake)),
                TimerStep::Turn { .. } => None,
            }
        } else {
            None
        },
    }
}

/// A wakeup that is told apart from all others by its origin.
pub ghost struct Ticket<V> {
    pub origin: Origin,
    pub at: u128,
    pub wake: V,
}

/// A wakeup that was fired, and when.
pub ghost struct Firing<V> {
    pub ticket: Ticket<V>,
    pub now: u128,
}

/// The wakeups that a worker has, and those that it has fired, in order.
pub ghost struct TimerRun<V> {
    pub active: Map<u128, Ticket<V>>,
    pub fired: Seq<Firing<V>>,
}

impl<V> TimerRun<V> {
    /// The wakeup of this origin is still in the table.
    pub open spec fn waits(self, origin: Origin) -> bool {
        exists|k: u128| #[trigger]
            self.active.contains_key(k) && self.active[k].origin == origin
    }

    /// The wakeup of this origin was fired.
    pub open spec fn has_fired(self, origin: Origin) -> bool {
        exists|i: int| 0 <= i < self.fired.len() && #[trigger] self.fired[i].ticket.origin == origin
    }
}

/// The run of a worker that has `start` and does `steps`.
pub open spec fn timer_run<V>(start: Map<u128, V>, steps: Seq<TimerStep<V>>) -> TimerRun<V>
    decreases steps.len(),
{
    if steps.len() == 0 {
        TimerRun {
            active: Map::new(
                |k: u128| start.contains_key(k),
                |k: u128| Ticket { origin: Origin::Start { at: k }, at: k, wake: start[k] },
            ),
            fired: Seq::empty(),
        }
    } else {
        let before = timer_run(start, steps.drop_last());
        match steps.last() {
            TimerStep::Enroll { at, wake } => TimerRun {
                active: enrolled(
                    before.active,
                    at,
                    Ticket { origin: Origin::Step { index: steps.len() - 1 }, at, wake },
                ),
                ..before
            },
            TimerStep::Turn { now } => TimerRun {
                active: turned(before.active, now),
                fired: match due_first(before.active, now) {
                    Some(first) => before.fired.push(Firing { ticket: before.active[first], now }),
                    None => before.fired,
                },
            },
        }
    }
}

/// The wakeups of a run without their origins.
pub open spec fn wakes<V>(active: Map<u128, Ticket<V>>) -> Map<u128, V> {
    active.map_values(|t: Ticket<V>| t.wake)
}

/// Which times are taken does not depend on what is due at them.
proof fn lemma_same_times<A, B>(a: Map<u128, A>, b: Map<u128, B>, at: int)
    requires
        a.dom() == b.dom(),
    ensures
        crate::timer::taken_from(a, at) == crate::timer::taken_from(b, at),
    decreases u128::MAX + crate::timer::ENROLL_STEP - at,
{
    if 0 <= at <= u128::MAX {
        assert(a.dom().contains(at as u128) == b.dom().contains(at as u128));
        if a.contains_key(at as u128) {
            lemma_same_times(a, b, at + crate::timer::ENROLL_STEP);
        }
    }
}

/// A run has the wakeups that the worker has, at the same times.
pub proof fn law_run_is_the_workers<V>(start: Map<u128, V>, steps: Seq<TimerStep<V>>)
    requires
        in_range(start, steps),
    ensures
        wakes(timer_run(start, steps).active) == table_after(start, steps),
        timer_run(start, steps).active.dom() == table_after(start, steps).dom(),
    decreases steps.len(),
{
    let run = timer_run(start, steps);
    if steps.len() == 0 {
        assert(wakes(run.active) =~= start);
        assert(run.active.dom() =~= start.dom());
    } else {
        let before = timer_run(start, steps.drop_last());
        let table = table_after(start, steps.drop_last());
        law_run_is_the_workers(start, steps.drop_last());
        match steps.last() {
            TimerStep::Enroll { at, wake } => {
                lemma_same_times(before.active, table, at as int);
                let ticket = Ticket { origin: Origin::Step { index: steps.len() - 1 }, at, wake };
                let after = enrolled(before.active, at, ticket);
                assert(after.dom() =~= enrolled(table, at, wake).dom());
                assert forall|j: u128| after.contains_key(j) implies after[j].wake == enrolled(
                    table,
                    at,
                    wake,
                )[j] by {
                    if j != at {
                        lemma_was_there(before.active, at, ticket, j);
                        lemma_was_there(table, at, wake, j);
                        let k = unshifted(before.active, at, j);
                        assert(unshifted(table, at, j) == k);
                        assert(wakes(before.active)[k] == before.active[k].wake);
                    }
                }
                assert(wakes(after) =~= enrolled(table, at, wake));
            },
            TimerStep::Turn { now } => {
                lemma_same_first(before.active, table, now);
                assert(run.active.dom() =~= turned(table, now).dom());
                assert forall|j: u128| run.active.contains_key(j) implies run.active[j].wake
                    == turned(table, now)[j] by {
                    assert(wakes(before.active)[j] == before.active[j].wake);
                }
                assert(wakes(run.active) =~= turned(table, now));
            },
        }
    }
}

/// Which time is fired first does not depend on what is due then.
proof fn lemma_same_first<A, B>(a: Map<u128, A>, b: Map<u128, B>, now: u128)
    requires
        a.dom() == b.dom(),
    ensures
        due_first(a, now) == due_first(b, now),
{
    assert forall|k: u128| a.contains_key(k) == b.contains_key(k) by {
        assert(a.dom().contains(k) == b.dom().contains(k));
    }
    assert forall|k: u128| #[trigger] is_earliest(a, k) == is_earliest(b, k) by {}
    assert forall|k: u128| #[trigger] is_earliest(b, k) == is_earliest(a, k) by {}
    if let Some(x) = due_first(a, now) {
        assert(is_earliest(b, x) && x <= now);
    }
    if let Some(y) = due_first(b, now) {
        assert(is_earliest(a, y) && y <= now);
    }
}

/// Every wakeup that was there at the start or was registered is either still in the table,
/// under a time no earlier than the one it was registered for, or it was fired, at a time no
/// earlier than that. It is never both, nor in the table twice, nor fired twice, and nothing
/// else is in the table or was fired.
pub open spec fn accounted_for<V>(
    run: TimerRun<V>,
    start: Map<u128, V>,
    steps: Seq<TimerStep<V>>,
) -> bool {
    &&& run.active.dom().finite()
    &&& forall|origin: Origin|
        #![trigger registered(start, steps, origin)]
        registered(start, steps, origin) is Some <==> run.waits(origin) || run.has_fired(origin)
    &&& forall|origin: Origin| !(#[trigger] run.waits(origin) && run.has_fired(origin))
    &&& forall|k: u128| #[trigger]
        run.active.contains_key(k) ==> {
            let ticket = run.active[k];
            &&& registered(start, steps, ticket.origin) == Some((ticket.at, ticket.wake))
            &&& ticket.at <= k
        }
    &&& forall|i: int|
        #![trigger run.fired[i]]
        0 <= i < run.fired.len() ==> {
            let ticket = run.fired[i].ticket;
            &&& registered(start, steps, ticket.origin) == Some((ticket.at, ticket.wake))
            &&& ticket.at <= run.fired[i].now
        }
    &&& forall|a: u128, b: u128| #[trigger]
        run.active.contains_key(a) && #[trigger] run.active.contains_key(b)
            && run.active[a].origin == run.active[b].origin ==> a == b
    &&& forall|i: int, j: int|
        0 <= i < run.fired.len() && 0 <= j < run.fired.len() && (
        #[trigger] run.fired[i]).ticket.origin == (#[trigger] run.fired[j]).ticket.origin ==> i == j
}

/// A further step does not change what was registered before it.
proof fn lemma_registered_before<V>(
    start: Map<u128, V>,
    steps: Seq<TimerStep<V>>,
    origin: Origin,
)
    requires
        steps.len() > 0,
    ensures
        origin != (Origin::Step { index: steps.len() - 1 }) ==> registered(start, steps, origin)
            == registered(start, steps.drop_last(), origin),
        registered(start, steps.drop_last(), Origin::Step { index: steps.len() - 1 }) is None,
{
}

/// A registration that comes in is accounted for, and every other one stays so.
proof fn lemma_after_enroll<V>(
    before: TimerRun<V>,
    start: Map<u128, V>,
    steps: Seq<TimerStep<V>>,
    at: u128,
    wake: V,
)
    requires
        steps.len() > 0,
        steps.last() == (TimerStep::Enroll { at, wake }),
        accounted_for(before, start, steps.drop_last()),
        free_slot(before.active, at) <= u128::MAX,
    ensures
        accounted_for(
            TimerRun {
                active: enrolled(
                    before.active,
                    at,
                    Ticket { origin: Origin::Step { index: steps.len() - 1 }, at, wake },
                ),
                ..before
            },
            start,
            steps,
        ),
{
    let past = steps.drop_last();
    let new = Origin::Step { index: steps.len() - 1 };
    let ticket = Ticket { origin: new, at, wake };
    let run = TimerRun { active: enrolled(before.active, at, ticket), ..before };
    law_enroll_keeps_all(before.active, at, ticket);
    assert(registered(start, steps, new) == Some((at, wake)));
    assert(run.active[at] == ticket);
    // nothing had the origin of the new wakeup
    lemma_registered_before(start, steps, new);
    assert(!before.waits(new) && !before.has_fired(new));
    assert forall|j: u128| #[trigger] run.active.contains_key(j) implies {
        let t = run.active[j];
        &&& registered(start, steps, t.origin) == Some((t.at, t.wake))
        &&& t.at <= j
        &&& j != at ==> t.origin != new
    } by {
        if j != at {
            lemma_was_there(before.active, at, ticket, j);
            let k = unshifted(before.active, at, j);
            assert(before.active.contains_key(k) && before.waits(before.active[k].origin));
            lemma_registered_before(start, steps, before.active[k].origin);
        }
    }
    assert forall|a: u128, b: u128| #[trigger]
        run.active.contains_key(a) && #[trigger] run.active.contains_key(b)
            && run.active[a].origin == run.active[b].origin implies a == b by {
        if a != at && b != at {
            lemma_was_there(before.active, at, ticket, a);
            lemma_was_there(before.active, at, ticket, b);
            assert(before.active.contains_key(unshifted(before.active, at, a)));
            assert(before.active.contains_key(unshifted(before.active, at, b)));
        }
    }
    assert forall|origin: Origin| origin != new implies #[trigger] run.waits(origin)
        == before.waits(origin) by {
        if run.waits(origin) {
            let j = choose|j: u128| #[trigger]
                run.active.contains_key(j) && run.active[j].origin == origin;
            lemma_was_there(before.active, at, ticket, j);
            assert(before.active.contains_key(unshifted(before.active, at, j)));
        }
        if before.waits(origin) {
            let k = choose|k: u128| #[trigger]
                before.active.contains_key(k) && before.active[k].origin == origin;
            lemma_is_there(before.active, at, ticket, k);
            assert(run.active.contains_key(shifted(before.active, at, k)));
        }
    }
    assert forall|origin: Origin| run.has_fired(origin) == before.has_fired(origin) by {}
    assert forall|i: int|
        #![trigger run.fired[i]]
        0 <= i < run.fired.len() implies {
        let t = run.fired[i].ticket;
        registered(start, steps, t.origin) == Some((t.at, t.wake))
    } by {
        assert(before.has_fired(before.fired[i].ticket.origin));
        lemma_registered_before(start, steps, run.fired[i].ticket.origin);
    }
    assert forall|origin: Origin|
        #![trigger registered(start, steps, origin)]
        registered(start, steps, origin) is Some <==> run.waits(origin) || run.has_fired(origin) by {
        if origin == new {
            assert(run.active.contains_key(at));
        } else {
            lemma_registered_before(start, steps, origin);
            assert(registered(start, past, origin) is Some <==> before.waits(origin)
                || before.has_fired(origin));
            assert(run.waits(origin) == before.waits(origin));
        }
    }
    assert forall|origin: Origin| !(#[trigger] run.waits(origin) && run.has_fired(origin)) by {
        if origin != new {
            assert(!(before.waits(origin) && before.has_fired(origin)));
        }
    }
}

/// After a turn every registration is still accounted for.
proof fn lemma_after_turn<V>(
    before: TimerRun<V>,
    start: Map<u128, V>,
    steps: Seq<TimerStep<V>>,
    now: u128,
)
    requires
        steps.len() > 0,
        steps.last() == (TimerStep::<V>::Turn { now }),
        accounted_for(before, start, steps.drop_last()),
    ensures
        accounted_for(
            TimerRun {
                active: turned(before.active, now),
                fired: match due_first(before.active, now) {
                    Some(first) => before.fired.push(Firing { ticket: before.active[first], now }),
                    None => before.fired,
                },
            },
            start,
            steps,
        ),
{
    let past = steps.drop_last();
    assert forall|origin: Origin| #[trigger] registered(start, steps, origin) == registered(
        start,
        past,
        origin,
    ) by {
        lemma_registered_before(start, steps, origin);
    }
    if let Some(first) = due_first(before.active, now) {
        assert(is_earliest(before.active, first) && first <= now);
        let ticket = before.active[first];
        let run = TimerRun {
            active: before.active.remove(first),
            fired: before.fired.push(Firing { ticket, now }),
        };
        assert(run.active.dom() =~= before.active.dom().remove(first));
        assert(before.waits(ticket.origin));
        assert(!before.has_fired(ticket.origin));
        assert forall|i: int| 0 <= i < before.fired.len() implies (
        #[trigger] run.fired[i]).ticket.origin != ticket.origin by {
            assert(run.fired[i] == before.fired[i]);
        }
        assert forall|k: u128| #[trigger] run.active.contains_key(k) implies run.active[k]
            == before.active[k] && run.active[k].origin != ticket.origin by {
            assert(before.active.contains_key(k));
        }
        assert forall|i: int| #![trigger run.fired[i]] 0 <= i < run.fired.len() implies {
            let t = run.fired[i].ticket;
            &&& registered(start, steps, t.origin) == Some((t.at, t.wake))
            &&& t.at <= run.fired[i].now
        } by {
            if i < before.fired.len() {
                assert(run.fired[i] == before.fired[i]);
            } else {
                assert(before.active.contains_key(first));
            }
        }
        assert forall|origin: Origin| #[trigger] run.waits(origin) == (before.waits(origin)
            && origin != ticket.origin) by {
            if before.waits(origin) && origin != ticket.origin {
                let k = choose|k: u128| #[trigger]
                    before.active.contains_key(k) && before.active[k].origin == origin;
                assert(run.active.contains_key(k));
            }
            if run.waits(origin) {
                let k = choose|k: u128| #[trigger]
                    run.active.contains_key(k) && run.active[k].origin == origin;
                assert(before.active.contains_key(k));
            }
        }
        assert forall|origin: Origin| #[trigger] run.has_fired(origin) == (before.has_fired(origin)
            || origin == ticket.origin) by {
            if before.has_fired(origin) {
                let i = choose|i: int|
                    0 <= i < before.fired.len() && #[trigger] before.fired[i].ticket.origin
                        == origin;
                assert(run.fired[i].ticket.origin == origin);
            }
            if origin == ticket.origin {
                assert(run.fired[before.fired.len() as int].ticket.origin == origin);
            }
            if run.has_fired(origin) && origin != ticket.origin {
                let i = choose|i: int|
                    0 <= i < run.fired.len() && #[trigger] run.fired[i].ticket.origin == origin;
                assert(before.fired[i].ticket.origin == origin);
            }
        }
        assert forall|i: int, j: int|
            0 <= i < run.fired.len() && 0 <= j < run.fired.len() && (
            #[trigger] run.fired[i]).ticket.origin == (#[trigger] run.fired[j]).ticket.origin
            implies i == j by {
            if i < before.fired.len() && j < before.fired.len() {
                assert(run.fired[i] == before.fired[i] && run.fired[j] == before.fired[j]);
            }
        }
        assert forall|a: u128, b: u128| #[trigger]
            run.active.contains_key(a) && #[trigger] run.active.contains_key(b)
                && run.active[a].origin == run.active[b].origin implies a == b by {
            assert(before.active.contains_key(a) && before.active.contains_key(b));
        }
        assert forall|origin: Origin|
            #![trigger registered(start, steps, origin)]
            registered(start, steps, origin) is Some <==> run.waits(origin) || run.has_fired(
                origin,
            ) by {
            assert(registered(start, past, origin) is Some <==> before.waits(origin)
                || before.has_fired(origin));
        }
        assert forall|origin: Origin| !(#[trigger] run.waits(origin) && run.has_fired(origin)) by {
            assert(!(before.waits(origin) && before.has_fired(origin)));
        }
    } else {
        assert forall|origin: Origin|
            #![trigger registered(start, steps, origin)]
            registered(start, steps, origin) is Some <==> before.waits(origin) || before.has_fired(
                origin,
            ) by {
            assert(registered(start, past, origin) is Some <==> before.waits(origin)
                || before.has_fired(origin));
        }
    }
}

/// However turns and registrations alternate and whatever the clock says, every wakeup that
/// was there or was registered is in the table still or was fired once, and never before the
/// time it was registered for.
pub proof fn law_each_registration_fires_once<V>(start: Map<u128, V>, steps: Seq<TimerStep<V>>)
    requires
        start.dom().finite(),
        in_range(start, steps),
    ensures
        accounted_for(timer_run(start, steps), start, steps),
    decreases steps.len(),
{
    let run = timer_run(start, steps);
    if steps.len() == 0 {
        assert(run.active.dom() =~= start.dom());
        assert forall|origin: Origin|
            #![trigger registered(start, steps, origin)]
            registered(start, steps, origin) is Some <==> run.waits(origin) || run.has_fired(
                origin,
            ) by {
            if registered(start, steps, origin) is Some {
                if let Origin::Start { at } = origin {
                    assert(run.active.contains_key(at));
                }
            }
        }
    } else {
        let past = steps.drop_last();
        let before = timer_run(start, past);
        law_each_registration_fires_once(start, past);
        law_run_is_the_workers(start, past);
        match steps.last() {
            TimerStep::Enroll { at, wake } => {
                lemma_same_times(before.active, table_after(start, past), at as int);
                lemma_after_enroll(before, start, steps, at, wake);
            },
            TimerStep::Turn { now } => {
                lemma_after_turn(before, start, steps, now);
            },
        }
    }
}

/// Turns at the times that the clock reads one after the other.
pub open spec fn turns_at<V>(nows: Seq<u128>) -> Seq<TimerStep<V>> {
    Seq::new(nows.len(), |i: int| TimerStep::<V>::Turn { now: nows[i] })
}

/// How many of the readings of the clock are `last` or later.
pub open spec fn readings_from(nows: Seq<u128>, last: u128) -> nat
    decreases nows.len(),
{
    if nows.len() == 0 {
        0
    } else {
        readings_from(nows.drop_last(), last) + if nows.last() >= last {
            1nat
        } else {
            0
        }
    }
}

/// Each turn at `last` or later takes one wakeup out of a table in which none is later than
/// `last`, and no turn puts one in.
proof fn lemma_turns_drain<V>(
    start: Map<u128, V>,
    steps: Seq<TimerStep<V>>,
    nows: Seq<u128>,
    last: u128,
)
    requires
        in_range(start, steps),
        table_after(start, steps).dom().finite(),
        forall|k: u128| #[trigger] table_after(start, steps).contains_key(k) ==> k <= last,
    ensures
        ({
            let all = steps + turns_at::<V>(nows);
            let left = table_after(start, all);
            &&& in_range(start, all)
            &&& left.dom().subset_of(table_after(start, steps).dom())
            &&& left.dom().finite()
            &&& left.dom().len() + readings_from(nows, last) <= table_after(
                start,
                steps,
            ).dom().len() || left.dom().len() == 0
        }),
    decreases nows.len(),
{
    let all = steps + turns_at::<V>(nows);
    if nows.len() == 0 {
        assert(all =~= steps);
    } else {
        let now = nows.last();
        let past = steps + turns_at::<V>(nows.drop_last());
        lemma_turns_drain(start, steps, nows.drop_last(), last);
        assert(all.drop_last() =~= past);
        assert(all.last() == TimerStep::<V>::Turn { now });
        let table = table_after(start, past);
        let left = table_after(start, all);
        assert(left == turned(table, now));
        if let Some(first) = due_first(table, now) {
            assert(is_earliest(table, first));
            assert(left.dom() =~= table.dom().remove(first));
        } else if now >= last && table.dom().len() > 0 {
            let some = table.dom().choose();
            assert(table_after(start, steps).dom().contains(some));
            assert(table_after(start, steps).contains_key(some));
            lemma_earliest_exists(table, some);
        }
    }
}

/// Once registrations have stopped coming in and no wakeup in the table is later than `last`,
/// turns fire them all as soon as the clock has read `last` or later as often as there are
/// wakeups, whatever it reads at other turns. The table is then empty, so every wakeup that
/// was there or was registered has been fired, once.
pub proof fn law_all_fire_once_the_clock_has_passed<V>(
    start: Map<u128, V>,
    steps: Seq<TimerStep<V>>,
    nows: Seq<u128>,
    last: u128,
)
    requires
        start.dom().finite(),
        in_range(start, steps),
        forall|k: u128| #[trigger] table_after(start, steps).contains_key(k) ==> k <= last,
        readings_from(nows, last) >= table_after(start, steps).dom().len(),
    ensures
        ({
            let all = steps + turns_at::<V>(nows);
            &&& in_range(start, all)
            &&& table_after(start, all) == Map::<u128, V>::empty()
            &&& accounted_for(timer_run(start, all), start, all)
            &&& forall|origin: Origin|
                #![trigger registered(start, all, origin)]
                registered(start, all, origin) is Some <==> timer_run(start, all).has_fired(origin)
        }),
{
    let all = steps + turns_at::<V>(nows);
    law_each_registration_fires_once(start, steps);
    law_run_is_the_workers(start, steps);
    lemma_turns_drain(start, steps, nows, last);
    law_each_registration_fires_once(start, all);
    law_run_is_the_workers(start, all);
    let table = table_after(start, all);
    assert(table.dom() =~= Set::<u128>::empty());
    assert(table =~= Map::<u128, V>::empty());
    let run = timer_run(start, all);
    assert forall|origin: Origin| !run.waits(origin) by {
        if run.waits(origin) {
            let k = choose|k: u128| #[trigger]
                run.active.contains_key(k) && run.active[k].origin == origin;
            assert(table.dom().contains(k));
        }
    }
}

/// Some reading of the clock is the least.
proof fn lemma_least_reading(nows: Seq<u128>) -> (least: u128)
    requires
        nows.len() > 0,
    ensures
        nows.contains(least),
        forall|i: int| 0 <= i < nows.len() ==> least <= #[trigger] nows[i],
    decreases nows.len(),
{
    if nows.len() == 1 {
        assert(nows[0] == nows.last());
        nows.last()
    } else {
        let rest = nows.drop_last();
        let least = lemma_least_reading(rest);
        let i = choose|i: int| 0 <= i < rest.len() && rest[i] == least;
        assert(nows[i] == least);
        assert(nows[nows.len() - 1] == nows.last());
        assert forall|j: int| 0 <= j < nows.len() - 1 implies least <= #[trigger] nows[j] by {
            assert(rest[j] == nows[j]);
        }
        if nows.last() < least {
            nows.last()
        } else {
            least
        }
    }
}

/// Readings that are all `last` or later are all counted.
proof fn lemma_all_readings(nows: Seq<u128>, last: u128)
    requires
        forall|i: int| 0 <= i < nows.len() ==> last <= #[trigger] nows[i],
    ensures
        readings_from(nows, last) == nows.len(),
    decreases nows.len(),
{
    if nows.len() > 0 {
        let rest = nows.drop_last();
        assert forall|i: int| 0 <= i < rest.len() implies last <= #[trigger] rest[i] by {
            assert(rest[i] == nows[i]);
        }
        lemma_all_readings(rest, last);
        assert(nows[nows.len() - 1] == nows.last());
    }
}

/// Once registrations have stopped coming in, turns at times by which all that is in the
/// table is due fire it all, whatever the clock reads at each: after as many turns as there
/// are wakeups, or more, the table is empty, so every wakeup that was there or was registered
/// has been fired, once.
pub proof fn law_all_fire_in_the_end<V>(
    start: Map<u128, V>,
    steps: Seq<TimerStep<V>>,
    nows: Seq<u128>,
)
    requires
        start.dom().finite(),
        in_range(start, steps),
        nows.len() >= table_after(start, steps).dom().len(),
        forall|k: u128, i: int|
            #![trigger table_after(start, steps).contains_key(k), nows[i]]
            table_after(start, steps).contains_key(k) && 0 <= i < nows.len() ==> k <= nows[i],
    ensures
        ({
            let all = steps + turns_at::<V>(nows);
            &&& in_range(start, all)
            &&& table_after(start, all) == Map::<u128, V>::empty()
            &&& accounted_for(timer_run(start, all), start, all)
            &&& forall|origin: Origin|
                #![trigger registered(start, all, origin)]
                registered(start, all, origin) is Some <==> timer_run(start, all).has_fired(origin)
        }),
{
    let table = table_after(start, steps);
    law_each_registration_fires_once(start, steps);
    law_run_is_the_workers(start, steps);
    let last: u128 = if nows.len() > 0 {
        lemma_least_reading(nows)
    } else {
        0
    };
    lemma_all_readings(nows, last);
    assert forall|k: u128| #[trigger] table.contains_key(k) implies k <= last by {
        assert(table.dom().contains(k));
        if nows.len() > 0 {
            let i = choose|i: int| 0 <= i < nows.len() && nows[i] == last;
            assert(k <= nows[i]);
        }
    }
    law_all_fire_once_the_clock_has_passed(start, steps, nows, last);
}

} // verus!
