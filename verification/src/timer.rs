//! Timers: wakeups that are due at a point in time.
//!
//! Times are counts of nanoseconds from a fixed instant.

use crate::task::{Wake, Waker};
use std::collections::BTreeMap;
use vstd::std_specs::cmp::OrdSpec;
use vstd::std_specs::iter::IteratorSpec;
use vstd::prelude::*;

verus! {

broadcast use vstd::std_specs::btree::group_btree_axioms;

/// How far a wakeup is put off when another takes its time, in nanoseconds.
pub const ENROLL_STEP: u128 = 5;

/// A wakeup request
pub struct Registration<W> {
    pub at: u128,
    pub wake: Waker<W>,
}

/// The sending side of a timer: the requests that its worker has yet to receive, in
/// the order in which they were made.
pub struct ToyTimer<W> {
    sent: Vec<Registration<W>>,
}

impl<W> View for ToyTimer<W> {
    type V = Seq<Registration<W>>;

    closed spec fn view(&self) -> Seq<Registration<W>> {
        self.sent@
    }
}

impl<W> ToyTimer<W> {
    pub fn new() -> (r: ToyTimer<W>)
        ensures
            r@ == Seq::<Registration<W>>::empty(),
    {
        ToyTimer { sent: Vec::new() }
    }

    /// Register a new wakeup with this timer
    pub fn register(&mut self, at: u128, wake: Waker<W>)
        ensures
            final(self)@ == old(self)@.push(Registration { at, wake }),
    {
        self.sent.push(Registration { at, wake });
    }

    /// Takes the requests out, to be handed to the worker.
    pub fn take(&mut self) -> (r: Vec<Registration<W>>)
        ensures
            r@ == old(self)@,
            final(self)@ == Seq::<Registration<W>>::empty(),
    {
        let mut taken: Vec<Registration<W>> = Vec::new();
        std::mem::swap(&mut taken, &mut self.sent);
        taken
    }
}

/// How many of the times `at`, `at + 5`, `at + 10` and so on are taken before the first
/// one that is not.
pub open spec fn taken_from<V>(active: Map<u128, V>, at: int) -> nat
    decreases u128::MAX + ENROLL_STEP - at,
{
    if 0 <= at <= u128::MAX && active.contains_key(at as u128) {
        1 + taken_from(active, at + ENROLL_STEP)
    } else {
        0
    }
}

/// The first of the times `at`, `at + 5`, `at + 10` and so on that is not taken.
pub open spec fn free_slot<V>(active: Map<u128, V>, at: u128) -> int {
    at + ENROLL_STEP * taken_from(active, at as int)
}

/// The time of a wakeup at `k` is pushed on when one is enrolled at `at`.
pub open spec fn pushed_on<V>(active: Map<u128, V>, at: u128, k: u128) -> bool {
    at <= k < free_slot(active, at) && (k - at) % (ENROLL_STEP as int) == 0
}

/// The wakeups once one more is enrolled at `at`: it takes that time, and each wakeup
/// in its way moves on by one step, up to the first time that is not taken.
pub open spec fn enrolled<V>(active: Map<u128, V>, at: u128, wake: V) -> Map<u128, V> {
    Map::new(
        |k: u128| active.contains_key(k) || k == free_slot(active, at),
        |k: u128|
            if k == at {
                wake
            } else if k >= ENROLL_STEP && pushed_on(active, at, (k - ENROLL_STEP) as u128) {
                active[(k - ENROLL_STEP) as u128]
            } else {
                active[k]
            },
    )
}

/// What lies before `at` has no bearing on the times taken from `at` on.
proof fn lemma_taken_from_is_local<V>(a: Map<u128, V>, b: Map<u128, V>, at: int)
    requires
        forall|k: u128| k >= at ==> a.contains_key(k) == b.contains_key(k),
    ensures
        taken_from(a, at) == taken_from(b, at),
    decreases u128::MAX + ENROLL_STEP - at,
{
    if 0 <= at <= u128::MAX {
        lemma_taken_from_is_local(a, b, at + ENROLL_STEP);
    }
}

/// Every time before the free one is taken.
proof fn lemma_taken<V>(active: Map<u128, V>, at: int, i: int)
    requires
        0 <= i < taken_from(active, at),
    ensures
        0 <= at + ENROLL_STEP * i <= u128::MAX,
        active.contains_key((at + ENROLL_STEP * i) as u128),
    decreases i,
{
    if i > 0 {
        lemma_taken(active, at + ENROLL_STEP, i - 1);
    }
}

/// The free time is not taken.
proof fn lemma_free<V>(active: Map<u128, V>, at: int)
    requires
        0 <= at,
    ensures
        at + ENROLL_STEP * taken_from(active, at) <= u128::MAX ==> !active.contains_key(
            (at + ENROLL_STEP * taken_from(active, at)) as u128,
        ),
    decreases u128::MAX + ENROLL_STEP - at,
{
    if at <= u128::MAX && active.contains_key(at as u128) {
        lemma_free(active, at + ENROLL_STEP);
    }
}

/// A wakeup that is pushed on is one that there is.
proof fn lemma_pushed_on<V>(active: Map<u128, V>, at: u128, k: u128)
    requires
        pushed_on(active, at, k),
    ensures
        active.contains_key(k),
{
    let i = (k - at) / (ENROLL_STEP as int);
    assert(k == at + ENROLL_STEP * i);
    lemma_taken(active, at as int, i);
}

/// Enrolling where a time is taken is to take that time and to enroll what was there
/// one step later.
proof fn lemma_enroll_step<V>(active: Map<u128, V>, at: u128, wake: V)
    requires
        active.contains_key(at),
        free_slot(active, at) <= u128::MAX,
    ensures
        at + ENROLL_STEP <= u128::MAX,
        ({
            let next = (at + ENROLL_STEP) as u128;
            let inserted = active.insert(at, wake);
            &&& free_slot(inserted, next) == free_slot(active, at)
            &&& enrolled(inserted, next, active[at]) == enrolled(active, at, wake)
        }),
{
    let next = (at + ENROLL_STEP) as u128;
    let inserted = active.insert(at, wake);
    lemma_taken_from_is_local(inserted, active, next as int);
    assert(free_slot(inserted, next) == free_slot(active, at));
    let left = enrolled(inserted, next, active[at]);
    let right = enrolled(active, at, wake);
    assert(left.dom() =~= right.dom());
    assert forall|k: u128| right.contains_key(k) implies left[k] == right[k] by {
        if k == at {
            if k >= ENROLL_STEP && pushed_on(inserted, next, (k - ENROLL_STEP) as u128) {
                assert(false);
            }
        } else if k == next {
            assert(pushed_on(active, at, at));
        } else if k >= ENROLL_STEP {
            let j = (k - ENROLL_STEP) as u128;
            assert((j - at) % 5 == 0 <==> (j - next) % 5 == 0);
            if pushed_on(active, at, j) {
                assert(j != at);
                assert(j >= next);
                assert(pushed_on(inserted, next, j));
            }
        }
    }
    assert(left =~= right);
}

/// `key` is the earliest of the times.
pub open spec fn is_earliest<V>(active: Map<u128, V>, key: u128) -> bool {
    &&& active.contains_key(key)
    &&& forall|k: u128| active.contains_key(k) ==> key <= k
}

/// The time of the wakeup that a turn at `now` fires, if one is due.
pub open spec fn due_first<V>(active: Map<u128, V>, now: u128) -> Option<u128> {
    if exists|k: u128| #[trigger] is_earliest(active, k) && k <= now {
        Some(choose|k: u128| #[trigger] is_earliest(active, k) && k <= now)
    } else {
        None
    }
}

/// The wakeups that are left after a turn at `now`.
pub open spec fn turned<V>(active: Map<u128, V>, now: u128) -> Map<u128, V> {
    match due_first(active, now) {
        Some(first) => active.remove(first),
        None => active,
    }
}

/// What the worker is to do next.
#[derive(Copy, Clone, Debug, PartialEq, Eq, Structural)]
pub enum WorkerAction {
    /// A wakeup was due and has been fired: look again.
    Fired,
    /// Wait for a registration, but no longer than this many nanoseconds.
    RecvTimeout(u128),
    /// Wait for a registration.
    Recv,
}

/// State for the worker thread that processes timer events
pub struct Worker<W> {
    active: BTreeMap<u128, Waker<W>>,
}

impl<W> View for Worker<W> {
    type V = Map<u128, Waker<W>>;

    closed spec fn view(&self) -> Map<u128, Waker<W>> {
        self.active@
    }
}

impl<W> Worker<W> {
    /// A worker without registrations.
    pub fn new() -> (r: Worker<W>)
        ensures
            r@ == Map::<u128, Waker<W>>::empty(),
    {
        Worker { active: BTreeMap::new() }
    }

    /// A worker holds finitely many wakeups.
    pub proof fn law_finitely_many(&self)
        ensures
            self@.dom().finite(),
    {
    }

    /// The time that is taken when a wakeup at `at` is enrolled and pushes on those in its
    /// way, or `None` when that is beyond the range of times.
    pub fn free_time(&self, at: u128) -> (r: Option<u128>)
        ensures
            match r {
                Some(slot) => slot == free_slot(self@, at),
                None => free_slot(self@, at) > u128::MAX,
            },
            match r {
                Some(slot) => {
                    &&& at <= slot
                    &&& (slot - at) % 5 == 0
                    &&& !self@.contains_key(slot)
                    &&& forall|k: u128|
                        at <= k < slot && (k - at) % 5 == 0 ==> #[trigger] self@.contains_key(k)
                },
                None => forall|k: u128|
                    at <= k && (k - at) % 5 == 0 ==> #[trigger] self@.contains_key(k),
            },
    {
        proof {
            law_free_slot_is_the_first_free_time(self@, at);
        }
        let mut slot: u128 = at;
        while self.active.contains_key(&slot)
            invariant
                free_slot(self@, at) == free_slot(self@, slot),
            decreases u128::MAX - slot,
        {
            if slot > u128::MAX - ENROLL_STEP {
                proof {
                    law_free_slot_is_the_first_free_time(self@, at);
                }
                return None;
            }
            slot += ENROLL_STEP;
        }
        Some(slot)
    }

    /// Takes a registration in. A wakeup that is already there for the same time is
    /// put off by five nanoseconds.
    pub fn enroll(&mut self, item: Registration<W>)
        requires
            free_slot(old(self)@, item.at) <= u128::MAX,
        ensures
            final(self)@ == enrolled(old(self)@, item.at, item.wake),
            final(self)@.dom().len() == old(self)@.dom().len() + 1,
            final(self)@.contains_key(item.at),
            final(self)@[item.at] == item.wake,
            forall|k: u128| #[trigger]
                final(self)@.contains_key(k) <==> old(self)@.contains_key(k) || k == free_slot(
                    old(self)@,
                    item.at,
                ),
            forall|k: u128| #[trigger]
                old(self)@.contains_key(k) ==> if item.at <= k < free_slot(old(self)@, item.at) && (k
                    - item.at) % 5 == 0 {
                    k + 5 <= u128::MAX && final(self)@[(k + 5) as u128] == old(self)@[k]
                } else {
                    final(self)@[k] == old(self)@[k]
                },
        decreases u128::MAX - item.at,
    {
        let ghost before = self@;
        proof {
            law_enroll_keeps_all(before, item.at, item.wake);
            law_enroll_puts_off_what_is_in_the_way(before, item.at, item.wake);
        }
        if let Some(prev) = self.active.insert(item.at, item.wake.clone()) {
            proof {
                lemma_enroll_step(before, item.at, item.wake);
            }
            self.enroll(Registration { at: item.at + ENROLL_STEP, wake: prev });
        } else {
            assert(self@ =~= enrolled(before, item.at, item.wake));
        }
    }

    /// Wakes what is registered for `key`.
    pub fn fire<S>(&mut self, key: u128, target: &mut S) where W: Wake<S>
        requires
            old(self)@.contains_key(key),
        ensures
            final(self)@ == old(self)@.remove(key),
            !final(self)@.contains_key(key),
            old(self)@[key].inner().wakes(*old(target), *final(target)),
    {
        self.active.remove(&key).unwrap().wake(target);
    }

    /// The earliest time at which a wakeup is due.
    fn first(&self) -> (r: Option<u128>)
        ensures
            match r {
                Some(key) => is_earliest(self@, key),
                None => self@ == Map::<u128, Waker<W>>::empty(),
            },
            match r {
                Some(key) => {
                    &&& self@.contains_key(key)
                    &&& forall|k: u128| #[trigger] self@.contains_key(k) ==> key <= k
                },
                None => forall|k: u128| !#[trigger] self@.contains_key(k),
            },
    {
        let entries = self.active.iter();
        let ghost keys = entries.remaining().map_values(|kv: (&u128, &Waker<W>)| *kv.0);
        assert(vstd::std_specs::btree::increasing_seq(keys));
        for entry in it: entries
            invariant
                it.index() == 0,
                it.seq() == vstd::std_specs::btree::spec_btree_map_iter(&self.active).remaining(),
                keys == it.seq().map_values(|kv: (&u128, &Waker<W>)| *kv.0),
                vstd::std_specs::btree::increasing_seq(keys),
        {
            let key: u128 = *entry.0;
            proof {
                assert(keys[0] == key);
                assert forall|k: u128| self@.contains_key(k) implies key <= k by {
                    assert(it.seq().contains((&k, &self.active@[k])));
                    let i = choose|i: int|
                        0 <= i < it.seq().len() && it.seq()[i] == (&k, &self.active@[k]);
                    assert(keys[i] == k);
                    assert(i > 0 ==> keys[0].cmp_spec(&keys[i]) is Less);
                }
                assert(self.active@.contains_key(*it.seq()[0].0));
            }
            return Some(key);
        }
        None
    }

    /// One turn of the worker at time `now`: fires the earliest wakeup if it is due,
    /// or says how long to wait for a registration. A registration that comes in is
    /// enrolled before the next turn.
    pub fn work<S>(&mut self, now: u128, target: &mut S) -> (r: WorkerAction) where W: Wake<S>
        ensures
            r is Fired <==> due_first(old(self)@, now) is Some,
            final(self)@ == turned(old(self)@, now),
            match r {
                WorkerAction::Fired => exists|first: u128|
                    {
                        &&& #[trigger] is_earliest(old(self)@, first)
                        &&& first <= now
                        &&& final(self)@ == old(self)@.remove(first)
                        &&& old(self)@[first].inner().wakes(*old(target), *final(target))
                    },
                WorkerAction::RecvTimeout(wait) => {
                    &&& is_earliest(old(self)@, (now + wait) as u128)
                    &&& now < now + wait <= u128::MAX
                    &&& *final(self) == *old(self)
                    &&& *final(target) == *old(target)
                },
                WorkerAction::Recv => {
                    &&& old(self)@ == Map::<u128, Waker<W>>::empty()
                    &&& *final(self) == *old(self)
                    &&& *final(target) == *old(target)
                },
            },
            match r {
                WorkerAction::Fired => exists|first: u128|
                    {
                        &&& #[trigger] old(self)@.contains_key(first)
                        &&& first <= now
                        &&& forall|k: u128| #[trigger] old(self)@.contains_key(k) ==> first <= k
                        &&& final(self)@ == old(self)@.remove(first)
                        &&& old(self)@[first].inner().wakes(*old(target), *final(target))
                    },
                WorkerAction::RecvTimeout(wait) => {
                    &&& wait > 0
                    &&& now + wait <= u128::MAX
                    &&& old(self)@.contains_key((now + wait) as u128)
                    &&& forall|k: u128| #[trigger] old(self)@.contains_key(k) ==> now + wait <= k
                },
                WorkerAction::Recv => forall|k: u128| !#[trigger] old(self)@.contains_key(k),
            },
    {
        if let Some(first) = self.first() {
            if first <= now {
                self.fire(first, target);
                WorkerAction::Fired
            } else {
                WorkerAction::RecvTimeout(first - now)
            }
        } else {
            WorkerAction::Recv
        }
    }
}

/// A wakeup that is in the way is put off by five nanoseconds.
pub proof fn law_step_is_five_nanoseconds()
    ensures
        ENROLL_STEP == 5,
{
}

/// The time that is taken when a wakeup is enrolled at `at` is the first one that is free in
/// steps of five from `at` on: every one before it is taken, and it is not. Where it is beyond
/// the range of times, all of them in the range are taken.
pub proof fn law_free_slot_is_the_first_free_time<V>(active: Map<u128, V>, at: u128)
    ensures
        at <= free_slot(active, at) <= u128::MAX + 5,
        (free_slot(active, at) - at) % 5 == 0,
        forall|k: u128|
            at <= k < free_slot(active, at) && (k - at) % 5 == 0 ==> #[trigger] active.contains_key(
                k,
            ),
        forall|k: u128| #[trigger] active.contains_key(k) ==> k != free_slot(active, at),
{
    let n = taken_from(active, at as int) as int;
    assert(free_slot(active, at) == at + 5 * n);
    lemma_free(active, at as int);
    if n > 0 {
        lemma_taken(active, at as int, n - 1);
    }
    assert forall|k: u128|
        at <= k < free_slot(active, at) && (k - at) % 5
            == 0 implies #[trigger] active.contains_key(k) by {
        lemma_pushed_on(active, at, k);
    }
}

/// What enrolling a wakeup at `at` makes of the wakeups, time by time. The new one has the
/// time `at`. Each one in steps of five from there up to the first free time is due five
/// nanoseconds later than it was, every other one is due when it was, and the only time that
/// is taken in addition is that free one.
pub proof fn law_enroll_puts_off_what_is_in_the_way<V>(active: Map<u128, V>, at: u128, wake: V)
    requires
        free_slot(active, at) <= u128::MAX,
    ensures
        enrolled(active, at, wake).contains_key(at),
        enrolled(active, at, wake)[at] == wake,
        forall|k: u128| #[trigger]
            enrolled(active, at, wake).contains_key(k) <==> active.contains_key(k) || k
                == free_slot(active, at),
        forall|k: u128| #[trigger]
            active.contains_key(k) ==> if at <= k < free_slot(active, at) && (k - at) % 5 == 0 {
                k + 5 <= u128::MAX && enrolled(active, at, wake)[(k + 5) as u128] == active[k]
            } else {
                enrolled(active, at, wake)[k] == active[k]
            },
{
    if taken_from(active, at as int) > 0 {
        lemma_taken(active, at as int, 0);
    }
    assert forall|k: u128| #[trigger] active.contains_key(k) implies if at <= k < free_slot(
        active,
        at,
    ) && (k - at) % 5 == 0 {
        k + 5 <= u128::MAX && enrolled(active, at, wake)[(k + 5) as u128] == active[k]
    } else {
        enrolled(active, at, wake)[k] == active[k]
    } by {
        if pushed_on(active, at, k) {
            lemma_in_the_way(active, at, wake, k);
        } else {
            lemma_out_of_the_way(active, at, wake, k);
        }
    }
}

/// A turn at `now` fires the wakeup of the earliest time, if that time is not later than
/// `now`, and takes that one out and no other; where every time is later it fires none and
/// takes none out.
pub proof fn law_turn_fires_the_earliest_if_due<V>(active: Map<u128, V>, now: u128)
    requires
        active.dom().finite(),
    ensures
        forall|key: u128|
            (#[trigger] is_earliest(active, key) <==> active.contains_key(key) && forall|k: u128|
                #[trigger]
                active.contains_key(k) ==> key <= k),
        match due_first(active, now) {
            Some(first) => {
                &&& active.contains_key(first)
                &&& first <= now
                &&& forall|k: u128| #[trigger] active.contains_key(k) ==> first <= k
                &&& forall|k: u128| #[trigger]
                    turned(active, now).contains_key(k) <==> active.contains_key(k) && k != first
                &&& forall|k: u128| #[trigger]
                    turned(active, now).contains_key(k) ==> turned(active, now)[k] == active[k]
            },
            None => {
                &&& forall|k: u128| #[trigger] active.contains_key(k) ==> now < k
                &&& turned(active, now) == active
            },
        },
{
    assert forall|k: u128| #[trigger]
        active.contains_key(k) && due_first(active, now) is None implies now < k by {
        if k <= now {
            lemma_earliest_exists(active, k);
        }
    }
}

/// Enrolling a wakeup loses none and moves none to an earlier time: the new one has its
/// time, each wakeup that was there keeps its time or, where it was in the way, is put
/// off by one step, and there is exactly one wakeup more.
pub proof fn law_enroll_keeps_all<V>(active: Map<u128, V>, at: u128, wake: V)
    requires
        active.dom().finite(),
        free_slot(active, at) <= u128::MAX,
    ensures
        enrolled(active, at, wake).contains_key(at),
        enrolled(active, at, wake)[at] == wake,
        forall|k: u128| #[trigger]
            active.contains_key(k) && pushed_on(active, at, k) ==> {
                &&& k + ENROLL_STEP <= u128::MAX
                &&& enrolled(active, at, wake).contains_key((k + ENROLL_STEP) as u128)
                &&& enrolled(active, at, wake)[(k + ENROLL_STEP) as u128] == active[k]
            },
        forall|k: u128| #[trigger]
            active.contains_key(k) && !pushed_on(active, at, k) ==> {
                &&& enrolled(active, at, wake).contains_key(k)
                &&& enrolled(active, at, wake)[k] == active[k]
            },
        enrolled(active, at, wake).dom() == active.dom().insert(free_slot(active, at) as u128),
        enrolled(active, at, wake).dom().len() == active.dom().len() + 1,
{
    lemma_free(active, at as int);
    assert(enrolled(active, at, wake).dom() =~= active.dom().insert(
        free_slot(active, at) as u128,
    ));
    assert(enrolled(active, at, wake).contains_key(at)) by {
        if taken_from(active, at as int) > 0 {
            lemma_taken(active, at as int, 0);
        }
    }
    assert forall|k: u128| #[trigger]
        active.contains_key(k) && pushed_on(active, at, k) implies {
        &&& k + ENROLL_STEP <= u128::MAX
        &&& enrolled(active, at, wake).contains_key((k + ENROLL_STEP) as u128)
        &&& enrolled(active, at, wake)[(k + ENROLL_STEP) as u128] == active[k]
    } by {
        lemma_in_the_way(active, at, wake, k);
    }
    assert forall|k: u128| #[trigger]
        active.contains_key(k) && !pushed_on(active, at, k) implies {
        &&& enrolled(active, at, wake).contains_key(k)
        &&& enrolled(active, at, wake)[k] == active[k]
    } by {
        lemma_out_of_the_way(active, at, wake, k);
    }
}

/// A wakeup in the way of a new one is put off by one step.
proof fn lemma_in_the_way<V>(active: Map<u128, V>, at: u128, wake: V, k: u128)
    requires
        free_slot(active, at) <= u128::MAX,
        pushed_on(active, at, k),
    ensures
        k + ENROLL_STEP <= u128::MAX,
        enrolled(active, at, wake).contains_key((k + ENROLL_STEP) as u128),
        enrolled(active, at, wake)[(k + ENROLL_STEP) as u128] == active[k],
{
    let slot = free_slot(active, at);
    let n = taken_from(active, at as int) as int;
    let i = (k - at) / 5;
    assert(k == at + 5 * i && slot == at + 5 * n);
    assert(k + ENROLL_STEP <= slot);
    let next = (k + ENROLL_STEP) as u128;
    if next < slot {
        assert((next - at) % 5 == 0);
        lemma_pushed_on(active, at, next);
    }
}

/// A wakeup that is not in the way of a new one keeps its time.
proof fn lemma_out_of_the_way<V>(active: Map<u128, V>, at: u128, wake: V, k: u128)
    requires
        free_slot(active, at) <= u128::MAX,
        active.contains_key(k),
        !pushed_on(active, at, k),
    ensures
        enrolled(active, at, wake).contains_key(k),
        enrolled(active, at, wake)[k] == active[k],
{
    let slot = free_slot(active, at);
    let n = taken_from(active, at as int) as int;
    lemma_free(active, at as int);
    assert(slot == at + 5 * n);
    if k == at {
        assert(taken_from(active, at as int) > 0);
        assert((k - at) % 5 == 0);
    } else if k >= ENROLL_STEP && pushed_on(active, at, (k - ENROLL_STEP) as u128) {
        let i = (k - ENROLL_STEP - at) / 5;
        assert(k == at + 5 * (i + 1));
        assert((k - at) % 5 == 0);
        assert(k == slot);
    }
}

/// The time of a wakeup once another is enrolled at `at`.
pub open spec fn shifted<V>(active: Map<u128, V>, at: u128, k: u128) -> u128 {
    if pushed_on(active, at, k) {
        (k + ENROLL_STEP) as u128
    } else {
        k
    }
}

/// Where a wakeup was before one was enrolled at `at`.
pub open spec fn unshifted<V>(active: Map<u128, V>, at: u128, j: u128) -> u128 {
    if j >= ENROLL_STEP && pushed_on(active, at, (j - ENROLL_STEP) as u128) {
        (j - ENROLL_STEP) as u128
    } else {
        j
    }
}

/// A wakeup other than the one that is enrolled was there before, and has moved to where
/// it is.
pub(crate) proof fn lemma_was_there<V>(active: Map<u128, V>, at: u128, wake: V, j: u128)
    requires
        free_slot(active, at) <= u128::MAX,
        enrolled(active, at, wake).contains_key(j),
        j != at,
    ensures
        ({
            let k = unshifted(active, at, j);
            &&& active.contains_key(k)
            &&& enrolled(active, at, wake)[j] == active[k]
            &&& shifted(active, at, k) == j
            &&& k <= j
        }),
{
    let slot = free_slot(active, at);
    let n = taken_from(active, at as int) as int;
    let k = unshifted(active, at, j);
    assert(slot == at + 5 * n);
    if k != j {
        lemma_pushed_on(active, at, k);
    } else {
        if j == slot {
            assert(pushed_on(active, at, (j - ENROLL_STEP) as u128));
        }
        if pushed_on(active, at, j) {
            let i = (j - at) / 5;
            assert(j == at + 5 * i && i >= 1);
            assert(pushed_on(active, at, (j - ENROLL_STEP) as u128));
        }
    }
}

/// A wakeup that was there is where it has moved to, and is not where the new one is.
pub(crate) proof fn lemma_is_there<V>(active: Map<u128, V>, at: u128, wake: V, k: u128)
    requires
        free_slot(active, at) <= u128::MAX,
        active.contains_key(k),
    ensures
        ({
            let j = shifted(active, at, k);
            &&& enrolled(active, at, wake).contains_key(j)
            &&& enrolled(active, at, wake)[j] == active[k]
            &&& unshifted(active, at, j) == k
            &&& j != at
            &&& k <= j
        }),
{
    if pushed_on(active, at, k) {
        lemma_in_the_way(active, at, wake, k);
    } else {
        lemma_out_of_the_way(active, at, wake, k);
        if k == at {
            assert(taken_from(active, at as int) > 0);
            assert(pushed_on(active, at, k));
        } else if k >= ENROLL_STEP && pushed_on(active, at, (k - ENROLL_STEP) as u128) {
            let i = (k - ENROLL_STEP - at) / 5;
            let n = taken_from(active, at as int) as int;
            assert(k == at + 5 * (i + 1) && free_slot(active, at) == at + 5 * n);
            assert((k - at) % 5 == 0);
            lemma_free(active, at as int);
        }
    }
}

/// The times at which `wake` is due.
pub open spec fn times_of<V>(active: Map<u128, V>, wake: V) -> Set<u128> {
    active.dom().filter(|k: u128| active[k] == wake)
}

/// Enrolling a wakeup adds it once to the wakeups that there are, counted as often as each
/// is there: none is lost and none is doubled.
pub proof fn law_enroll_adds_one<V>(active: Map<u128, V>, at: u128, wake: V, any: V)
    requires
        active.dom().finite(),
        free_slot(active, at) <= u128::MAX,
    ensures
        times_of(enrolled(active, at, wake), any).finite(),
        times_of(enrolled(active, at, wake), any).len() == times_of(active, any).len() + if any
            == wake {
            1int
        } else {
            0
        },
{
    let after = enrolled(active, at, wake);
    let f = |k: u128| shifted(active, at, k);
    let old_times = times_of(active, any);
    let new_times = times_of(after, any);
    law_enroll_keeps_all(active, at, wake);
    assert(old_times.finite());
    assert(vstd::relations::injective_on(f, old_times)) by {
        assert forall|a: u128, b: u128|
            old_times.contains(a) && old_times.contains(b) && #[trigger] f(a) == #[trigger] f(
                b,
            ) implies a == b by {
            lemma_is_there(active, at, wake, a);
            lemma_is_there(active, at, wake, b);
        }
    }
    assert(old_times.map(f) =~= new_times.remove(at)) by {
        assert forall|j: u128| old_times.map(f).contains(j) implies new_times.remove(at).contains(
            j,
        ) by {
            let k = choose|k: u128| old_times.contains(k) && f(k) == j;
            lemma_is_there(active, at, wake, k);
        }
        assert forall|j: u128| new_times.remove(at).contains(j) implies old_times.map(f).contains(
            j,
        ) by {
            lemma_was_there(active, at, wake, j);
            let k = unshifted(active, at, j);
            assert(old_times.contains(k) && f(k) == j);
        }
    }
    vstd::set_lib::lemma_map_size(old_times, new_times.remove(at), f);
    assert(new_times.subset_of(after.dom()));
    vstd::set_lib::lemma_set_subset_finite(after.dom(), new_times);
    assert(new_times.contains(at) <==> any == wake);
    if any != wake {
        assert(new_times.remove(at) =~= new_times);
    }
}

/// A wakeup that is enrolled for a time at which no other is due moves nothing.
pub proof fn law_enroll_at_free_time<V>(active: Map<u128, V>, at: u128, wake: V)
    requires
        !active.contains_key(at),
    ensures
        free_slot(active, at) == at,
        enrolled(active, at, wake) == active.insert(at, wake),
{
    assert(enrolled(active, at, wake) =~= active.insert(at, wake));
}

/// There is one earliest time, where there are any, and what is left once it is gone is
/// later.
pub proof fn law_earliest_is_unique<V>(active: Map<u128, V>, a: u128, b: u128)
    requires
        is_earliest(active, a),
    ensures
        is_earliest(active, b) ==> a == b,
        active.remove(a).contains_key(b) ==> a < b,
{
}

/// A wakeup that is enrolled for a time no later than all others is the earliest: it is
/// the one that the worker waits for from then on.
pub proof fn law_earlier_registration_comes_first<V>(active: Map<u128, V>, at: u128, wake: V)
    requires
        free_slot(active, at) <= u128::MAX,
        forall|k: u128| #[trigger] active.contains_key(k) ==> at <= k,
    ensures
        is_earliest(enrolled(active, at, wake), at),
        enrolled(active, at, wake)[at] == wake,
{
    if taken_from(active, at as int) > 0 {
        lemma_taken(active, at as int, 0);
    }
}

/// The times that are fired by turn after turn of the worker at time `now`, in order.
pub open spec fn fired<V>(active: Map<u128, V>, now: u128) -> Seq<u128>
    decreases active.dom().len(),
    when active.dom().finite()
{
    match due_first(active, now) {
        Some(k) => seq![k] + fired(active.remove(k), now),
        None => Seq::empty(),
    }
}

/// Among the times of finitely many wakeups there is an earliest one.
pub(crate) proof fn lemma_earliest_exists<V>(active: Map<u128, V>, some: u128)
    requires
        active.dom().finite(),
        active.contains_key(some),
    ensures
        exists|k: u128| #[trigger] is_earliest(active, k) && k <= some,
    decreases some,
{
    if exists|k: u128| active.contains_key(k) && k < some {
        let k = choose|k: u128| active.contains_key(k) && k < some;
        lemma_earliest_exists(active, k);
    } else {
        assert(is_earliest(active, some));
    }
}

/// Taking turns at one time fires every wakeup that is due then, each of them once and
/// in the order of their times, and no other.
pub proof fn law_fires_all_due_in_order<V>(active: Map<u128, V>, now: u128)
    requires
        active.dom().finite(),
    ensures
        forall|k: u128| #[trigger]
            fired(active, now).contains(k) <==> active.contains_key(k) && k <= now,
        forall|i: int, j: int|
            0 <= i < j < fired(active, now).len() ==> fired(active, now)[i] < fired(active, now)[j],
    decreases active.dom().len(),
{
    let all = fired(active, now);
    if exists|k: u128| #[trigger] is_earliest(active, k) && k <= now {
        let first = choose|k: u128| #[trigger] is_earliest(active, k) && k <= now;
        let rest = fired(active.remove(first), now);
        assert(active.remove(first).dom() =~= active.dom().remove(first));
        law_fires_all_due_in_order(active.remove(first), now);
        assert(all == seq![first] + rest);
        assert forall|k: u128| #[trigger] all.contains(k) <==> active.contains_key(k) && k <= now by {
            if k == first {
                assert(all[0] == first);
            } else {
                assert(rest.contains(k) ==> all.contains(k)) by {
                    if rest.contains(k) {
                        let i = choose|i: int| 0 <= i < rest.len() && rest[i] == k;
                        assert(all[i + 1] == k);
                    }
                }
                assert(all.contains(k) ==> rest.contains(k)) by {
                    if all.contains(k) {
                        let i = choose|i: int| 0 <= i < all.len() && all[i] == k;
                        assert(rest[i - 1] == k);
                    }
                }
                assert(rest.contains(k) <==> active.remove(first).contains_key(k) && k <= now);
            }
        }
        assert forall|i: int, j: int| 0 <= i < j < all.len() implies all[i] < all[j] by {
            assert(all[j] == rest[j - 1]);
            if i == 0 {
                assert(rest.contains(rest[j - 1]));
            } else {
                assert(all[i] == rest[i - 1]);
            }
        }
    } else {
        assert forall|k: u128| active.contains_key(k) implies k > now by {
            if k <= now {
                lemma_earliest_exists(active, k);
            }
        }
    }
}

} // verus!
