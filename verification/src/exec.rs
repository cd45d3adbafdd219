//! An executor: tasks by number, and which of them are to be polled.
//!
//! The executor does not poll. Its `run` is a machine: it takes what happened last and
//! says what the executor's thread is to do next.

use crate::task::{Async, Wake, Waker};
use std::collections::{HashMap, HashSet};
use std::sync::Arc;
use vstd::prelude::*;
use vstd::std_specs::iter::IteratorSpec;

verus! {

broadcast use vstd::std_specs::hash::group_hash_axioms;

/// Wakes the task with this number.
#[derive(Copy, Clone, Debug, PartialEq, Eq, Structural)]
pub struct ToyWake {
    // The ID for the task we want to wake up.
    pub id: usize,
}

impl<K> Wake<ToyExec<K>> for ToyWake {
    /// The task becomes ready, and the executor's thread is to be woken.
    open spec fn wakes(&self, before: ToyExec<K>, after: ToyExec<K>) -> bool {
        after@ == before@.woken(self.id)
    }

    fn wake(&self, target: &mut ToyExec<K>)
        ensures
            final(target)@.ready == old(target)@.ready.insert(self.id),
            final(target)@.unpark,
            final(target)@.tasks == old(target)@.tasks,
            final(target)@.next_id == old(target)@.next_id,
    {
        target.state.wake_task(self.id);
    }
}

/// A task and the handle that wakes it.
pub struct TaskEntry<K> {
    pub task: K,
    pub wake: Waker<ToyWake>,
}

/// the internal executor state
pub struct ExecState<K> {
    // The next available task ID.
    next_id: usize,
    // The complete list of tasks, keyed by ID.
    tasks: HashMap<usize, TaskEntry<K>>,
    // The set of IDs for ready-to-run tasks.
    ready: HashSet<usize>,
    // The OS thread running the executor is to be unparked.
    unpark: bool,
}

/// The state of an executor.
#[verifier::ext_equal]
pub ghost struct ExecView<K> {
    pub next_id: usize,
    pub tasks: Map<usize, TaskEntry<K>>,
    pub ready: Set<usize>,
    pub unpark: bool,
}

impl<K> ExecView<K> {
    /// Numbers are handed out in order, and every task's handle wakes that task.
    pub open spec fn wf(self) -> bool {
        forall|id: usize| #[trigger]
            self.tasks.contains_key(id) ==> id < self.next_id && self.tasks[id].wake.inner().id
                == id
    }

    /// A state without tasks.
    pub open spec fn new() -> ExecView<K> {
        ExecView {
            next_id: 0,
            tasks: Map::empty(),
            ready: Set::empty(),
            unpark: false,
        }
    }

    /// After a wakeup of the task `id`.
    pub open spec fn woken(self, id: usize) -> ExecView<K> {
        ExecView { ready: self.ready.insert(id), unpark: true, ..self }
    }

    /// After a task was added: it takes the next number and is ready at once.
    pub open spec fn spawned(self, entry: TaskEntry<K>) -> ExecView<K> {
        ExecView {
            next_id: (self.next_id + 1) as usize,
            tasks: self.tasks.insert(self.next_id, entry),
            ..self
        }.woken(self.next_id)
    }

    /// After the ready tasks were taken out to be polled.
    pub open spec fn drained(self) -> ExecView<K> {
        ExecView { ready: Set::empty(), ..self }
    }

    /// After the task `id`, which had been taken out, was polled with `result`: one that
    /// has not completed is put back, and is ready.
    pub open spec fn settled(self, id: usize, entry: TaskEntry<K>, result: Async<()>) -> ExecView<
        K,
    > {
        if result is Pending {
            ExecView {
                tasks: self.tasks.insert(id, entry),
                ready: self.ready.insert(id),
                ..self
            }
        } else {
            self
        }
    }
}

impl<K> View for ExecState<K> {
    type V = ExecView<K>;

    closed spec fn view(&self) -> ExecView<K> {
        ExecView {
            next_id: self.next_id,
            tasks: self.tasks@,
            ready: self.ready@,
            unpark: self.unpark,
        }
    }
}

impl<K> ExecState<K> {
    /// Marks a task as ready to run.
    pub fn wake_task(&mut self, id: usize)
        ensures
            final(self)@ == old(self)@.woken(id),
            final(self)@.ready == old(self)@.ready.insert(id),
            final(self)@.unpark,
            final(self)@.tasks == old(self)@.tasks,
            final(self)@.next_id == old(self)@.next_id,
    {
        self.ready.insert(id);
        // *after* inserting in the ready set, ensure the executor OS
        // thread is woken up if it's not already running.
        self.unpark = true;
    }
}

/// What happened to the executor's thread.
pub enum RunEvent<K> {
    /// It starts to run, or was unparked.
    Resumed,
    /// It polled the task that it was given.
    Polled { id: usize, entry: TaskEntry<K>, result: Async<()> },
}

/// What the executor's thread is to do.
pub enum RunAction<K> {
    /// Poll the task with number `id`, which is out of the table until the poll is reported.
    Poll { id: usize, entry: TaskEntry<K> },
    /// Park until there is more to do.
    Park,
}

/// The tasks that were ready when a pass over them began and have not had their turn.
pub struct Pass {
    ids: Vec<usize>,
}

impl View for Pass {
    type V = Seq<usize>;

    closed spec fn view(&self) -> Seq<usize> {
        self.ids@
    }
}

impl Pass {
    /// A pass that is over.
    pub fn new() -> (r: Pass)
        ensures
            r@ == Seq::<usize>::empty(),
    {
        Pass { ids: Vec::new() }
    }
}

/// What is left of an executor and of a pass over `ids`, which is taken from the end,
/// and what its thread is to do: poll the first task that is still in the table, or
/// park when there is none.
pub open spec fn advance<K>(state: ExecView<K>, ids: Seq<usize>) -> (
    ExecView<K>,
    Seq<usize>,
    RunAction<K>,
)
    decreases ids.len(),
{
    if ids.len() == 0 {
        (state, ids, RunAction::Park)
    } else if state.tasks.contains_key(ids.last()) {
        (
            ExecView { tasks: state.tasks.remove(ids.last()), ..state },
            ids.drop_last(),
            RunAction::Poll { id: ids.last(), entry: state.tasks[ids.last()] },
        )
    } else {
        advance(state, ids.drop_last())
    }
}

/// `ids` lists the set `ready`, each once.
pub open spec fn lists(ids: Seq<usize>, ready: Set<usize>) -> bool {
    ids.no_duplicates() && ids.to_set() == ready
}

/// An executor.
pub struct ToyExec<K> {
    state: ExecState<K>,
}

impl<K> View for ToyExec<K> {
    type V = ExecView<K>;

    closed spec fn view(&self) -> ExecView<K> {
        self.state@
    }
}

impl<K> ToyExec<K> {
    pub fn new() -> (r: ToyExec<K>)
        ensures
            r@ == ExecView::<K>::new(),
            r@.wf(),
            r@.next_id == 0,
            r@.tasks == Map::<usize, TaskEntry<K>>::empty(),
            r@.ready == Set::<usize>::empty(),
            !r@.unpark,
    {
        let r = ToyExec {
            state: ExecState {
                next_id: 0,
                tasks: HashMap::new(),
                ready: HashSet::new(),
                unpark: false,
            },
        };
        assert(r@ =~= ExecView::<K>::new());
        r
    }

    /// Whether there is a number left for another task.
    pub fn can_spawn(&self) -> (r: bool)
        ensures
            r == (self@.next_id < usize::MAX),
    {
        self.state.next_id < usize::MAX
    }

    /// Adds a task. It gets a handle that wakes it, and is ready to run at once.
    pub fn spawn(&mut self, task: K)
        requires
            old(self)@.next_id < usize::MAX,
        ensures
            final(self)@ == old(self)@.spawned(final(self)@.tasks[old(self)@.next_id]),
            final(self)@.tasks[old(self)@.next_id].task == task,
            final(self)@.tasks[old(self)@.next_id].wake.inner().id == old(self)@.next_id,
            final(self)@.next_id == old(self)@.next_id + 1,
            forall|k: usize| #[trigger]
                final(self)@.tasks.contains_key(k) <==> old(self)@.tasks.contains_key(k) || k
                    == old(self)@.next_id,
            forall|k: usize| #[trigger]
                final(self)@.tasks.contains_key(k) && k != old(self)@.next_id
                    ==> final(self)@.tasks[k] == old(self)@.tasks[k],
            final(self)@.ready == old(self)@.ready.insert(old(self)@.next_id),
            final(self)@.unpark,
            old(self)@.wf() ==> final(self)@.wf(),
    {
        let id: usize = self.state.next_id;
        self.state.next_id += 1;
        let wake = ToyWake { id };
        let entry = TaskEntry { wake: Waker::from(Arc::new(wake)), task };
        self.state.tasks.insert(id, entry);
        // A newly-added task is considered immediately ready to run,
        // which will cause a subsequent call to `park` to immediately
        // return.
        self.state.wake_task(id);
        assert(self@ =~= old(self)@.spawned(entry));
    }

    /// Whether the executor's thread is to be unparked; the next call answers for what
    /// happens from now on.
    pub fn take_unpark(&mut self) -> (r: bool)
        ensures
            r == old(self)@.unpark,
            !final(self)@.unpark,
            final(self)@.tasks == old(self)@.tasks,
            final(self)@.ready == old(self)@.ready,
            final(self)@.next_id == old(self)@.next_id,
            final(self)@ == (ExecView { unpark: false, ..old(self)@ }),
    {
        let r = self.state.unpark;
        self.state.unpark = false;
        r
    }

    /// Takes the *entire* set of ready-to-run task IDs, in no particular order.
    fn take_ready(&mut self) -> (r: Vec<usize>)
        ensures
            lists(r@, old(self)@.ready),
            final(self)@ == old(self)@.drained(),
            r@.no_duplicates(),
            forall|k: usize| #[trigger] r@.contains(k) <==> old(self)@.ready.contains(k),
            final(self)@.ready == Set::<usize>::empty(),
            final(self)@.tasks == old(self)@.tasks,
            final(self)@.next_id == old(self)@.next_id,
            final(self)@.unpark == old(self)@.unpark,
    {
        let mut ready: HashSet<usize> = HashSet::new();
        std::mem::swap(&mut ready, &mut self.state.ready);
        let mut ids: Vec<usize> = Vec::new();
        for id in it: ready.iter()
            invariant
                ids@ == it.seq().unref().take(it.index()),
        {
            ids.push(*id);
        }
        assert(ids@ =~= vstd::std_specs::hash::spec_hash_keys_iter(&ready).remaining().unref());
        assert(self@ =~= old(self)@.drained());
        proof {
            law_listed_are_the_ready(ids@, old(self)@.ready);
        }
        ids
    }

    /// One step of the executor's thread. A pass takes the tasks that are ready when
    /// the thread resumes, and gives each that is still in the table out to be polled;
    /// then the thread parks.
    pub fn run(&mut self, pass: &mut Pass, event: RunEvent<K>) -> (r: RunAction<K>)
        requires
            event is Resumed ==> old(pass)@.len() == 0,
        ensures
            match event {
                RunEvent::Resumed => exists|ids: Seq<usize>|
                    {
                        &&& lists(ids, old(self)@.ready)
                        &&& (final(self)@, final(pass)@, r) == #[trigger] advance(
                            old(self)@.drained(),
                            ids,
                        )
                    },
                RunEvent::Polled { id, entry, result } => (final(self)@, final(pass)@, r)
                    == advance(old(self)@.settled(id, entry, result), old(pass)@),
            },
            final(self)@.next_id == old(self)@.next_id,
            final(self)@.unpark == old(self)@.unpark,
            match event {
                RunEvent::Resumed => {
                    &&& final(self)@.ready == Set::<usize>::empty()
                    &&& match r {
                        RunAction::Poll { id, entry } => {
                            &&& old(self)@.ready.contains(id)
                            &&& old(self)@.tasks.contains_key(id)
                            &&& entry == old(self)@.tasks[id]
                            &&& final(self)@.tasks == old(self)@.tasks.remove(id)
                            &&& final(pass)@.no_duplicates()
                            &&& forall|k: usize| #[trigger]
                                final(pass)@.contains(k) ==> old(self)@.ready.contains(k) && k != id
                            &&& forall|k: usize| #[trigger]
                                old(self)@.ready.contains(k) && old(self)@.tasks.contains_key(k)
                                    && k != id ==> final(pass)@.contains(k)
                        },
                        RunAction::Park => {
                            &&& final(pass)@.len() == 0
                            &&& final(self)@.tasks == old(self)@.tasks
                            &&& forall|k: usize| #[trigger]
                                old(self)@.ready.contains(k) ==> !old(self)@.tasks.contains_key(k)
                        },
                    }
                },
                RunEvent::Polled { id, entry, result } => {
                    let back = match result {
                        Async::Pending => old(self)@.tasks.insert(id, entry),
                        Async::Ready(_) => old(self)@.tasks,
                    };
                    &&& forall|k: usize| #[trigger]
                        final(self)@.ready.contains(k) <==> old(self)@.ready.contains(k) || (k == id
                            && result is Pending)
                    &&& match r {
                        RunAction::Poll { id: next, entry: task } => {
                            let left = final(pass)@.len();
                            &&& left < old(pass)@.len()
                            &&& final(pass)@ == old(pass)@.take(left as int)
                            &&& next == old(pass)@[left as int]
                            &&& back.contains_key(next)
                            &&& task == back[next]
                            &&& final(self)@.tasks == back.remove(next)
                            &&& forall|i: int|
                                left < i < old(pass)@.len() ==> !back.contains_key(
                                    #[trigger] old(pass)@[i],
                                )
                        },
                        RunAction::Park => {
                            &&& final(pass)@.len() == 0
                            &&& final(self)@.tasks == back
                            &&& forall|i: int|
                                0 <= i < old(pass)@.len() ==> !back.contains_key(
                                    #[trigger] old(pass)@[i],
                                )
                        },
                    }
                },
            },
    {
        match event {
            RunEvent::Resumed => {
                pass.ids = self.take_ready();
            },
            RunEvent::Polled { id, entry, result } => {
                if let Async::Pending = result {
                    // The task hasn't completed, so put it back in the table.
                    self.state.tasks.insert(id, entry);
                    self.state.ready.insert(id);
                    assert(self@ =~= old(self)@.settled(id, entry, result));
                }
            },
        }
        proof {
            lemma_advance(self@, pass@);
            if event is Resumed {
                lemma_given_out(self@, pass@);
                assert forall|k: usize| #[trigger] old(self)@.ready.contains(k) implies exists|i: int|
                    0 <= i < pass@.len() && pass@[i] == k by {
                    assert(pass@.contains(k));
                }
            }
        }
        self.next_poll(pass)
    }

    /// Takes out the next task of a pass that is still in the table.
    fn next_poll(&mut self, pass: &mut Pass) -> (r: RunAction<K>)
        ensures
            (final(self)@, final(pass)@, r) == advance(old(self)@, old(pass)@),
    {
        while pass.ids.len() > 0
            invariant
                self@ == old(self)@,
                advance(self@, pass@) == advance(old(self)@, old(pass)@),
            decreases pass@.len(),
        {
            let ghost ids = pass@;
            let id: usize = pass.ids.pop().unwrap();
            assert(id == ids.last() && pass@ =~= ids.drop_last());
            // We take *full ownership* of the task; if it completes, it will
            // be dropped.
            if let Some(entry) = self.state.tasks.remove(&id) {
                assert(self@ =~= (ExecView { tasks: old(self)@.tasks.remove(id), ..old(self)@ }));
                return RunAction::Poll { id, entry };
            }
            assert(self@ =~= old(self)@);
        }
        RunAction::Park
    }
}

/// A list of the ready tasks has each of them once and no other.
pub proof fn law_listed_are_the_ready(ids: Seq<usize>, ready: Set<usize>)
    ensures
        lists(ids, ready) <==> {
            &&& forall|i: int, j: int|
                0 <= i < j < ids.len() ==> #[trigger] ids[i] != #[trigger] ids[j]
            &&& forall|k: usize| #[trigger] ready.contains(k) <==> ids.contains(k)
        },
        lists(ids, ready) ==> forall|k: usize| #[trigger]
            ids.contains(k) <==> ready.contains(k),
{
    assert forall|k: usize| #[trigger] ids.to_set().contains(k) <==> ids.contains(k) by {}
    if lists(ids, ready) {
        assert forall|k: usize| #[trigger] ready.contains(k) <==> ids.contains(k) by {
            assert(ids.to_set().contains(k) <==> ids.contains(k));
        }
    }
    if forall|k: usize| #[trigger] ready.contains(k) <==> ids.contains(k) {
        assert(ids.to_set() =~= ready);
    }
}

/// An executor starts without tasks, with nothing ready and no thread to unpark, and hands
/// out numbers from zero.
pub proof fn law_starts_empty<K>()
    ensures
        ExecView::<K>::new().next_id == 0,
        forall|k: usize| !#[trigger] ExecView::<K>::new().tasks.contains_key(k),
        forall|k: usize| !#[trigger] ExecView::<K>::new().ready.contains(k),
        !ExecView::<K>::new().unpark,
{
}

/// A state is well formed exactly when every task in it has a number that was handed out and
/// a handle that wakes that number.
pub proof fn law_well_formed_states<K>(state: ExecView<K>)
    ensures
        state.wf() <==> forall|id: usize| #[trigger]
            state.tasks.contains_key(id) ==> id < state.next_id
                && state.tasks[id].wake.inner().id == id,
{
}

/// A wakeup of a task, whichever it is and whether or not it is in the table, adds its number
/// to the ready ones, has the executor's thread unparked, and changes nothing else.
pub proof fn law_wakeup_changes_no_task<K>(state: ExecView<K>, id: usize)
    ensures
        forall|k: usize| #[trigger]
            state.woken(id).ready.contains(k) <==> state.ready.contains(k) || k == id,
        state.woken(id).unpark,
        state.woken(id).tasks == state.tasks,
        state.woken(id).next_id == state.next_id,
{
}

/// Whatever handle wakes: of any executor, it makes the task of its own number ready, keeps
/// every other ready task ready, has the thread unparked, and leaves the table and the numbers
/// alone.
pub proof fn law_handle_wakes_its_task<K>(wake: ToyWake, before: ToyExec<K>, after: ToyExec<K>)
    requires
        wake.wakes(before, after),
    ensures
        after@.ready.contains(wake.id),
        forall|k: usize| k != wake.id ==> (#[trigger] after@.ready.contains(k)
            <==> before@.ready.contains(k)),
        after@.unpark,
        after@.tasks == before@.tasks,
        after@.next_id == before@.next_id,
{
}

/// A task that is added takes the next number, is in the table and ready under it, and has the
/// thread unparked; every other task, and what else is ready, stays.
pub proof fn law_spawn_adds_one_task<K>(state: ExecView<K>, entry: TaskEntry<K>)
    requires
        state.next_id < usize::MAX,
    ensures
        state.spawned(entry).next_id == state.next_id + 1,
        state.spawned(entry).tasks.contains_key(state.next_id),
        state.spawned(entry).tasks[state.next_id] == entry,
        forall|k: usize|
            k != state.next_id ==> (#[trigger] state.spawned(entry).tasks.contains_key(k)
                <==> state.tasks.contains_key(k)),
        forall|k: usize| #[trigger]
            state.tasks.contains_key(k) && k != state.next_id ==> state.spawned(entry).tasks[k]
                == state.tasks[k],
        forall|k: usize| #[trigger]
            state.spawned(entry).ready.contains(k) <==> state.ready.contains(k) || k
                == state.next_id,
        state.spawned(entry).unpark,
{
}

/// The start of a pass takes the ready numbers and nothing else: whatever the state, and
/// whether or not its thread is to be unparked, no number is ready then, and the table, the
/// numbers and the unparking are as they were.
pub proof fn law_start_of_a_pass_takes_only_what_is_ready<K>(state: ExecView<K>)
    ensures
        forall|k: usize| !#[trigger] state.drained().ready.contains(k),
        state.drained().tasks == state.tasks,
        state.drained().next_id == state.next_id,
        state.drained().unpark == state.unpark,
{
}

/// The end of a poll puts a task that has not completed back, under its number and as the poll
/// left it, and makes it ready; it drops one that has completed. It changes nothing else.
pub proof fn law_end_of_a_poll<K>(
    state: ExecView<K>,
    id: usize,
    entry: TaskEntry<K>,
    result: Async<()>,
)
    ensures
        result is Ready ==> state.settled(id, entry, result).tasks == state.tasks,
        result is Ready ==> state.settled(id, entry, result).ready == state.ready,
        result is Pending ==> state.settled(id, entry, result).tasks.contains_key(id),
        result is Pending ==> state.settled(id, entry, result).tasks[id] == entry,
        result is Pending ==> state.settled(id, entry, result).ready.contains(id),
        forall|k: usize|
            k != id ==> (#[trigger] state.settled(id, entry, result).tasks.contains_key(k)
                <==> state.tasks.contains_key(k)),
        forall|k: usize| #[trigger]
            state.tasks.contains_key(k) && k != id ==> state.settled(id, entry, result).tasks[k]
                == state.tasks[k],
        forall|k: usize|
            k != id ==> (#[trigger] state.settled(id, entry, result).ready.contains(k)
                <==> state.ready.contains(k)),
        state.settled(id, entry, result).next_id == state.next_id,
        state.settled(id, entry, result).unpark == state.unpark,
{
}

/// What `advance` leaves alone, and what it takes.
pub proof fn lemma_advance<K>(state: ExecView<K>, ids: Seq<usize>)
    ensures
        ({
            let (after, rest, action) = advance(state, ids);
            &&& after.next_id == state.next_id
            &&& after.ready == state.ready
            &&& after.unpark == state.unpark
            &&& rest.len() <= ids.len()
            &&& rest == ids.take(rest.len() as int)
            &&& match action {
                RunAction::Poll { id, entry } => {
                    &&& rest.len() < ids.len()
                    &&& id == ids[rest.len() as int]
                    &&& state.tasks.contains_key(id)
                    &&& entry == state.tasks[id]
                    &&& after.tasks == state.tasks.remove(id)
                    &&& forall|i: int|
                        rest.len() < i < ids.len() ==> !state.tasks.contains_key(#[trigger] ids[i])
                },
                RunAction::Park => {
                    &&& rest.len() == 0
                    &&& after.tasks == state.tasks
                    &&& forall|i: int|
                        0 <= i < ids.len() ==> !state.tasks.contains_key(#[trigger] ids[i])
                },
            }
        }),
    decreases ids.len(),
{
    if ids.len() > 0 {
        if state.tasks.contains_key(ids.last()) {
            assert(ids.drop_last() =~= ids.take(ids.len() - 1));
        } else {
            lemma_advance(state, ids.drop_last());
            let rest = advance(state, ids.drop_last()).1;
            assert(ids.drop_last().take(rest.len() as int) =~= ids.take(rest.len() as int));
            assert forall|i: int|
                rest.len() <= i < ids.len() - 1 && !state.tasks.contains_key(
                    ids.drop_last()[i],
                ) implies !state.tasks.contains_key(#[trigger] ids[i]) by {
                assert(ids[i] == ids.drop_last()[i]);
            }
        }
    } else {
        assert(ids =~= ids.take(0));
    }
}

/// A task that is given out to be polled is one of `ids` and comes no more in the rest of
/// them, and the rest has every other one of `ids` that is in the table.
proof fn lemma_given_out<K>(state: ExecView<K>, ids: Seq<usize>)
    requires
        ids.no_duplicates(),
    ensures
        ({
            let rest = advance(state, ids).1;
            advance(state, ids).2 matches RunAction::Poll { id, .. } ==> {
                &&& rest.no_duplicates()
                &&& ids.contains(id)
                &&& !rest.contains(id)
                &&& forall|k: usize| #[trigger] rest.contains(k) ==> ids.contains(k)
                &&& forall|k: usize| #[trigger]
                    ids.contains(k) && state.tasks.contains_key(k) && k != id ==> rest.contains(k)
            }
        }),
{
    lemma_advance(state, ids);
    let rest = advance(state, ids).1;
    let n = rest.len() as int;
    if let RunAction::Poll { id, .. } = advance(state, ids).2 {
        assert(ids[n] == id);
        assert forall|k: usize| #[trigger] rest.contains(k) implies ids.contains(k) && k != id by {
            let i = choose|i: int| 0 <= i < rest.len() && rest[i] == k;
            assert(ids[i] == k);
        }
        assert forall|k: usize| #[trigger]
            ids.contains(k) && state.tasks.contains_key(k) && k != id implies rest.contains(k) by {
            let i = choose|i: int| 0 <= i < ids.len() && ids[i] == k;
            assert(rest[i] == k);
        }
    }
}

/// Numbers stay in order and handles stay with their tasks, whatever the executor does;
/// and a task that is given out to be polled is one of the pass, with the handle that
/// wakes it, and is in the table no longer.
pub proof fn law_well_formed_throughout<K>(
    state: ExecView<K>,
    ids: Seq<usize>,
    id: usize,
    entry: TaskEntry<K>,
    result: Async<()>,
)
    requires
        state.wf(),
    ensures
        state.woken(id).wf(),
        state.drained().wf(),
        state.next_id < usize::MAX && entry.wake.inner().id == state.next_id ==> state.spawned(
            entry,
        ).wf(),
        id < state.next_id && entry.wake.inner().id == id ==> state.settled(id, entry, result).wf(),
        advance(state, ids).0.wf(),
        advance(state, ids).2 matches RunAction::Poll { id: next, entry: task } ==> {
            &&& ids.contains(next)
            &&& next < state.next_id
            &&& task == state.tasks[next]
            &&& task.wake.inner().id == next
            &&& !advance(state, ids).0.tasks.contains_key(next)
        },
{
    lemma_advance(state, ids);
}

/// A new task gets a number that no task has, and changes no other task.
pub proof fn law_spawn_takes_a_fresh_number<K>(state: ExecView<K>, entry: TaskEntry<K>)
    requires
        state.wf(),
        state.next_id < usize::MAX,
    ensures
        !state.tasks.contains_key(state.next_id),
        state.spawned(entry).tasks.contains_key(state.next_id),
        state.spawned(entry).ready.contains(state.next_id),
        forall|id: usize| #[trigger]
            state.tasks.contains_key(id) ==> state.spawned(entry).tasks.contains_key(id)
                && state.spawned(entry).tasks[id] == state.tasks[id],
{
}

/// No wakeup is lost: whoever adds a task or wakes one leaves it ready and the
/// executor's thread to be unparked, and no step of a pass takes either back. Only the
/// start of the next pass takes the ready tasks, all of them.
pub proof fn law_wakeups_are_kept<K>(
    state: ExecView<K>,
    ids: Seq<usize>,
    woken: usize,
    id: usize,
    entry: TaskEntry<K>,
    result: Async<()>,
)
    ensures
        state.woken(woken).ready.contains(woken),
        state.woken(woken).unpark,
        state.spawned(entry).ready.contains(state.next_id),
        state.spawned(entry).unpark,
        state.ready.subset_of(state.woken(woken).ready),
        state.ready.subset_of(state.spawned(entry).ready),
        ({
            let after = advance(state.settled(id, entry, result), ids).0;
            &&& state.ready.subset_of(after.ready)
            &&& after.unpark == state.unpark
        }),
        state.drained().unpark == state.unpark,
{
    lemma_advance(state.settled(id, entry, result), ids);
}

/// A task that has completed is gone for good: its number is never given to another
/// task, and a wakeup of it, which may still come, has nothing polled.
pub proof fn law_completed_is_gone<K>(
    state: ExecView<K>,
    gone: usize,
    ids: Seq<usize>,
    id: usize,
    entry: TaskEntry<K>,
    result: Async<()>,
)
    requires
        gone < state.next_id,
        !state.tasks.contains_key(gone),
    ensures
        ({
            let absent = |s: ExecView<K>| gone < s.next_id && !s.tasks.contains_key(gone);
            &&& absent(state.woken(id))
            &&& state.next_id < usize::MAX ==> absent(state.spawned(entry))
            &&& absent(state.drained())
            &&& id != gone ==> absent(state.settled(id, entry, result))
            &&& result is Ready ==> absent(state.settled(gone, entry, result))
            &&& absent(advance(state, ids).0)
        }),
        advance(state, ids).2 matches RunAction::Poll { id: next, .. } ==> next != gone,
{
    lemma_advance(state, ids);
}

/// A thread that resumes parks again at once exactly when no ready task is in the table.
pub proof fn law_parks_when_nothing_is_ready<K>(state: ExecView<K>, ids: Seq<usize>)
    requires
        lists(ids, state.ready),
    ensures
        advance(state.drained(), ids).2 is Park <==> state.ready.disjoint(state.tasks.dom()),
{
    lemma_advance(state.drained(), ids);
    assert forall|id: usize| state.ready.contains(id) implies exists|i: int|
        0 <= i < ids.len() && ids[i] == id by {
        assert(ids.to_set().contains(id));
    }
    if let RunAction::Poll { id, .. } = advance(state.drained(), ids).2 {
        assert(ids.to_set().contains(id));
    }
}

/// The state after a whole pass over `ids`, and the tasks that were polled in turn.
/// `poll` says what a poll makes of a task. Nothing else happens meanwhile.
pub open spec fn pass_over<K>(
    state: ExecView<K>,
    ids: Seq<usize>,
    poll: spec_fn(usize, TaskEntry<K>) -> (TaskEntry<K>, Async<()>),
) -> (ExecView<K>, Seq<usize>)
    decreases ids.len(),
{
    proof {
        lemma_advance(state, ids);
    }
    let (given, rest, action) = advance(state, ids);
    match action {
        RunAction::Park => (given, Seq::empty()),
        RunAction::Poll { id, entry } => {
            let (polled, result) = poll(id, entry);
            let (after, others) = pass_over(given.settled(id, polled, result), rest, poll);
            (after, seq![id] + others)
        },
    }
}

/// A pass polls each task that was ready when it began and is in the table, and no
/// other, and none twice. A task that completes is dropped, one that does not is back
/// in the table and ready, and every other task is as it was.
pub proof fn law_pass_polls_each_ready_task_once<K>(
    state: ExecView<K>,
    ids: Seq<usize>,
    poll: spec_fn(usize, TaskEntry<K>) -> (TaskEntry<K>, Async<()>),
)
    requires
        ids.no_duplicates(),
    ensures
        ({
            let (after, polled) = pass_over(state, ids, poll);
            &&& polled.no_duplicates()
            &&& forall|id: usize| #[trigger]
                polled.contains(id) <==> ids.contains(id) && state.tasks.contains_key(id)
            &&& forall|id: usize| #[trigger]
                after.tasks.contains_key(id) <==> state.tasks.contains_key(id) && (polled.contains(
                    id,
                ) ==> poll(id, state.tasks[id]).1 is Pending)
            &&& forall|id: usize| #[trigger]
                after.tasks.contains_key(id) ==> after.tasks[id] == if polled.contains(id) {
                    poll(id, state.tasks[id]).0
                } else {
                    state.tasks[id]
                }
            &&& forall|id: usize| #[trigger]
                after.ready.contains(id) <==> state.ready.contains(id) || (polled.contains(id)
                    && poll(id, state.tasks[id]).1 is Pending)
            &&& after.next_id == state.next_id
            &&& after.unpark == state.unpark
        }),
    decreases ids.len(),
{
    lemma_advance(state, ids);
    let (given, rest, action) = advance(state, ids);
    match action {
        RunAction::Park => {
            assert(forall|id: usize| ids.contains(id) ==> !state.tasks.contains_key(id));
        },
        RunAction::Poll { id, entry } => {
            let (polled, result) = poll(id, entry);
            let next = given.settled(id, polled, result);
            let (after, others) = pass_over(next, rest, poll);
            lemma_given_out(state, ids);
            law_pass_polls_each_ready_task_once(next, rest, poll);
            assert(!others.contains(id));
            lemma_prepend(id, others);
        },
    }
}

/// A pass that starts when the thread resumes, from any state and in any order of the ready
/// tasks: it polls exactly the tasks that are ready and in the table of that state, each as it
/// is there and once. A task that is not polled is in the table as it was; one that completes
/// is gone; one that does not is as its poll left it. What is ready in the end is what was
/// polled and goes on.
pub proof fn law_resumed_pass<K>(
    state: ExecView<K>,
    ids: Seq<usize>,
    poll: spec_fn(usize, TaskEntry<K>) -> (TaskEntry<K>, Async<()>),
)
    requires
        lists(ids, state.ready),
    ensures
        ({
            let (after, polled) = pass_over(state.drained(), ids, poll);
            &&& polled.no_duplicates()
            &&& forall|id: usize| #[trigger]
                polled.contains(id) <==> state.ready.contains(id) && state.tasks.contains_key(id)
            &&& forall|id: usize| #[trigger]
                state.tasks.contains_key(id) && !state.ready.contains(id)
                    ==> after.tasks.contains_key(id) && after.tasks[id] == state.tasks[id]
            &&& forall|id: usize| #[trigger]
                state.tasks.contains_key(id) && state.ready.contains(id) ==> if poll(
                    id,
                    state.tasks[id],
                ).1 is Pending {
                    after.tasks.contains_key(id) && after.tasks[id] == poll(id, state.tasks[id]).0
                } else {
                    !after.tasks.contains_key(id)
                }
            &&& forall|id: usize| #[trigger]
                after.tasks.contains_key(id) ==> state.tasks.contains_key(id)
            &&& forall|id: usize| #[trigger]
                after.ready.contains(id) <==> state.ready.contains(id) && state.tasks.contains_key(
                    id,
                ) && poll(id, state.tasks[id]).1 is Pending
            &&& after.next_id == state.next_id
            &&& after.unpark == state.unpark
        }),
{
    law_listed_are_the_ready(ids, state.ready);
    law_pass_polls_each_ready_task_once(state.drained(), ids, poll);
    let (after, polled) = pass_over(state.drained(), ids, poll);
    assert forall|id: usize| #[trigger] polled.contains(id) <==> state.ready.contains(id)
        && state.tasks.contains_key(id) by {
        assert(ids.contains(id) <==> state.ready.contains(id));
        assert(state.drained().tasks.contains_key(id) <==> state.tasks.contains_key(id));
    }
    assert forall|id: usize| #[trigger] after.tasks.contains_key(id) <==> state.tasks.contains_key(
        id,
    ) && (polled.contains(id) ==> poll(id, state.tasks[id]).1 is Pending) by {}
    assert forall|id: usize| #[trigger] after.ready.contains(id) <==> state.ready.contains(id)
        && state.tasks.contains_key(id) && poll(id, state.tasks[id]).1 is Pending by {
        assert(polled.contains(id) <==> state.ready.contains(id) && state.tasks.contains_key(id));
    }
}

/// What other threads, and tasks while they are polled, may make of an executor: they add
/// tasks and wake tasks.
pub open spec fn goes_on<K>(before: ExecView<K>, after: ExecView<K>) -> bool {
    &&& before.next_id <= after.next_id
    &&& before.ready.subset_of(after.ready)
    &&& before.unpark ==> after.unpark
    &&& forall|id: usize| #[trigger]
        before.tasks.contains_key(id) ==> after.tasks.contains_key(id) && after.tasks[id]
            == before.tasks[id]
    &&& forall|id: usize| #[trigger]
        after.tasks.contains_key(id) ==> before.tasks.contains_key(id) || before.next_id <= id
            < after.next_id
}

/// Any number of wakeups and additions of tasks is such a change.
pub proof fn law_wakeups_and_spawns_go_on<K>(
    before: ExecView<K>,
    between: ExecView<K>,
    id: usize,
    entry: TaskEntry<K>,
)
    requires
        before.wf(),
        goes_on(before, between),
    ensures
        goes_on(before, before),
        goes_on(before, between.woken(id)),
        between.next_id < usize::MAX ==> goes_on(before, between.spawned(entry)),
{
    assert(forall|k: usize| #[trigger]
        between.tasks.contains_key(k) ==> k < between.next_id);
}

/// The state after a whole pass over `ids` while other threads go on, the tasks that were
/// polled in turn, and the results of the polls. `poll` says what happened until the end
/// of a poll, and what the poll made of the task.
pub open spec fn busy_pass<K>(
    state: ExecView<K>,
    ids: Seq<usize>,
    poll: spec_fn(ExecView<K>, usize, TaskEntry<K>) -> (ExecView<K>, TaskEntry<K>, Async<()>),
) -> (ExecView<K>, Seq<usize>, Map<usize, Async<()>>)
    decreases ids.len(),
{
    proof {
        lemma_advance(state, ids);
    }
    let (given, rest, action) = advance(state, ids);
    match action {
        RunAction::Park => (given, Seq::empty(), Map::empty()),
        RunAction::Poll { id, entry } => {
            let (meanwhile, polled, result) = poll(given, id, entry);
            let (after, others, results) = busy_pass(
                meanwhile.settled(id, polled, result),
                rest,
                poll,
            );
            (after, seq![id] + others, results.insert(id, result))
        },
    }
}

/// Whatever other threads add or wake during a pass, it polls each task that was ready
/// when it began and is in the table, and none twice. A task that completed is gone, one
/// that did not is in the table and ready, a task that was not polled is as it was, and no
/// wakeup is lost.
pub proof fn law_busy_pass_polls_each_ready_task_once<K>(
    state: ExecView<K>,
    ids: Seq<usize>,
    poll: spec_fn(ExecView<K>, usize, TaskEntry<K>) -> (ExecView<K>, TaskEntry<K>, Async<()>),
)
    requires
        ids.no_duplicates(),
        forall|id: usize| #[trigger] state.tasks.contains_key(id) ==> id < state.next_id,
        forall|s: ExecView<K>, id: usize, entry: TaskEntry<K>|
            goes_on(s, #[trigger] poll(s, id, entry).0),
    ensures
        ({
            let (after, polled, results) = busy_pass(state, ids, poll);
            &&& polled.no_duplicates()
            &&& forall|id: usize| #[trigger]
                ids.contains(id) && state.tasks.contains_key(id) ==> polled.contains(id)
            &&& forall|id: usize| #[trigger]
                polled.contains(id) ==> ids.contains(id) && (state.tasks.contains_key(id) || id
                    >= state.next_id)
            &&& forall|id: usize| #[trigger]
                polled.contains(id) ==> if results[id] is Pending {
                    after.tasks.contains_key(id) && after.ready.contains(id)
                } else {
                    !after.tasks.contains_key(id)
                }
            &&& forall|id: usize| #[trigger]
                state.tasks.contains_key(id) && !polled.contains(id) ==> after.tasks.contains_key(
                    id,
                ) && after.tasks[id] == state.tasks[id]
            &&& state.ready.subset_of(after.ready)
            &&& state.unpark ==> after.unpark
            &&& state.next_id <= after.next_id
            &&& forall|id: usize| #[trigger]
                after.tasks.contains_key(id) ==> id < after.next_id && (state.tasks.contains_key(id)
                    || state.next_id <= id)
        }),
    decreases ids.len(),
{
    lemma_advance(state, ids);
    let (given, rest, action) = advance(state, ids);
    match action {
        RunAction::Park => {
            assert(forall|id: usize| ids.contains(id) ==> !state.tasks.contains_key(id));
        },
        RunAction::Poll { id, entry } => {
            let (meanwhile, task, result) = poll(given, id, entry);
            assert(goes_on(given, poll(given, id, entry).0));
            let next = meanwhile.settled(id, task, result);
            let (after, others, results) = busy_pass(next, rest, poll);
            let all = seq![id] + others;
            lemma_given_out(state, ids);
            assert(!meanwhile.tasks.contains_key(id));
            law_busy_pass_polls_each_ready_task_once(next, rest, poll);
            lemma_prepend(id, others);
            assert forall|k: usize| #[trigger]
                ids.contains(k) && state.tasks.contains_key(k) implies all.contains(k) by {
                if k != id {
                    assert(rest.contains(k));
                    assert(given.tasks.contains_key(k));
                    assert(next.tasks.contains_key(k));
                }
            }
            assert forall|k: usize| #[trigger] all.contains(k) implies ids.contains(k) && (
            state.tasks.contains_key(k) || k >= state.next_id) by {
                if k != id {
                    assert(others.contains(k));
                    if next.tasks.contains_key(k) {
                        assert(meanwhile.tasks.contains_key(k));
                    }
                }
            }
            assert forall|k: usize| #[trigger]
                state.tasks.contains_key(k) && !all.contains(k) implies after.tasks.contains_key(k)
                && after.tasks[k] == state.tasks[k] by {
                assert(given.tasks.contains_key(k));
                assert(meanwhile.tasks.contains_key(k));
                assert(next.tasks.contains_key(k));
            }
            assert forall|k: usize| #[trigger] after.tasks.contains_key(k) implies k < after.next_id
                && (state.tasks.contains_key(k) || state.next_id <= k) by {
                if next.tasks.contains_key(k) && k != id {
                    assert(meanwhile.tasks.contains_key(k));
                }
            }
            if result is Pending {
                assert(next.tasks.contains_key(id) && !others.contains(id));
            } else {
                assert(!next.tasks.contains_key(id));
            }
        },
    }
}

/// A pass that starts when the thread resumes, from any state, whatever other threads add or
/// wake meanwhile: it polls every task that is ready and in the table of that state, none
/// twice, and leaves every task that it does not poll in the table as it was.
pub proof fn law_resumed_busy_pass<K>(
    state: ExecView<K>,
    ids: Seq<usize>,
    poll: spec_fn(ExecView<K>, usize, TaskEntry<K>) -> (ExecView<K>, TaskEntry<K>, Async<()>),
)
    requires
        lists(ids, state.ready),
        forall|id: usize| #[trigger] state.tasks.contains_key(id) ==> id < state.next_id,
        forall|s: ExecView<K>, id: usize, entry: TaskEntry<K>|
            goes_on(s, #[trigger] poll(s, id, entry).0),
    ensures
        ({
            let (after, polled, results) = busy_pass(state.drained(), ids, poll);
            &&& polled.no_duplicates()
            &&& forall|id: usize| #[trigger]
                state.ready.contains(id) && state.tasks.contains_key(id) ==> polled.contains(id)
            &&& forall|id: usize| #[trigger]
                polled.contains(id) ==> state.ready.contains(id) && (state.tasks.contains_key(id)
                    || id >= state.next_id)
            &&& forall|id: usize| #[trigger]
                polled.contains(id) ==> if results[id] is Pending {
                    after.tasks.contains_key(id) && after.ready.contains(id)
                } else {
                    !after.tasks.contains_key(id)
                }
            &&& forall|id: usize| #[trigger]
                state.tasks.contains_key(id) && !polled.contains(id) ==> after.tasks.contains_key(
                    id,
                ) && after.tasks[id] == state.tasks[id]
            &&& state.unpark ==> after.unpark
            &&& state.next_id <= after.next_id
        }),
{
    law_listed_are_the_ready(ids, state.ready);
    assert forall|id: usize| #[trigger] state.drained().tasks.contains_key(id) implies id
        < state.drained().next_id by {
        assert(state.tasks.contains_key(id));
    }
    law_busy_pass_polls_each_ready_task_once(state.drained(), ids, poll);
    let (after, polled, results) = busy_pass(state.drained(), ids, poll);
    assert forall|id: usize| #[trigger]
        state.ready.contains(id) && state.tasks.contains_key(id) implies polled.contains(id) by {
        assert(ids.contains(id) && state.drained().tasks.contains_key(id));
    }
    assert forall|id: usize| #[trigger]
        state.tasks.contains_key(id) && !polled.contains(id) implies after.tasks.contains_key(id)
        && after.tasks[id] == state.tasks[id] by {
        assert(state.drained().tasks.contains_key(id));
    }
}

/// A sequence with one more element in front.
proof fn lemma_prepend(first: usize, rest: Seq<usize>)
    ensures
        forall|k: usize| #[trigger]
            (seq![first] + rest).contains(k) <==> k == first || rest.contains(k),
        rest.no_duplicates() && !rest.contains(first) ==> (seq![first] + rest).no_duplicates(),
{
    let all = seq![first] + rest;
    assert forall|k: usize| #[trigger] all.contains(k) <==> k == first || rest.contains(k) by {
        if k == first {
            assert(all[0] == k);
        } else if rest.contains(k) {
            let i = choose|i: int| 0 <= i < rest.len() && rest[i] == k;
            assert(all[i + 1] == k);
        } else if all.contains(k) {
            let i = choose|i: int| 0 <= i < all.len() && all[i] == k;
            assert(rest[i - 1] == k);
        }
    }
    if rest.no_duplicates() && !rest.contains(first) {
        assert forall|i: int, j: int| 0 <= i < j < all.len() implies all[i] != all[j] by {
            assert(all[j] == rest[j - 1]);
            assert(rest.contains(rest[j - 1]));
            if i > 0 {
                assert(all[i] == rest[i - 1]);
            }
        }
    }
}

/// A task that is in the table and was woken by its handle, or was just added, is polled
/// in the next pass, whatever other threads do.
pub proof fn law_woken_task_is_polled<K>(
    state: ExecView<K>,
    id: usize,
    entry: TaskEntry<K>,
    ids: Seq<usize>,
    poll: spec_fn(ExecView<K>, usize, TaskEntry<K>) -> (ExecView<K>, TaskEntry<K>, Async<()>),
)
    requires
        state.wf(),
        forall|s: ExecView<K>, k: usize, e: TaskEntry<K>| goes_on(s, #[trigger] poll(s, k, e).0),
    ensures
        ({
            let woken = state.woken(state.tasks[id].wake.inner().id);
            state.tasks.contains_key(id) && lists(ids, woken.ready) ==> busy_pass(
                woken.drained(),
                ids,
                poll,
            ).1.contains(id)
        }),
        ({
            let spawned = state.spawned(entry);
            state.next_id < usize::MAX && lists(ids, spawned.ready) ==> busy_pass(
                spawned.drained(),
                ids,
                poll,
            ).1.contains(state.next_id)
        }),
{
    let woken = state.woken(state.tasks[id].wake.inner().id);
    if state.tasks.contains_key(id) && lists(ids, woken.ready) {
        assert(ids.to_set().contains(id));
        law_busy_pass_polls_each_ready_task_once(woken.drained(), ids, poll);
        assert(woken.drained().tasks.contains_key(id));
    }
    let spawned = state.spawned(entry);
    if state.next_id < usize::MAX && lists(ids, spawned.ready) {
        assert(ids.to_set().contains(state.next_id));
        law_busy_pass_polls_each_ready_task_once(spawned.drained(), ids, poll);
        assert(spawned.drained().tasks.contains_key(state.next_id));
    }
}

} // verus!
