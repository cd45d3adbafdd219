//! Tasks, the handles that wake them, and futures.

use std::convert::Infallible;
use std::sync::Arc;
use vstd::prelude::*;

verus! {

/// Something that can mark a task in `S` as ready to be polled again.
pub trait Wake<S>: Send + Sync {
    /// What a wakeup may make of `before`: anything, unless the implementation says more.
    open spec fn wakes(&self, before: S, after: S) -> bool {
        true
    }

    /// Signals that the associated task is ready to be `poll`ed again.
    fn wake(&self, target: &mut S)
        ensures
            self.wakes(*old(target), *final(target)),
    ;
}

/// A handle that wakes one task. Clones wake the same task.
pub struct Waker<W> {
    wake: Arc<W>,
}

impl<W> Waker<W> {
    /// What the handle wakes with.
    pub closed spec fn inner(&self) -> W {
        *self.wake
    }

    /// Signals that the associated task is ready to be `poll`ed again.
    pub fn wake<S>(&self, target: &mut S) where W: Wake<S>
        ensures
            self.inner().wakes(*old(target), *final(target)),
    {
        self.wake.wake(target);
    }
}

impl<W> Clone for Waker<W> {
    fn clone(&self) -> (r: Waker<W>)
        ensures
            r == *self,
    {
        Waker { wake: self.wake.clone() }
    }
}

impl<W> From<Arc<W>> for Waker<W> {
    fn from(wake: Arc<W>) -> (r: Waker<W>)
        ensures
            r.inner() == *wake,
    {
        Waker { wake }
    }
}

impl<W> vstd::std_specs::convert::FromSpecImpl<Arc<W>> for Waker<W> {
    open spec fn obeys_from_spec() -> bool {
        true
    }

    closed spec fn from_spec(wake: Arc<W>) -> Waker<W> {
        Waker { wake }
    }
}

/// What polling a task came to.
#[derive(Debug, PartialEq, Eq)]
pub enum Async<T> {
    /// Work completed with a result of type `T`.
    Ready(T),
    /// Work was blocked, and the task is set to be woken when ready
    /// to continue.
    Pending,
}

/// A task that is polled until it completes. What it takes in and gives out while it
/// is polled passes through its context.
pub trait ToyTask<W>: Sized {
    type Context;

    /// The task can be polled in this context: in any, unless the implementation says
    /// more.
    open spec fn can_poll(&self, context: Self::Context) -> bool {
        true
    }

    /// What one poll may make of the task and of its context: anything, unless the
    /// implementation says more.
    open spec fn polled(
        self,
        waker: Waker<W>,
        context: Self::Context,
        after: Self,
        context_after: Self::Context,
        result: Async<()>,
    ) -> bool {
        true
    }

    /// Attempt to finish executing the task, returning `Async::Pending`
    /// if the task needs to wait for an event before it can complete.
    fn poll(&mut self, waker: &Waker<W>, context: &mut Self::Context) -> (r: Async<()>)
        requires
            old(self).can_poll(*old(context)),
        ensures
            old(self).polled(*waker, *old(context), *final(self), *final(context), r),
    ;
}

/// A value that may not be there yet.
#[derive(Copy, Clone, Debug, Eq, PartialEq, Ord, PartialOrd, Hash)]
pub enum TokioPoll<T> {
    /// Represents that a value is immediately ready.
    Ready(T),
    /// Represents that a value is not ready yet.
    ///
    /// When a function returns `Pending`, the function *must* also
    /// ensure that the current task is scheduled to be awoken when
    /// progress can be made.
    Pending,
}

/// An asynchronous computation that completes with a value or an error.
pub trait Future<W>: Sized {
    type Item;

    type Error;

    type Context;

    /// The future can be polled in this context: in any, unless the implementation says
    /// more.
    open spec fn can_poll(&self, context: Self::Context) -> bool {
        true
    }

    /// What one poll may make of the future and of its context: anything, unless the
    /// implementation says more.
    open spec fn polled(
        self,
        waker: Waker<W>,
        context: Self::Context,
        after: Self,
        context_after: Self::Context,
        result: TokioPoll<Result<Self::Item, Self::Error>>,
    ) -> bool {
        true
    }

    /// Attempt to complete the future, yielding `TokioPoll::Pending`
    /// if the future is blocked waiting for some other event to occur.
    fn poll(&mut self, waker: &Waker<W>, context: &mut Self::Context) -> (r: TokioPoll<
        Result<Self::Item, Self::Error>,
    >)
        requires
            old(self).can_poll(*old(context)),
        ensures
            old(self).polled(*waker, *old(context), *final(self), *final(context), r),
    ;
}

/// The result of a poll of a task, as that of a future that cannot fail.
pub open spec fn future_result<T>(result: Async<T>) -> TokioPoll<Result<T, Infallible>> {
    match result {
        Async::Ready(x) => TokioPoll::Ready(Ok(x)),
        Async::Pending => TokioPoll::Pending,
    }
}

/// Turns the result of a poll of a task into that of a future that cannot fail.
pub fn to_future_result<T>(result: Async<T>) -> (r: TokioPoll<Result<T, Infallible>>)
    ensures
        r == future_result(result),
        match result {
            Async::Ready(x) => r == TokioPoll::<Result<T, Infallible>>::Ready(Ok(x)),
            Async::Pending => r is Pending,
        },
{
    match result {
        Async::Ready(x) => TokioPoll::Ready(Ok(x)),
        Async::Pending => TokioPoll::Pending,
    }
}

/// A task as a future.
pub struct ToyTaskToFuture<T>(pub T);

impl<W, T: ToyTask<W>> Future<W> for ToyTaskToFuture<T> {
    type Item = ();

    type Error = Infallible;

    type Context = T::Context;

    open spec fn can_poll(&self, context: T::Context) -> bool {
        self.0.can_poll(context)
    }

    /// The future does what the task does, and its result is the task's.
    open spec fn polled(
        self,
        waker: Waker<W>,
        context: T::Context,
        after: Self,
        context_after: T::Context,
        result: TokioPoll<Result<(), Infallible>>,
    ) -> bool {
        exists|r: Async<()>| #[trigger]
            self.0.polled(waker, context, after.0, context_after, r) && result == future_result(r)
    }

    fn poll(&mut self, waker: &Waker<W>, context: &mut T::Context) -> (r: TokioPoll<
        Result<(), Infallible>,
    >) {
        let result = self.0.poll(waker, context);
        assert(old(self).0.polled(*waker, *old(context), self.0, *context, result));
        to_future_result(result)
    }
}

/// A future's result is pending exactly when the task's is, is never an error, and has the
/// value of a task that completed; and two results of a task give the same only if they are
/// the same.
pub proof fn law_future_result<T>(a: Async<T>, b: Async<T>)
    ensures
        future_result(a) is Pending <==> a is Pending,
        future_result(a) matches TokioPoll::Ready(done) ==> done is Ok,
        a matches Async::Ready(x) ==> future_result(a) == TokioPoll::<Result<T, Infallible>>::Ready(
            Ok(x),
        ),
        future_result(a) == future_result(b) ==> a == b,
{
}

/// A task as a future can be polled when the task can, and a poll of it is a poll of the
/// task: it is pending when the task is, it is done when the task is, and it never fails.
pub proof fn law_future_is_its_task<W, T: ToyTask<W>>(
    future: ToyTaskToFuture<T>,
    waker: Waker<W>,
    context: T::Context,
    after: ToyTaskToFuture<T>,
    context_after: T::Context,
    result: TokioPoll<Result<(), Infallible>>,
)
    ensures
        Future::<W>::can_poll(&future, context) <==> future.0.can_poll(context),
        Future::<W>::polled(future, waker, context, after, context_after, result) <==> match result {
            TokioPoll::Pending => future.0.polled(
                waker,
                context,
                after.0,
                context_after,
                Async::Pending,
            ),
            TokioPoll::Ready(Ok(x)) => future.0.polled(
                waker,
                context,
                after.0,
                context_after,
                Async::Ready(x),
            ),
            TokioPoll::Ready(Err(_)) => false,
        },
{
    let direct = match result {
        TokioPoll::Pending => future.0.polled(
            waker,
            context,
            after.0,
            context_after,
            Async::Pending,
        ),
        TokioPoll::Ready(Ok(x)) => future.0.polled(
            waker,
            context,
            after.0,
            context_after,
            Async::Ready(x),
        ),
        TokioPoll::Ready(Err(_)) => false,
    };
    if direct {
        match result {
            TokioPoll::Pending => {
                assert(result == future_result(Async::<()>::Pending));
            },
            TokioPoll::Ready(Ok(x)) => {
                assert(result == future_result(Async::Ready(x)));
            },
            TokioPoll::Ready(Err(_)) => {},
        }
    }
}

} // verus!
