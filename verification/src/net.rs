//! Sockets as event sources, and the bookkeeping of their registration.

use crate::mioio::{MioPollOpt, MioReady};
use crate::miokqueue::{
    association, IoError, KqueueRequest, MioEvented, MioPoll, MioSelectorId, MioToken,
    MioUnixEventedFd,
};
use vstd::prelude::*;

verus! {

/// A listening socket, by its descriptor.
#[derive(Debug)]
pub struct MioTcpListener {
    fd: i32,
    selector_id: MioSelectorId,
}

impl MioTcpListener {
    /// The descriptor of the socket.
    pub closed spec fn descriptor(&self) -> i32 {
        self.fd
    }

    /// The number of the selector that the socket is associated with; zero for none.
    pub closed spec fn selector(&self) -> usize {
        self.selector_id.value()
    }

    /// The event source of a socket that was bound and has this descriptor.
    pub fn new(fd: i32) -> (r: MioTcpListener)
        ensures
            r.descriptor() == fd,
            r.selector() == 0,
    {
        MioTcpListener { fd, selector_id: MioSelectorId::new() }
    }

    pub fn as_raw_fd(&self) -> (r: i32)
        ensures
            r == self.descriptor(),
    {
        self.fd
    }
}

impl MioEvented for MioTcpListener {
    /// The socket is associated with the selector of `poll` before a request is made; one
    /// that belongs to another selector is refused.
    fn register(
        &mut self,
        poll: &MioPoll,
        token: MioToken,
        interest: MioReady,
        opts: MioPollOpt,
    ) -> (r: Result<KqueueRequest, IoError>)
        ensures
            final(self).descriptor() == old(self).descriptor(),
            match association(old(self).selector(), poll.selector.id) {
                Some(id) => {
                    &&& final(self).selector() == id
                    &&& r matches Ok(request)
                    &&& request@ == poll.selector.registration(
                        old(self).descriptor(),
                        token,
                        interest,
                        opts,
                    )
                },
                None => {
                    &&& final(self).selector() == old(self).selector()
                    &&& r == Err::<KqueueRequest, IoError>(IoError::AlreadyRegistered)
                },
            },
            r is Err <==> old(self).selector() != 0 && old(self).selector() != poll.selector.id,
            final(self).selector() == if r is Ok {
                poll.selector.id
            } else {
                old(self).selector()
            },
    {
        match self.selector_id.associate_selector(poll) {
            Err(e) => return Err(e),
            Ok(_) => {},
        }
        MioUnixEventedFd(&self.as_raw_fd()).register(poll, token, interest, opts)
    }

    /// A registration is changed whatever selector the socket is associated with.
    fn reregister(
        &mut self,
        poll: &MioPoll,
        token: MioToken,
        interest: MioReady,
        opts: MioPollOpt,
    ) -> (r: Result<KqueueRequest, IoError>)
        ensures
            *final(self) == *old(self),
            r matches Ok(request) && request@ == poll.selector.registration(
                old(self).descriptor(),
                token,
                interest,
                opts,
            ),
    {
        MioUnixEventedFd(&self.as_raw_fd()).reregister(poll, token, interest, opts)
    }

    /// The socket stays associated with its selector.
    fn deregister(&mut self, poll: &MioPoll) -> (r: Result<KqueueRequest, IoError>)
        ensures
            *final(self) == *old(self),
            r matches Ok(request) && request@ == poll.selector.deregistration(
                old(self).descriptor(),
            ),
    {
        MioUnixEventedFd(&self.as_raw_fd()).deregister(poll)
    }
}

/// Initial state. The handle is not set and the registration is idle.
pub const INIT: usize = 0;

/// A thread locked the state and will associate a handle.
pub const LOCKED: usize = 1;

/// A handle has been associated with the registration.
pub const READY: usize = 2;

/// Masks the lifecycle state
pub const LIFECYCLE_MASK: usize = 0b11;

/// A fake token used to identify error situations
pub const ERROR: usize = usize::MAX;

/// The numbers of the states in the lifecycle of a registration, which fit its mask, and of
/// the token for errors, which is the largest there is.
pub proof fn law_numbers_of_the_lifecycle()
    ensures
        INIT == 0,
        LOCKED == 1,
        READY == 2,
        LIFECYCLE_MASK == 3,
        ERROR == usize::MAX,
        INIT & LIFECYCLE_MASK == INIT,
        LOCKED & LIFECYCLE_MASK == LOCKED,
        READY & LIFECYCLE_MASK == READY,
{
    assert(0usize & 3 == 0 && 1usize & 3 == 1 && 2usize & 3 == 2) by (bit_vector);
}

/// What a registration holds once it is made.
#[derive(Copy, Clone, Debug, PartialEq, Eq, Structural)]
pub struct TokioRegistrationInner {
    pub token: usize,
}

/// The registration of an event source with a reactor.
#[derive(Debug)]
pub struct TokioRegistration {
    pub inner: Option<TokioRegistrationInner>,
    pub state: usize,
}

impl TokioRegistration {
    /// A registration that has not been made.
    pub fn new() -> (r: TokioRegistration)
        ensures
            r.inner is None,
            r.state == INIT,
            r.state == 0,
    {
        TokioRegistration { inner: None, state: INIT }
    }
}

/// The readiness of an event source, as far as it is known.
#[derive(Debug)]
pub struct TokioPollEventedInner {
    pub registration: TokioRegistration,
    /// Currently visible read readiness
    pub read_readiness: usize,
    /// Currently visible write readiness
    pub write_readiness: usize,
}

/// An event source with its registration.
#[derive(Debug)]
pub struct TokioPollEvented<E: MioEvented> {
    pub io: Option<E>,
    pub inner: TokioPollEventedInner,
}

impl<E: MioEvented> TokioPollEvented<E> {
    /// Wraps an event source that is not registered and not known to be ready.
    pub fn new(io: E) -> (r: TokioPollEvented<E>)
        ensures
            r.io == Some(io),
            r.inner.registration.inner is None,
            r.inner.registration.state == INIT,
            r.inner.read_readiness == 0,
            r.inner.write_readiness == 0,
    {
        TokioPollEvented {
            io: Some(io),
            inner: TokioPollEventedInner {
                registration: TokioRegistration::new(),
                read_readiness: 0,
                write_readiness: 0,
            },
        }
    }
}

/// A listening socket with its registration.
#[derive(Debug)]
pub struct TokioTcpListener {
    pub io: TokioPollEvented<MioTcpListener>,
}

impl TokioTcpListener {
    /// Wraps a socket that is not registered and not known to be ready.
    pub fn new(listener: MioTcpListener) -> (r: TokioTcpListener)
        ensures
            r.io.io == Some(listener),
            r.io.inner.registration.inner is None,
            r.io.inner.registration.state == INIT,
            r.io.inner.read_readiness == 0,
            r.io.inner.write_readiness == 0,
    {
        let io = TokioPollEvented::new(listener);
        TokioTcpListener { io }
    }
}

} // verus!
