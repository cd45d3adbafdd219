//! Registration of file descriptors with a kernel queue.
//!
//! A selector does not call the kernel. It makes a [`KqueueRequest`], which holds
//! the changes to submit with `kevent`, and the request then says what the
//! kernel's answer amounts to.
//!
//! Flags are numbered as on macOS and the BSDs, and filters as on all of them but
//! NetBSD, which counts its filters from zero.

use crate::mioio::{MioPollOpt, MioReady};
use crate::sys::{enoent, epipe, ENOENT, EPIPE};
use vstd::prelude::*;

verus! {

/// Watch for something to read.
pub const EVFILT_READ: i16 = -1;

/// Watch for room to write.
pub const EVFILT_WRITE: i16 = -2;

/// Add the filter to the queue.
pub const EV_ADD: u16 = 0x1;

/// Take the filter out of the queue.
pub const EV_DELETE: u16 = 0x2;

/// Deliver one event only.
pub const EV_ONESHOT: u16 = 0x10;

/// Reset the state of the filter after each event.
pub const EV_CLEAR: u16 = 0x20;

/// Answer each change with a receipt instead of draining events.
pub const EV_RECEIPT: u16 = 0x40;

/// Set in a receipt, whose `data` is then an error number or zero.
pub const EV_ERROR: u16 = 0x4000;

/// Associates an event with the source that it is for.
#[derive(Copy, Clone, Debug, PartialEq, Eq, PartialOrd, Ord, Hash, Structural)]
pub struct MioToken(pub usize);

impl From<usize> for MioToken {
    fn from(val: usize) -> (r: MioToken)
        ensures
            r.0 == val,
    {
        MioToken(val)
    }
}

impl vstd::std_specs::convert::FromSpecImpl<usize> for MioToken {
    open spec fn obeys_from_spec() -> bool {
        true
    }

    open spec fn from_spec(val: usize) -> MioToken {
        MioToken(val)
    }
}

impl From<MioToken> for usize {
    fn from(val: MioToken) -> (r: usize)
        ensures
            r == val.0,
    {
        val.0
    }
}

impl vstd::std_specs::convert::FromSpecImpl<MioToken> for usize {
    open spec fn obeys_from_spec() -> bool {
        true
    }

    open spec fn from_spec(val: MioToken) -> usize {
        val.0
    }
}

/// Why an operation on an event source failed.
#[derive(Copy, Clone, Debug, PartialEq, Eq, Structural)]
pub enum IoError {
    /// The system reported this error number.
    Os(i32),
    /// The source belongs to another selector.
    AlreadyRegistered,
}

impl IoError {
    /// The message of an error that did not come from the system.
    pub fn message(&self) -> (r: Option<&'static str>)
        ensures
            match *self {
                IoError::Os(_) => r is None,
                IoError::AlreadyRegistered => r matches Some(text) && text@
                    == "socket already registered"@,
            },
    {
        match self {
            IoError::Os(_) => None,
            IoError::AlreadyRegistered => Some("socket already registered"),
        }
    }
}

/// The selector that a source associated with `current` is associated with once
/// `selector` has asked for it, or `None` when it refuses.
pub open spec fn association(current: usize, selector: usize) -> Option<usize> {
    if current != 0 && current != selector {
        None
    } else {
        Some(selector)
    }
}

/// A source without a selector takes any selector. Once it has one whose number is not
/// zero it keeps it: the same selector is let in again and every other is refused.
pub proof fn law_association_is_exclusive(first: usize, second: usize)
    requires
        first != 0,
    ensures
        association(0, first) == Some(first),
        association(first, first) == Some(first),
        second != first ==> association(first, second) is None,
{
}

/// A source is refused to a selector exactly when it has another, and otherwise has the one
/// that asked.
pub proof fn law_association(current: usize, selector: usize)
    ensures
        association(current, selector) is None <==> !(current == 0 || current == selector),
        association(current, selector) matches Some(id) ==> id == selector,
{
}

/// The selector that an event source is associated with; zero for none.
#[derive(Debug)]
pub struct MioSelectorId {
    id: usize,
}

impl MioSelectorId {
    /// The selector's number.
    pub closed spec fn value(&self) -> usize {
        self.id
    }

    pub fn new() -> (r: MioSelectorId)
        ensures
            r.value() == 0,
    {
        MioSelectorId { id: 0 }
    }

    /// Associates the source with the selector of `poll`, unless it belongs to
    /// another one.
    pub fn associate_selector(&mut self, poll: &MioPoll) -> (r: Result<(), IoError>)
        ensures
            match association(old(self).value(), poll.selector.id) {
                Some(id) => r == Ok::<(), IoError>(()) && final(self).value() == id,
                None => r == Err::<(), IoError>(IoError::AlreadyRegistered) && *final(self) == *old(
                    self,
                ),
            },
            r is Err <==> old(self).value() != 0 && old(self).value() != poll.selector.id,
            final(self).value() == if r is Ok {
                poll.selector.id
            } else {
                old(self).value()
            },
    {
        let selector_id = self.id;
        if selector_id != 0 && selector_id != poll.selector.id {
            Err(IoError::AlreadyRegistered)
        } else {
            self.id = poll.selector.id;
            Ok(())
        }
    }
}

/// Whether the result of a system call says that the call failed.
pub trait IsMinusOne: Sized {
    spec fn minus_one(&self) -> bool;

    fn is_minus_one(&self) -> (r: bool)
        ensures
            r == self.minus_one(),
    ;
}

impl IsMinusOne for i32 {
    open spec fn minus_one(&self) -> bool {
        *self == -1
    }

    fn is_minus_one(&self) -> (r: bool)
        ensures
            r == (*self == -1),
    {
        *self == -1
    }
}

impl IsMinusOne for isize {
    open spec fn minus_one(&self) -> bool {
        *self == -1
    }

    fn is_minus_one(&self) -> (r: bool)
        ensures
            r == (*self == -1),
    {
        *self == -1
    }
}

/// Turns the result of a system call into a `Result`. `last_os_error` is the error
/// number that the system held after the call.
pub fn cvt<T: IsMinusOne>(t: T, last_os_error: i32) -> (r: Result<T, IoError>)
    ensures
        t.minus_one() ==> r == Err::<T, IoError>(IoError::Os(last_os_error)),
        !t.minus_one() ==> r == Ok::<T, IoError>(t),
{
    if t.is_minus_one() {
        Err(IoError::Os(last_os_error))
    } else {
        Ok(t)
    }
}

/// One change of a kernel queue, or the receipt that the kernel wrote over it.
#[derive(Copy, Clone, Debug, PartialEq, Eq, Structural)]
pub struct KEvent {
    pub ident: usize,
    pub filter: i16,
    pub flags: u16,
    pub fflags: u32,
    pub data: i64,
    pub udata: usize,
}

impl KEvent {
    /// The change that asks for `flags` on one filter of a descriptor.
    pub open spec fn change(fd: i32, filter: i16, flags: u16, udata: usize) -> KEvent {
        KEvent { ident: fd as usize, filter, flags, fflags: 0, data: 0, udata }
    }

    /// Makes the change that asks for `flags` on one filter of a descriptor.
    fn new(fd: i32, filter: i16, flags: u16, udata: usize) -> (r: KEvent)
        ensures
            r == KEvent::change(fd, filter, flags, udata),
    {
        let ident: usize = #[verifier::truncate] (fd as usize);
        KEvent { ident, filter, flags, fflags: 0, data: 0, udata }
    }

    /// The error number in a receipt.
    pub open spec fn error_number(&self) -> i32 {
        self.data as i32
    }

    fn errno(&self) -> (r: i32)
        ensures
            r == self.error_number(),
    {
        #[verifier::truncate]
        (self.data as i32)
    }

    /// The kernel wrote this event as a receipt.
    pub open spec fn is_receipt(&self) -> bool {
        self.flags & EV_ERROR == EV_ERROR
    }
}

/// What a request asks of the queue.
#[derive(Copy, Clone, Debug, PartialEq, Eq, Structural)]
pub enum RequestKind {
    /// Set the read and the write filter as these flags say.
    Register { read: u16, write: u16 },
    /// Take both filters out.
    Deregister,
}

/// A call of `kevent` that is to be made on the queue `kq`. The kernel reads
/// `changes`, writes its receipts over a copy of them, and `complete` takes those.
#[derive(Copy, Clone, Debug, PartialEq, Eq)]
pub struct KqueueRequest {
    pub kq: i32,
    pub changes: [KEvent; 2],
    pub kind: RequestKind,
}

/// A request with its changes as a sequence.
pub ghost struct RequestView {
    pub kq: i32,
    pub changes: Seq<KEvent>,
    pub kind: RequestKind,
}

impl View for KqueueRequest {
    type V = RequestView;

    open spec fn view(&self) -> RequestView {
        RequestView { kq: self.kq, changes: self.changes@, kind: self.kind }
    }
}

/// The flags that the options of a registration stand for.
pub open spec fn option_flags(opts: MioPollOpt) -> u16 {
    (if opts@.contains(0) {
        EV_CLEAR
    } else {
        0
    }) | (if opts@.contains(2) {
        EV_ONESHOT
    } else {
        0
    }) | EV_RECEIPT
}

/// The flag that adds a filter or takes it out.
pub open spec fn interest_flag(interested: bool) -> u16 {
    if interested {
        EV_ADD
    } else {
        EV_DELETE
    }
}

impl RequestKind {
    /// A receipt that does not fail the request.
    ///
    /// A registration puts up with a pipe whose other end is gone, on the write
    /// filter, and with a filter that was to be taken out and is not there. A
    /// deregistration puts up with one filter that is not there.
    pub open spec fn accepts(self, receipt: KEvent) -> bool {
        match self {
            RequestKind::Register { read, write } => {
                let asked = if receipt.filter == EVFILT_READ {
                    read
                } else {
                    write
                };
                ||| receipt.data == 0
                ||| receipt.error_number() == EPIPE && receipt.filter == EVFILT_WRITE
                ||| receipt.error_number() == ENOENT && asked & EV_DELETE != 0
            },
            RequestKind::Deregister => receipt.data == 0 || receipt.error_number() == ENOENT,
        }
    }

    /// What a request comes to, given the receipts of a call that did not fail.
    ///
    /// A registration fails with the error of the first receipt that it does not
    /// accept. A deregistration fails when neither filter was there or when it does
    /// not accept a receipt, and then with the error number of the first receipt.
    pub open spec fn outcome(self, receipts: Seq<KEvent>) -> Result<(), IoError> {
        match self {
            RequestKind::Register { .. } => if !self.accepts(receipts[0]) {
                Err(IoError::Os(receipts[0].error_number()))
            } else if !self.accepts(receipts[1]) {
                Err(IoError::Os(receipts[1].error_number()))
            } else {
                Ok(())
            },
            RequestKind::Deregister => if self.absent(receipts) || !self.accepts(receipts[0])
                || !self.accepts(receipts[1]) {
                Err(IoError::Os(receipts[0].error_number()))
            } else {
                Ok(())
            },
        }
    }

    /// Both filters of a descriptor were not there.
    pub open spec fn absent(self, receipts: Seq<KEvent>) -> bool {
        &&& receipts[0].error_number() == ENOENT
        &&& receipts[1].error_number() == ENOENT
    }

    /// Every receipt that the outcome depends on was marked as one by the kernel: the
    /// first, and the second unless the first alone decides. Two filters that were not
    /// there decide a deregistration before any mark is looked at.
    pub open spec fn marked(self, receipts: Seq<KEvent>) -> bool {
        ||| self is Deregister && self.absent(receipts)
        ||| receipts[0].is_receipt() && (self.accepts(receipts[0]) ==> receipts[1].is_receipt())
    }

    /// Whether a receipt does not fail the request.
    fn accept(&self, receipt: &KEvent) -> (r: bool)
        ensures
            r == self.accepts(*receipt),
    {
        if receipt.data == 0 {
            return true;
        }
        match *self {
            RequestKind::Register { read, write } => {
                // Older versions of OSX (10.11 and 10.10 have been witnessed)
                // can return EPIPE when registering a pipe file descriptor
                // where the other end has already disappeared. kevent still
                // reports events on the descriptor, so the error is ignored.
                if receipt.errno() == epipe() && receipt.filter == EVFILT_WRITE {
                    return true;
                }
                // ignore ENOENT error for EV_DELETE
                let orig_flags: u16 = if receipt.filter == EVFILT_READ {
                    read
                } else {
                    write
                };
                receipt.errno() == enoent() && orig_flags & EV_DELETE != 0
            },
            RequestKind::Deregister => receipt.errno() == enoent(),
        }
    }
}

impl KqueueRequest {
    /// What the request comes to. `ret` is the value that `kevent` returned,
    /// `last_os_error` the error number that the system held after the call, and
    /// `receipts` what the kernel made of the changes.
    pub fn complete(&self, ret: i32, last_os_error: i32, receipts: &[KEvent; 2]) -> (r: Result<
        (),
        IoError,
    >)
        ensures
            ret == -1 ==> r == Err::<(), IoError>(IoError::Os(last_os_error)),
            ret != -1 ==> r == self.kind.outcome(receipts@),
    {
        match cvt(ret, last_os_error) {
            Err(e) => return Err(e),
            Ok(_) => {},
        }
        match self.kind {
            RequestKind::Register { .. } => {},
            RequestKind::Deregister => {
                if receipts[0].errno() == enoent() && receipts[1].errno() == enoent() {
                    return Err(IoError::Os(receipts[0].errno()));
                }
            },
        }
        let mut i: usize = 0;
        while i < 2
            invariant
                ret != -1,
                i <= 2,
                i > 0 ==> self.kind.accepts(receipts@[0]),
                i > 1 ==> self.kind.accepts(receipts@[1]),
                self.kind is Deregister ==> !self.kind.absent(receipts@),
            decreases 2 - i,
        {
            if !self.kind.accept(&receipts[i]) {
                return match self.kind {
                    RequestKind::Register { .. } => Err(IoError::Os(receipts[i].errno())),
                    RequestKind::Deregister => Err(IoError::Os(receipts[0].errno())),
                };
            }
            i += 1;
        }
        Ok(())
    }

    /// Whether the kernel marked every receipt that `complete` looks at as one.
    pub fn receipts_marked(&self, receipts: &[KEvent; 2]) -> (r: bool)
        ensures
            r == self.kind.marked(receipts@),
    {
        match self.kind {
            RequestKind::Register { .. } => {},
            RequestKind::Deregister => {
                if receipts[0].errno() == enoent() && receipts[1].errno() == enoent() {
                    return true;
                }
            },
        }
        if receipts[0].flags & EV_ERROR != EV_ERROR {
            return false;
        }
        !self.kind.accept(&receipts[0]) || receipts[1].flags & EV_ERROR == EV_ERROR
    }
}

/// A kernel queue and the number by which sources know it.
#[derive(Copy, Clone, Debug, PartialEq, Eq, Structural)]
pub struct MioKQueueSelector {
    pub id: usize,
    pub kq: i32,
}

impl MioKQueueSelector {
    /// The request that sets the filters of a descriptor to the given interests.
    pub open spec fn registration(
        self,
        fd: i32,
        token: MioToken,
        interests: MioReady,
        opts: MioPollOpt,
    ) -> RequestView {
        let read = interest_flag(interests@.contains(0));
        let write = interest_flag(interests@.contains(1));
        RequestView {
            kq: self.kq,
            changes: seq![
                KEvent::change(fd, EVFILT_READ, option_flags(opts) | read, token.0),
                KEvent::change(fd, EVFILT_WRITE, option_flags(opts) | write, token.0),
            ],
            kind: RequestKind::Register { read, write },
        }
    }

    /// The request that takes the filters of a descriptor out.
    pub open spec fn deregistration(self, fd: i32) -> RequestView {
        RequestView {
            kq: self.kq,
            changes: seq![
                KEvent::change(fd, EVFILT_READ, EV_DELETE | EV_RECEIPT, 0),
                KEvent::change(fd, EVFILT_WRITE, EV_DELETE | EV_RECEIPT, 0),
            ],
            kind: RequestKind::Deregister,
        }
    }

    /// Asks for the events of `fd` that `interests` names, delivered with `token`. A
    /// filter that is not of interest is taken out.
    pub fn register(
        &self,
        fd: i32,
        token: MioToken,
        interests: MioReady,
        opts: MioPollOpt,
    ) -> (r: KqueueRequest)
        ensures
            r@ == self.registration(fd, token, interests, opts),
            r.kq == self.kq,
            r.changes@ == self.registration(fd, token, interests, opts).changes,
            r.kind == self.registration(fd, token, interests, opts).kind,
    {
        proof {
            crate::mioio::lemma_single_subset(opts@, 0);
            crate::mioio::lemma_single_subset(opts@, 2);
            crate::mioio::lemma_single_subset(interests@, 0);
            crate::mioio::lemma_single_subset(interests@, 1);
        }
        let clear: u16 = if opts.contains(MioPollOpt::edge()) {
            EV_CLEAR
        } else {
            0
        };
        let oneshot: u16 = if opts.contains(MioPollOpt::oneshot()) {
            EV_ONESHOT
        } else {
            0
        };
        let flags: u16 = clear | oneshot | EV_RECEIPT;
        let read: u16 = if interests.contains(MioReady::readable()) {
            EV_ADD
        } else {
            EV_DELETE
        };
        let write: u16 = if interests.contains(MioReady::writable()) {
            EV_ADD
        } else {
            EV_DELETE
        };
        let changes: [KEvent; 2] = [
            KEvent::new(fd, EVFILT_READ, flags | read, usize::from(token)),
            KEvent::new(fd, EVFILT_WRITE, flags | write, usize::from(token)),
        ];
        let request = KqueueRequest {
            kq: self.kq,
            changes,
            kind: RequestKind::Register { read, write },
        };
        assert(request@.changes =~= self.registration(fd, token, interests, opts).changes);
        request
    }

    /// Changes a registration: the same request as for a new one.
    pub fn reregister(
        &self,
        fd: i32,
        token: MioToken,
        interests: MioReady,
        opts: MioPollOpt,
    ) -> (r: KqueueRequest)
        ensures
            r@ == self.registration(fd, token, interests, opts),
            r.kq == self.kq,
            r.changes@ == self.registration(fd, token, interests, opts).changes,
            r.kind == self.registration(fd, token, interests, opts).kind,
    {
        self.register(fd, token, interests, opts)
    }

    /// Takes both filters of `fd` out.
    pub fn deregister(&self, fd: i32) -> (r: KqueueRequest)
        ensures
            r@ == self.deregistration(fd),
            r.kq == self.kq,
            r.changes@ == self.deregistration(fd).changes,
            r.kind == self.deregistration(fd).kind,
    {
        let filter: u16 = EV_DELETE | EV_RECEIPT;
        let changes: [KEvent; 2] = [
            KEvent::new(fd, EVFILT_READ, filter, 0),
            KEvent::new(fd, EVFILT_WRITE, filter, 0),
        ];
        let request = KqueueRequest { kq: self.kq, changes, kind: RequestKind::Deregister };
        assert(request@.changes =~= self.deregistration(fd).changes);
        request
    }
}

/// The selector that event sources register with.
#[derive(Copy, Clone, Debug, PartialEq, Eq, Structural)]
pub struct MioPoll {
    pub selector: MioKQueueSelector,
}

/// An event source. Each method gives the request that has to be made of the
/// kernel, or the reason why none is made.
pub trait MioEvented {
    fn register(
        &mut self,
        poll: &MioPoll,
        token: MioToken,
        interest: MioReady,
        opts: MioPollOpt,
    ) -> Result<KqueueRequest, IoError>;

    fn reregister(
        &mut self,
        poll: &MioPoll,
        token: MioToken,
        interest: MioReady,
        opts: MioPollOpt,
    ) -> Result<KqueueRequest, IoError>;

    fn deregister(&mut self, poll: &MioPoll) -> Result<KqueueRequest, IoError>;
}

/// A raw file descriptor as an event source.
pub struct MioUnixEventedFd<'a>(pub &'a i32);

impl<'a> MioEvented for MioUnixEventedFd<'a> {
    fn register(
        &mut self,
        poll: &MioPoll,
        token: MioToken,
        interest: MioReady,
        opts: MioPollOpt,
    ) -> (r: Result<KqueueRequest, IoError>)
        ensures
            *final(self) == *old(self),
            r matches Ok(request) && request@ == poll.selector.registration(
                *old(self).0,
                token,
                interest,
                opts,
            ),
    {
        Ok(poll.selector.register(*self.0, token, interest, opts))
    }

    fn reregister(
        &mut self,
        poll: &MioPoll,
        token: MioToken,
        interest: MioReady,
        opts: MioPollOpt,
    ) -> (r: Result<KqueueRequest, IoError>)
        ensures
            *final(self) == *old(self),
            r matches Ok(request) && request@ == poll.selector.registration(
                *old(self).0,
                token,
                interest,
                opts,
            ),
    {
        Ok(poll.selector.reregister(*self.0, token, interest, opts))
    }

    fn deregister(&mut self, poll: &MioPoll) -> (r: Result<KqueueRequest, IoError>)
        ensures
            *final(self) == *old(self),
            r matches Ok(request) && request@ == poll.selector.deregistration(*old(self).0),
    {
        Ok(poll.selector.deregister(*self.0))
    }
}

/// Every change of a registration asks for a receipt, asks for edge triggering and
/// for one event only exactly as the options say, and adds the filter exactly when it
/// is of interest, or else takes it out.
pub proof fn law_registration_flags(
    selector: MioKQueueSelector,
    fd: i32,
    token: MioToken,
    interests: MioReady,
    opts: MioPollOpt,
)
    ensures
        ({
            let request = selector.registration(fd, token, interests, opts);
            let changes = request.changes;
            &&& request.kq == selector.kq
            &&& changes.len() == 2
            &&& changes[0].filter == EVFILT_READ && changes[1].filter == EVFILT_WRITE
            &&& (changes[0].flags & EV_ADD != 0) == interests@.contains(0)
            &&& (changes[1].flags & EV_ADD != 0) == interests@.contains(1)
            &&& forall|i: int|
                #![trigger changes[i]]
                0 <= i < 2 ==> {
                    &&& changes[i].ident == fd as usize
                    &&& changes[i].udata == token.0
                    &&& changes[i].data == 0
                    &&& changes[i].flags & EV_RECEIPT != 0
                    &&& (changes[i].flags & EV_CLEAR != 0) == opts@.contains(0)
                    &&& (changes[i].flags & EV_ONESHOT != 0) == opts@.contains(2)
                    &&& (changes[i].flags & EV_DELETE != 0) == (changes[i].flags & EV_ADD == 0)
                }
        }),
{
    lemma_flag_word(opts@.contains(0), opts@.contains(2), interests@.contains(0));
    lemma_flag_word(opts@.contains(0), opts@.contains(2), interests@.contains(1));
}

/// The bits of one change's flags.
proof fn lemma_flag_word(clear: bool, oneshot: bool, interested: bool)
    ensures
        ({
            let word = (if clear {
                EV_CLEAR
            } else {
                0
            }) | (if oneshot {
                EV_ONESHOT
            } else {
                0
            }) | EV_RECEIPT | interest_flag(interested);
            &&& word & EV_RECEIPT != 0
            &&& (word & EV_CLEAR != 0) == clear
            &&& (word & EV_ONESHOT != 0) == oneshot
            &&& (word & EV_ADD != 0) == interested
            &&& (word & EV_DELETE != 0) == !interested
        }),
{
    let c: u16 = if clear {
        0x20
    } else {
        0
    };
    let o: u16 = if oneshot {
        0x10
    } else {
        0
    };
    let a: u16 = if interested {
        0x1
    } else {
        0x2
    };
    let word: u16 = c | o | 0x40 | a;
    assert(word & 0x40 != 0 && (word & 0x20 != 0 <==> c == 0x20) && (word & 0x10 != 0 <==> o
        == 0x10) && (word & 0x1 != 0 <==> a == 0x1) && (word & 0x2 != 0 <==> a == 0x2))
        by (bit_vector)
        requires
            word == c | o | 0x40 | a,
            c == 0x20 || c == 0,
            o == 0x10 || o == 0,
            a == 0x1 || a == 0x2,
    ;
}

/// A registration succeeds exactly when each receipt either carries no error, or
/// reports a pipe whose other end is gone on the write filter, or reports as missing a
/// filter that was not of interest.
pub proof fn law_registration_outcome(
    selector: MioKQueueSelector,
    fd: i32,
    token: MioToken,
    interests: MioReady,
    opts: MioPollOpt,
    receipts: Seq<KEvent>,
)
    requires
        receipts.len() == 2,
        receipts[0].filter == EVFILT_READ,
        receipts[1].filter == EVFILT_WRITE,
    ensures
        selector.registration(fd, token, interests, opts).kind.outcome(receipts) is Ok <==> {
            &&& receipts[0].data == 0 || (receipts[0].error_number() == ENOENT
                && !interests@.contains(0))
            &&& receipts[1].data == 0 || receipts[1].error_number() == EPIPE || (
            receipts[1].error_number() == ENOENT && !interests@.contains(1))
        },
{
    assert(0x1u16 & 0x2u16 == 0 && 0x2u16 & 0x2u16 != 0) by (bit_vector);
}

/// A deregistration succeeds exactly when at least one filter was there and neither
/// receipt reports anything but a missing filter. When neither was there the error is
/// the missing entry.
pub proof fn law_deregistration_outcome(
    selector: MioKQueueSelector,
    fd: i32,
    receipts: Seq<KEvent>,
)
    requires
        receipts.len() == 2,
    ensures
        ({
            let outcome = selector.deregistration(fd).kind.outcome(receipts);
            let missing = |c: KEvent| c.error_number() == ENOENT;
            &&& outcome is Ok <==> {
                &&& receipts[0].data == 0 || missing(receipts[0])
                &&& receipts[1].data == 0 || missing(receipts[1])
                &&& !(missing(receipts[0]) && missing(receipts[1]))
            }
            &&& missing(receipts[0]) && missing(receipts[1]) ==> outcome == Err::<(), IoError>(
                IoError::Os(ENOENT),
            )
        }),
{
}

/// The numbers by which the kernel knows filters, flags and errors.
pub proof fn law_numbers_of_the_kernel()
    ensures
        EVFILT_READ == -1,
        EVFILT_WRITE == -2,
        EV_ADD == 0x1,
        EV_DELETE == 0x2,
        EV_ONESHOT == 0x10,
        EV_CLEAR == 0x20,
        EV_RECEIPT == 0x40,
        EV_ERROR == 0x4000,
        EPIPE == 32,
        ENOENT == 2,
{
}

/// A token and its number give each other back.
pub proof fn law_tokens_are_numbers(number: usize, token: MioToken)
    ensures
        <MioToken as vstd::std_specs::convert::FromSpec<usize>>::from_spec(number).0 == number,
        <usize as vstd::std_specs::convert::FromSpec<MioToken>>::from_spec(token) == token.0,
        <MioToken as vstd::std_specs::convert::FromSpec<usize>>::obeys_from_spec(),
        <usize as vstd::std_specs::convert::FromSpec<MioToken>>::obeys_from_spec(),
{
}

/// A call failed exactly when it returned minus one.
pub proof fn law_failure_is_minus_one(a: i32, b: isize)
    ensures
        a.minus_one() <==> a == -1,
        b.minus_one() <==> b == -1,
{
}

/// Descriptors are told apart by the number that a change carries for them, which is the
/// descriptor itself unless it is negative.
pub proof fn law_idents_are_descriptors(a: i32, b: i32)
    ensures
        a >= 0 ==> a as usize == a,
        a as usize == b as usize ==> a == b,
{
    assert(a as usize == b as usize ==> a == b) by (bit_vector);
}

/// A request as it is seen in contracts is the request itself.
pub proof fn law_request_is_seen_whole(request: KqueueRequest)
    ensures
        request@.kq == request.kq,
        request@.kind == request.kind,
        request@.changes.len() == 2,
        request@.changes[0] == request.changes@[0],
        request@.changes[1] == request.changes@[1],
{
}

/// A registration submits two changes to the selector's queue, of the read and of the write
/// filter of the descriptor. Each carries the token and nothing else, and its flags are the
/// sum of 0x40 for the receipt, 0x20 for an edge triggered and 0x10 for a one shot
/// registration, and 1 where the filter is of interest or 2 where it is not: no other flag.
pub proof fn law_registration_changes(
    selector: MioKQueueSelector,
    fd: i32,
    token: MioToken,
    interests: MioReady,
    opts: MioPollOpt,
)
    ensures
        ({
            let request = selector.registration(fd, token, interests, opts);
            let read: int = if interests.word() % 2 == 1 {
                1
            } else {
                2
            };
            let write: int = if (interests.word() / 2) % 2 == 1 {
                1
            } else {
                2
            };
            let options: int = 0x40 + (if opts.word() % 2 == 1 {
                0x20int
            } else {
                0
            }) + (if (opts.word() / 4) % 2 == 1 {
                0x10int
            } else {
                0
            });
            &&& request.kq == selector.kq
            &&& request.changes.len() == 2
            &&& request.changes[0].filter == -1
            &&& request.changes[1].filter == -2
            &&& request.changes[0].flags == options + read
            &&& request.changes[1].flags == options + write
            &&& forall|i: int|
                #![trigger request.changes[i]]
                0 <= i < 2 ==> {
                    &&& request.changes[i].ident == fd as usize
                    &&& request.changes[i].udata == token.0
                    &&& request.changes[i].fflags == 0
                    &&& request.changes[i].data == 0
                    &&& request.changes[i].flags & !(0x1u16 | 0x2 | 0x10 | 0x20 | 0x40) == 0
                }
            &&& request.kind matches RequestKind::Register { read: r, write: w } && r == read && w
                == write
        }),
{
    crate::mioio::law_words_of_sets(interests, opts);
    lemma_flag_sum(opts@.contains(0), opts@.contains(2), interests@.contains(0));
    lemma_flag_sum(opts@.contains(0), opts@.contains(2), interests@.contains(1));
}

/// The flags of one change as a sum.
proof fn lemma_flag_sum(clear: bool, oneshot: bool, interested: bool)
    ensures
        ({
            let word = (if clear {
                EV_CLEAR
            } else {
                0
            }) | (if oneshot {
                EV_ONESHOT
            } else {
                0
            }) | EV_RECEIPT | interest_flag(interested);
            &&& word == 0x40 + (if clear {
                0x20int
            } else {
                0
            }) + (if oneshot {
                0x10int
            } else {
                0
            }) + (if interested {
                1int
            } else {
                2
            })
            &&& word & !(0x1u16 | 0x2 | 0x10 | 0x20 | 0x40) == 0
        }),
{
    let c: u16 = if clear {
        0x20
    } else {
        0
    };
    let o: u16 = if oneshot {
        0x10
    } else {
        0
    };
    let a: u16 = if interested {
        0x1
    } else {
        0x2
    };
    assert(c | o | 0x40 | a == 0x40 + c + o + a && (c | o | 0x40 | a) & !(0x1u16 | 0x2 | 0x10 | 0x20
        | 0x40) == 0) by (bit_vector)
        requires
            c == 0x20 || c == 0,
            o == 0x10 || o == 0,
            a == 0x1 || a == 0x2,
    ;
}

/// A deregistration submits two changes to the selector's queue, which take the read and the
/// write filter of the descriptor out, ask for receipts, and carry nothing else.
pub proof fn law_deregistration_changes(selector: MioKQueueSelector, fd: i32)
    ensures
        ({
            let request = selector.deregistration(fd);
            &&& request.kq == selector.kq
            &&& request.changes.len() == 2
            &&& request.changes[0].filter == -1
            &&& request.changes[1].filter == -2
            &&& forall|i: int|
                #![trigger request.changes[i]]
                0 <= i < 2 ==> {
                    &&& request.changes[i].ident == fd as usize
                    &&& request.changes[i].udata == 0
                    &&& request.changes[i].fflags == 0
                    &&& request.changes[i].data == 0
                    &&& request.changes[i].flags == 0x42
                }
            &&& request.kind is Deregister
        }),
{
    assert(0x2u16 | 0x40u16 == 0x42) by (bit_vector);
}

/// Registrations that differ in descriptor, token, queue, one of the two interests or one of
/// the two options submit different changes, and only those do.
pub proof fn law_registrations_differ(
    a: MioKQueueSelector,
    b: MioKQueueSelector,
    fds: (i32, i32),
    tokens: (MioToken, MioToken),
    interests: (MioReady, MioReady),
    opts: (MioPollOpt, MioPollOpt),
)
    ensures
        a.registration(fds.0, tokens.0, interests.0, opts.0) == b.registration(
            fds.1,
            tokens.1,
            interests.1,
            opts.1,
        ) <==> {
            &&& a.kq == b.kq
            &&& fds.0 == fds.1
            &&& tokens.0 == tokens.1
            &&& interests.0@.contains(0) == interests.1@.contains(0)
            &&& interests.0@.contains(1) == interests.1@.contains(1)
            &&& opts.0@.contains(0) == opts.1@.contains(0)
            &&& opts.0@.contains(2) == opts.1@.contains(2)
        },
{
    let left = a.registration(fds.0, tokens.0, interests.0, opts.0);
    let right = b.registration(fds.1, tokens.1, interests.1, opts.1);
    law_registration_changes(a, fds.0, tokens.0, interests.0, opts.0);
    law_registration_changes(b, fds.1, tokens.1, interests.1, opts.1);
    crate::mioio::law_words_of_sets(interests.0, opts.0);
    crate::mioio::law_words_of_sets(interests.1, opts.1);
    law_idents_are_descriptors(fds.0, fds.1);
    if left == right {
        assert(left.changes[0] == right.changes[0]);
        assert(left.changes[1] == right.changes[1]);
    }
}

/// What the receipts of a registration that set its filters with the flags `read` and `write`
/// come to, whatever they are. It succeeds when each carries no error, or 32 on the write
/// filter, or 2 where the flag had the bit that takes a filter out. Otherwise it fails with
/// the number in the first that does not.
pub proof fn law_registration_receipts(read: u16, write: u16, receipts: Seq<KEvent>)
    requires
        receipts.len() == 2,
    ensures
        ({
            let outcome = (RequestKind::Register { read, write }).outcome(receipts);
            let fine = |c: KEvent|
                {
                    ||| c.data == 0
                    ||| c.data as i32 == 32 && c.filter == -2
                    ||| c.data as i32 == 2 && c.filter == -1 && read & 2 == 2
                    ||| c.data as i32 == 2 && c.filter != -1 && write & 2 == 2
                };
            &&& outcome is Ok <==> fine(receipts[0]) && fine(receipts[1])
            &&& !fine(receipts[0]) ==> outcome == Err::<(), IoError>(
                IoError::Os(receipts[0].data as i32),
            )
            &&& fine(receipts[0]) && !fine(receipts[1]) ==> outcome == Err::<(), IoError>(
                IoError::Os(receipts[1].data as i32),
            )
        }),
{
    assert(read & 0x2 == 2 <==> read & 0x2 != 0) by (bit_vector);
    assert(write & 0x2 == 2 <==> write & 0x2 != 0) by (bit_vector);
}

/// What the receipts of a deregistration come to, whatever they are. It succeeds when each
/// carries no error or 2, but not both 2. Otherwise it fails with the number in the first.
pub proof fn law_deregistration_receipts(receipts: Seq<KEvent>)
    requires
        receipts.len() == 2,
    ensures
        ({
            let outcome = RequestKind::Deregister.outcome(receipts);
            let first = receipts[0].data as i32;
            let second = receipts[1].data as i32;
            &&& outcome is Ok <==> {
                &&& receipts[0].data == 0 || first == 2
                &&& receipts[1].data == 0 || second == 2
                &&& first != 2 || second != 2
            }
            &&& outcome is Err ==> outcome == Err::<(), IoError>(IoError::Os(first))
        }),
{
}

/// Which marks are asked of the receipts, whatever they are: that of the first, and that of
/// the second where the first alone would not fail the request; none where a deregistration
/// finds neither filter.
pub proof fn law_marks(read: u16, write: u16, receipts: Seq<KEvent>)
    requires
        receipts.len() == 2,
    ensures
        ({
            let first = receipts[0];
            let second = receipts[1];
            let fine = |c: KEvent|
                {
                    ||| c.data == 0
                    ||| c.data as i32 == 32 && c.filter == -2
                    ||| c.data as i32 == 2 && c.filter == -1 && read & 2 == 2
                    ||| c.data as i32 == 2 && c.filter != -1 && write & 2 == 2
                };
            &&& (RequestKind::Register { read, write }).marked(receipts) <==> first.flags & 0x4000
                != 0 && (!fine(first) || second.flags & 0x4000 != 0)
            &&& RequestKind::Deregister.marked(receipts) <==> {
                ||| first.data as i32 == 2 && second.data as i32 == 2
                ||| first.flags & 0x4000 != 0 && (second.flags & 0x4000 != 0 || (first.data != 0
                    && first.data as i32 != 2))
            }
        }),
{
    let a = receipts[0].flags;
    let b = receipts[1].flags;
    assert(a & 0x4000 == 0x4000 <==> a & 0x4000 != 0) by (bit_vector);
    assert(b & 0x4000 == 0x4000 <==> b & 0x4000 != 0) by (bit_vector);
    assert(read & 0x2 == 2 <==> read & 0x2 != 0) by (bit_vector);
    assert(write & 0x2 == 2 <==> write & 0x2 != 0) by (bit_vector);
}

} // verus!
