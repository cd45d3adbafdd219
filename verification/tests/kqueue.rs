use toyexec::mioio::{MioPollOpt, MioReady};
use toyexec::miokqueue::{
    cvt, IoError, IsMinusOne, KEvent, KqueueRequest, MioEvented, MioKQueueSelector, MioPoll,
    MioSelectorId, MioToken, MioUnixEventedFd, RequestKind, EVFILT_READ, EVFILT_WRITE, EV_ADD,
    EV_CLEAR, EV_DELETE, EV_ERROR, EV_ONESHOT, EV_RECEIPT,
};
use toyexec::net::{MioTcpListener, TokioPollEvented, TokioRegistration, TokioTcpListener, INIT};

fn selector() -> MioKQueueSelector {
    MioKQueueSelector { id: 1, kq: 7 }
}

fn poll(id: usize) -> MioPoll {
    MioPoll { selector: MioKQueueSelector { id, kq: 7 } }
}

/// The receipts of a request, with these error numbers.
fn receipts(request: &KqueueRequest, read: i64, write: i64) -> [KEvent; 2] {
    let mut changes = request.changes;
    changes[0].data = read;
    changes[1].data = write;
    changes[0].flags |= EV_ERROR;
    changes[1].flags |= EV_ERROR;
    changes
}

#[test]
fn tokens_convert() {
    assert_eq!(MioToken::from(5), MioToken(5));
    assert_eq!(usize::from(MioToken(6)), 6);
}

#[test]
fn register_asks_for_what_is_of_interest() {
    let r = selector().register(3, MioToken(9), MioReady::readable(), MioPollOpt::edge());
    assert_eq!(r.kq, 7);
    assert_eq!(
        r.changes[0],
        KEvent {
            ident: 3,
            filter: EVFILT_READ,
            flags: EV_CLEAR | EV_RECEIPT | EV_ADD,
            fflags: 0,
            data: 0,
            udata: 9,
        }
    );
    assert_eq!(r.changes[0].flags, 0x61);
    assert_eq!(
        r.changes[1],
        KEvent {
            ident: 3,
            filter: EVFILT_WRITE,
            flags: EV_CLEAR | EV_RECEIPT | EV_DELETE,
            fflags: 0,
            data: 0,
            udata: 9,
        }
    );
    assert_eq!(r.kind, RequestKind::Register { read: EV_ADD, write: EV_DELETE });
}

#[test]
fn register_takes_options_and_interests_apart() {
    let r = selector().register(4, MioToken(0), MioReady::all(), MioPollOpt::oneshot());
    assert_eq!(r.changes[0].flags, EV_ONESHOT | EV_RECEIPT | EV_ADD);
    assert_eq!(r.changes[1].flags, EV_ONESHOT | EV_RECEIPT | EV_ADD);
    let r = selector().register(4, MioToken(0), MioReady::hup(), MioPollOpt::empty());
    assert_eq!(r.changes[0].flags, EV_RECEIPT | EV_DELETE);
    assert_eq!(r.changes[1].flags, EV_RECEIPT | EV_DELETE);
}

#[test]
fn a_negative_descriptor_keeps_its_bits() {
    let r = selector().deregister(-1);
    assert_eq!(r.changes[0].ident, usize::MAX);
}

#[test]
fn reregister_is_register() {
    let a = selector().register(4, MioToken(2), MioReady::writable(), MioPollOpt::edge());
    let b = selector().reregister(4, MioToken(2), MioReady::writable(), MioPollOpt::edge());
    assert_eq!(a, b);
}

#[test]
fn deregister_takes_both_filters_out() {
    let r = selector().deregister(3);
    assert_eq!(r.kq, 7);
    assert_eq!(r.kind, RequestKind::Deregister);
    assert_eq!(r.changes[0].filter, EVFILT_READ);
    assert_eq!(r.changes[1].filter, EVFILT_WRITE);
    assert_eq!(r.changes[0].flags, 0x42);
    assert_eq!(r.changes[1].flags, 0x42);
    assert_eq!(r.changes[0].udata, 0);
}

#[test]
fn register_outcomes() {
    let r = selector().register(3, MioToken(9), MioReady::readable(), MioPollOpt::edge());
    assert_eq!(r.complete(2, 0, &receipts(&r, 0, 0)), Ok(()));
    // a missing filter that was to be taken out
    assert_eq!(r.complete(2, 0, &receipts(&r, 0, 2)), Ok(()));
    // a missing filter that was to be added
    assert_eq!(r.complete(2, 0, &receipts(&r, 2, 0)), Err(IoError::Os(2)));
    // the other end of the pipe is gone
    assert_eq!(r.complete(2, 0, &receipts(&r, 0, 32)), Ok(()));
    assert_eq!(r.complete(2, 0, &receipts(&r, 32, 0)), Err(IoError::Os(32)));
    // the first error counts
    assert_eq!(r.complete(2, 0, &receipts(&r, 9, 13)), Err(IoError::Os(9)));
    assert_eq!(r.complete(2, 0, &receipts(&r, 0, 13)), Err(IoError::Os(13)));
    // the call itself failed
    assert_eq!(r.complete(-1, 4, &receipts(&r, 0, 0)), Err(IoError::Os(4)));
    // the error number is the low half of the data
    assert_eq!(r.complete(2, 0, &receipts(&r, 1 << 32, 0)), Err(IoError::Os(0)));
    assert_eq!(r.complete(2, 0, &receipts(&r, 0, (1 << 32) + 2)), Ok(()));
}

#[test]
fn deregister_outcomes() {
    let r = selector().deregister(3);
    assert_eq!(r.complete(2, 0, &receipts(&r, 0, 0)), Ok(()));
    assert_eq!(r.complete(2, 0, &receipts(&r, 2, 0)), Ok(()));
    assert_eq!(r.complete(2, 0, &receipts(&r, 0, 2)), Ok(()));
    assert_eq!(r.complete(2, 0, &receipts(&r, 2, 2)), Err(IoError::Os(2)));
    assert_eq!(r.complete(2, 0, &receipts(&r, 9, 0)), Err(IoError::Os(9)));
    // a pipe is no exception here
    assert_eq!(r.complete(2, 0, &receipts(&r, 32, 0)), Err(IoError::Os(32)));
    // the number is that of the first receipt
    assert_eq!(r.complete(2, 0, &receipts(&r, 0, 9)), Err(IoError::Os(0)));
    assert_eq!(r.complete(-1, 9, &receipts(&r, 0, 0)), Err(IoError::Os(9)));
}

#[test]
fn marks_of_receipts() {
    let r = selector().register(3, MioToken(9), MioReady::readable(), MioPollOpt::edge());
    let good = receipts(&r, 0, 0);
    assert!(r.receipts_marked(&good));
    let mut first = good;
    first[0].flags = 0;
    assert!(!r.receipts_marked(&first));
    let mut second = good;
    second[1].flags = 0;
    assert!(!r.receipts_marked(&second));
    // an error in the first receipt decides
    second[0].data = 9;
    assert!(r.receipts_marked(&second));
    let d = selector().deregister(3);
    let mut gone = receipts(&d, 2, 2);
    gone[0].flags = 0;
    assert!(d.receipts_marked(&gone));
    gone[1].data = 0;
    assert!(!d.receipts_marked(&gone));
}

#[test]
fn minus_one_is_the_error() {
    assert_eq!(cvt(-1i32, 5), Err(IoError::Os(5)));
    assert_eq!(cvt(-2i32, 5), Ok(-2));
    assert_eq!(cvt(0isize, 5), Ok(0));
    assert_eq!(cvt(-1isize, 11), Err(IoError::Os(11)));
    assert!((-1i32).is_minus_one() && !1i32.is_minus_one());
    assert!((-1isize).is_minus_one() && !1isize.is_minus_one());
}

#[test]
fn a_source_keeps_its_selector() {
    let mut id = MioSelectorId::new();
    assert_eq!(id.associate_selector(&poll(3)), Ok(()));
    assert_eq!(id.associate_selector(&poll(3)), Ok(()));
    assert_eq!(id.associate_selector(&poll(4)), Err(IoError::AlreadyRegistered));
    assert_eq!(id.associate_selector(&poll(3)), Ok(()));
    assert_eq!(IoError::AlreadyRegistered.message(), Some("socket already registered"));
    assert_eq!(IoError::Os(2).message(), None);
}

#[test]
fn selector_zero_stands_for_none() {
    let mut id = MioSelectorId::new();
    assert_eq!(id.associate_selector(&poll(0)), Ok(()));
    assert_eq!(id.associate_selector(&poll(4)), Ok(()));
}

#[test]
fn a_descriptor_is_an_event_source() {
    let fd = 12;
    let mut source = MioUnixEventedFd(&fd);
    let expected = selector().register(12, MioToken(1), MioReady::readable(), MioPollOpt::edge());
    let made = source.register(&poll(1), MioToken(1), MioReady::readable(), MioPollOpt::edge());
    assert_eq!(made, Ok(expected));
    let made = source.reregister(&poll(1), MioToken(1), MioReady::readable(), MioPollOpt::edge());
    assert_eq!(made, Ok(expected));
    assert_eq!(source.deregister(&poll(1)), Ok(selector().deregister(12)));
}

#[test]
fn a_listener_belongs_to_one_selector() {
    let mut listener = MioTcpListener::new(5);
    assert_eq!(listener.as_raw_fd(), 5);
    let token = MioToken(1);
    let expected = selector().register(5, token, MioReady::readable(), MioPollOpt::edge());
    let made = listener.register(&poll(1), token, MioReady::readable(), MioPollOpt::edge());
    assert_eq!(made, Ok(expected));
    let made = listener.register(&poll(2), token, MioReady::readable(), MioPollOpt::edge());
    assert_eq!(made, Err(IoError::AlreadyRegistered));
    // only a new registration asks
    let made = listener.reregister(&poll(2), token, MioReady::readable(), MioPollOpt::edge());
    assert_eq!(made, Ok(expected));
    assert_eq!(listener.deregister(&poll(2)), Ok(selector().deregister(5)));
}

#[test]
fn a_new_registration_is_idle() {
    let registration = TokioRegistration::new();
    assert!(registration.inner.is_none());
    assert_eq!(registration.state, INIT);
    let evented = TokioPollEvented::new(MioTcpListener::new(8));
    assert_eq!(evented.io.map(|l| l.as_raw_fd()), Some(8));
    assert_eq!(evented.inner.read_readiness, 0);
    assert_eq!(evented.inner.write_readiness, 0);
    let listener = TokioTcpListener::new(MioTcpListener::new(9));
    assert_eq!(listener.io.io.map(|l| l.as_raw_fd()), Some(9));
    assert_eq!(listener.io.inner.registration.state, INIT);
}
