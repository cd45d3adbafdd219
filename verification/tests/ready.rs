use toyexec::mioio::{MioPollOpt, MioReady, READY_ALL};

#[test]
fn single_kinds_have_their_bits() {
    assert_eq!(MioReady::empty().bits(), 0);
    assert_eq!(MioReady::none().bits(), 0);
    assert_eq!(MioReady::readable().bits(), 1);
    assert_eq!(MioReady::writable().bits(), 2);
    assert_eq!(MioReady::error().bits(), 4);
    assert_eq!(MioReady::hup().bits(), 8);
    assert_eq!(MioReady::all().bits(), 31);
    assert_eq!(READY_ALL, 28);
}

#[test]
fn predicates_look_at_one_kind() {
    let r = MioReady::readable();
    assert!(r.is_readable() && !r.is_writable() && !r.is_error() && !r.is_hup());
    let w = MioReady::writable();
    assert!(!w.is_readable() && w.is_writable() && !w.is_error() && !w.is_hup());
    let e = MioReady::error();
    assert!(!e.is_readable() && !e.is_writable() && e.is_error() && !e.is_hup());
    let h = MioReady::hup();
    assert!(!h.is_readable() && !h.is_writable() && !h.is_error() && h.is_hup());
    let all = MioReady::all();
    assert!(all.is_readable() && all.is_writable() && all.is_error() && all.is_hup());
    assert!(!all.is_empty() && !all.is_none());
    assert!(MioReady::empty().is_empty() && MioReady::empty().is_none());
}

#[test]
fn remove_undoes_insert() {
    let mut r = MioReady::readable();
    r.insert(MioReady::hup());
    assert_eq!(r.bits(), 9);
    assert!(r.contains(MioReady::hup()) && r.contains(MioReady::readable()));
    r.remove(MioReady::hup());
    assert!(r == MioReady::readable());
}

#[test]
fn removing_what_is_shared_does_not_give_it_back() {
    let mut r = MioReady::readable();
    r.insert(MioReady::readable());
    r.remove(MioReady::readable());
    assert!(r.is_empty());
}

#[test]
fn contains_asks_for_every_kind() {
    let mut both = MioReady::readable();
    both.insert(MioReady::writable());
    assert!(!MioReady::readable().contains(both));
    assert!(both.contains(both));
    assert!(MioReady::all().contains(both));
    assert!(MioReady::empty().contains(MioReady::empty()));
    assert!((both & MioReady::writable()) == MioReady::writable());
    assert!((both & MioReady::hup()) == MioReady::empty());
}

#[test]
fn sets_are_equal_when_their_words_are() {
    let mut a = MioReady::readable();
    a.insert(MioReady::writable());
    let mut b = MioReady::writable();
    b.insert(MioReady::readable());
    assert!(a == b);
    assert_eq!(a.bits(), b.bits());
    assert!(a < MioReady::error());
}

#[test]
fn poll_options() {
    assert!(MioPollOpt::edge().contains(MioPollOpt::edge()));
    assert!(!MioPollOpt::edge().contains(MioPollOpt::oneshot()));
    assert!(MioPollOpt::oneshot().contains(MioPollOpt::empty()));
    assert!(!MioPollOpt::oneshot().contains(MioPollOpt::edge()));
    assert!(!MioPollOpt::empty().contains(MioPollOpt::oneshot()));
    assert!((MioPollOpt::oneshot() & MioPollOpt::oneshot()) == MioPollOpt::oneshot());
    assert!((MioPollOpt::oneshot() & MioPollOpt::edge()) == MioPollOpt::empty());
    assert!((MioPollOpt::edge() & MioPollOpt::oneshot()) == MioPollOpt::empty());
}
