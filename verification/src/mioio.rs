//! What an event source is ready for, and how a registration is to behave.

use crate::bitset::{
    bits_of, has_bit, law_low_bits, lemma_bit_ops, lemma_mask_is_subset, lemma_no_bits,
    lemma_one_bit, lemma_same_bits,
};
use vstd::prelude::*;

verus! {

/// A set of readiness kinds, one bit each.
#[derive(Copy, Clone, PartialEq, Eq, PartialOrd, Ord, Structural)]
pub struct MioReady(usize);

pub const READABLE: usize = 0b00001;

pub const WRITABLE: usize = 0b00010;

pub const ERROR: usize = 0b00100;

pub const HUP: usize = 0b01000;

/// Asynchronous I/O readiness, on the systems that report it.
pub const AIO: usize = 0b01_0000;

/// List I/O readiness: no bit of its own.
pub const LIO: usize = 0b00_0000;

/// The kinds that a source may report beside reading and writing.
pub const READY_ALL: usize = ERROR | HUP | AIO | LIO;

/// The bit positions of the single kinds.
proof fn lemma_kinds()
    ensures
        bits_of(READABLE) == set![0int],
        bits_of(WRITABLE) == set![1int],
        bits_of(ERROR) == set![2int],
        bits_of(HUP) == set![3int],
        bits_of(AIO) == set![4int],
{
    lemma_one_bit(0);
    lemma_one_bit(1);
    lemma_one_bit(2);
    lemma_one_bit(3);
    lemma_one_bit(4);
    assert(1usize << 0usize == 1 && 1usize << 1usize == 2 && 1usize << 2usize == 4 && 1usize
        << 3usize == 8 && 1usize << 4usize == 16) by (bit_vector);
}

/// Whether one set of bits contains the single bit at `i`.
pub(crate) proof fn lemma_single_subset(s: Set<int>, i: int)
    ensures
        set![i].subset_of(s) == s.contains(i),
{
    assert(set![i].contains(i));
}

impl View for MioReady {
    type V = Set<int>;

    /// The positions of the bits that are set: 0 for readable, 1 for writable,
    /// 2 for error, 3 for hup and 4 for asynchronous I/O.
    open spec fn view(&self) -> Set<int> {
        bits_of(self.word())
    }
}

impl MioReady {
    /// The set as one word.
    pub closed spec fn word(&self) -> usize {
        self.0
    }

    pub fn empty() -> (r: MioReady)
        ensures
            r.word() == 0,
            r@ == Set::<int>::empty(),
    {
        proof {
            lemma_no_bits(0);
        }
        MioReady(0)
    }

    pub fn none() -> (r: MioReady)
        ensures
            r.word() == 0,
            r@ == Set::<int>::empty(),
    {
        MioReady::empty()
    }

    #[inline]
    pub fn readable() -> (r: MioReady)
        ensures
            r.word() == 0b00001,
            r@ == set![0int],
    {
        proof {
            lemma_kinds();
        }
        MioReady(READABLE)
    }

    #[inline]
    pub fn writable() -> (r: MioReady)
        ensures
            r.word() == 0b00010,
            r@ == set![1int],
    {
        proof {
            lemma_kinds();
        }
        MioReady(WRITABLE)
    }

    #[inline]
    pub fn error() -> (r: MioReady)
        ensures
            r.word() == 0b00100,
            r@ == set![2int],
    {
        proof {
            lemma_kinds();
        }
        MioReady(ERROR)
    }

    #[inline]
    pub fn hup() -> (r: MioReady)
        ensures
            r.word() == 0b01000,
            r@ == set![3int],
    {
        proof {
            lemma_kinds();
        }
        MioReady(HUP)
    }

    /// Every kind there is.
    #[inline]
    pub fn all() -> (r: MioReady)
        ensures
            r.word() == 0b11111,
            r@ == set![0int, 1int, 2int, 3int, 4int],
    {
        let word: usize = READABLE | WRITABLE | READY_ALL;
        proof {
            assert(0b00001usize | 0b00010usize | (0b00100usize | 0b01000usize | 0b10000usize
                | 0usize) == 0b11111usize) by (bit_vector);
            lemma_kinds();
            lemma_bit_ops(0b00001, 0b00010);
            lemma_bit_ops(0b00011, 0b00100);
            lemma_bit_ops(0b00111, 0b01000);
            lemma_bit_ops(0b01111, 0b10000);
            assert(0b00001usize | 0b00010usize == 0b00011usize && 0b00011usize | 0b00100usize
                == 0b00111usize && 0b00111usize | 0b01000usize == 0b01111usize && 0b01111usize
                | 0b10000usize == 0b11111usize) by (bit_vector);
            assert(bits_of(0b11111) =~= set![0int, 1int, 2int, 3int, 4int]);
        }
        MioReady(word)
    }

    #[inline]
    pub fn is_empty(&self) -> (r: bool)
        ensures
            r == (self@ == Set::<int>::empty()),
            r == (self.word() == 0),
    {
        proof {
            lemma_no_bits(self.0);
        }
        *self == MioReady::empty()
    }

    #[inline]
    pub fn is_none(&self) -> (r: bool)
        ensures
            r == (self@ == Set::<int>::empty()),
            r == (self.word() == 0),
    {
        self.is_empty()
    }

    #[inline]
    pub fn is_readable(&self) -> (r: bool)
        ensures
            r == self@.contains(0),
            r == (self.word() % 2 == 1),
    {
        proof {
            law_low_bits(self.0);
            lemma_single_subset(self@, 0);
        }
        self.contains(MioReady::readable())
    }

    #[inline]
    pub fn is_writable(&self) -> (r: bool)
        ensures
            r == self@.contains(1),
            r == ((self.word() / 2) % 2 == 1),
    {
        proof {
            law_low_bits(self.0);
            lemma_single_subset(self@, 1);
        }
        self.contains(MioReady::writable())
    }

    #[inline]
    pub fn is_error(&self) -> (r: bool)
        ensures
            r == self@.contains(2),
            r == ((self.word() / 4) % 2 == 1),
    {
        proof {
            law_low_bits(self.0);
            lemma_kinds();
            lemma_single_subset(self@, 2);
        }
        self.contains(MioReady(ERROR))
    }

    #[inline]
    pub fn is_hup(&self) -> (r: bool)
        ensures
            r == self@.contains(3),
            r == ((self.word() / 8) % 2 == 1),
    {
        proof {
            law_low_bits(self.0);
            lemma_kinds();
            lemma_single_subset(self@, 3);
        }
        self.contains(MioReady(HUP))
    }

    /// Adds every kind of `other`.
    #[inline]
    pub fn insert(&mut self, other: MioReady)
        ensures
            final(self).word() == old(self).word() | other.word(),
            final(self)@ == old(self)@.union(other@),
    {
        proof {
            lemma_bit_ops(self.0, other.0);
        }
        self.0 |= other.0;
    }

    /// Takes out every kind of `other`.
    #[inline]
    pub fn remove(&mut self, other: MioReady)
        ensures
            final(self).word() == old(self).word() & !other.word(),
            final(self)@ == old(self)@.difference(other@),
    {
        proof {
            lemma_bit_ops(self.0, other.0);
        }
        self.0 &= !other.0;
    }

    #[inline]
    pub fn bits(&self) -> (r: usize)
        ensures
            r == self.word(),
    {
        self.0
    }

    /// Whether every kind of `other` is in this set.
    #[inline]
    pub fn contains(&self, other: MioReady) -> (r: bool)
        ensures
            r == (self.word() & other.word() == other.word()),
            r == other@.subset_of(self@),
    {
        proof {
            lemma_mask_is_subset(self.0, other.0);
        }
        (*self & other) == other
    }
}

impl std::ops::BitAnd for MioReady {
    type Output = MioReady;

    #[inline]
    fn bitand(self, other: MioReady) -> (r: MioReady)
        ensures
            r.word() == self.word() & other.word(),
            r@ == self@.intersect(other@),
    {
        proof {
            lemma_bit_ops(self.0, other.0);
        }
        MioReady(self.0 & other.0)
    }
}

impl vstd::std_specs::ops::BitAndSpecImpl for MioReady {
    open spec fn obeys_bitand_spec() -> bool {
        true
    }

    open spec fn bitand_req(self, rhs: MioReady) -> bool {
        true
    }

    closed spec fn bitand_spec(self, rhs: MioReady) -> MioReady {
        MioReady(self.0 & rhs.0)
    }
}

/// How a registration is to behave, one bit for each option.
#[derive(Copy, Clone, PartialEq, Eq, PartialOrd, Ord, Structural)]
pub struct MioPollOpt(usize);

impl View for MioPollOpt {
    type V = Set<int>;

    /// The positions of the bits that are set: 0 for edge triggered and 2 for one shot.
    open spec fn view(&self) -> Set<int> {
        bits_of(self.word())
    }
}

impl MioPollOpt {
    /// The options as one word.
    pub closed spec fn word(&self) -> usize {
        self.0
    }

    #[inline]
    pub fn empty() -> (r: MioPollOpt)
        ensures
            r.word() == 0,
            r@ == Set::<int>::empty(),
    {
        proof {
            lemma_no_bits(0);
        }
        MioPollOpt(0)
    }

    /// Report only changes of readiness.
    #[inline]
    pub fn edge() -> (r: MioPollOpt)
        ensures
            r.word() == 0b0001,
            r@ == set![0int],
    {
        proof {
            lemma_kinds();
        }
        MioPollOpt(0b0001)
    }

    /// Report one event only.
    #[inline]
    pub fn oneshot() -> (r: MioPollOpt)
        ensures
            r.word() == 0b0100,
            r@ == set![2int],
    {
        proof {
            lemma_kinds();
        }
        MioPollOpt(0b0100)
    }

    /// Whether every option of `other` is in this set.
    #[inline]
    pub fn contains(&self, other: MioPollOpt) -> (r: bool)
        ensures
            r == (self.word() & other.word() == other.word()),
            r == other@.subset_of(self@),
    {
        proof {
            lemma_mask_is_subset(self.0, other.0);
        }
        (*self & other) == other
    }
}

impl std::ops::BitAnd for MioPollOpt {
    type Output = MioPollOpt;

    #[inline]
    fn bitand(self, other: MioPollOpt) -> (r: MioPollOpt)
        ensures
            r.word() == self.word() & other.word(),
            r@ == self@.intersect(other@),
    {
        proof {
            lemma_bit_ops(self.0, other.0);
        }
        MioPollOpt(self.0 & other.0)
    }
}

impl vstd::std_specs::ops::BitAndSpecImpl for MioPollOpt {
    open spec fn obeys_bitand_spec() -> bool {
        true
    }

    open spec fn bitand_req(self, rhs: MioPollOpt) -> bool {
        true
    }

    closed spec fn bitand_spec(self, rhs: MioPollOpt) -> MioPollOpt {
        MioPollOpt(self.0 & rhs.0)
    }
}

/// The numbers of the kinds: each has a bit of its own, and list I/O has none.
pub proof fn law_numbers_of_kinds()
    ensures
        READABLE == 1,
        WRITABLE == 2,
        ERROR == 4,
        HUP == 8,
        AIO == 16,
        LIO == 0,
        READY_ALL == 28,
{
    assert(0b00100usize | 0b01000usize | 0b10000usize | 0usize == 28usize) by (bit_vector);
}

/// Which kinds are in a set, read off its word, and which options are.
pub proof fn law_words_of_sets(ready: MioReady, opts: MioPollOpt)
    ensures
        ready@.contains(0) <==> ready.word() % 2 == 1,
        ready@.contains(1) <==> (ready.word() / 2) % 2 == 1,
        ready@.contains(2) <==> (ready.word() / 4) % 2 == 1,
        ready@.contains(3) <==> (ready.word() / 8) % 2 == 1,
        ready@.contains(4) <==> (ready.word() / 16) % 2 == 1,
        opts@.contains(0) <==> opts.word() % 2 == 1,
        opts@.contains(2) <==> (opts.word() / 4) % 2 == 1,
{
    law_low_bits(ready.word());
    law_low_bits(opts.word());
}

/// Sets of kinds are told apart by their words, and by the kinds that are in them.
pub proof fn law_same_kinds_same_set(a: MioReady, b: MioReady)
    ensures
        (a == b) == (a.word() == b.word()),
        (a == b) == (a@ == b@),
{
    if a@ == b@ {
        assert forall|i: int| 0 <= i < usize::BITS implies #[trigger] has_bit(a.word(), i)
            == has_bit(b.word(), i) by {
            assert(a@.contains(i) == b@.contains(i));
        }
        lemma_same_bits(a.word(), b.word());
    }
}

/// A set into which another was inserted contains both. Removing what was inserted
/// leaves nothing of it, and gives the first set back where the two had nothing in
/// common.
pub proof fn law_remove_undoes_insert(
    set: MioReady,
    other: MioReady,
    inserted: MioReady,
    removed: MioReady,
)
    requires
        inserted.word() == set.word() | other.word(),
        removed.word() == inserted.word() & !other.word(),
    ensures
        set@.subset_of(inserted@),
        other@.subset_of(inserted@),
        removed@.disjoint(other@),
        set@.disjoint(other@) ==> removed == set,
{
    lemma_bit_ops(set.word(), other.word());
    lemma_bit_ops(inserted.word(), other.word());
    if set@.disjoint(other@) {
        assert(removed@ =~= set@);
        law_same_kinds_same_set(removed, set);
    }
}

/// Containment orders the sets of kinds: each set contains itself and the empty set, two
/// that contain each other are the same, and what a contained set contains is contained.
pub proof fn law_contains_is_an_order(a: MioReady, b: MioReady, c: MioReady)
    ensures
        a@.subset_of(a@),
        a.word() == 0 ==> a@.subset_of(b@),
        a@.subset_of(b@) && b@.subset_of(a@) ==> a == b,
        a@.subset_of(b@) && b@.subset_of(c@) ==> a@.subset_of(c@),
{
    lemma_no_bits(a.word());
    if a@.subset_of(b@) && b@.subset_of(a@) {
        assert(a@ =~= b@);
        law_same_kinds_same_set(a, b);
    }
}

/// Sets of options are told apart by their words, and by the options that are in them.
pub proof fn law_same_options_same_set(a: MioPollOpt, b: MioPollOpt)
    ensures
        (a == b) == (a.word() == b.word()),
        (a == b) == (a@ == b@),
{
    if a@ == b@ {
        assert forall|i: int| 0 <= i < usize::BITS implies #[trigger] has_bit(a.word(), i)
            == has_bit(b.word(), i) by {
            assert(a@.contains(i) == b@.contains(i));
        }
        lemma_same_bits(a.word(), b.word());
    }
}

/// Containment orders the sets of options: each set contains itself and the empty set, two
/// that contain each other are the same, and what a contained set contains is contained.
pub proof fn law_option_containment_is_an_order(a: MioPollOpt, b: MioPollOpt, c: MioPollOpt)
    ensures
        a@.subset_of(a@),
        a.word() == 0 ==> a@.subset_of(b@),
        a@.subset_of(b@) && b@.subset_of(a@) ==> a == b,
        a@.subset_of(b@) && b@.subset_of(c@) ==> a@.subset_of(c@),
{
    lemma_no_bits(a.word());
    if a@.subset_of(b@) && b@.subset_of(a@) {
        assert(a@ =~= b@);
        law_same_options_same_set(a, b);
    }
}

} // verus!
