//! Words seen as sets of bit positions.

use vstd::prelude::*;

verus! {

/// Bit `i` of `word` is set.
pub open spec fn has_bit(word: usize, i: int) -> bool {
    0 <= i < usize::BITS && (word >> (i as usize)) & 1 == 1
}

/// The positions of the bits that are set in `word`.
pub open spec fn bits_of(word: usize) -> Set<int> {
    Set::new(|i: int| has_bit(word, i))
}

/// Halving a word moves every bit down by one position.
proof fn lemma_half(a: usize, i: int)
    ensures
        0 <= i && i + 1 < usize::BITS ==> has_bit(a >> 1, i) == has_bit(a, i + 1),
        i + 1 == usize::BITS ==> !has_bit(a >> 1, i),
{
    if 0 <= i < usize::BITS {
        let k = i as usize;
        if i + 1 < usize::BITS {
            let k1 = (k + 1) as usize;
            assert((a >> 1) >> k == a >> k1) by (bit_vector)
                requires
                    k < usize::BITS,
                    k1 < usize::BITS,
                    k1 == k + 1,
            ;
        } else {
            assert(((a >> 1) >> k) & 1 == 0) by (bit_vector)
                requires
                    k + 1 == usize::BITS,
            ;
        }
    }
}

/// Two words with the same bits are the same word.
pub proof fn lemma_same_bits(a: usize, b: usize)
    requires
        forall|i: int| 0 <= i < usize::BITS ==> #[trigger] has_bit(a, i) == has_bit(b, i),
    ensures
        a == b,
    decreases a + b,
{
    if a != 0 || b != 0 {
        assert((a >> 1) <= a && (b >> 1) <= b) by (bit_vector);
        assert(a != 0 ==> (a >> 1) < a) by (bit_vector);
        assert(b != 0 ==> (b >> 1) < b) by (bit_vector);
        assert forall|i: int| 0 <= i < usize::BITS implies #[trigger] has_bit(a >> 1, i) == has_bit(
            b >> 1,
            i,
        ) by {
            lemma_half(a, i);
            lemma_half(b, i);
            if i + 1 < usize::BITS {
                assert(has_bit(a, i + 1) == has_bit(b, i + 1));
            }
        }
        lemma_same_bits(a >> 1, b >> 1);
        assert(has_bit(a, 0) == has_bit(b, 0));
        assert((a >> 0usize) & 1 == a & 1 && (b >> 0usize) & 1 == b & 1) by (bit_vector);
        assert(a & 1 == 0 || a & 1 == 1) by (bit_vector);
        assert(b & 1 == 0 || b & 1 == 1) by (bit_vector);
        assert(a == b) by (bit_vector)
            requires
                a >> 1 == b >> 1,
                a & 1 == b & 1,
        ;
    }
}

/// `|`, `&` and `& !` on words are union, intersection and difference of their
/// sets of bits.
pub proof fn lemma_bit_ops(a: usize, b: usize)
    ensures
        bits_of(a | b) == bits_of(a).union(bits_of(b)),
        bits_of(a & b) == bits_of(a).intersect(bits_of(b)),
        bits_of(a & !b) == bits_of(a).difference(bits_of(b)),
{
    assert forall|i: int| 0 <= i < usize::BITS implies {
        &&& #[trigger] has_bit(a | b, i) == (has_bit(a, i) || has_bit(b, i))
        &&& has_bit(a & b, i) == (has_bit(a, i) && has_bit(b, i))
        &&& has_bit(a & !b, i) == (has_bit(a, i) && !has_bit(b, i))
    } by {
        let k = i as usize;
        assert(((a | b) >> k) & 1 == 1 <==> (a >> k) & 1 == 1 || (b >> k) & 1 == 1) by (bit_vector);
        assert(((a & b) >> k) & 1 == 1 <==> (a >> k) & 1 == 1 && (b >> k) & 1 == 1) by (bit_vector);
        assert(((a & !b) >> k) & 1 == 1 <==> (a >> k) & 1 == 1 && (b >> k) & 1 != 1) by (bit_vector)
            requires
                k < usize::BITS,
        ;
    }
    assert(bits_of(a | b) =~= bits_of(a).union(bits_of(b))) by {
        assert forall|i: int| bits_of(a | b).contains(i) == bits_of(a).union(bits_of(b)).contains(i) by {
            assert(has_bit(a | b, i) == (has_bit(a, i) || has_bit(b, i)));
        }
    }
    assert(bits_of(a & b) =~= bits_of(a).intersect(bits_of(b))) by {
        assert forall|i: int| bits_of(a & b).contains(i) == bits_of(a).intersect(bits_of(b)).contains(i) by {
            assert(0 <= i < usize::BITS ==> has_bit(a | b, i) == (has_bit(a, i) || has_bit(b, i)));
        }
    }
    assert(bits_of(a & !b) =~= bits_of(a).difference(bits_of(b))) by {
        assert forall|i: int| bits_of(a & !b).contains(i) == bits_of(a).difference(bits_of(b)).contains(i) by {
            assert(0 <= i < usize::BITS ==> has_bit(a | b, i) == (has_bit(a, i) || has_bit(b, i)));
        }
    }
}

/// Masking with `b` leaves `b` whole exactly when all bits of `b` are in `a`.
pub proof fn lemma_mask_is_subset(a: usize, b: usize)
    ensures
        (a & b == b) == bits_of(b).subset_of(bits_of(a)),
{
    lemma_bit_ops(a, b);
    if bits_of(b).subset_of(bits_of(a)) {
        assert forall|i: int| 0 <= i < usize::BITS implies #[trigger] has_bit(a & b, i) == has_bit(b, i) by {
            assert(bits_of(a & b).contains(i) == (bits_of(a).contains(i) && bits_of(b).contains(i)));
        }
        lemma_same_bits(a & b, b);
    } else {
        let i = choose|i: int| bits_of(b).contains(i) && !bits_of(a).contains(i);
        assert(!bits_of(a & b).contains(i));
    }
}

/// A one shifted to position `k` has that bit and no other.
pub proof fn lemma_one_bit(k: usize)
    requires
        k < usize::BITS,
    ensures
        bits_of(1usize << k) == set![k as int],
{
    assert forall|i: int| bits_of(1usize << k).contains(i) == set![k as int].contains(i) by {
        if 0 <= i < usize::BITS {
            let j = i as usize;
            assert(((1usize << k) >> j) & 1 == 1 <==> j == k) by (bit_vector)
                requires
                    k < usize::BITS,
                    j < usize::BITS,
            ;
        }
    }
    assert(bits_of(1usize << k) =~= set![k as int]);
}

/// No bit is set in zero, and zero is the only such word.
pub proof fn lemma_no_bits(a: usize)
    ensures
        (a == 0) == (bits_of(a) == Set::<int>::empty()),
{
    assert forall|i: int| 0 <= i < usize::BITS implies !#[trigger] has_bit(0, i) by {
        let k = i as usize;
        assert((0usize >> k) & 1 == 0) by (bit_vector);
    }
    assert(bits_of(0) =~= Set::<int>::empty());
    if bits_of(a) == Set::<int>::empty() {
        assert forall|i: int| 0 <= i < usize::BITS implies #[trigger] has_bit(a, i) == has_bit(0, i) by {
            assert(!bits_of(a).contains(i));
        }
        lemma_same_bits(a, 0);
    }
}

/// A position is in the set of a word exactly when masking the word with a one shifted to
/// that position leaves something, and only the positions of a word are.
pub proof fn law_bits_are_masks(word: usize, i: int)
    ensures
        bits_of(word).contains(i) ==> 0 <= i < usize::BITS,
        0 <= i < usize::BITS ==> (bits_of(word).contains(i) <==> word & (1usize << (i as usize))
            != 0),
{
    if 0 <= i < usize::BITS {
        let k = i as usize;
        assert((word >> k) & 1 == 1 <==> word & (1usize << k) != 0) by (bit_vector)
            requires
                k < usize::BITS,
        ;
    }
}

/// What the lowest five positions of a word stand for, as numbers.
pub proof fn law_low_bits(word: usize)
    ensures
        bits_of(word).contains(0) <==> word % 2 == 1,
        bits_of(word).contains(1) <==> (word / 2) % 2 == 1,
        bits_of(word).contains(2) <==> (word / 4) % 2 == 1,
        bits_of(word).contains(3) <==> (word / 8) % 2 == 1,
        bits_of(word).contains(4) <==> (word / 16) % 2 == 1,
{
    assert((word >> 0usize) & 1 == word % 2 && (word >> 1usize) & 1 == (word / 2) % 2 && (word
        >> 2usize) & 1 == (word / 4) % 2 && (word >> 3usize) & 1 == (word / 8) % 2 && (word
        >> 4usize) & 1 == (word / 16) % 2) by (bit_vector);
}

} // verus!
