//! Sets of squares as bits of one word.

use vstd::prelude::*;

verus! {

/// Bit `sq` of a 128-bit word, for `sq < 128`.
pub open spec fn bit_is_set(bits: u128, sq: u8) -> bool {
    (bits >> (sq as u128)) & 1 == 1
}

proof fn lemma_bit_zero(sq: u8)
    by (bit_vector)
    requires
        sq < 128,
    ensures
        !bit_is_set(0u128, sq),
{
}

proof fn lemma_bit_insert(bits: u128, sq: u8, t: u8)
    by (bit_vector)
    requires
        sq < 128,
        t < 128,
    ensures
        bit_is_set(bits | (1u128 << (sq as u128)), t) == (t == sq || bit_is_set(bits, t)),
{
}

proof fn lemma_bit_union(a: u128, b: u128, t: u8)
    by (bit_vector)
    requires
        t < 128,
    ensures
        bit_is_set(a | b, t) == (bit_is_set(a, t) || bit_is_set(b, t)),
{
}

proof fn lemma_bits_nonzero(bits: u128) -> (t: u8)
    requires
        bits != 0,
    ensures
        t < 128,
        bit_is_set(bits, t),
{
    assert(exists|t: u8| t < 128 && #[trigger] bit_is_set(bits, t)) by {
        lemma_some_bit(bits);
    }
    choose|t: u8| t < 128 && #[trigger] bit_is_set(bits, t)
}

proof fn lemma_clear_below(bits: u128, n: u8)
    by (bit_vector)
    requires
        n < 128,
        bits & ((1u128 << (n as u128)) - 1) as u128 == 0,
        !bit_is_set(bits, n),
    ensures
        n < 127 ==> bits & ((1u128 << ((n + 1) as u128)) - 1) as u128 == 0,
        n == 127 ==> bits == 0,
{
}

proof fn lemma_clear_none(bits: u128)
    by (bit_vector)
    ensures
        bits & ((1u128 << 0u128) - 1) as u128 == 0,
{
}

proof fn lemma_scan(bits: u128, n: u8)
    requires
        bits != 0,
        n < 128,
        bits & ((1u128 << (n as u128)) - 1) as u128 == 0,
    ensures
        exists|t: u8| t < 128 && #[trigger] bit_is_set(bits, t),
    decreases 128 - n,
{
    if !bit_is_set(bits, n) {
        lemma_clear_below(bits, n);
        lemma_scan(bits, (n + 1) as u8);
    }
}

proof fn lemma_some_bit(bits: u128)
    requires
        bits != 0,
    ensures
        exists|t: u8| t < 128 && #[trigger] bit_is_set(bits, t),
{
    lemma_clear_none(bits);
    lemma_scan(bits, 0);
}

/// A set of squares of the bordered board, one bit per index below 128.
#[derive(Copy, Clone, Debug)]
pub struct SquareSet {
    pub bits: u128,
}

impl View for SquareSet {
    type V = Set<u8>;

    open spec fn view(&self) -> Set<u8> {
        Set::new(|sq: u8| sq < 128 && bit_is_set(self.bits, sq))
    }
}

impl SquareSet {
    /// The set without squares.
    pub fn empty() -> (r: SquareSet)
        ensures
            r@ == Set::<u8>::empty(),
    {
        let r = SquareSet { bits: 0 };
        proof {
            assert forall|t: u8| !r@.contains(t) by {
                if t < 128 {
                    lemma_bit_zero(t);
                }
            }
            assert(r@ =~= Set::<u8>::empty());
        }
        r
    }

    /// The set that holds `sq` alone.
    pub fn single(sq: u8) -> (r: SquareSet)
        requires
            sq < 128,
        ensures
            r@ == Set::<u8>::empty().insert(sq),
    {
        let mut r = SquareSet::empty();
        r.insert(sq);
        r
    }

    /// Whether the set holds `sq`.
    pub fn contains(&self, sq: u8) -> (r: bool)
        ensures
            r == self@.contains(sq),
    {
        sq < 128 && (self.bits >> (sq as u128)) & 1 == 1
    }

    /// Whether the set holds no square.
    pub fn is_empty(&self) -> (r: bool)
        ensures
            r == (self@ == Set::<u8>::empty()),
    {
        proof {
            if self.bits == 0 {
                assert forall|t: u8| !self@.contains(t) by {
                    if t < 128 {
                        lemma_bit_zero(t);
                    }
                }
                assert(self@ =~= Set::<u8>::empty());
            } else {
                let t = lemma_bits_nonzero(self.bits);
                assert(self@.contains(t));
            }
        }
        self.bits == 0
    }

    /// Adds one square.
    pub fn insert(&mut self, sq: u8)
        requires
            sq < 128,
        ensures
            final(self)@ == old(self)@.insert(sq),
    {
        let ghost before = self.bits;
        self.bits = self.bits | (1u128 << (sq as u128));
        proof {
            assert forall|t: u8| self@.contains(t) == old(self)@.insert(sq).contains(t) by {
                if t < 128 {
                    lemma_bit_insert(before, sq, t);
                }
            }
            assert(self@ =~= old(self)@.insert(sq));
        }
    }

    /// Adds every square of `other`.
    pub fn add_all(&mut self, other: SquareSet)
        ensures
            final(self)@ == old(self)@.union(other@),
    {
        let ghost before = self.bits;
        self.bits = self.bits | other.bits;
        proof {
            assert forall|t: u8| self@.contains(t) == old(self)@.union(other@).contains(t) by {
                if t < 128 {
                    lemma_bit_union(before, other.bits, t);
                }
            }
            assert(self@ =~= old(self)@.union(other@));
        }
    }
}

} // verus!
