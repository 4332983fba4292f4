//! A cache of fixed size from hashes to values, in buckets that drop their
//! oldest entry.

use vstd::arithmetic::power2::lemma_pow2_pos;
use vstd::arithmetic::power2::lemma_pow2_strictly_increases;
use vstd::arithmetic::power2::lemma_pow2_unfold;
use vstd::arithmetic::power2::pow2;
use vstd::bits::lemma_u64_low_bits_mask_is_mod;
use vstd::bits::low_bits_mask;
use vstd::prelude::*;

verus! {

/// The value found first for `hash` in `entries[i..]`, if there is one.
pub open spec fn bucket_find<T>(entries: Seq<Option<(u64, T)>>, hash: u64, i: int) -> Option<T>
    decreases entries.len() - i,
{
    if i < 0 || i >= entries.len() {
        None
    } else {
        match entries[i] {
            Some((stored, value)) => if stored == hash {
                Some(value)
            } else {
                bucket_find(entries, hash, i + 1)
            },
            None => bucket_find(entries, hash, i + 1),
        }
    }
}

/// A bucket after an entry is put in front: every entry moves one place
/// back, and the one in the last place, the oldest, is gone.
pub open spec fn bucket_put<T>(entries: Seq<Option<(u64, T)>>, hash: u64, value: T) -> Seq<
    Option<(u64, T)>,
> {
    Seq::new(
        entries.len(),
        |i: int|
            if i == 0 {
                Some((hash, value))
            } else {
                entries[i - 1]
            },
    )
}

/// A bucket without entries.
pub open spec fn bucket_empty<T>(size: nat) -> Seq<Option<(u64, T)>> {
    Seq::new(size, |i: int| None)
}

/// The index that the low `bits` bits of a hash give.
pub open spec fn bucket_index(hash: u64, bits: nat) -> int {
    hash as int % pow2(bits) as int
}

/// What a table holds for `hash`: what its bucket finds first.
pub open spec fn table_lookup<T>(buckets: Seq<Seq<Option<(u64, T)>>>, bits: nat, hash: u64) -> Option<
    T,
> {
    bucket_find(buckets[bucket_index(hash, bits)], hash, 0)
}

/// A table after `value` is set for `hash`.
pub open spec fn table_set<T>(
    buckets: Seq<Seq<Option<(u64, T)>>>,
    bits: nat,
    hash: u64,
    value: T,
) -> Seq<Seq<Option<(u64, T)>>> {
    buckets.update(
        bucket_index(hash, bits),
        bucket_put(buckets[bucket_index(hash, bits)], hash, value),
    )
}

/// A table of `pow2(bits)` buckets of the given size, all without entries.
pub open spec fn table_empty<T>(bits: nat, size: nat) -> Seq<Seq<Option<(u64, T)>>> {
    Seq::new(pow2(bits), |i: int| bucket_empty(size))
}

/// What is set for a hash is found for it, whatever the table held.
pub proof fn lemma_set_then_get<T>(
    buckets: Seq<Seq<Option<(u64, T)>>>,
    bits: nat,
    hash: u64,
    value: T,
)
    requires
        buckets.len() == pow2(bits),
        buckets[bucket_index(hash, bits)].len() > 0,
    ensures
        table_lookup(table_set(buckets, bits, hash, value), bits, hash) == Some(value),
{
    lemma_pow2_pos(bits);
    let idx = bucket_index(hash, bits);
    assert(0 <= idx < buckets.len()) by (nonlinear_arith)
        requires
            idx == hash as int % pow2(bits) as int,
            buckets.len() == pow2(bits),
            pow2(bits) > 0,
    ;
}

/// Setting a value changes nothing for a hash that has another bucket.
pub proof fn lemma_set_elsewhere<T>(
    buckets: Seq<Seq<Option<(u64, T)>>>,
    bits: nat,
    hash: u64,
    value: T,
    other: u64,
)
    requires
        buckets.len() == pow2(bits),
        bucket_index(other, bits) != bucket_index(hash, bits),
    ensures
        table_lookup(table_set(buckets, bits, hash, value), bits, other) == table_lookup(
            buckets,
            bits,
            other,
        ),
{
    lemma_pow2_pos(bits);
    let idx = bucket_index(other, bits);
    assert(0 <= idx < buckets.len()) by (nonlinear_arith)
        requires
            idx == other as int % pow2(bits) as int,
            buckets.len() == pow2(bits),
            pow2(bits) > 0,
    ;
}

/// Nothing is found in a table without entries.
pub proof fn lemma_empty_finds_nothing<T>(bits: nat, size: nat, hash: u64)
    ensures
        table_lookup(table_empty::<T>(bits, size), bits, hash) is None,
{
    lemma_pow2_pos(bits);
    let idx = bucket_index(hash, bits);
    assert(0 <= idx < pow2(bits)) by (nonlinear_arith)
        requires
            idx == hash as int % pow2(bits) as int,
            pow2(bits) > 0,
    ;
    lemma_bucket_empty_finds_nothing::<T>(size, hash, 0);
}

proof fn lemma_bucket_empty_finds_nothing<T>(size: nat, hash: u64, i: int)
    ensures
        bucket_find(bucket_empty::<T>(size), hash, i) is None,
    decreases size - i,
{
    if 0 <= i < size {
        lemma_bucket_empty_finds_nothing::<T>(size, hash, i + 1);
    }
}

/// A few entries that share the low bits of their hashes, newest first.
pub struct Bucket<T: Copy, const BUCKET_SIZE: usize> {
    pub entries: [Option<(u64, T)>; BUCKET_SIZE],
}

impl<T: Copy, const BUCKET_SIZE: usize> Bucket<T, BUCKET_SIZE> {
    /// A bucket without entries.
    pub fn new() -> (r: Self)
        ensures
            r.entries@ == bucket_empty::<T>(BUCKET_SIZE as nat),
    {
        let r = Bucket { entries: [None;BUCKET_SIZE] };
        assert(r.entries@ =~= bucket_empty::<T>(BUCKET_SIZE as nat));
        r
    }

    /// Drops every entry.
    pub fn clear(&mut self)
        ensures
            final(self).entries@ == bucket_empty::<T>(BUCKET_SIZE as nat),
    {
        self.entries = [None;BUCKET_SIZE];
        assert(self.entries@ =~= bucket_empty::<T>(BUCKET_SIZE as nat));
    }
}

/// A cache from position hashes to values, of fixed size: `2^COMP_BITS`
/// buckets of `BUCKET_SIZE` entries, a hash's bucket chosen by its low
/// `COMP_BITS` bits.
pub struct HashTable<T: Copy, const COMP_BITS: usize, const BUCKET_SIZE: usize> {
    pub table: Vec<Bucket<T, BUCKET_SIZE>>,
    pub mask: u64,
}

impl<T: Copy, const COMP_BITS: usize, const BUCKET_SIZE: usize> View for HashTable<
    T,
    COMP_BITS,
    BUCKET_SIZE,
> {
    type V = Seq<Seq<Option<(u64, T)>>>;

    open spec fn view(&self) -> Seq<Seq<Option<(u64, T)>>> {
        Seq::new(self.table@.len(), |i: int| self.table@[i].entries@)
    }
}

impl<T: Copy, const COMP_BITS: usize, const BUCKET_SIZE: usize> HashTable<
    T,
    COMP_BITS,
    BUCKET_SIZE,
> {
    /// The invariant of a table: it has a bucket for every value of the low
    /// bits, and the mask selects them.
    pub open spec fn wf(&self) -> bool {
        &&& COMP_BITS < 32
        &&& BUCKET_SIZE > 0
        &&& self.table@.len() == pow2(COMP_BITS as nat)
        &&& self.mask == low_bits_mask(COMP_BITS as nat)
    }

    /// What the table holds for a hash.
    pub open spec fn lookup(&self, hash: u64) -> Option<T> {
        table_lookup(self@, COMP_BITS as nat, hash)
    }

    /// A table without entries.
    pub fn new() -> (r: Self)
        requires
            COMP_BITS < 32,
            BUCKET_SIZE > 0,
        ensures
            r.wf(),
            r@ == table_empty::<T>(COMP_BITS as nat, BUCKET_SIZE as nat),
    {
        let mut size: usize = 1;
        let mut bits: usize = 0;
        proof {
            vstd::arithmetic::power2::lemma2_to64();
        }
        while bits < COMP_BITS
            invariant
                bits <= COMP_BITS,
                COMP_BITS < 32,
                size == pow2(bits as nat),
                size <= 0x8000_0000,
                pow2(31) == 0x8000_0000,
            decreases COMP_BITS - bits,
        {
            proof {
                lemma_pow2_unfold(bits as nat + 1);
                if bits + 1 < 31 {
                    lemma_pow2_strictly_increases(bits as nat + 1, 31);
                }
            }
            size = size * 2;
            bits += 1;
        }
        let mut table: Vec<Bucket<T, BUCKET_SIZE>> = Vec::with_capacity(size);
        let mut i: usize = 0;
        while i < size
            invariant
                i <= size,
                table@.len() == i,
                forall|k: int|
                    0 <= k < i ==> (#[trigger] table@[k]).entries@ == bucket_empty::<T>(
                        BUCKET_SIZE as nat,
                    ),
            decreases size - i,
        {
            table.push(Bucket::new());
            i += 1;
        }
        let r = HashTable { table, mask: (size - 1) as u64 };
        assert(r@ =~= table_empty::<T>(COMP_BITS as nat, BUCKET_SIZE as nat));
        r
    }

    /// The index of the bucket of a hash.
    fn index(&self, hash: u64) -> (idx: usize)
        requires
            self.wf(),
        ensures
            idx as int == bucket_index(hash, COMP_BITS as nat),
            idx < self.table@.len(),
    {
        proof {
            lemma_u64_low_bits_mask_is_mod(hash, COMP_BITS as nat);
            lemma_pow2_pos(COMP_BITS as nat);
            vstd::arithmetic::power2::lemma2_to64();
            if COMP_BITS < 31 {
                lemma_pow2_strictly_increases(COMP_BITS as nat, 31);
            }
        }
        (hash & self.mask) as usize
    }

    /// The value set last for `hash` among those that its bucket still
    /// holds.
    pub fn get(&self, hash: u64) -> (r: Option<&T>)
        requires
            self.wf(),
        ensures
            r is Some <==> self.lookup(hash) is Some,
            r is Some ==> *r->0 == self.lookup(hash)->0,
    {
        let idx = self.index(hash);
        let bucket = &self.table[idx];
        assert(self@[idx as int] == bucket.entries@);
        let mut i: usize = 0;
        while i < BUCKET_SIZE
            invariant
                i <= BUCKET_SIZE,
                bucket_find(bucket.entries@, hash, i as int) == self.lookup(hash),
            decreases BUCKET_SIZE - i,
        {
            match &bucket.entries[i] {
                Some(entry) => {
                    if entry.0 == hash {
                        return Some(&entry.1);
                    }
                },
                None => {},
            }
            i += 1;
        }
        None
    }

    /// Puts a value for `hash` in front of its bucket; if the bucket was
    /// full, its oldest entry is dropped.
    pub fn set(&mut self, hash: u64, val: T)
        requires
            old(self).wf(),
        ensures
            final(self).wf(),
            final(self)@ == table_set(old(self)@, COMP_BITS as nat, hash, val),
            final(self).lookup(hash) == Some(val),
    {
        let idx = self.index(hash);
        let ghost before = self.table@[idx as int].entries@;
        let mut i: usize = BUCKET_SIZE - 1;
        while i > 0
            invariant
                i < BUCKET_SIZE,
                idx < self.table@.len(),
                self.table@.len() == old(self).table@.len(),
                self.mask == old(self).mask,
                forall|k: int|
                    0 <= k < self.table@.len() && k != idx ==> self.table@[k] == old(self).table@[k],
                forall|k: int| 0 <= k <= i ==> self.table@[idx as int].entries@[k] == before[k],
                forall|k: int|
                    i < k < BUCKET_SIZE ==> self.table@[idx as int].entries@[k] == before[k - 1],
            decreases i,
        {
            let moved = self.table[idx].entries[i - 1];
            self.table[idx].entries[i] = moved;
            i -= 1;
        }
        self.table[idx].entries[0] = Some((hash, val));
        assert(self.table@[idx as int].entries@ =~= bucket_put(before, hash, val));
        proof {
            assert(self@ =~= table_set(old(self)@, COMP_BITS as nat, hash, val));
            lemma_set_then_get(old(self)@, COMP_BITS as nat, hash, val);
        }
    }

    /// Drops every entry.
    pub fn clear(&mut self)
        requires
            old(self).wf(),
        ensures
            final(self).wf(),
            final(self)@ == table_empty::<T>(COMP_BITS as nat, BUCKET_SIZE as nat),
            forall|hash: u64| final(self).lookup(hash) is None,
    {
        let mut i: usize = 0;
        while i < self.table.len()
            invariant
                i <= self.table@.len(),
                self.wf(),
                forall|k: int|
                    0 <= k < i ==> (#[trigger] self.table@[k]).entries@ == bucket_empty::<T>(
                        BUCKET_SIZE as nat,
                    ),
            decreases self.table@.len() - i,
        {
            self.table[i].clear();
            i += 1;
        }
        proof {
            assert(self@ =~= table_empty::<T>(COMP_BITS as nat, BUCKET_SIZE as nat));
            assert forall|hash: u64| self.lookup(hash) is None by {
                lemma_empty_finds_nothing::<T>(COMP_BITS as nat, BUCKET_SIZE as nat, hash);
            }
        }
    }
}

} // verus!
