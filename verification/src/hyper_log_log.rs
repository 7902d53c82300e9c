//! The registers of a HyperLogLog sketch: a fixed amount of memory that
//! takes in hashed items and from which the number of distinct items can be
//! estimated.

use core::hash::BuildHasher;
use core::hash::BuildHasherDefault;
use core::hash::Hash;
use core::marker::PhantomData;
use std::collections::hash_map::DefaultHasher;
use vstd::prelude::*;
use vstd::std_specs::bits::axiom_u64_leading_zeros;
use vstd::std_specs::bits::u64_leading_zeros;

verus! {

/// The number of registers.
pub const M: usize = 256;

/// The number of bits of a hash that select the register.
pub const B: u8 = 8;

/// The register that a hash goes to: its last `B` bits.
pub open spec fn register_of(hash: u64) -> int {
    (hash % 256) as int
}

/// What a hash contributes to its register: one more than the number of
/// leading zeros among the `64 - B` bits that remain when the last `B` bits
/// are dropped.
pub open spec fn rank_of(hash: u64) -> int {
    u64_leading_zeros(hash >> 8) + 1 - 8
}

/// The registers after `hash` has been taken in: its register holds the
/// greater of its rank and what was there.
pub open spec fn recorded(registers: Seq<u8>, hash: u64) -> Seq<u8> {
    let old_rank = registers[register_of(hash)];
    registers.update(
        register_of(hash),
        if rank_of(hash) > old_rank {
            rank_of(hash) as u8
        } else {
            old_rank
        },
    )
}

/// Register by register the greater of the two.
pub open spec fn merged(one: Seq<u8>, other: Seq<u8>) -> Seq<u8> {
    Seq::new(
        one.len(),
        |i: int|
            if one[i] >= other[i] {
                one[i]
            } else {
                other[i]
            },
    )
}

/// The number of zeros among the first `n` of `registers`.
pub open spec fn zeros_among(registers: Seq<u8>, n: int) -> int
    decreases n,
{
    if n <= 0 {
        0
    } else {
        zeros_among(registers, n - 1) + if registers[n - 1] == 0 {
            1int
        } else {
            0int
        }
    }
}

/// The rank of a hash lies between 1 and `64 - B + 1`, and its register
/// among the `M` there are.
pub proof fn rank_and_register_bounds(hash: u64)
    ensures
        1 <= rank_of(hash) <= 57,
        0 <= register_of(hash) < 256,
{
    let w = hash >> 8;
    axiom_u64_leading_zeros(w);
    let zeros = u64_leading_zeros(w);
    if zeros < 8 {
        let place = (63 - zeros) as u64;
        assert(56 <= place < 64 ==> ((hash >> 8) >> place) & 1u64 == 0u64) by (bit_vector);
    }
}

/// The standard library's `BuildHasherDefault`, which makes hashers in
/// their default state. Nothing of its inside is used here.
#[verifier::external_type_specification]
#[verifier::external_body]
#[verifier::reject_recursive_types(H)]
pub struct ExBuildHasherDefault<H>(BuildHasherDefault<H>);

/// Makes the builder of default hashers: `Default::default` of
/// `BuildHasherDefault<DefaultHasher>`. Nothing is claimed of it.
#[verifier::external_body]
fn default_hash_builder() -> BuildHasherDefault<DefaultHasher> {
    BuildHasherDefault::<DefaultHasher>::default()
}

/// Hashes `item` with a hasher from `hash_builder`: `BuildHasher::hash_one`.
///
/// Nothing is claimed of the hash: what it is depends on how `T`
/// implements `Hash`.
#[verifier::external_body]
fn hash_of<T: Hash>(hash_builder: &BuildHasherDefault<DefaultHasher>, item: &T) -> u64 {
    hash_builder.hash_one(item)
}

/// An approximative counter of distinct items with constant memory.
///
/// Its view is the sequence of its `M` registers.
pub struct HyperLogLog<T: Hash> {
    registers: [u8; M],
    hash_builder: BuildHasherDefault<DefaultHasher>,
    _marker: PhantomData<T>,
}

impl<T: Hash> View for HyperLogLog<T> {
    type V = Seq<u8>;

    closed spec fn view(&self) -> Seq<u8> {
        self.registers@
    }
}

impl<T: Hash> HyperLogLog<T> {
    /// Every sketch has `M` registers.
    pub proof fn has_m_registers(&self)
        ensures
            self@.len() == M,
    {
    }

    /// A sketch that has seen nothing: `M` registers, all zero.
    pub fn new() -> (sketch: Self)
        ensures
            sketch@.len() == M,
            forall|i: int| 0 <= i < M ==> sketch@[i] == 0,
    {
        Self { registers: [0;M], hash_builder: default_hash_builder(), _marker: PhantomData }
    }

    /// Takes in `item` by its hash. See [`HyperLogLog::add_hash`] for what
    /// a hash does to the registers.
    pub fn add(&mut self, item: &T)
        ensures
            final(self)@.len() == M,
            exists|hash: u64| final(self)@ == recorded(old(self)@, hash),
    {
        let hash = hash_of(&self.hash_builder, item);
        self.add_hash(hash);
    }

    /// Takes in an item whose hash is `hash`.
    pub fn add_hash(&mut self, hash: u64)
        ensures
            final(self)@.len() == M,
            final(self)@ == recorded(old(self)@, hash),
    {
        // leading 64 - b bits
        let w = hash >> B;
        // last b bits
        assert(((hash >> 8) << 8) <= hash && hash - ((hash >> 8) << 8) == hash % 256)
            by (bit_vector);
        let register = (hash - (w << B)) as usize;
        proof {
            rank_and_register_bounds(hash);
        }
        let leading_zeros = w.leading_zeros() as u8 + 1 - B;
        self.registers[register] = leading_zeros.max(self.registers[register]);
    }

    /// The number of registers that are zero.
    pub fn empty_registers(&self) -> (count: usize)
        ensures
            count == zeros_among(self@, M as int),
    {
        let mut count: usize = 0;
        for i in 0..M
            invariant
                count == zeros_among(self@, i as int),
                count <= i,
        {
            if self.registers[i] == 0 {
                count += 1;
            }
        }
        count
    }

    /// The registers, for whoever computes an estimate from them.
    pub fn registers(&self) -> (registers: [u8; M])
        ensures
            registers@ == self@,
    {
        self.registers
    }

    /// The sketch of everything that this sketch or `other` has seen. Both
    /// stay as they are.
    pub fn merge(&mut self, other: &Self) -> (both: Self)
        ensures
            final(self)@ == old(self)@,
            both@ == merged(old(self)@, other@),
            both@.len() == M,
    {
        let mut registers = [0;M];
        for i in 0..M
            invariant
                registers@.len() == M,
                self@ == old(self)@,
                forall|j: int| 0 <= j < i ==> registers@[j] == merged(self@, other@)[j],
        {
            registers[i] = self.registers[i].max(other.registers[i]);
        }
        assert(registers@ =~= merged(self@, other@));
        Self { registers, hash_builder: default_hash_builder(), _marker: PhantomData }
    }
}

impl<T: Hash> Default for HyperLogLog<T> {
    fn default() -> (sketch: Self)
        ensures
            sketch@.len() == M,
            forall|i: int| 0 <= i < M ==> sketch@[i] == 0,
    {
        Self::new()
    }
}

} // verus!
