//! Join-key hashing and the join filter (a three-probe Bloom filter over
//! join-key hashes).
use vstd::prelude::*;
use crate::data::{Data, Value};

verus! {

pub const DEFAULT_JOIN_FILTER_BITS: usize = 8388608;

pub const PROBE_SKIP_FILTER_BITS: usize = 2097152;

// ─── Hashing ─────────────────────────────────────────────────────────────

/// `x.rotate_left(k)` for `0 < k < 64`.
pub open spec fn rotl(x: u64, k: u64) -> u64 {
    (x << k) | (x >> (64 - k) as u64)
}

pub open spec fn spec_mix64(z0: u64) -> u64 {
    let z1 = z0 ^ (z0 >> 30u64);
    let z2 = z1.wrapping_mul(0xbf58_476d_1ce4_e5b9);
    let z3 = z2 ^ (z2 >> 27u64);
    let z4 = z3.wrapping_mul(0x94d0_49bb_1331_11eb);
    z4 ^ (z4 >> 31u64)
}

/// The SplitMix64 finaliser.
pub fn mix64(z: u64) -> (r: u64)
    ensures
        r == spec_mix64(z),
{
    let mut z = z;
    z = z ^ (z >> 30u64);
    z = z.wrapping_mul(0xbf58_476d_1ce4_e5b9);
    z = z ^ (z >> 27u64);
    z = z.wrapping_mul(0x94d0_49bb_1331_11eb);
    z ^ (z >> 31u64)
}

/// 64-bit FNV-1a over `bytes`.
pub open spec fn spec_fnv1a64(bytes: Seq<u8>) -> u64
    decreases bytes.len(),
{
    if bytes.len() == 0 {
        0xcbf2_9ce4_8422_2325
    } else {
        (spec_fnv1a64(bytes.drop_last()) ^ (bytes.last() as u64)).wrapping_mul(0x0000_0100_0000_01b3)
    }
}

/// The 64-bit FNV-1a hash of `bytes`.
pub fn fnv1a64(bytes: &Vec<u8>) -> (r: u64)
    ensures
        r == spec_fnv1a64(bytes@),
{
    let mut h: u64 = 0xcbf2_9ce4_8422_2325;
    let mut i: usize = 0;
    while i < bytes.len()
        invariant
            i <= bytes.len(),
            h == spec_fnv1a64(bytes@.subrange(0, i as int)),
        decreases bytes.len() - i,
    {
        assert(bytes@.subrange(0, i + 1).drop_last() =~= bytes@.subrange(0, i as int));
        h = h ^ (bytes[i] as u64);
        h = h.wrapping_mul(0x0000_0100_0000_01b3);
        i += 1;
    }
    assert(bytes@.subrange(0, i as int) =~= bytes@);
    h
}

/// The hash of a join key: each type mixed with its own tag, so that equal
/// keys (of the same type and bits) hash alike.
pub open spec fn spec_hash_value(v: Value) -> u64 {
    match v {
        Value::Int32(x) => spec_mix64((x as u32 as u64) ^ 0x1111_1111_1111_1111),
        Value::Int64(x) => spec_mix64((x as u64) ^ 0x2222_2222_2222_2222),
        Value::Float32(b) => spec_mix64((b as u64) ^ 0x3333_3333_3333_3333),
        Value::Float64(b) => spec_mix64(b ^ 0x4444_4444_4444_4444),
        Value::Str(s) => spec_mix64(spec_fnv1a64(s) ^ 0x5555_5555_5555_5555),
    }
}

/// Equal keys of an integer or string type hash alike, so a hash join
/// finds every match among them.
pub proof fn lemma_equal_keys_hash_alike(a: Value, b: Value)
    requires
        crate::data::value_eq(a, b),
        !(a is Float32) && !(a is Float64),
    ensures
        spec_hash_value(a) == spec_hash_value(b),
{
}

/// Float keys with the same bits hash alike (`+0.0` and `-0.0` compare
/// equal but differ in their bits, and hash apart).
pub proof fn lemma_same_float_bits_hash_alike(a: Value, b: Value)
    requires
        (a is Float32 && b is Float32 && a->Float32_0 == b->Float32_0) || (a is Float64 && b is Float64
            && a->Float64_0 == b->Float64_0),
    ensures
        spec_hash_value(a) == spec_hash_value(b),
{
}

/// The hash of a join key.
pub fn hash_data(val: &Data) -> (r: u64)
    ensures
        r == spec_hash_value(val@),
{
    match val {
        Data::Int32(v) => mix64((*v as u32 as u64) ^ 0x1111_1111_1111_1111),
        Data::Int64(v) => mix64((*v as u64) ^ 0x2222_2222_2222_2222),
        Data::Float32(b) => mix64((*b as u64) ^ 0x3333_3333_3333_3333),
        Data::Float64(b) => mix64(*b ^ 0x4444_4444_4444_4444),
        Data::String(s) => mix64(fnv1a64(s) ^ 0x5555_5555_5555_5555),
    }
}

// ─── Join filter ─────────────────────────────────────────────────────────

/// A Bloom filter over 64-bit hashes, with three probe positions per hash.
#[derive(Debug)]
pub struct JoinFilter {
    bits: Vec<u64>,
    mask: usize,
}

/// Whether bit `idx` of the bit array is set.
pub open spec fn bit_set(bits: Seq<u64>, idx: int) -> bool {
    (bits[idx / 64] >> ((idx % 64) as u64)) & 1u64 == 1u64
}

/// The three bit positions a hash maps to.
pub open spec fn probe_positions(hash: u64, mask: usize) -> (int, int, int) {
    let h1 = hash;
    let h2 = rotl(hash, 17) ^ 0x9e37_79b9_7f4a_7c15u64;
    let h3 = rotl(hash.wrapping_mul(0xbf58_476d_1ce4_e5b9), 31);
    (
        ((h1 as usize) & mask) as int,
        ((h2 as usize) & mask) as int,
        ((h3 as usize) & mask) as int,
    )
}

pub proof fn lemma_and_mask_le(x: usize, m: usize)
    ensures
        x & m <= m,
{
    assert(x & m <= m) by (bit_vector);
}

proof fn lemma_set_bit(x: u64, b: u64, c: u64)
    requires
        b < 64,
        c < 64,
    ensures
        ((x | (1u64 << b)) >> c) & 1u64 == 1u64 <==> ((x >> c) & 1u64 == 1u64 || c == b),
{
    assert(((x | (1u64 << b)) >> c) & 1u64 == 1u64 <==> ((x >> c) & 1u64 == 1u64 || c == b))
        by (bit_vector)
        requires
            b < 64,
            c < 64,
    ;
}

proof fn lemma_test_bit(x: u64, b: u64)
    requires
        b < 64,
    ensures
        (x & (1u64 << b) != 0u64) <==> ((x >> b) & 1u64 == 1u64),
{
    assert((x & (1u64 << b) != 0u64) <==> ((x >> b) & 1u64 == 1u64)) by (bit_vector)
        requires
            b < 64,
    ;
}

impl JoinFilter {
    /// The filter is usable: one bit per position the mask admits.
    pub closed spec fn wf(&self) -> bool {
        &&& self.bits@.len() >= 1
        &&& self.mask + 1 == self.bits@.len() * 64
    }

    /// The set bits.
    pub closed spec fn set_bits(&self) -> Set<int> {
        Set::new(|i: int| 0 <= i <= self.mask && bit_set(self.bits@, i))
    }

    pub closed spec fn spec_mask(&self) -> usize {
        self.mask
    }

    /// Whether a filter says a hash may have been inserted: its three
    /// positions are set.
    pub open spec fn admits(&self, hash: u64) -> bool {
        let (p1, p2, p3) = probe_positions(hash, self.spec_mask());
        self.set_bits().contains(p1) && self.set_bits().contains(p2) && self.set_bits().contains(
            p3,
        )
    }

    /// An empty filter of `bit_count` bits (a power of two).
    pub fn new(bit_count: usize) -> (r: JoinFilter)
        requires
            bit_count >= 1,
            bit_count & (bit_count - 1) as usize == 0,
        ensures
            r.spec_mask() == bit_count - 1,
            bit_count >= 64 ==> r.wf(),
            bit_count >= 64 ==> r.set_bits() == Set::<int>::empty(),
    {
        let n = bit_count / 64;
        let mut bits: Vec<u64> = Vec::new();
        let mut i: usize = 0;
        while i < n
            invariant
                i <= n,
                bits@.len() == i,
                forall|k: int| 0 <= k < i ==> bits@[k] == 0,
            decreases n - i,
        {
            bits.push(0);
            i += 1;
        }
        let r = JoinFilter { bits, mask: bit_count - 1 };
        proof {
            if bit_count >= 64 {
                assert(bit_count % 64 == 0) by (bit_vector)
                    requires
                        bit_count >= 64,
                        bit_count & (bit_count - 1) as usize == 0,
                ;
            }
            if bit_count >= 64 {
                assert forall|k: int| 0 <= k <= r.mask implies !bit_set(r.bits@, k) by {
                    assert(k / 64 < r.bits@.len());
                    assert(r.bits@[k / 64] == 0);
                    let c = (k % 64) as u64;
                    assert((0u64 >> c) & 1u64 == 0u64) by (bit_vector);
                }
                assert(r.set_bits() =~= Set::<int>::empty());
            }
        }
        r
    }

    fn bit_positions(&self, hash: u64) -> (r: (usize, usize, usize))
        requires
            self.wf(),
        ensures
            (r.0 as int, r.1 as int, r.2 as int) == probe_positions(hash, self.mask),
            r.0 <= self.mask && r.1 <= self.mask && r.2 <= self.mask,
    {
        let h1 = hash;
        let h2 = ((hash << 17u64) | (hash >> 47u64)) ^ 0x9e37_79b9_7f4a_7c15u64;
        let m = hash.wrapping_mul(0xbf58_476d_1ce4_e5b9);
        let h3 = (m << 31u64) | (m >> 33u64);
        proof {
            lemma_and_mask_le(h1 as usize, self.mask);
            lemma_and_mask_le(h2 as usize, self.mask);
            lemma_and_mask_le(h3 as usize, self.mask);
        }
        ((h1 as usize) & self.mask, (h2 as usize) & self.mask, (h3 as usize) & self.mask)
    }

    fn set_bit(&mut self, idx: usize)
        requires
            old(self).wf(),
            idx <= old(self).mask,
        ensures
            final(self).wf(),
            final(self).mask == old(self).mask,
            final(self).set_bits() == old(self).set_bits().insert(idx as int),
    {
        let w = idx / 64;
        let b = (idx % 64) as u64;
        let ghost old_bits = self.bits@;
        let cur = self.bits[w];
        self.bits.set(w, cur | (1u64 << b));
        proof {
            assert forall|k: int| #[trigger] self.set_bits().contains(k) <==> old(self).set_bits().insert(idx as int).contains(k) by {
                if 0 <= k <= self.mask {
                    let c = (k % 64) as u64;
                    if k / 64 == w as int {
                        lemma_set_bit(cur, b, c);
                        assert(k == idx as int <==> c == b);
                    } else {
                        assert(self.bits@[k / 64] == old_bits[k / 64]);
                    }
                }
            }
            assert(self.set_bits() =~= old(self).set_bits().insert(idx as int));
        }
    }

    fn test_bit(&self, idx: usize) -> (r: bool)
        requires
            self.wf(),
            idx <= self.mask,
        ensures
            r == self.set_bits().contains(idx as int),
    {
        let b = (idx % 64) as u64;
        let word = self.bits[idx / 64];
        proof {
            lemma_test_bit(word, b);
        }
        (word & (1u64 << b)) != 0
    }

    /// Records a hash: sets its three positions.
    pub fn insert_hash(&mut self, hash: u64)
        requires
            old(self).wf(),
        ensures
            final(self).wf(),
            final(self).spec_mask() == old(self).spec_mask(),
            ({
                let (p1, p2, p3) = probe_positions(hash, old(self).spec_mask());
                final(self).set_bits() == old(self).set_bits().insert(p1).insert(p2).insert(p3)
            }),
    {
        let (idx1, idx2, idx3) = self.bit_positions(hash);
        self.set_bit(idx1);
        self.set_bit(idx2);
        self.set_bit(idx3);
    }

    /// Whether the hash may have been recorded: false only for a hash that
    /// was never inserted.
    pub fn might_contain_hash(&self, hash: u64) -> (r: bool)
        requires
            self.wf(),
        ensures
            r == self.admits(hash),
    {
        let (idx1, idx2, idx3) = self.bit_positions(hash);
        self.test_bit(idx1) && self.test_bit(idx2) && self.test_bit(idx3)
    }
}

/// A filter never forgets: once a hash is inserted it is admitted, and
/// whatever was admitted before an insert stays admitted after it.
pub proof fn lemma_filter_no_false_negative(before: JoinFilter, after: JoinFilter, hash: u64, other: u64)
    requires
        before.wf(),
        after.spec_mask() == before.spec_mask(),
        ({
            let (p1, p2, p3) = probe_positions(hash, before.spec_mask());
            after.set_bits() == before.set_bits().insert(p1).insert(p2).insert(p3)
        }),
    ensures
        after.admits(hash),
        before.admits(other) ==> after.admits(other),
{
}

} // verus!
