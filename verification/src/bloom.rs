//! A bit-array Bloom filter over the keys of one segment, with double hashing:
//! from a primary hash of the key and a secondary hash seeded by the probe
//! number, the i-th probe index is taken modulo the bitmap's bit count.
//!
//! The law that matters is soundness: a key that was added is always reported
//! as possibly present, so a negative answer lets a lookup skip the segment.

use vstd::prelude::*;

verus! {

/// What the standard hasher returns for a byte string. The digest is a pure
/// function of the bytes; only the trusted wrapper below applies it.
pub uninterp spec fn bytes_hash(item: Seq<u8>) -> u64;

/// What the standard hasher returns for a probe seed word.
pub uninterp spec fn seed_hash(x: u32) -> u64;

/// Relies on std's `DefaultHasher`: the documentation states that every hasher
/// made by `new` starts from the same state, so the digest of a byte string
/// depends on the bytes alone.
#[verifier::external_body]
fn hash_bytes(item: &Vec<u8>) -> (r: u64)
    ensures
        r == bytes_hash(item@),
{
    let mut h = std::collections::hash_map::DefaultHasher::new();
    std::hash::Hash::hash(item.as_slice(), &mut h);
    std::hash::Hasher::finish(&h)
}

/// Relies on std's `DefaultHasher`, as `hash_bytes` does, for the secondary
/// hash of the probe seed word.
#[verifier::external_body]
fn hash_seed(x: u32) -> (r: u64)
    ensures
        r == seed_hash(x),
{
    let mut h = std::collections::hash_map::DefaultHasher::new();
    std::hash::Hash::hash(&x, &mut h);
    std::hash::Hasher::finish(&h)
}

/// The probe index for a key and a seed, over `nbits` bitmap bits.
pub open spec fn spec_probe(item: Seq<u8>, seed: u32, nbits: nat) -> nat
    recommends
        nbits > 0,
{
    let h1 = bytes_hash(item) as nat;
    let low = ((h1 % 0x1_0000_0000) + seed as nat) % 0x1_0000_0000;
    let h2 = seed_hash(low as u32) as nat;
    ((h1 + (seed as nat) * h2) % 0x1_0000_0000_0000_0000) % nbits
}

/// The probe index of seed `s` within a given bitmap.
pub open spec fn probe_in(bm: Seq<u8>, item: Seq<u8>, s: u32) -> nat {
    spec_probe(item, s, bm.len() * 8)
}

/// Whether bit `i` of the bitmap is set.
pub open spec fn bit_of(bm: Seq<u8>, i: nat) -> bool
    recommends
        i < bm.len() * 8,
{
    ((bm[(i / 8) as int] >> ((i % 8) as u8)) & 1u8) == 1u8
}

/// The bitmap with bit `i` set.
pub open spec fn set_bit(bm: Seq<u8>, i: nat) -> Seq<u8>
    recommends
        i < bm.len() * 8,
{
    bm.update((i / 8) as int, bm[(i / 8) as int] | (1u8 << ((i % 8) as u8)))
}

/// The bitmap after all `k` probes of one key.
pub open spec fn add_probes(bm: Seq<u8>, item: Seq<u8>, k: u32) -> Seq<u8>
    decreases k,
{
    if k == 0 {
        bm
    } else {
        set_bit(add_probes(bm, item, (k - 1) as u32), spec_probe(item, (k - 1) as u32, bm.len() * 8))
    }
}

/// The bitmap after adding every key of a run, oldest first.
pub open spec fn bloom_fold(bm: Seq<u8>, keys: Seq<Seq<u8>>, nh: u32) -> Seq<u8>
    decreases keys.len(),
{
    if keys.len() == 0 {
        bm
    } else {
        bloom_fold(add_probes(bm, keys[0], nh), keys.drop_first(), nh)
    }
}

/// What `contains` reports: every probe bit of the key is set.
pub open spec fn bloom_has(bm: Seq<u8>, nh: u32, item: Seq<u8>) -> bool {
    forall|s: u32| s < nh ==> bit_of(bm, #[trigger] probe_in(bm, item, s))
}

/// An all-zero bitmap of `n` bytes.
pub open spec fn zero_bitmap(n: nat) -> Seq<u8> {
    Seq::new(n, |i: int| 0u8)
}

pub proof fn lemma_set_bit(bm: Seq<u8>, i: nat)
    requires
        i < bm.len() * 8,
    ensures
        set_bit(bm, i).len() == bm.len(),
        bit_of(set_bit(bm, i), i),
        forall|j: nat| j < bm.len() * 8 && bit_of(bm, j) ==> bit_of(set_bit(bm, i), j),
{
    let x = bm[(i / 8) as int];
    let b = (i % 8) as u8;
    assert(((x | (1u8 << b)) >> b) & 1u8 == 1u8) by (bit_vector)
        requires
            b < 8,
    ;
    assert(bit_of(set_bit(bm, i), i));
    assert forall|j: nat| j < bm.len() * 8 && bit_of(bm, j) implies bit_of(set_bit(bm, i), j) by {
        if j / 8 == i / 8 {
            let c = (j % 8) as u8;
            let y = bm[(j / 8) as int];
            assert((y >> c) & 1u8 == 1u8 ==> ((y | (1u8 << b)) >> c) & 1u8 == 1u8)
                by (bit_vector)
                requires
                    b < 8,
                    c < 8,
            ;
        } else {
            assert(set_bit(bm, i)[(j / 8) as int] == bm[(j / 8) as int]);
        }
    }
}

pub proof fn lemma_add_probes_len(bm: Seq<u8>, item: Seq<u8>, k: u32)
    requires
        bm.len() > 0,
    ensures
        add_probes(bm, item, k).len() == bm.len(),
    decreases k,
{
    if k > 0 {
        lemma_add_probes_len(bm, item, (k - 1) as u32);
        lemma_set_bit(add_probes(bm, item, (k - 1) as u32), spec_probe(item, (k - 1) as u32, bm.len() * 8));
    }
}

/// Adding a key only sets bits: every bit already set stays set.
pub proof fn lemma_add_probes_monotone(bm: Seq<u8>, item: Seq<u8>, k: u32)
    requires
        bm.len() > 0,
    ensures
        forall|j: nat| j < bm.len() * 8 && bit_of(bm, j) ==> bit_of(add_probes(bm, item, k), j),
    decreases k,
{
    if k > 0 {
        lemma_add_probes_monotone(bm, item, (k - 1) as u32);
        lemma_add_probes_len(bm, item, (k - 1) as u32);
        lemma_set_bit(add_probes(bm, item, (k - 1) as u32), spec_probe(item, (k - 1) as u32, bm.len() * 8));
    }
}

/// After adding a key, each of its probe bits is set.
pub proof fn lemma_add_probes_has(bm: Seq<u8>, item: Seq<u8>, k: u32)
    requires
        bm.len() > 0,
    ensures
        forall|s: u32| s < k ==> bit_of(add_probes(bm, item, k), #[trigger] probe_in(bm, item, s)),
    decreases k,
{
    if k > 0 {
        let prev = add_probes(bm, item, (k - 1) as u32);
        lemma_add_probes_has(bm, item, (k - 1) as u32);
        lemma_add_probes_len(bm, item, (k - 1) as u32);
        lemma_set_bit(prev, spec_probe(item, (k - 1) as u32, bm.len() * 8));
        assert forall|s: u32| s < k implies bit_of(
            add_probes(bm, item, k),
            #[trigger] probe_in(bm, item, s),
        ) by {
            if s < (k - 1) as u32 {
                assert(bit_of(prev, probe_in(bm, item, s)));
            } else {
                assert(probe_in(bm, item, s) == spec_probe(item, (k - 1) as u32, bm.len() * 8));
            }
        }
    }
}

pub proof fn lemma_bloom_fold_len(bm: Seq<u8>, keys: Seq<Seq<u8>>, nh: u32)
    requires
        bm.len() > 0,
    ensures
        bloom_fold(bm, keys, nh).len() == bm.len(),
    decreases keys.len(),
{
    if keys.len() > 0 {
        lemma_add_probes_len(bm, keys[0], nh);
        lemma_bloom_fold_len(add_probes(bm, keys[0], nh), keys.drop_first(), nh);
    }
}

pub proof fn lemma_bloom_fold_monotone(bm: Seq<u8>, keys: Seq<Seq<u8>>, nh: u32)
    requires
        bm.len() > 0,
    ensures
        forall|j: nat| j < bm.len() * 8 && bit_of(bm, j) ==> bit_of(bloom_fold(bm, keys, nh), j),
    decreases keys.len(),
{
    if keys.len() > 0 {
        lemma_add_probes_monotone(bm, keys[0], nh);
        lemma_add_probes_len(bm, keys[0], nh);
        lemma_bloom_fold_monotone(add_probes(bm, keys[0], nh), keys.drop_first(), nh);
    }
}

/// Folding one more key is one more addition.
pub proof fn lemma_bloom_fold_push(bm: Seq<u8>, keys: Seq<Seq<u8>>, k: Seq<u8>, nh: u32)
    ensures
        bloom_fold(bm, keys.push(k), nh) == add_probes(bloom_fold(bm, keys, nh), k, nh),
    decreases keys.len(),
{
    if keys.len() == 0 {
        assert(keys.push(k)[0] == k);
        assert(keys.push(k).drop_first() =~= Seq::<Seq<u8>>::empty());
        assert(bloom_fold(bm, keys, nh) == bm);
        assert(bloom_fold(add_probes(bm, k, nh), Seq::<Seq<u8>>::empty(), nh) == add_probes(
            bm,
            k,
            nh,
        ));
    } else {
        assert(keys.push(k)[0] == keys[0]);
        assert(keys.push(k).drop_first() =~= keys.drop_first().push(k));
        lemma_bloom_fold_push(add_probes(bm, keys[0], nh), keys.drop_first(), k, nh);
    }
}

/// Bloom soundness: a key folded into the filter is always reported as
/// possibly present — the filter never yields a false negative.
pub proof fn lemma_bloom_fold_has(bm: Seq<u8>, keys: Seq<Seq<u8>>, nh: u32, i: int)
    requires
        bm.len() > 0,
        0 <= i < keys.len(),
    ensures
        bloom_has(bloom_fold(bm, keys, nh), nh, keys[i]),
    decreases keys.len(),
{
    let out = bloom_fold(bm, keys, nh);
    lemma_bloom_fold_len(bm, keys, nh);
    if i == 0 {
        let once = add_probes(bm, keys[0], nh);
        lemma_add_probes_has(bm, keys[0], nh);
        lemma_add_probes_len(bm, keys[0], nh);
        lemma_bloom_fold_monotone(once, keys.drop_first(), nh);
        assert forall|s: u32| s < nh implies bit_of(out, #[trigger] probe_in(out, keys[0], s)) by {
            assert(probe_in(out, keys[0], s) == probe_in(bm, keys[0], s));
            assert(bit_of(once, probe_in(bm, keys[0], s)));
        }
    } else {
        lemma_add_probes_len(bm, keys[0], nh);
        lemma_bloom_fold_has(add_probes(bm, keys[0], nh), keys.drop_first(), nh, i - 1);
        assert(keys.drop_first()[i - 1] == keys[i]);
    }
}

/// Approximate membership over the keys written into one segment.
pub struct BloomFilter {
    pub bitmap: Vec<u8>,
    pub num_hashes: u32,
}

impl BloomFilter {
    pub open spec fn wf(self) -> bool {
        0 < self.bitmap@.len() <= 0x1000_0000
    }

    /// An empty filter with the given bit count (rounded up to whole bytes)
    /// and hash count.
    pub fn with_params(num_bits: usize, num_hashes: u32) -> (r: BloomFilter)
        requires
            0 < num_bits <= 0x7ff_fff8,
        ensures
            r.wf(),
            r.bitmap@ == zero_bitmap(((num_bits + 7) / 8) as nat),
            r.num_hashes == num_hashes,
    {
        let bitmap = vec![0u8; (num_bits + 7) / 8];
        proof {
            assert(bitmap@ =~= zero_bitmap(((num_bits + 7) / 8) as nat));
        }
        BloomFilter { bitmap, num_hashes }
    }

    /// The probe index for a key and a seed within this filter's bitmap.
    fn get_index(&self, item: &Vec<u8>, seed: u32) -> (r: usize)
        requires
            self.wf(),
        ensures
            r as nat == probe_in(self.bitmap@, item@, seed),
            r < self.bitmap@.len() * 8,
    {
        let h1 = hash_bytes(item);
        let low = ((h1 % 0x1_0000_0000u64 + seed as u64) % 0x1_0000_0000u64) as u32;
        let h2 = hash_seed(low);
        let nbits = (self.bitmap.len() * 8) as u64;
        proof {
            assert((seed as int) * (h2 as int) < 0x1_0000_0000_0000_0000_0000_0000int)
                by (nonlinear_arith)
                requires
                    seed as int <= 0xFFFF_FFFFint,
                    h2 as int <= 0xFFFF_FFFF_FFFF_FFFFint;
        }
        let sum = ((h1 as u128) + (seed as u128) * (h2 as u128)) % 0x1_0000_0000_0000_0000u128;
        let idx = (sum as u64) % nbits;
        proof {
            assert(idx as nat == spec_probe(item@, seed, self.bitmap@.len() * 8));
        }
        idx as usize
    }

    /// Record a key in the filter.
    pub fn add(&mut self, item: &Vec<u8>)
        requires
            old(self).wf(),
        ensures
            final(self).wf(),
            final(self).num_hashes == old(self).num_hashes,
            final(self).bitmap@ == add_probes(old(self).bitmap@, item@, old(self).num_hashes),
    {
        let ghost bm0 = self.bitmap@;
        let nh = self.num_hashes;
        let mut s: u32 = 0;
        while s < nh
            invariant
                s <= nh,
                self.wf(),
                self.num_hashes == nh,
                self.bitmap@.len() == bm0.len(),
                0 < bm0.len() <= 0x1000_0000,
                self.bitmap@ == add_probes(bm0, item@, s),
            decreases nh - s,
        {
            let idx = self.get_index(item, s);
            let byte = idx / 8;
            let bit = (idx % 8) as u8;
            let cur = self.bitmap[byte];
            self.bitmap[byte] = cur | (1u8 << bit);
            s += 1;
            proof {
                assert(probe_in(bm0, item@, (s - 1) as u32) == spec_probe(
                    item@,
                    (s - 1) as u32,
                    bm0.len() * 8,
                ));
                assert(self.bitmap@ =~= set_bit(
                    add_probes(bm0, item@, (s - 1) as u32),
                    spec_probe(item@, (s - 1) as u32, bm0.len() * 8),
                ));
                lemma_add_probes_len(bm0, item@, s);
            }
        }
    }

    /// Whether the key is possibly present: true for every key ever added,
    /// possibly true for others.
    pub fn contains(&self, item: &Vec<u8>) -> (r: bool)
        requires
            self.wf(),
        ensures
            r == bloom_has(self.bitmap@, self.num_hashes, item@),
    {
        let nh = self.num_hashes;
        let mut s: u32 = 0;
        while s < nh
            invariant
                s <= nh,
                self.wf(),
                self.num_hashes == nh,
                forall|t: u32| t < s ==> bit_of(self.bitmap@, #[trigger] probe_in(self.bitmap@, item@, t)),
            decreases nh - s,
        {
            let idx = self.get_index(item, s);
            let byte = idx / 8;
            let bit = (idx % 8) as u8;
            if (self.bitmap[byte] >> bit) & 1u8 == 0u8 {
                proof {
                    assert(!bit_of(self.bitmap@, probe_in(self.bitmap@, item@, s)));
                }
                return false;
            }
            proof {
                let y = self.bitmap@[(idx / 8) as int];
                let b = (idx % 8) as u8;
                assert((y >> b) & 1u8 == 0u8 || (y >> b) & 1u8 == 1u8) by (bit_vector);
                assert(bit_of(self.bitmap@, probe_in(self.bitmap@, item@, s)));
            }
            s += 1;
        }
        true
    }
}

} // verus!
