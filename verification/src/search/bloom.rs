//! Bloom filter over clip contents, used to spot probable duplicates.
use vstd::prelude::*;
use vstd::string::StringSliceAdditionalSpecFns;

verus! {

broadcast use vstd::string::group_string_axioms;

/// 64-bit FNV-1a hash of a byte string.
pub open spec fn fnv1a_of(bytes: Seq<u8>) -> u64
    decreases bytes.len(),
{
    if bytes.len() == 0 {
        0xcbf29ce484222325u64
    } else {
        (fnv1a_of(bytes.drop_last()) ^ (bytes.last() as u64)).wrapping_mul(0x100000001b3u64)
    }
}

/// The djb2 hash of a byte string before the zero correction.
pub open spec fn djb2_raw(bytes: Seq<u8>) -> u64
    decreases bytes.len(),
{
    if bytes.len() == 0 {
        5381u64
    } else {
        djb2_raw(bytes.drop_last()).wrapping_mul(33u64).wrapping_add(bytes.last() as u64)
    }
}

/// The djb2 hash of a byte string, never zero.
pub open spec fn djb2_of(bytes: Seq<u8>) -> u64 {
    if djb2_raw(bytes) == 0 {
        1u64
    } else {
        djb2_raw(bytes)
    }
}

/// The bit probed for hash number `i` in a filter of `m` bits (double hashing).
pub open spec fn probe(h1: u64, h2: u64, i: nat, m: nat) -> nat {
    (h1.wrapping_add((i as u64).wrapping_mul(h2)) as nat) % m
}

/// The bit probed for hash number `i` of `item`.
pub open spec fn probe_of(item: Seq<u8>, i: nat, m: nat) -> nat {
    probe(fnv1a_of(item), djb2_of(item), i, m)
}

/// Whether bit `idx` is set in `words`.
pub open spec fn bit_at(words: Seq<u64>, idx: nat) -> bool {
    (words[(idx / 64) as int] >> ((idx % 64) as u64)) & 1u64 == 1u64
}

fn fnv1a(s: &str) -> (h: u64)
    ensures
        h == fnv1a_of(s.spec_bytes()),
{
    let bytes = s.as_bytes();
    let mut hash: u64 = 0xcbf29ce484222325;
    let mut i: usize = 0;
    while i < bytes.len()
        invariant
            i <= bytes@.len(),
            hash == fnv1a_of(bytes@.take(i as int)),
        decreases bytes@.len() - i,
    {
        assert(bytes@.take(i + 1).drop_last() =~= bytes@.take(i as int));
        hash = hash ^ (bytes[i] as u64);
        hash = hash.wrapping_mul(0x100000001b3);
        i = i + 1;
    }
    assert(bytes@.take(bytes@.len() as int) =~= bytes@);
    hash
}

fn djb2(s: &str) -> (h: u64)
    ensures
        h == djb2_of(s.spec_bytes()),
{
    let bytes = s.as_bytes();
    let mut hash: u64 = 5381;
    let mut i: usize = 0;
    while i < bytes.len()
        invariant
            i <= bytes@.len(),
            hash == djb2_raw(bytes@.take(i as int)),
        decreases bytes@.len() - i,
    {
        assert(bytes@.take(i + 1).drop_last() =~= bytes@.take(i as int));
        hash = hash.wrapping_mul(33).wrapping_add(bytes[i] as u64);
        i = i + 1;
    }
    assert(bytes@.take(bytes@.len() as int) =~= bytes@);
    if hash == 0 {
        hash = 1;
    }
    hash
}

proof fn lemma_set_bit(w: u64, b: u64, c: u64)
    requires
        b < 64,
        c < 64,
    ensures
        ((w | (1u64 << b)) >> b) & 1u64 == 1u64,
        c != b ==> ((w | (1u64 << b)) >> c) & 1u64 == (w >> c) & 1u64,
{
    assert(((w | (1u64 << b)) >> b) & 1u64 == 1u64) by (bit_vector)
        requires
            b < 64,
    ;
    assert(c != b ==> ((w | (1u64 << b)) >> c) & 1u64 == (w >> c) & 1u64) by (bit_vector)
        requires
            b < 64,
            c < 64,
    ;
}

proof fn lemma_zero_word(c: u64)
    requires
        c < 64,
    ensures
        (0u64 >> c) & 1u64 == 0u64,
{
    assert((0u64 >> c) & 1u64 == 0u64) by (bit_vector);
}

/// Bit `x` is one of the first `n` probes.
pub open spec fn probed(h1: u64, h2: u64, n: nat, m: nat, x: nat) -> bool {
    exists|j: nat| j < n && x == probe(h1, h2, j, m)
}

/// Bit `x` is one of the first `n` bits probed for `item` in a filter of `m` bits.
pub open spec fn probes_bit(item: Seq<u8>, n: nat, m: nat, x: nat) -> bool {
    probed(fnv1a_of(item), djb2_of(item), n, m, x)
}

proof fn lemma_probed_step(h1: u64, h2: u64, n: nat, m: nat, x: nat)
    ensures
        probed(h1, h2, n + 1, m, x) == (probed(h1, h2, n, m, x) || x == probe(h1, h2, n, m)),
{
    if probed(h1, h2, n + 1, m, x) {
        let j = choose|j: nat| j < n + 1 && x == probe(h1, h2, j, m);
        if j < n {
            assert(probed(h1, h2, n, m, x));
        }
    }
    if probed(h1, h2, n, m, x) {
        let j = choose|j: nat| j < n && x == probe(h1, h2, j, m);
        assert(j < n + 1);
    }
    if x == probe(h1, h2, n, m) {
        assert(n < n + 1);
    }
}

proof fn lemma_set_one(before: Seq<u64>, after: Seq<u64>, word: int, bit: u64, idx: nat)
    requires
        0 <= word < before.len(),
        bit < 64,
        idx == word * 64 + bit,
        after == before.update(word, before[word] | (1u64 << bit)),
    ensures
        bit_at(after, idx),
        forall|x: nat| x < before.len() * 64 && x != idx ==> #[trigger] bit_at(after, x) == bit_at(before, x),
{
    lemma_set_bit(before[word], bit, bit);
    assert(idx / 64 == word && idx % 64 == bit) by (nonlinear_arith)
        requires
            idx == word * 64 + bit,
            bit < 64,
            0 <= word,
    ;
    assert forall|x: nat| x < before.len() * 64 && x != idx implies #[trigger] bit_at(after, x) == bit_at(before, x) by {
        let xw = (x / 64) as int;
        let xb = (x % 64) as u64;
        assert(0 <= xw < before.len()) by (nonlinear_arith)
            requires
                x < before.len() * 64,
                xw == x / 64,
        ;
        if xw == word {
            assert(xb != bit) by (nonlinear_arith)
                requires
                    x == xw * 64 + xb,
                    idx == word * 64 + bit,
                    xw == word,
                    x != idx,
            ;
            lemma_set_bit(before[word], bit, xb);
        }
    }
}

/// A Bloom filter: a bit array probed by `k` hashes of each item.
pub struct BloomFilter {
    bits: Vec<u64>,
    num_bits: usize,
    num_hashes: usize,
    item_count: usize,
}

/// A filter whose set bits include those of `before`, with the same shape,
/// reports present everything `before` reports present.
proof fn lemma_bits_kept(before: BloomFilter, after: BloomFilter)
    requires
        before.size() >= 1,
        after.size() == before.size(),
        after.hashes() == before.hashes(),
        forall|idx: nat| idx < before.size() && #[trigger] before.is_set(idx) ==> after.is_set(idx),
    ensures
        forall|other: Seq<u8>| #[trigger]
            before.all_probes_set(other) ==> after.all_probes_set(other),
{
    assert forall|other: Seq<u8>| #[trigger] before.all_probes_set(other) implies after.all_probes_set(
        other,
    ) by {
        assert forall|j: nat| j < after.hashes() implies #[trigger] after.is_set(
            probe_of(other, j, after.size()),
        ) by {
            assert(before.is_set(probe_of(other, j, before.size())));
        }
    }
}

impl BloomFilter {
    #[verifier::type_invariant]
    spec fn shaped(self) -> bool {
        &&& self.num_bits >= 1
        &&& self.num_hashes >= 1
        &&& self.bits@.len() * 64 >= self.num_bits
    }

    /// Number of bits.
    pub closed spec fn size(&self) -> nat {
        self.num_bits as nat
    }

    /// Number of bits probed per item.
    pub closed spec fn hashes(&self) -> nat {
        self.num_hashes as nat
    }

    /// Number of insertions since creation or the last clear.
    pub closed spec fn inserted(&self) -> nat {
        self.item_count as nat
    }

    /// Whether bit `idx` is set.
    pub closed spec fn is_set(&self, idx: nat) -> bool {
        bit_at(self.bits@, idx)
    }

    /// Whether every bit probed for `item` is set.
    pub open spec fn all_probes_set(&self, item: Seq<u8>) -> bool {
        forall|i: nat| i < self.hashes() ==> #[trigger] self.is_set(probe_of(item, i, self.size()))
    }

    /// An empty filter of `num_bits` bits probed by `num_hashes` hashes.
    pub fn with_parameters(num_bits: usize, num_hashes: usize) -> (b: Self)
        requires
            num_bits >= 1,
            num_hashes >= 1,
        ensures
            b.size() == num_bits,
            b.hashes() == num_hashes,
            b.inserted() == 0,
            forall|idx: nat| idx < num_bits ==> !#[trigger] b.is_set(idx),
    {
        let words = num_bits / 64 + if num_bits % 64 == 0 {
            0
        } else {
            1
        };
        let mut bits: Vec<u64> = Vec::new();
        let mut i: usize = 0;
        while i < words
            invariant
                i <= words,
                bits@.len() == i,
                forall|t: int| 0 <= t < i ==> bits@[t] == 0u64,
            decreases words - i,
        {
            bits.push(0);
            i = i + 1;
        }
        let b = BloomFilter { bits, num_bits, num_hashes, item_count: 0 };
        proof {
            assert forall|idx: nat| idx < num_bits implies !#[trigger] b.is_set(idx) by {
                lemma_zero_word((idx % 64) as u64);
            }
        }
        b
    }

    /// Number of bits.
    pub fn num_bits(&self) -> (n: usize)
        ensures
            n == self.size(),
    {
        self.num_bits
    }

    /// Number of bits probed per item.
    pub fn num_hashes(&self) -> (n: usize)
        ensures
            n == self.hashes(),
    {
        self.num_hashes
    }

    /// Number of insertions since creation or the last clear.
    pub fn item_count(&self) -> (n: usize)
        ensures
            n == self.inserted(),
    {
        self.item_count
    }

    fn hash_index(&self, h1: u64, h2: u64, i: usize) -> (idx: usize)
        ensures
            idx == probe(h1, h2, i as nat, self.size()),
            idx < self.size(),
    {
        proof {
            use_type_invariant(self);
        }
        let combined = h1.wrapping_add((i as u64).wrapping_mul(h2));
        (combined % (self.num_bits as u64)) as usize
    }

    /// Records `item`: every bit it probes is set, and no other bit changes,
    /// so the filter reports it present from then on.
    pub fn insert(&mut self, item: &str)
        requires
            old(self).inserted() < usize::MAX,
        ensures
            final(self).all_probes_set(item.spec_bytes()),
            forall|other: Seq<u8>| #[trigger]
                old(self).all_probes_set(other) ==> final(self).all_probes_set(other),
            final(self).size() >= 1,
            final(self).size() == old(self).size(),
            final(self).hashes() == old(self).hashes(),
            final(self).inserted() == old(self).inserted() + 1,
            forall|idx: nat|
                idx < old(self).size() ==> (#[trigger] final(self).is_set(idx) <==> (old(
                    self,
                ).is_set(idx) || probes_bit(item.spec_bytes(), old(self).hashes(), old(self).size(), idx))),
    {
        proof {
            use_type_invariant(&*self);
        }
        let h1 = fnv1a(item);
        let h2 = djb2(item);
        let ghost m = self.num_bits as nat;
        let ghost k = self.num_hashes as nat;
        let ghost old_bits = self.bits@;
        let mut bits = self.bits.clone();
        assert(bits@ == old_bits);
        let mut i: usize = 0;
        while i < self.num_hashes
            invariant
                self.num_bits == m,
                self.num_hashes == k,
                m >= 1,
                bits@.len() == old_bits.len(),
                bits@.len() * 64 >= m,
                h1 == fnv1a_of(item.spec_bytes()),
                h2 == djb2_of(item.spec_bytes()),
                i <= k,
                forall|x: nat|
                    x < m ==> (#[trigger] bit_at(bits@, x) <==> (bit_at(old_bits, x) || probed(
                        h1,
                        h2,
                        i as nat,
                        m,
                        x,
                    ))),
            decreases k - i,
        {
            let combined = h1.wrapping_add((i as u64).wrapping_mul(h2));
            let idx = (combined % (self.num_bits as u64)) as usize;
            let word = idx / 64;
            let bit = idx % 64;
            let ghost before = bits@;
            let w = bits[word];
            bits.set(word, w | (1u64 << (bit as u64)));
            proof {
                assert(idx == probe(h1, h2, i as nat, m));
                lemma_set_one(before, bits@, word as int, bit as u64, idx as nat);
                assert forall|x: nat| x < m implies (#[trigger] bit_at(bits@, x) <==> (bit_at(
                    old_bits,
                    x,
                ) || probed(h1, h2, (i + 1) as nat, m, x))) by {
                    lemma_probed_step(h1, h2, i as nat, m, x);
                }
            }
            i = i + 1;
        }
        self.bits = bits;
        self.item_count = self.item_count + 1;
        proof {
            assert forall|j: nat| j < self.hashes() implies #[trigger] self.is_set(
                probe_of(item.spec_bytes(), j, self.size()),
            ) by {
                let x = probe_of(item.spec_bytes(), j, self.size());
                assert(x == probe(h1, h2, j, m));
                assert(x < m);
                assert(probed(h1, h2, k, m, x));
            }
            lemma_bits_kept(*old(self), *self);
        }
    }

    /// Whether `item` may have been inserted: every bit it probes is set.
    pub fn probably_contains(&self, item: &str) -> (b: bool)
        ensures
            b == self.all_probes_set(item.spec_bytes()),
    {
        proof {
            use_type_invariant(self);
        }
        let h1 = fnv1a(item);
        let h2 = djb2(item);
        let mut i: usize = 0;
        while i < self.num_hashes
            invariant
                self.num_bits >= 1,
                self.bits@.len() * 64 >= self.num_bits,
                h1 == fnv1a_of(item.spec_bytes()),
                h2 == djb2_of(item.spec_bytes()),
                i <= self.num_hashes,
                forall|j: nat| j < i ==> #[trigger] self.is_set(probe_of(item.spec_bytes(), j, self.size())),
            decreases self.num_hashes - i,
        {
            let idx = self.hash_index(h1, h2, i);
            let word = idx / 64;
            let bit = idx % 64;
            let w = self.bits[word];
            if (w >> (bit as u64)) & 1 == 0 {
                assert(!self.is_set(probe_of(item.spec_bytes(), i as nat, self.size())));
                return false;
            }
            assert((w >> (bit as u64)) & 1 == 1) by (bit_vector)
                requires
                    (w >> (bit as u64)) & 1 != 0,
            ;
            i = i + 1;
        }
        true
    }

    /// Empties the filter: no bit is set, the insertion count is zero, and
    /// no item is reported present.
    pub fn clear(&mut self)
        ensures
            forall|x: Seq<u8>| !#[trigger] final(self).all_probes_set(x),
            final(self).size() == old(self).size(),
            final(self).hashes() == old(self).hashes(),
            final(self).inserted() == 0,
            forall|idx: nat| idx < final(self).size() ==> !#[trigger] final(self).is_set(idx),
    {
        proof {
            use_type_invariant(&*self);
        }
        let mut bits = self.bits.clone();
        assert(bits@ == self.bits@);
        let mut i: usize = 0;
        while i < bits.len()
            invariant
                i <= bits@.len(),
                bits@.len() == self.bits@.len(),
                forall|t: int| 0 <= t < i ==> bits@[t] == 0u64,
            decreases bits@.len() - i,
        {
            bits.set(i, 0);
            i = i + 1;
        }
        self.bits = bits;
        self.item_count = 0;
        proof {
            assert forall|idx: nat| idx < self.size() implies !#[trigger] self.is_set(idx) by {
                lemma_zero_word((idx % 64) as u64);
            }
            assert forall|x: Seq<u8>| !#[trigger] self.all_probes_set(x) by {
                assert(!self.is_set(probe_of(x, 0, self.size())));
            }
        }
    }
}

} // verus!
