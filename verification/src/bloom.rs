//! Bloom filters over keys.

use vstd::prelude::*;
use crate::bytes;
use crate::bytes::read_le;

verus! {

/// The version of the hash that filters are built with. A filter of another
/// version was built with another hash and cannot rule a key out.
pub const CURRENT_HASH_VERSION: u8 = 2;

/// A seed of the hashes.
pub const SEED_A: u64 = 0x5365_7244_424c_4f4f;

/// The other seed of the hashes.
pub const SEED_B: u64 = 0x5744_425f_464c_4f57;

/// What the hash is multiplied by after each word.
pub const MULT: u64 = 0x517c_c1b7_2722_0a95;

/// `h` with its bits turned left by five places.
pub open spec fn turned(h: u64) -> u64 {
    (h << 5u64) | (h >> 59u64)
}

/// The hash after one more word.
pub open spec fn fx_step(h: u64, word: u64) -> u64 {
    (turned(h) ^ word).wrapping_mul(MULT)
}

/// The hash of `data` that begins with `h`: words of eight bytes, least
/// significant byte first, the last one filled up with zero bytes.
pub open spec fn fx_hash(data: Seq<u8>, h: u64) -> u64
    decreases data.len(),
{
    if data.len() == 0 {
        h
    } else if data.len() < 8 {
        fx_step(h, bytes::le_nat(data) as u64)
    } else {
        fx_hash(data.skip(8), fx_step(h, bytes::le_nat(data.take(8)) as u64))
    }
}

/// The first hash of a key.
pub open spec fn first_hash(key: Seq<u8>) -> u64 {
    fx_hash(key, SEED_A ^ SEED_B)
}

/// The second hash of a key.
pub open spec fn second_hash(key: Seq<u8>) -> u64 {
    fx_hash(key, !SEED_A ^ SEED_B)
}

/// The bit that probe `i` of a key hits, of `num_bits` bits.
pub open spec fn probe(key: Seq<u8>, i: int, num_bits: int) -> int {
    first_hash(key).wrapping_add((i as u64).wrapping_mul(second_hash(key))) as int % num_bits
}

/// Whether bit `pos` is set.
pub open spec fn bit_set(bits: Seq<u64>, pos: int) -> bool {
    bits[pos / 64] & (1u64 << ((pos % 64) as u64)) != 0
}

/// Hashes `data`, beginning with `seed`.
pub fn fxhash64(data: &[u8], seed: u64) -> (r: u64)
    ensures
        r == fx_hash(data@, seed),
{
    let mut hash: u64 = seed;
    let mut i: usize = 0;
    assert(data@.skip(0) =~= data@);
    while data.len() - i >= 8
        invariant
            i <= data@.len(),
            fx_hash(data@, seed) == fx_hash(data@.skip(i as int), hash),
        decreases data@.len() - i,
    {
        let ghost rest = data@.skip(i as int);
        assert(rest.take(8) =~= data@.subrange(i as int, i + 8));
        assert(rest.skip(8) =~= data@.skip(i + 8));
        let word: u64 = read_le(data, i, 8);
        hash = (((hash << 5u64) | (hash >> 59u64)) ^ word).wrapping_mul(MULT);
        i += 8;
    }
    if i < data.len() {
        assert(data@.skip(i as int) =~= data@.subrange(i as int, data@.len() as int));
        let word: u64 = read_le(data, i, data.len() - i);
        hash = (((hash << 5u64) | (hash >> 59u64)) ^ word).wrapping_mul(MULT);
    }
    hash
}

/// Multiplying by the multiplier loses nothing.
proof fn lemma_mult_injective(a: u64, b: u64)
    requires
        a.wrapping_mul(MULT) == b.wrapping_mul(MULT),
    ensures
        a == b,
{
    lemma_unmultiplied(a);
    lemma_unmultiplied(b);
}

/// What a number is multiplied by can be taken out again.
proof fn lemma_unmultiplied(a: u64)
    ensures
        a as int == (a.wrapping_mul(MULT) as int * 2323857671730065597) % 0x1_0000_0000_0000_0000,
{
    let n = 0x1_0000_0000_0000_0000int;
    let inv = 2323857671730065597int;
    let x = a as int * MULT as int;
    assert(a.wrapping_mul(MULT) as int == x % n);
    vstd::arithmetic::div_mod::lemma_mul_mod_noop_left(x, inv, n);
    assert(x * inv == n * (a as int * 739706870995725965) + a as int) by (nonlinear_arith)
        requires
            x == a as int * 0x517c_c1b7_2722_0a95int,
            inv == 2323857671730065597,
            n == 0x1_0000_0000_0000_0000int,
    ;
    vstd::arithmetic::div_mod::lemma_mod_multiples_vanish(a as int * 739706870995725965, a as int, n);
    vstd::arithmetic::div_mod::lemma_small_mod(a as nat, n as nat);
}

/// A step of the hash tells words apart, and hashes before it.
proof fn lemma_step(h: u64, word: u64, g: u64, other: u64)
    requires
        fx_step(h, word) == fx_step(g, other),
    ensures
        h == g <==> word == other,
{
    lemma_mult_injective(turned(h) ^ word, turned(g) ^ other);
    assert(((h << 5u64) | (h >> 59u64)) ^ word == ((g << 5u64) | (g >> 59u64)) ^ other ==> (h == g
        <==> word == other)) by (bit_vector);
}

/// Hashes that differ before the same bytes differ after them.
proof fn lemma_hash_carries(data: Seq<u8>, h: u64, g: u64)
    requires
        h != g,
    ensures
        fx_hash(data, h) != fx_hash(data, g),
    decreases data.len(),
{
    if data.len() == 0 {
    } else if data.len() < 8 {
        let word = bytes::le_nat(data) as u64;
        if fx_step(h, word) == fx_step(g, word) {
            lemma_step(h, word, g, word);
        }
    } else {
        let word = bytes::le_nat(data.take(8)) as u64;
        if fx_step(h, word) == fx_step(g, word) {
            lemma_step(h, word, g, word);
        }
        lemma_hash_carries(data.skip(8), fx_step(h, word), fx_step(g, word));
    }
}

/// Different words of up to eight bytes are different numbers.
proof fn lemma_words_differ(a: Seq<u8>, b: Seq<u8>)
    requires
        a.len() == b.len(),
        a.len() <= 8,
        a != b,
    ensures
        bytes::le_nat(a) as u64 != bytes::le_nat(b) as u64,
{
    bytes::lemma_le_nat_encode(a);
    bytes::lemma_le_nat_encode(b);
    bytes::lemma_le_nat_bound(a);
    bytes::lemma_le_nat_bound(b);
    bytes::lemma_pow256_values();
    bytes::lemma_pow256_monotone(a.len(), 8);
}

/// The hash tells a changed byte: byte strings that differ in one byte alone have
/// different hashes.
pub proof fn law_changed_byte_told(a: Seq<u8>, pos: int, byte: u8, h: u64)
    requires
        0 <= pos < a.len(),
        a[pos] != byte,
    ensures
        fx_hash(a, h) != fx_hash(a.update(pos, byte), h),
    decreases a.len(),
{
    let b = a.update(pos, byte);
    assert(b[pos] == byte);
    if a.len() < 8 {
        lemma_words_differ(a, b);
        if fx_hash(a, h) == fx_hash(b, h) {
            lemma_step(h, bytes::le_nat(a) as u64, h, bytes::le_nat(b) as u64);
        }
    } else if pos < 8 {
        let wa = bytes::le_nat(a.take(8)) as u64;
        let wb = bytes::le_nat(b.take(8)) as u64;
        assert(a.take(8)[pos] != b.take(8)[pos]);
        lemma_words_differ(a.take(8), b.take(8));
        if fx_step(h, wa) == fx_step(h, wb) {
            lemma_step(h, wa, h, wb);
        }
        assert(a.skip(8) =~= b.skip(8));
        lemma_hash_carries(a.skip(8), fx_step(h, wa), fx_step(h, wb));
    } else {
        let word = bytes::le_nat(a.take(8)) as u64;
        assert(a.take(8) =~= b.take(8));
        assert(b.skip(8) =~= a.skip(8).update(pos - 8, byte));
        law_changed_byte_told(a.skip(8), pos - 8, byte, fx_step(h, word));
    }
}

/// A set of keys that answers whether a key may be in it.
#[derive(Debug)]
pub struct BloomFilter {
    pub bits: Vec<u64>,
    pub num_hashes: u8,
    /// The version of the hash that the filter was built with.
    pub hash_version: u8,
}

/// What a [`BloomFilter`] holds.
#[verifier::ext_equal]
pub struct BloomFilterView {
    pub bits: Seq<u64>,
    pub num_hashes: u8,
    pub hash_version: u8,
}

impl View for BloomFilter {
    type V = BloomFilterView;

    open spec fn view(&self) -> BloomFilterView {
        BloomFilterView {
            bits: self.bits@,
            num_hashes: self.num_hashes,
            hash_version: self.hash_version,
        }
    }
}

impl Clone for BloomFilter {
    fn clone(&self) -> (r: Self)
        ensures
            r@ == self@,
    {
        BloomFilter {
            bits: vstd::slice::slice_to_vec(self.bits.as_slice()),
            num_hashes: self.num_hashes,
            hash_version: self.hash_version,
        }
    }
}

/// The number of probes for each key: about ln 2 times the bits per key, at
/// least 2 and at most 30.
pub open spec fn probes(bits_per_key: int) -> int {
    let n = (bits_per_key * 69 + 99) / 100;
    if n < 2 {
        2
    } else if n > 30 {
        30
    } else {
        n
    }
}

/// The number of words for so many keys.
pub open spec fn words(expected_keys: int, bits_per_key: int) -> int {
    let n = expected_keys * bits_per_key;
    if n < 64 {
        1
    } else {
        (n + 63) / 64
    }
}

/// What a list of keys holds.
pub open spec fn key_views(keys: Seq<Vec<u8>>) -> Seq<Seq<u8>> {
    Seq::new(keys.len(), |i: int| keys[i]@)
}

/// The bit of a filter of so many words that a hash hits.
fn position(hash: u64, num_words: usize) -> (r: u64)
    requires
        0 < num_words,
        num_words * 64 <= u64::MAX + 1,
    ensures
        r == hash as int % (64int * num_words),
{
    if num_words as u64 > u64::MAX / 64 {
        proof {
            vstd::arithmetic::div_mod::lemma_small_mod(hash as nat, 64nat * num_words as nat);
        }
        hash
    } else {
        hash % (num_words as u64 * 64)
    }
}

impl BloomFilter {
    /// The filter has bits, and no more than a hash can tell apart.
    pub open spec fn wf(self) -> bool {
        0 < self.bits@.len() && self.bits@.len() * 64 <= u64::MAX + 1
    }

    /// The number of bits.
    pub open spec fn num_bits(self) -> int {
        64int * self.bits@.len()
    }

    /// The bit `pos` is one that a key hits.
    pub open spec fn hits(self, key: Seq<u8>, pos: int) -> bool {
        exists|i: int|
            0 <= i < self.num_hashes && pos == #[trigger] probe(key, i, self.num_bits())
    }

    /// Every bit that the key hits is set.
    pub open spec fn has_all(self, key: Seq<u8>) -> bool {
        forall|i: int|
            0 <= i < self.num_hashes ==> bit_set(
                self.bits@,
                #[trigger] probe(key, i, self.num_bits()),
            )
    }

    /// The key may be in the filter: its version is another one, or every bit
    /// that the key hits is set.
    pub open spec fn contains(self, key: Seq<u8>) -> bool {
        self.hash_version != CURRENT_HASH_VERSION || self.has_all(key)
    }

    /// The filter is the one for the keys: as large as so many keys need, of the
    /// current version, and with the bits set that the keys hit.
    pub open spec fn built_from(self, keys: Seq<Seq<u8>>, bits_per_key: int) -> bool {
        &&& self.bits@.len() == words(keys.len() as int, bits_per_key)
        &&& self.num_hashes == probes(bits_per_key)
        &&& self.hash_version == CURRENT_HASH_VERSION
        &&& forall|pos: int|
            0 <= pos < self.num_bits() ==> (#[trigger] bit_set(self.bits@, pos) <==> exists|j: int|
                0 <= j < keys.len() && self.hits(#[trigger] keys[j], pos))
    }

    /// An empty filter for so many keys.
    pub fn with_bits_per_key(expected_keys: usize, bits_per_key: usize) -> (r: Self)
        requires
            expected_keys * bits_per_key <= usize::MAX,
        ensures
            r.wf(),
            r.bits@ == Seq::new(
                words(expected_keys as int, bits_per_key as int) as nat,
                |i: int| 0u64,
            ),
            r.num_hashes == probes(bits_per_key as int),
            r.hash_version == CURRENT_HASH_VERSION,
            forall|key: Seq<u8>| !(#[trigger] r.contains(key)),
    {
        let num_hashes: u8 = if bits_per_key >= 44 {
            30
        } else {
            let n: usize = (bits_per_key * 69 + 99) / 100;
            if n < 2 {
                2
            } else if n > 30 {
                30
            } else {
                n as u8
            }
        };
        let product: usize = expected_keys * bits_per_key;
        let num_words: usize = if product < 64 {
            1
        } else if product % 64 == 0 {
            product / 64
        } else {
            product / 64 + 1
        };
        let bits: Vec<u64> = vec![0u64; num_words];
        assert(bits@ =~= Seq::new(num_words as nat, |i: int| 0u64));
        let filter = Self { bits, num_hashes, hash_version: CURRENT_HASH_VERSION };
        proof {
            assert forall|key: Seq<u8>| !(#[trigger] filter.contains(key)) by {
                let pos = probe(key, 0, filter.num_bits());
                lemma_no_bit((pos % 64) as u64);
                assert(!bit_set(filter.bits@, pos));
            }
        }
        filter
    }

    /// A filter with the keys.
    pub fn from_keys_with_bits(keys: &[Vec<u8>], bits_per_key: usize) -> (r: Self)
        requires
            keys@.len() * bits_per_key <= usize::MAX,
        ensures
            r.wf(),
            r.built_from(key_views(keys@), bits_per_key as int),
            forall|j: int| 0 <= j < keys@.len() ==> r.contains(#[trigger] keys@[j]@),
    {
        let mut filter = Self::with_bits_per_key(keys.len(), bits_per_key);
        proof {
            assert forall|pos: int| 0 <= pos < filter.num_bits() implies !(#[trigger] bit_set(
                filter.bits@,
                pos,
            )) by {
                lemma_no_bit((pos % 64) as u64);
            }
        }
        let mut n: usize = 0;
        while n < keys.len()
            invariant
                n <= keys@.len(),
                filter.wf(),
                filter.bits@.len() == words(keys@.len() as int, bits_per_key as int),
                filter.num_hashes == probes(bits_per_key as int),
                filter.hash_version == CURRENT_HASH_VERSION,
                forall|pos: int|
                    0 <= pos < filter.num_bits() ==> (#[trigger] bit_set(filter.bits@, pos)
                        <==> exists|j: int|
                        0 <= j < n && filter.hits(#[trigger] keys@[j]@, pos)),
            decreases keys@.len() - n,
        {
            let ghost before = filter;
            filter.insert(&keys[n]);
            proof {
                assert(before.num_bits() == filter.num_bits());
                assert forall|pos: int| 0 <= pos < filter.num_bits() implies (#[trigger] bit_set(
                    filter.bits@,
                    pos,
                ) <==> exists|j: int| 0 <= j < n + 1 && filter.hits(#[trigger] keys@[j]@, pos)) by {
                    assert(before.hits(keys@[n as int]@, pos) == filter.hits(keys@[n as int]@, pos));
                    if bit_set(before.bits@, pos) {
                        let j = choose|j: int| 0 <= j < n && before.hits(#[trigger] keys@[j]@, pos);
                        assert(filter.hits(keys@[j]@, pos));
                    }
                    if exists|j: int| 0 <= j < n + 1 && filter.hits(#[trigger] keys@[j]@, pos) {
                        let j = choose|j: int|
                            0 <= j < n + 1 && filter.hits(#[trigger] keys@[j]@, pos);
                        assert(before.hits(keys@[j]@, pos));
                    }
                }
            }
            n += 1;
        }
        proof {
            let views = key_views(keys@);
            assert forall|pos: int| 0 <= pos < filter.num_bits() implies (#[trigger] bit_set(
                filter.bits@,
                pos,
            ) <==> exists|j: int| 0 <= j < views.len() && filter.hits(#[trigger] views[j], pos)) by {
                if bit_set(filter.bits@, pos) {
                    let j = choose|j: int| 0 <= j < n && filter.hits(#[trigger] keys@[j]@, pos);
                    assert(filter.hits(views[j], pos));
                }
                if exists|j: int| 0 <= j < views.len() && filter.hits(#[trigger] views[j], pos) {
                    let j = choose|j: int|
                        0 <= j < views.len() && filter.hits(#[trigger] views[j], pos);
                    assert(filter.hits(keys@[j]@, pos));
                }
            }
        }
        filter
    }

    /// The version of the hash that the filter was built with.
    pub fn hash_version(&self) -> (r: u8)
        ensures
            r == self.hash_version,
    {
        self.hash_version
    }

    /// Notes that the bits were rebuilt with the current hash.
    pub fn mark_current(&mut self)
        ensures
            final(self).hash_version == CURRENT_HASH_VERSION,
            final(self).bits@ == old(self).bits@,
            final(self).num_hashes == old(self).num_hashes,
    {
        self.hash_version = CURRENT_HASH_VERSION;
    }

    /// The two hashes of a key.
    fn hash_pair(data: &[u8]) -> (r: (u64, u64))
        ensures
            r.0 == first_hash(data@),
            r.1 == second_hash(data@),
    {
        (fxhash64(data, SEED_A ^ SEED_B), fxhash64(data, !SEED_A ^ SEED_B))
    }

    /// Adds a key: sets the bits that it hits.
    pub fn insert(&mut self, key: &[u8])
        requires
            old(self).wf(),
        ensures
            final(self).wf(),
            final(self).bits@.len() == old(self).bits@.len(),
            final(self).num_hashes == old(self).num_hashes,
            final(self).hash_version == old(self).hash_version,
            forall|pos: int|
                0 <= pos < old(self).num_bits() ==> (#[trigger] bit_set(final(self).bits@, pos)
                    <==> bit_set(old(self).bits@, pos) || old(self).hits(key@, pos)),
    {
        let (h1, h2) = Self::hash_pair(key);
        let ghost num_bits = self.num_bits();
        let mut i: u8 = 0;
        while i < self.num_hashes
            invariant
                i <= self.num_hashes,
                self.wf(),
                self.bits@.len() == old(self).bits@.len(),
                self.num_hashes == old(self).num_hashes,
                self.hash_version == old(self).hash_version,
                num_bits == old(self).num_bits(),
                h1 == first_hash(key@),
                h2 == second_hash(key@),
                forall|pos: int|
                    0 <= pos < num_bits ==> (#[trigger] bit_set(self.bits@, pos) <==> bit_set(
                        old(self).bits@,
                        pos,
                    ) || exists|k: int| 0 <= k < i && pos == #[trigger] probe(
                        key@,
                        k,
                        num_bits,
                    )),
            decreases self.num_hashes - i,
        {
            let bit_pos: u64 = position(h1.wrapping_add((i as u64).wrapping_mul(h2)), self.bits.len());
            let ghost before = self.bits@;
            assert(bit_pos == probe(key@, i as int, num_bits));
            self.set_bit(bit_pos);
            proof {
                assert forall|pos: int| 0 <= pos < num_bits implies (#[trigger] bit_set(
                    self.bits@,
                    pos,
                ) <==> bit_set(old(self).bits@, pos) || exists|k: int|
                    0 <= k < i + 1 && pos == #[trigger] probe(key@, k, num_bits)) by {
                    if pos == bit_pos {
                        assert(pos == probe(key@, i as int, num_bits));
                    }
                    assert(bit_set(before, pos) <==> bit_set(old(self).bits@, pos) || exists|k: int|
                        0 <= k < i && pos == #[trigger] probe(key@, k, num_bits));
                }
            }
            i += 1;
        }
    }

    /// Whether a bit is set.
    fn test_bit(&self, pos: u64) -> (r: bool)
        requires
            pos < self.num_bits(),
        ensures
            r == bit_set(self.bits@, pos as int),
    {
        let bit_idx: u64 = pos % 64;
        assert(pos / 64 < self.bits.len());
        self.bits[(pos / 64) as usize] & (1u64 << bit_idx) != 0
    }

    /// Sets a bit.
    fn set_bit(&mut self, pos: u64)
        requires
            pos < old(self).num_bits(),
        ensures
            final(self).bits@.len() == old(self).bits@.len(),
            final(self).num_hashes == old(self).num_hashes,
            final(self).hash_version == old(self).hash_version,
            forall|p: int|
                0 <= p < old(self).num_bits() ==> (#[trigger] bit_set(final(self).bits@, p) <==> bit_set(
                    old(self).bits@,
                    p,
                ) || p == pos),
    {
        assert(pos / 64 < self.bits.len());
        let word_idx: usize = (pos / 64) as usize;
        let bit_idx: u64 = pos % 64;
        let ghost before = self.bits@;
        let word: u64 = self.bits[word_idx] | (1u64 << bit_idx);
        self.bits.set(word_idx, word);
        assert forall|p: int| 0 <= p < old(self).num_bits() implies (#[trigger] bit_set(self.bits@, p)
            <==> bit_set(before, p) || p == pos) by {
            lemma_set_bit(before[p / 64], bit_idx, (p % 64) as u64);
        }
    }

    /// Whether the key may be in the filter.
    pub fn may_contain(&self, key: &[u8]) -> (r: bool)
        requires
            self.wf(),
        ensures
            r == self.contains(key@),
    {
        if self.hash_version != CURRENT_HASH_VERSION {
            return true;
        }
        let (h1, h2) = Self::hash_pair(key);
        let ghost num_bits = self.num_bits();
        let mut i: u8 = 0;
        while i < self.num_hashes
            invariant
                i <= self.num_hashes,
                self.wf(),
                self.hash_version == CURRENT_HASH_VERSION,
                num_bits == self.num_bits(),
                h1 == first_hash(key@),
                h2 == second_hash(key@),
                forall|k: int|
                    0 <= k < i ==> bit_set(self.bits@, #[trigger] probe(key@, k, self.num_bits())),
            decreases self.num_hashes - i,
        {
            let bit_pos: u64 = position(h1.wrapping_add((i as u64).wrapping_mul(h2)), self.bits.len());
            assert(bit_pos == probe(key@, i as int, self.num_bits()));
            if !self.test_bit(bit_pos) {
                return false;
            }
            i += 1;
        }
        true
    }
}

/// A word without bits has no bit.
proof fn lemma_no_bit(b: u64)
    ensures
        0u64 & (1u64 << b) == 0,
{
    assert(0u64 & (1u64 << b) == 0) by (bit_vector);
}

/// Setting one bit of a word sets that bit and leaves the others.
proof fn lemma_set_bit(word: u64, b: u64, c: u64)
    requires
        b < 64,
        c < 64,
    ensures
        ((word | (1u64 << b)) & (1u64 << c) != 0) == (word & (1u64 << c) != 0 || b == c),
{
    assert(((word | (1u64 << b)) & (1u64 << c) != 0) == (word & (1u64 << c) != 0 || b == c))
        by (bit_vector)
        requires
            b < 64,
            c < 64,
    ;
}

/// No false negatives: a filter that was built from keys may contain each of
/// them.
pub proof fn law_no_false_negatives(
    filter: BloomFilter,
    keys: Seq<Seq<u8>>,
    bits_per_key: int,
    j: int,
)
    requires
        filter.wf(),
        filter.built_from(keys, bits_per_key),
        0 <= j < keys.len(),
    ensures
        filter.contains(keys[j]),
{
    assert forall|i: int| 0 <= i < filter.num_hashes implies bit_set(
        filter.bits@,
        #[trigger] probe(keys[j], i, filter.num_bits()),
    ) by {
        let pos = probe(keys[j], i, filter.num_bits());
        assert(filter.hits(keys[j], pos));
    }
}

impl BloomFilterView {
    /// The filter lets the key pass: the key may be in it, or it has no bits.
    pub open spec fn passes(self, key: Seq<u8>) -> bool {
        ||| self.bits.len() == 0
        ||| self.bits.len() * 64 > u64::MAX + 1
        ||| self.hash_version != CURRENT_HASH_VERSION
        ||| forall|i: int|
            0 <= i < self.num_hashes ==> bit_set(
                self.bits,
                #[trigger] probe(key, i, 64int * self.bits.len()),
            )
    }
}

impl BloomFilter {
    /// Whether the filter lets the key pass. A filter without bits, which can
    /// come from a file, lets every key pass.
    pub fn check(&self, key: &[u8]) -> (r: bool)
        ensures
            r == self@.passes(key@),
            self.wf() ==> r == self.contains(key@),
    {
        let n: usize = self.bits.len();
        if n == 0 || n as u64 > u64::MAX / 64 + 1 {
            return true;
        }
        assert(self.num_bits() == 64int * self@.bits.len());
        assert(self.wf());
        let r: bool = self.may_contain(key);
        assert(self@.passes(key@) == self.contains(key@)) by {
            if self@.passes(key@) && self.hash_version == CURRENT_HASH_VERSION {
                assert forall|i: int| 0 <= i < self.num_hashes implies bit_set(
                    self.bits@,
                    #[trigger] probe(key@, i, self.num_bits()),
                ) by {
                    assert(bit_set(self@.bits, probe(key@, i, 64int * self@.bits.len())));
                }
            }
        }
        r
    }
}

/// Adding a key makes the filter contain it, and loses no other key.
pub proof fn law_insert_contains(
    before: BloomFilter,
    after: BloomFilter,
    key: Seq<u8>,
    other: Seq<u8>,
)
    requires
        before.wf(),
        after.bits@.len() == before.bits@.len(),
        after.num_hashes == before.num_hashes,
        after.hash_version == before.hash_version,
        forall|pos: int|
            0 <= pos < before.num_bits() ==> (#[trigger] bit_set(after.bits@, pos) <==> bit_set(
                before.bits@,
                pos,
            ) || before.hits(key, pos)),
    ensures
        after.contains(key),
        before.contains(other) ==> after.contains(other),
{
    assert forall|i: int| 0 <= i < after.num_hashes implies bit_set(
        after.bits@,
        #[trigger] probe(key, i, after.num_bits()),
    ) by {
        assert(before.hits(key, probe(key, i, before.num_bits())));
    }
    if before.has_all(other) {
        assert forall|i: int| 0 <= i < after.num_hashes implies bit_set(
            after.bits@,
            #[trigger] probe(other, i, after.num_bits()),
        ) by {
            assert(bit_set(before.bits@, probe(other, i, before.num_bits())));
        }
    }
}

} // verus!
