//! Bloom filter with double hashing: never false negatives.

use crate::checksum;
use crate::codec;
use crate::codec::{copy_range, get_u32, get_u64, put_bytes, put_u32, put_u64};
use crate::error;
use crate::error::{corruption, Result};
use vstd::prelude::*;

verus! {

/// What a filter says.
pub struct BloomView {
    pub bits: Seq<u8>,
    pub nbits: usize,
    pub k: u32,
}

/// First hash of a key: its checksum.
pub open spec fn hash1(key: Seq<u8>) -> u32 {
    checksum::crc32(key)
}

/// Second hash of a key: the checksum of the first hash followed by the key, but never zero.
pub open spec fn hash2(key: Seq<u8>) -> u32 {
    let h = checksum::crc32(codec::le32(hash1(key)) + key);
    if h == 0 {
        1
    } else {
        h
    }
}

/// The bit that the `i`-th probe for `key` looks at.
pub open spec fn probe(key: Seq<u8>, i: u32, nbits: usize) -> usize {
    (hash1(key).wrapping_add(i.wrapping_mul(hash2(key))) as usize) % nbits
}

/// Bit `h` is set.
pub open spec fn bit_set(bits: Seq<u8>, h: int) -> bool {
    bits[h / 8] & (1u8 << ((h % 8) as u8)) != 0
}

/// How many bits are probed for each key: 0.69 of the bits per key, at least 1, at most 30.
pub open spec fn probes_per_key(bits_per_key: usize) -> u32 {
    if bits_per_key >= 44 {
        30
    } else if bits_per_key < 2 {
        1
    } else {
        ((bits_per_key * 69) / 100) as u32
    }
}

/// Bits spent on each key: what was asked for, but at least one.
pub open spec fn effective_bits(bits_per_key: usize) -> usize {
    if bits_per_key == 0 {
        1
    } else {
        bits_per_key
    }
}

/// Bits in a filter for `n` keys.
pub open spec fn filter_bits(n: nat, bits_per_key: usize) -> int {
    if n * effective_bits(bits_per_key) < 64 {
        64
    } else {
        n * effective_bits(bits_per_key)
    }
}

/// The size of a filter for `n` keys can be computed without overflow.
pub open spec fn filter_fits(n: nat, bits_per_key: usize) -> bool {
    n * effective_bits(bits_per_key) + 7 <= usize::MAX
}

/// One of the first `n` keys has bit `h` among its first `k` probes.
pub open spec fn marked(keys: Seq<Seq<u8>>, n: int, h: int, k: u32, nbits: usize) -> bool {
    exists|a: int, i: u32|
        0 <= a < n && i < k && h == #[trigger] probe(keys[a], i, nbits)
}

/// `b` is the filter of `keys`: the bits that some probe of some key looks at are set, no others.
pub open spec fn is_filter_of(b: BloomView, keys: Seq<Seq<u8>>, bits_per_key: usize) -> bool {
    &&& b.nbits == filter_bits(keys.len(), bits_per_key)
    &&& b.k == probes_per_key(effective_bits(bits_per_key))
    &&& b.bits.len() == (b.nbits + 7) / 8
    &&& forall|h: int|
        0 <= h < 8 * b.bits.len() ==> (#[trigger] bit_set(b.bits, h) <==> marked(
            keys,
            keys.len() as int,
            h,
            b.k,
            b.nbits,
        ))
}

/// The filter of `keys`.
pub open spec fn filter_of(keys: Seq<Seq<u8>>, bits_per_key: usize) -> BloomView {
    choose|b: BloomView| is_filter_of(b, keys, bits_per_key)
}

/// The filter says that `key` may be there.
pub open spec fn may_hold(b: BloomView, key: Seq<u8>) -> bool {
    ||| b.bits.len() == 0
    ||| b.nbits == 0
    ||| forall|i: u32| i < b.k ==> bit_set(b.bits, #[trigger] probe(key, i, b.nbits) as int)
}

/// Every probe stays inside the bits.
pub open spec fn in_bounds(b: BloomView) -> bool {
    b.bits.len() == 0 || b.nbits <= 8 * b.bits.len()
}

/// Encoded form of a filter.
pub open spec fn bloom_bytes(b: BloomView) -> Seq<u8> {
    codec::le32(b.k) + codec::le64(b.nbits as u64) + b.bits
}

/// The filter that `data` encodes, or why it encodes none.
pub open spec fn decode_bloom(data: Seq<u8>) -> std::result::Result<BloomView, Seq<char>> {
    if data.len() < 12 {
        Err("bloom too short"@)
    } else {
        Ok(
            BloomView {
                bits: data.skip(12),
                nbits: codec::u64_at(data, 4) as usize,
                k: codec::u32_at(data, 0),
            },
        )
    }
}

/// What a run of keys says.
pub open spec fn keys_view(keys: Seq<Vec<u8>>) -> Seq<Seq<u8>> {
    Seq::new(keys.len(), |i: int| keys[i]@)
}

#[derive(Debug)]
pub struct BloomFilter {
    bits: Vec<u8>,
    nbits: usize,
    k: u32,
}

impl View for BloomFilter {
    type V = BloomView;

    closed spec fn view(&self) -> BloomView {
        BloomView { bits: self.bits@, nbits: self.nbits, k: self.k }
    }
}

proof fn lemma_set_bit(b: u8, j: u8, l: u8)
    requires
        j < 8,
        l < 8,
    ensures
        ((b | (1u8 << j)) & (1u8 << l) != 0) == ((b & (1u8 << l) != 0) || j == l),
{
    assert(((b | (1u8 << j)) & (1u8 << l) != 0) == ((b & (1u8 << l) != 0) || j == l))
        by (bit_vector)
        requires
            j < 8,
            l < 8,
    ;
}

proof fn lemma_byte_from_bits(a: u8, b: u8)
    requires
        forall|l: u8| l < 8 ==> ((a & #[trigger] (1u8 << l) != 0) == (b & (1u8 << l) != 0)),
    ensures
        a == b,
{
    assert((a & (1u8 << 0u8) != 0) == (b & (1u8 << 0u8) != 0));
    assert((a & (1u8 << 1u8) != 0) == (b & (1u8 << 1u8) != 0));
    assert((a & (1u8 << 2u8) != 0) == (b & (1u8 << 2u8) != 0));
    assert((a & (1u8 << 3u8) != 0) == (b & (1u8 << 3u8) != 0));
    assert((a & (1u8 << 4u8) != 0) == (b & (1u8 << 4u8) != 0));
    assert((a & (1u8 << 5u8) != 0) == (b & (1u8 << 5u8) != 0));
    assert((a & (1u8 << 6u8) != 0) == (b & (1u8 << 6u8) != 0));
    assert((a & (1u8 << 7u8) != 0) == (b & (1u8 << 7u8) != 0));
    assert(a == b) by (bit_vector)
        requires
            (a & (1u8 << 0u8) != 0) == (b & (1u8 << 0u8) != 0),
            (a & (1u8 << 1u8) != 0) == (b & (1u8 << 1u8) != 0),
            (a & (1u8 << 2u8) != 0) == (b & (1u8 << 2u8) != 0),
            (a & (1u8 << 3u8) != 0) == (b & (1u8 << 3u8) != 0),
            (a & (1u8 << 4u8) != 0) == (b & (1u8 << 4u8) != 0),
            (a & (1u8 << 5u8) != 0) == (b & (1u8 << 5u8) != 0),
            (a & (1u8 << 6u8) != 0) == (b & (1u8 << 6u8) != 0),
            (a & (1u8 << 7u8) != 0) == (b & (1u8 << 7u8) != 0),
    ;
}

/// A run of keys has one filter only.
pub proof fn lemma_filter_unique(a: BloomView, b: BloomView, keys: Seq<Seq<u8>>, bits_per_key: usize)
    requires
        is_filter_of(a, keys, bits_per_key),
        is_filter_of(b, keys, bits_per_key),
    ensures
        a == b,
{
    assert forall|j: int| 0 <= j < a.bits.len() implies a.bits[j] == b.bits[j] by {
        assert forall|l: u8| l < 8 implies ((a.bits[j] & #[trigger] (1u8 << l) != 0) == (b.bits[j]
            & (1u8 << l) != 0)) by {
            let h = 8 * j + l;
            assert(h / 8 == j && (h % 8) as u8 == l);
            assert(bit_set(a.bits, h) == bit_set(b.bits, h));
        }
        lemma_byte_from_bits(a.bits[j], b.bits[j]);
    }
    assert(a.bits =~= b.bits);
}

/// The byte with the given bits.
spec fn byte_of(b: spec_fn(int) -> bool) -> u8 {
    (if b(0) { 1u8 } else { 0u8 }) | (if b(1) { 2u8 } else { 0u8 }) | (if b(2) { 4u8 } else { 0u8 })
        | (if b(3) { 8u8 } else { 0u8 }) | (if b(4) { 16u8 } else { 0u8 }) | (if b(5) { 32u8 } else {
        0u8
    }) | (if b(6) { 64u8 } else { 0u8 }) | (if b(7) { 128u8 } else { 0u8 })
}

proof fn lemma_byte_of(b: spec_fn(int) -> bool, l: u8)
    requires
        l < 8,
    ensures
        (byte_of(b) & (1u8 << l) != 0) == b(l as int),
{
    let (b0, b1, b2, b3) = (b(0), b(1), b(2), b(3));
    let (b4, b5, b6, b7) = (b(4), b(5), b(6), b(7));
    let x = (if b0 { 1u8 } else { 0u8 }) | (if b1 { 2u8 } else { 0u8 }) | (if b2 { 4u8 } else {
        0u8
    }) | (if b3 { 8u8 } else { 0u8 }) | (if b4 { 16u8 } else { 0u8 }) | (if b5 { 32u8 } else { 0u8 })
        | (if b6 { 64u8 } else { 0u8 }) | (if b7 { 128u8 } else { 0u8 });
    assert((x & (1u8 << 0u8) != 0) == b0 && (x & (1u8 << 1u8) != 0) == b1 && (x & (1u8 << 2u8) != 0)
        == b2 && (x & (1u8 << 3u8) != 0) == b3 && (x & (1u8 << 4u8) != 0) == b4 && (x & (1u8
        << 5u8) != 0) == b5 && (x & (1u8 << 6u8) != 0) == b6 && (x & (1u8 << 7u8) != 0) == b7)
        by (bit_vector)
        requires
            x == (if b0 { 1u8 } else { 0u8 }) | (if b1 { 2u8 } else { 0u8 }) | (if b2 { 4u8 } else {
                0u8
            }) | (if b3 { 8u8 } else { 0u8 }) | (if b4 { 16u8 } else { 0u8 }) | (if b5 { 32u8 } else {
                0u8
            }) | (if b6 { 64u8 } else { 0u8 }) | (if b7 { 128u8 } else { 0u8 }),
    ;
}

/// Every run of keys has a filter.
pub proof fn lemma_filter_exists(keys: Seq<Seq<u8>>, bits_per_key: usize)
    requires
        filter_fits(keys.len(), bits_per_key),
    ensures
        is_filter_of(filter_of(keys, bits_per_key), keys, bits_per_key),
{
    assert(filter_bits(keys.len(), bits_per_key) <= usize::MAX);
    let nbits = filter_bits(keys.len(), bits_per_key) as usize;
    let k = probes_per_key(effective_bits(bits_per_key));
    let m = |h: int| marked(keys, keys.len() as int, h, k, nbits);
    let bits = Seq::new(((nbits + 7) / 8) as nat, |j: int| byte_of(|l: int| m(8 * j + l)));
    let b = BloomView { bits, nbits, k };
    assert forall|h: int| 0 <= h < 8 * bits.len() implies (#[trigger] bit_set(bits, h) <==> marked(
        keys,
        keys.len() as int,
        h,
        k,
        nbits,
    )) by {
        let j = h / 8;
        let f = |l: int| m(8 * j + l);
        assert(bits[j] == byte_of(f));
        lemma_byte_of(f, (h % 8) as u8);
        assert(8 * j + h % 8 == h);
    }
    assert(is_filter_of(b, keys, bits_per_key));
}

/// The two hashes of a key, from which its probes are computed.
pub fn hash_pair(key: &[u8]) -> (r: (u32, u32))
    ensures
        r.0 == hash1(key@),
        r.1 == hash2(key@),
{
    let h: u32 = crc32fast::hash(key);
    let mut buf: Vec<u8> = Vec::new();
    put_u32(&mut buf, h);
    put_bytes(&mut buf, key);
    assert(buf@ =~= codec::le32(h) + key@);
    let h2: u32 = crc32fast::hash(buf.as_slice());
    if h2 == 0 {
        (h, 1)
    } else {
        (h, h2)
    }
}

impl BloomFilter {
    pub fn build(keys: &[Vec<u8>], bits_per_key: usize) -> (b: Self)
        requires
            filter_fits(keys@.len(), bits_per_key),
        ensures
            is_filter_of(b@, keys_view(keys@), bits_per_key),
            b@ == filter_of(keys_view(keys@), bits_per_key),
            in_bounds(b@),
    {
        let per_key: usize = if bits_per_key == 0 {
            1
        } else {
            bits_per_key
        };
        let n: usize = keys.len();
        let total: usize = n * per_key;
        let nbits: usize = if total < 64 {
            64
        } else {
            total
        };
        let nbytes: usize = (nbits + 7) / 8;
        let k: u32 = if per_key >= 44 {
            30
        } else if per_key < 2 {
            1
        } else {
            ((per_key * 69) / 100) as u32
        };
        let mut bits: Vec<u8> = vec![0u8; nbytes];
        let ghost kv = keys_view(keys@);
        proof {
            assert forall|h: int| 0 <= h < 8 * nbytes implies !(#[trigger] bit_set(bits@, h)) by {
                let m = 1u8 << ((h % 8) as u8);
                assert(bits@[h / 8] == 0);
                assert(0u8 & m == 0) by (bit_vector);
            }
        }
        let mut a: usize = 0;
        while a < n
            invariant
                n == keys@.len(),
                kv == keys_view(keys@),
                nbits >= 64,
                nbytes == (nbits + 7) / 8,
                nbits + 7 <= usize::MAX,
                bits@.len() == nbytes,
                a <= n,
                forall|h: int|
                    0 <= h < 8 * nbytes ==> (#[trigger] bit_set(bits@, h) <==> marked(
                        kv,
                        a as int,
                        h,
                        k,
                        nbits,
                    )),
            decreases n - a,
        {
            let (h1, h2) = hash_pair(keys[a].as_slice());
            let ghost key = kv[a as int];
            let mut i: u32 = 0;
            while i < k
                invariant
                    n == keys@.len(),
                    kv == keys_view(keys@),
                    nbits >= 64,
                    nbytes == (nbits + 7) / 8,
                    nbits + 7 <= usize::MAX,
                    bits@.len() == nbytes,
                    a < n,
                    key == kv[a as int],
                    h1 == hash1(key),
                    h2 == hash2(key),
                    i <= k,
                    forall|h: int|
                        0 <= h < 8 * nbytes ==> (#[trigger] bit_set(bits@, h) <==> (marked(
                            kv,
                            a as int,
                            h,
                            k,
                            nbits,
                        ) || exists|c: u32| c < i && h == #[trigger] probe(key, c, nbits))),
                decreases k - i,
            {
                let p: usize = (h1.wrapping_add(i.wrapping_mul(h2)) as usize) % nbits;
                assert(p == probe(key, i, nbits));
                let ghost before = bits@;
                let at: usize = p / 8;
                let shift: u8 = (p % 8) as u8;
                let byte: u8 = bits[at] | (1u8 << shift);
                bits[at] = byte;
                proof {
                    assert forall|h: int| 0 <= h < 8 * nbytes implies (#[trigger] bit_set(bits@, h)
                        <==> (bit_set(before, h) || h == p)) by {
                        if h / 8 == at {
                            lemma_set_bit(before[at as int], shift, (h % 8) as u8);
                        }
                    }
                    assert forall|h: int| 0 <= h < 8 * nbytes implies (#[trigger] bit_set(bits@, h)
                        <==> (marked(kv, a as int, h, k, nbits) || exists|c: u32|
                        c < i + 1 && h == #[trigger] probe(key, c, nbits))) by {
                        assert(bit_set(bits@, h) <==> (bit_set(before, h) || h == p));
                        if exists|c: u32| c < i + 1 && h == #[trigger] probe(key, c, nbits) {
                            let c = choose|c: u32| c < i + 1 && h == #[trigger] probe(key, c, nbits);
                            if c == i {
                                assert(h == p);
                            } else {
                                assert(c < i && h == probe(key, c, nbits));
                            }
                        }
                    }
                }
                i = i + 1;
            }
            proof {
                assert forall|h: int| 0 <= h < 8 * nbytes implies (#[trigger] bit_set(bits@, h)
                    <==> marked(kv, a + 1, h, k, nbits)) by {
                    if marked(kv, a as int, h, k, nbits) {
                        let (x, c) = choose|x: int, c: u32|
                            0 <= x < a && c < k && h == #[trigger] probe(kv[x], c, nbits);
                        assert(0 <= x < a + 1 && c < k && h == probe(kv[x], c, nbits));
                    }
                    if exists|c: u32| c < k && h == #[trigger] probe(key, c, nbits) {
                        let c = choose|c: u32| c < k && h == #[trigger] probe(key, c, nbits);
                        assert(0 <= a < a + 1 && c < k && h == probe(kv[a as int], c, nbits));
                    }
                    if marked(kv, a + 1, h, k, nbits) {
                        let (x, c) = choose|x: int, c: u32|
                            0 <= x < a + 1 && c < k && h == #[trigger] probe(kv[x], c, nbits);
                        if x < a {
                            assert(0 <= x < a && c < k && h == probe(kv[x], c, nbits));
                        } else {
                            assert(c < k && h == probe(key, c, nbits));
                        }
                    }
                }
            }
            a = a + 1;
        }
        let b = Self { bits, nbits, k };
        proof {
            assert(is_filter_of(b@, kv, bits_per_key));
            lemma_filter_unique(b@, filter_of(kv, bits_per_key), kv, bits_per_key);
        }
        b
    }

    pub fn may_contain(&self, key: &[u8]) -> (r: bool)
        requires
            in_bounds(self@),
        ensures
            r == may_hold(self@, key@),
    {
        if self.bits.len() == 0 || self.nbits == 0 {
            return true;
        }
        let (h1, h2) = hash_pair(key);
        let mut i: u32 = 0;
        while i < self.k
            invariant
                in_bounds(self@),
                self.bits@.len() > 0,
                self.nbits > 0,
                h1 == hash1(key@),
                h2 == hash2(key@),
                i <= self.k,
                forall|c: u32|
                    c < i ==> bit_set(self@.bits, #[trigger] probe(key@, c, self@.nbits) as int),
            decreases self.k - i,
        {
            let p: usize = (h1.wrapping_add(i.wrapping_mul(h2)) as usize) % self.nbits;
            assert(p == probe(key@, i, self@.nbits));
            let shift: u8 = (p % 8) as u8;
            if self.bits[p / 8] & (1u8 << shift) == 0 {
                assert(!bit_set(self@.bits, p as int));
                return false;
            }
            i = i + 1;
        }
        true
    }

    pub fn encode(&self) -> (out: Vec<u8>)
        ensures
            out@ == bloom_bytes(self@),
    {
        let mut out: Vec<u8> = Vec::new();
        put_u32(&mut out, self.k);
        put_u64(&mut out, self.nbits as u64);
        put_bytes(&mut out, self.bits.as_slice());
        assert(out@ =~= bloom_bytes(self@));
        out
    }

    pub fn decode(data: &[u8]) -> (r: Result<Self>)
        ensures
            match r {
                Ok(b) => decode_bloom(data@) == Ok::<BloomView, Seq<char>>(b@),
                Err(e) => decode_bloom(data@) is Err && error::is_corruption(
                    e,
                    decode_bloom(data@)->Err_0,
                ),
            },
    {
        if data.len() < 12 {
            return Err(corruption("bloom too short"));
        }
        let k: u32 = get_u32(data, 0);
        let nbits: usize = get_u64(data, 4) as usize;
        let bits: Vec<u8> = copy_range(data, 12, data.len());
        assert(bits@ =~= data@.skip(12));
        Ok(Self { bits, nbits, k })
    }

    /// Whether every probe stays inside the bits, which a filter read from disk need not grant.
    pub fn is_in_bounds(&self) -> (r: bool)
        ensures
            r == in_bounds(self@),
    {
        self.bits.len() == 0 || self.nbits / 8 < self.bits.len() || (self.nbits / 8
            == self.bits.len() && self.nbits % 8 == 0)
    }
}

/// A filter never denies a key that it was built from.
pub proof fn law_no_false_negative(keys: Seq<Seq<u8>>, bits_per_key: usize, b: BloomView, a: int)
    requires
        is_filter_of(b, keys, bits_per_key),
        0 <= a < keys.len(),
    ensures
        may_hold(b, keys[a]),
{
    assert forall|i: u32| i < b.k implies bit_set(
        b.bits,
        #[trigger] probe(keys[a], i, b.nbits) as int,
    ) by {
        let h = probe(keys[a], i, b.nbits) as int;
        assert(0 <= h < b.nbits);
        assert(marked(keys, keys.len() as int, h, b.k, b.nbits));
    }
}

/// Decoding an encoded filter gives the filter back.
pub proof fn law_bloom_round_trip(b: BloomView)
    ensures
        decode_bloom(bloom_bytes(b)) == Ok::<BloomView, Seq<char>>(b),
{
    let data = bloom_bytes(b);
    assert(data.subrange(0, 4) =~= codec::le32(b.k));
    codec::lemma_u32_at(data, 0, b.k);
    assert(data.subrange(4, 12) =~= codec::le64(b.nbits as u64));
    codec::lemma_u64_at(data, 4, b.nbits as u64);
    assert(data.skip(12) =~= b.bits);
}

} // verus!
