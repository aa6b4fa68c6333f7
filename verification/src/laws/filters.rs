//! What a filter is made of, and what it says.

use crate::checksum;
use crate::codec;
use crate::sstable::bloom;
use crate::sstable::bloom::BloomView;
use vstd::prelude::*;

verus! {

/// Bits that are spent on each key: those asked for, but one at least.
pub open spec fn spent(bits_per_key: usize) -> int {
    if bits_per_key < 1 {
        1
    } else {
        bits_per_key as int
    }
}

/// The step from one probe of a key to the next: the checksum of the key's checksum and the key,
/// or one where that is zero.
pub open spec fn stride(key: Seq<u8>) -> int {
    let h = checksum::crc32(codec::le32(checksum::crc32(key)) + key);
    if h == 0 {
        1
    } else {
        h as int
    }
}

/// Where the `i`-th probe of a key looks: from its checksum on, step by step, as far as 32 bits
/// reach, and then around the filter.
pub open spec fn probed(key: Seq<u8>, i: int, nbits: int) -> int {
    ((checksum::crc32(key) + i * stride(key)) % 0x1_0000_0000) % nbits
}

/// Bit `h` is set; the lowest bit of each byte comes first.
pub open spec fn is_set(bits: Seq<u8>, h: int) -> bool {
    (bits[h / 8] >> ((h % 8) as u8)) & 1 == 1
}

proof fn lemma_probe(key: Seq<u8>, i: u32, nbits: usize)
    requires
        nbits > 0,
    ensures
        bloom::probe(key, i, nbits) == probed(key, i as int, nbits as int),
{
    let a = checksum::crc32(key);
    let s = stride(key);
    let m = 0x1_0000_0000int;
    let p = i * s;
    vstd::arithmetic::mul::lemma_mul_nonnegative(i as int, s);
    assert(i.wrapping_mul(bloom::hash2(key)) == p % m);
    let q = i.wrapping_mul(bloom::hash2(key));
    assert(a.wrapping_add(q) == (a + q) % m);
    vstd::arithmetic::div_mod::lemma_add_mod_noop_right(a as int, p, m);
    assert((a + p % m) % m == (a + p) % m);
}

proof fn lemma_bit(bits: Seq<u8>, h: int)
    requires
        0 <= h < 8 * bits.len(),
    ensures
        bloom::bit_set(bits, h) <==> is_set(bits, h),
{
    let x = bits[h / 8];
    let s = (h % 8) as u8;
    assert((x & (1u8 << s) != 0) <==> ((x >> s) & 1 == 1)) by (bit_vector)
        requires
            s < 8,
    ;
}

/// The size of a filter: the bits spent on its keys, but 64 at least, in whole bytes; and how often
/// it is probed for a key: 0.69 of the bits spent on one, rounded down, but once at least and
/// thirty times at most.
pub proof fn law_filter_size(b: BloomView, keys: Seq<Seq<u8>>, bits_per_key: usize)
    requires
        bloom::is_filter_of(b, keys, bits_per_key),
        keys.len() * spent(bits_per_key) + 7 <= usize::MAX,
    ensures
        b.nbits == keys.len() * spent(bits_per_key) || (b.nbits == 64 && keys.len() * spent(
            bits_per_key,
        ) < 64),
        b.nbits >= 64,
        b.nbits <= 8 * b.bits.len() < b.nbits + 8,
        1 <= b.k <= 30,
        b.k > 1 ==> 100 * b.k <= 69 * spent(bits_per_key),
        b.k < 30 ==> 69 * spent(bits_per_key) < 100 * (b.k + 1),
{
}

/// The bits of a filter: exactly those at which a probe of one of its keys looks.
pub proof fn law_filter_bits(b: BloomView, keys: Seq<Seq<u8>>, bits_per_key: usize, h: int)
    requires
        bloom::is_filter_of(b, keys, bits_per_key),
        0 <= h < 8 * b.bits.len(),
    ensures
        is_set(b.bits, h) <==> exists|a: int, i: int|
            0 <= a < keys.len() && 0 <= i < b.k && h == #[trigger] probed(
                keys[a],
                i,
                b.nbits as int,
            ),
{
    lemma_bit(b.bits, h);
    assert(b.nbits > 0);
    let n = keys.len() as int;
    if bloom::marked(keys, n, h, b.k, b.nbits) {
        let (a, i) = choose|a: int, i: u32|
            0 <= a < n && i < b.k && h == #[trigger] bloom::probe(keys[a], i, b.nbits);
        lemma_probe(keys[a], i, b.nbits);
        assert(h == probed(keys[a], i as int, b.nbits as int));
    }
    if exists|a: int, i: int|
        0 <= a < keys.len() && 0 <= i < b.k && h == #[trigger] probed(keys[a], i, b.nbits as int) {
        let (a, i) = choose|a: int, i: int|
            0 <= a < keys.len() && 0 <= i < b.k && h == #[trigger] probed(
                keys[a],
                i,
                b.nbits as int,
            );
        lemma_probe(keys[a], i as u32, b.nbits);
        assert(h == bloom::probe(keys[a], i as u32, b.nbits));
    }
}

/// A filter with bits rules a key out exactly if a probe of the key looks at a bit that is not set.
pub proof fn law_filter_rules_out(b: BloomView, key: Seq<u8>)
    requires
        b.bits.len() > 0,
        0 < b.nbits <= 8 * b.bits.len(),
    ensures
        !bloom::may_hold(b, key) <==> exists|i: int|
            0 <= i < b.k && !is_set(b.bits, #[trigger] probed(key, i, b.nbits as int)),
{
    assert forall|i: u32| i < b.k implies (bloom::bit_set(
        b.bits,
        #[trigger] bloom::probe(key, i, b.nbits) as int,
    ) <==> is_set(b.bits, probed(key, i as int, b.nbits as int))) by {
        lemma_probe(key, i, b.nbits);
        lemma_bit(b.bits, bloom::probe(key, i, b.nbits) as int);
    }
    if !bloom::may_hold(b, key) {
        let i = choose|i: u32|
            i < b.k && !bloom::bit_set(b.bits, #[trigger] bloom::probe(key, i, b.nbits) as int);
        assert(!is_set(b.bits, probed(key, i as int, b.nbits as int)));
    }
    if exists|i: int| 0 <= i < b.k && !is_set(b.bits, #[trigger] probed(key, i, b.nbits as int)) {
        let i = choose|i: int|
            0 <= i < b.k && !is_set(b.bits, #[trigger] probed(key, i, b.nbits as int));
        let j = i as u32;
        assert(!bloom::bit_set(b.bits, bloom::probe(key, j, b.nbits) as int));
    }
}

/// A filter can be made for any number of keys for which its bits can be counted.
pub proof fn law_filter_can_be_made(n: nat, bits_per_key: usize)
    ensures
        bloom::filter_fits(n, bits_per_key) <==> n * spent(bits_per_key) + 7 <= usize::MAX,
{
}

} // verus!
