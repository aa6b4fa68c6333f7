//! In which order keys stand.

use crate::codec;
use crate::key;
use crate::key::{KeyView, ValueKind};
use vstd::prelude::*;

verus! {

/// The byte strings agree up to position `i`, and there `a` ends, or has the smaller byte.
pub open spec fn parts_at(a: Seq<u8>, b: Seq<u8>, i: int) -> bool {
    &&& 0 <= i < b.len()
    &&& i <= a.len()
    &&& a.take(i) == b.take(i)
    &&& i == a.len() || a[i] < b[i]
}

/// Byte strings stand in lexicographic order: one comes before another exactly if it is a shorter
/// beginning of it, or has the smaller byte where they first differ.
pub proof fn law_bytes_order_is_lexicographic(a: Seq<u8>, b: Seq<u8>)
    ensures
        codec::bytes_lt(a, b) <==> exists|i: int| #[trigger] parts_at(a, b, i),
        codec::bytes_le(a, b) <==> a == b || exists|i: int| #[trigger] parts_at(a, b, i),
    decreases a.len(),
{
    if b.len() > 0 && a.len() > 0 && a[0] == b[0] {
        let c = a.skip(1);
        let d = b.skip(1);
        law_bytes_order_is_lexicographic(c, d);
        if exists|i: int| #[trigger] parts_at(c, d, i) {
            let i = choose|i: int| #[trigger] parts_at(c, d, i);
            assert(a.take(i + 1) =~= seq![a[0]] + c.take(i));
            assert(b.take(i + 1) =~= seq![b[0]] + d.take(i));
            assert(parts_at(a, b, i + 1));
        }
        if exists|i: int| #[trigger] parts_at(a, b, i) {
            let i = choose|i: int| #[trigger] parts_at(a, b, i);
            assert(i > 0);
            assert(c.take(i - 1) =~= a.take(i).skip(1));
            assert(d.take(i - 1) =~= b.take(i).skip(1));
            assert(parts_at(c, d, i - 1));
        }
    } else if b.len() > 0 {
        if codec::bytes_lt(a, b) {
            assert(a.take(0) =~= b.take(0));
            assert(parts_at(a, b, 0));
        }
        if exists|i: int| #[trigger] parts_at(a, b, i) {
            let i = choose|i: int| #[trigger] parts_at(a, b, i);
            if a.len() > 0 && i > 0 {
                assert(a.take(i)[0] == a[0]);
                assert(b.take(i)[0] == b[0]);
            }
        }
    }
}

/// Internal keys stand by user key; those of one user key by sequence number, the higher one first;
/// and of two with the same sequence number the one of a value comes before the tombstone.
pub proof fn law_key_order(a: KeyView, b: KeyView)
    ensures
        key::key_lt(a, b) <==> {
            ||| exists|i: int| #[trigger] parts_at(a.user_key, b.user_key, i)
            ||| a.user_key == b.user_key && a.seq > b.seq
            ||| a.user_key == b.user_key && a.seq == b.seq && a.kind == ValueKind::Put && b.kind
                == ValueKind::Delete
        },
{
    law_bytes_order_is_lexicographic(a.user_key, b.user_key);
}

/// What comparing two keys gives: less if the first comes before, equal if they are the same, else
/// greater; and the other way round if they change places.
pub proof fn law_key_comparison(a: KeyView, b: KeyView)
    ensures
        key::key_ordering(a, b) is Less <==> key::key_lt(a, b),
        key::key_ordering(a, b) is Equal <==> a == b,
        key::key_ordering(a, b) is Greater <==> key::key_lt(b, a),
        key::key_ordering(a, b) is Less <==> key::key_ordering(b, a) is Greater,
{
    key::law_key_order_total(a, b);
    key::law_key_order_irreflexive(a);
    if key::key_lt(a, b) {
        key::law_key_order_asymmetric(a, b);
    }
    if key::key_lt(b, a) {
        key::law_key_order_asymmetric(b, a);
    }
}

} // verus!
