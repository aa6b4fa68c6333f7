//! Internal keys: a user key, a sequence number and the kind of the write.

use crate::codec;
use crate::codec::{bytes_equal, bytes_less, copy_bytes, copy_range, get_u64_be, put_u64_be};
use crate::error;
use crate::error::{corruption, Error, Result};
use crate::text;
use crate::text::push_decimal;
use std::cmp::Ordering;
use vstd::prelude::*;

verus! {

/// Put = 1, Delete (tombstone) = 0. Higher kind wins for same seq (shouldn't happen).
#[derive(Debug, Clone, Copy, PartialEq, Eq, Structural)]
pub enum ValueKind {
    Delete,
    Put,
}

/// The byte that stands for a kind.
pub open spec fn kind_code(kind: ValueKind) -> u8 {
    match kind {
        ValueKind::Delete => 0,
        ValueKind::Put => 1,
    }
}

/// The kind that a byte stands for.
pub open spec fn kind_of(v: u8) -> Option<ValueKind> {
    if v == 0 {
        Some(ValueKind::Delete)
    } else if v == 1 {
        Some(ValueKind::Put)
    } else {
        None
    }
}

impl ValueKind {
    pub fn from_u8(v: u8) -> (r: Option<Self>)
        ensures
            r == kind_of(v),
    {
        match v {
            0 => Some(Self::Delete),
            1 => Some(Self::Put),
            _ => None,
        }
    }

    pub fn as_u8(self) -> (v: u8)
        ensures
            v == kind_code(self),
    {
        match self {
            Self::Delete => 0,
            Self::Put => 1,
        }
    }
}

/// What an internal key says.
pub struct KeyView {
    pub user_key: Seq<u8>,
    pub seq: u64,
    pub kind: ValueKind,
}

/// Logical record ordered by (user_key ASC, seq DESC); of two keys that agree in both, the one
/// with the higher kind comes first.
#[derive(Debug)]
pub struct InternalKey {
    pub user_key: Vec<u8>,
    pub seq: u64,
    pub kind: ValueKind,
}

impl View for InternalKey {
    type V = KeyView;

    open spec fn view(&self) -> KeyView {
        KeyView { user_key: self.user_key@, seq: self.seq, kind: self.kind }
    }
}

/// `a` comes before `b`: user keys ascending, then newest first, then higher kind first.
pub open spec fn key_lt(a: KeyView, b: KeyView) -> bool {
    ||| codec::bytes_lt(a.user_key, b.user_key)
    ||| a.user_key == b.user_key && a.seq > b.seq
    ||| a.user_key == b.user_key && a.seq == b.seq && kind_code(a.kind) > kind_code(b.kind)
}

/// Sequence numbers from here on do not fit the eight-byte tag of an encoded key.
pub const SEQ_LIMIT: u64 = 0x0100_0000_0000_0000;

/// The tag at the end of an encoded key: the sequence number above the byte of the kind.
pub open spec fn tag_of(key: KeyView) -> u64 {
    (key.seq << 8) | (kind_code(key.kind) as u64)
}

/// Encoded form of an internal key.
pub open spec fn encode_key(key: KeyView) -> Seq<u8> {
    key.user_key + codec::be64(tag_of(key))
}

/// The internal key that `bytes` encodes, or why it encodes none.
pub open spec fn decode_key(bytes: Seq<u8>) -> std::result::Result<KeyView, Seq<char>> {
    if bytes.len() < 8 {
        Err("internal key too short"@)
    } else {
        let tag = codec::u64be_at(bytes, bytes.len() - 8);
        match kind_of((tag & 0xff) as u8) {
            None => Err("bad value kind "@ + text::numeral((tag & 0xff) as nat)),
            Some(kind) => Ok(
                KeyView { user_key: bytes.take(bytes.len() - 8), seq: tag >> 8, kind },
            ),
        }
    }
}

impl InternalKey {
    pub fn put(user_key: Vec<u8>, seq: u64) -> (k: Self)
        ensures
            k@ == (KeyView { user_key: user_key@, seq, kind: ValueKind::Put }),
    {
        Self { user_key, seq, kind: ValueKind::Put }
    }

    pub fn delete(user_key: Vec<u8>, seq: u64) -> (k: Self)
        ensures
            k@ == (KeyView { user_key: user_key@, seq, kind: ValueKind::Delete }),
    {
        Self { user_key, seq, kind: ValueKind::Delete }
    }

    pub fn encode(&self) -> (buf: Vec<u8>)
        ensures
            buf@ == encode_key(self@),
    {
        let mut buf: Vec<u8> = copy_bytes(&self.user_key);
        let tag: u64 = (self.seq << 8) | (self.kind.as_u8() as u64);
        put_u64_be(&mut buf, tag);
        buf
    }

    pub fn decode(bytes: &[u8]) -> (r: Result<Self>)
        ensures
            match r {
                Ok(k) => decode_key(bytes@) == Ok::<KeyView, Seq<char>>(k@),
                Err(e) => decode_key(bytes@) is Err && error::is_corruption(
                    e,
                    decode_key(bytes@)->Err_0,
                ),
            },
    {
        if bytes.len() < 8 {
            return Err(corruption("internal key too short"));
        }
        let split: usize = bytes.len() - 8;
        let tag: u64 = get_u64_be(bytes, split);
        assert(tag & 0xff < 256) by (bit_vector);
        match ValueKind::from_u8((tag & 0xff) as u8) {
            None => {
                let mut msg = "bad value kind ".to_owned();
                push_decimal(&mut msg, tag & 0xff);
                Err(Error::Corruption(msg))
            },
            Some(kind) => {
                let user_key: Vec<u8> = copy_range(bytes, 0, split);
                Ok(Self { user_key, seq: tag >> 8, kind })
            },
        }
    }

    /// Whether this key comes before `other`.
    pub fn precedes(&self, other: &Self) -> (r: bool)
        ensures
            r == key_lt(self@, other@),
    {
        proof {
            if codec::bytes_lt(self.user_key@, other.user_key@) {
                codec::lemma_bytes_lt_asymmetric(self.user_key@, other.user_key@);
            }
        }
        if bytes_less(self.user_key.as_slice(), other.user_key.as_slice()) {
            true
        } else if bytes_equal(self.user_key.as_slice(), other.user_key.as_slice()) {
            self.seq > other.seq || (self.seq == other.seq && self.kind.as_u8()
                > other.kind.as_u8())
        } else {
            false
        }
    }

    /// Whether this key and `other` say the same.
    pub fn same(&self, other: &Self) -> (r: bool)
        ensures
            r == (self@ == other@),
    {
        self.seq == other.seq && self.kind == other.kind && bytes_equal(
            self.user_key.as_slice(),
            other.user_key.as_slice(),
        )
    }
}

impl Clone for InternalKey {
    fn clone(&self) -> (r: Self)
        ensures
            r@ == self@,
    {
        Self { user_key: copy_bytes(&self.user_key), seq: self.seq, kind: self.kind }
    }
}

impl PartialEq for InternalKey {
    fn eq(&self, other: &Self) -> (r: bool) {
        self.same(other)
    }
}

impl vstd::std_specs::cmp::PartialEqSpecImpl for InternalKey {
    open spec fn obeys_eq_spec() -> bool {
        true
    }

    open spec fn eq_spec(&self, other: &Self) -> bool {
        self@ == other@
    }
}

impl Eq for InternalKey {

}

/// How `a` and `b` are ordered.
pub open spec fn key_ordering(a: KeyView, b: KeyView) -> Ordering {
    if key_lt(a, b) {
        Ordering::Less
    } else if a == b {
        Ordering::Equal
    } else {
        Ordering::Greater
    }
}

impl PartialOrd for InternalKey {
    fn partial_cmp(&self, other: &Self) -> (r: Option<Ordering>) {
        if self.precedes(other) {
            Some(Ordering::Less)
        } else if self.same(other) {
            Some(Ordering::Equal)
        } else {
            Some(Ordering::Greater)
        }
    }
}

impl vstd::std_specs::cmp::PartialOrdSpecImpl for InternalKey {
    open spec fn obeys_partial_cmp_spec() -> bool {
        true
    }

    open spec fn partial_cmp_spec(&self, other: &Self) -> Option<Ordering> {
        Some(key_ordering(self@, other@))
    }
}

/// The user key part of an encoded key: all but the last eight bytes.
pub open spec fn encoded_user_key(a: Seq<u8>) -> Seq<u8> {
    if a.len() >= 8 {
        a.take(a.len() - 8)
    } else {
        Seq::empty()
    }
}

/// The sequence number in an encoded key.
pub open spec fn encoded_seq(a: Seq<u8>) -> u64 {
    codec::u64be_at(a, a.len() - 8) >> 8
}

/// The byte of the kind in an encoded key.
pub open spec fn encoded_kind(a: Seq<u8>) -> u64 {
    codec::u64be_at(a, a.len() - 8) & 0xff
}

/// Encoded key `a` comes before encoded key `b`. Inputs too short for a tag are told apart by
/// their user key part alone.
pub open spec fn encoded_lt(a: Seq<u8>, b: Seq<u8>) -> bool {
    let ak = encoded_user_key(a);
    let bk = encoded_user_key(b);
    ||| codec::bytes_lt(ak, bk)
    ||| ak == bk && a.len() >= 8 && b.len() >= 8 && (encoded_seq(a) > encoded_seq(b) || (
    encoded_seq(a) == encoded_seq(b) && encoded_kind(a) > encoded_kind(b)))
}

/// Compare encoded internal keys without full decode (user_key + tag).
pub fn compare_encoded(a: &[u8], b: &[u8]) -> (r: Ordering)
    ensures
        r == (if encoded_lt(a@, b@) {
            Ordering::Less
        } else if encoded_lt(b@, a@) {
            Ordering::Greater
        } else {
            Ordering::Equal
        }),
{
    let a_end: usize = if a.len() >= 8 {
        a.len() - 8
    } else {
        0
    };
    let b_end: usize = if b.len() >= 8 {
        b.len() - 8
    } else {
        0
    };
    let a_key = vstd::slice::slice_subrange(a, 0, a_end);
    let b_key = vstd::slice::slice_subrange(b, 0, b_end);
    proof {
        assert(a_key@ =~= encoded_user_key(a@));
        assert(b_key@ =~= encoded_user_key(b@));
        codec::lemma_bytes_lt_total(a_key@, b_key@);
        codec::lemma_bytes_lt_irreflexive(a_key@);
        if codec::bytes_lt(a_key@, b_key@) {
            codec::lemma_bytes_lt_asymmetric(a_key@, b_key@);
        }
    }
    if bytes_less(a_key, b_key) {
        return Ordering::Less;
    }
    if bytes_less(b_key, a_key) {
        return Ordering::Greater;
    }
    if a.len() < 8 || b.len() < 8 {
        return Ordering::Equal;
    }
    let a_tag: u64 = get_u64_be(a, a_end);
    let b_tag: u64 = get_u64_be(b, b_end);
    let a_seq: u64 = a_tag >> 8;
    let b_seq: u64 = b_tag >> 8;
    let a_kind: u64 = a_tag & 0xff;
    let b_kind: u64 = b_tag & 0xff;
    if a_seq > b_seq || (a_seq == b_seq && a_kind > b_kind) {
        Ordering::Less
    } else if b_seq > a_seq || (a_seq == b_seq && b_kind > a_kind) {
        Ordering::Greater
    } else {
        Ordering::Equal
    }
}

/// No key comes before itself.
pub proof fn law_key_order_irreflexive(a: KeyView)
    ensures
        !key_lt(a, a),
{
    codec::lemma_bytes_lt_irreflexive(a.user_key);
}

/// The order of internal keys is transitive.
pub proof fn law_key_order_transitive(a: KeyView, b: KeyView, c: KeyView)
    requires
        key_lt(a, b),
        key_lt(b, c),
    ensures
        key_lt(a, c),
{
    if codec::bytes_lt(a.user_key, b.user_key) && codec::bytes_lt(b.user_key, c.user_key) {
        codec::lemma_bytes_lt_transitive(a.user_key, b.user_key, c.user_key);
    }
}

/// Of two different internal keys one comes before the other.
pub proof fn law_key_order_total(a: KeyView, b: KeyView)
    ensures
        a == b || key_lt(a, b) || key_lt(b, a),
{
    codec::lemma_bytes_lt_total(a.user_key, b.user_key);
    assert(kind_code(a.kind) == kind_code(b.kind) ==> a.kind == b.kind);
}

/// Two internal keys do not each come before the other.
pub proof fn law_key_order_asymmetric(a: KeyView, b: KeyView)
    requires
        key_lt(a, b),
    ensures
        !key_lt(b, a),
        a != b,
{
    law_key_order_irreflexive(a);
    if key_lt(b, a) {
        law_key_order_transitive(a, b, a);
    }
}

/// Of two versions of one user key, the newer one comes first.
pub proof fn law_newer_first(user_key: Seq<u8>, newer: u64, older: u64, k1: ValueKind, k2: ValueKind)
    requires
        newer > older,
    ensures
        key_lt(
            KeyView { user_key, seq: newer, kind: k1 },
            KeyView { user_key, seq: older, kind: k2 },
        ),
{
}

pub proof fn lemma_tag(key: KeyView)
    requires
        key.seq < SEQ_LIMIT,
    ensures
        tag_of(key) >> 8 == key.seq,
        tag_of(key) & 0xff == kind_code(key.kind) as u64,
        (tag_of(key) & 0xff) as u8 == kind_code(key.kind),
{
    let seq = key.seq;
    let c = kind_code(key.kind) as u64;
    assert(((seq << 8) | c) >> 8 == seq && ((seq << 8) | c) & 0xff == c) by (bit_vector)
        requires
            seq < 0x0100_0000_0000_0000u64,
            c <= 1,
    ;
}

/// Decoding an encoded key gives the key back, for sequence numbers that fit the tag.
pub proof fn law_encode_decode(key: KeyView)
    requires
        key.seq < SEQ_LIMIT,
    ensures
        decode_key(encode_key(key)) == Ok::<KeyView, Seq<char>>(key),
        encoded_user_key(encode_key(key)) == key.user_key,
        encode_key(key).len() == key.user_key.len() + 8,
{
    let b = encode_key(key);
    let n = key.user_key.len() as int;
    assert(b.subrange(n, n + 8) =~= codec::be64(tag_of(key)));
    codec::lemma_u64be_at(b, n, tag_of(key));
    lemma_tag(key);
    assert(b.take(n) =~= key.user_key);
}

/// Encoded keys compare as the keys that they encode.
pub proof fn law_encoded_order(a: KeyView, b: KeyView)
    requires
        a.seq < SEQ_LIMIT,
        b.seq < SEQ_LIMIT,
    ensures
        encoded_lt(encode_key(a), encode_key(b)) == key_lt(a, b),
{
    law_encode_decode(a);
    law_encode_decode(b);
    lemma_tag(a);
    lemma_tag(b);
    let ea = encode_key(a);
    let eb = encode_key(b);
    let na = a.user_key.len() as int;
    let nb = b.user_key.len() as int;
    assert(ea.subrange(na, na + 8) =~= codec::be64(tag_of(a)));
    codec::lemma_u64be_at(ea, na, tag_of(a));
    assert(eb.subrange(nb, nb + 8) =~= codec::be64(tag_of(b)));
    codec::lemma_u64be_at(eb, nb, tag_of(b));
}

/// A key with its value, as the engine keeps it.
pub type Record = (KeyView, Seq<u8>);

/// What a stored pair says.
pub open spec fn record_view(r: (InternalKey, Vec<u8>)) -> Record {
    (r.0@, r.1@)
}

/// What a run of stored pairs says.
pub open spec fn records_view(s: Seq<(InternalKey, Vec<u8>)>) -> Seq<Record> {
    Seq::new(s.len(), |i: int| record_view(s[i]))
}

/// A copy of a stored pair.
pub fn copy_record(r: &(InternalKey, Vec<u8>)) -> (c: (InternalKey, Vec<u8>))
    ensures
        record_view(c) == record_view(*r),
{
    (r.0.clone(), copy_bytes(&r.1))
}

} // verus!
