//! The item types stored in sorted pages — versioned keys, tagged values,
//! child indexes — with their bit-exact wire encodings.
//!
//! Wire formats: a raw byte string is a u32 little-endian length prefix
//! followed by the bytes; a key is its raw bytes followed by a u64
//! little-endian sequence number; a value is a one-byte tag (0 put,
//! 1 delete) followed by the put bytes; an index is two u64 little-endian
//! fields.

use crate::iter::DupItem;
use crate::iter::KeyCmp;
use crate::iter::SortKey;
use vstd::bytes::*;
use vstd::prelude::*;
use vstd::seq_lib::*;
use vstd::slice::slice_subrange;

verus! {

/// Copies a byte vector.
pub fn copy_bytes(src: &Vec<u8>) -> (r: Vec<u8>)
    ensures
        r@ == src@,
{
    let mut r: Vec<u8> = Vec::new();
    let n = src.len();
    let mut i: usize = 0;
    while i < n
        invariant
            i <= n,
            n == src@.len(),
            r@ == src@.subrange(0, i as int),
        decreases n - i,
    {
        r.push(src[i]);
        proof {
            assert(r@ =~= src@.subrange(0, i + 1));
        }
        i += 1;
    }
    proof {
        assert(r@ =~= src@);
    }
    r
}

/// The abstract value of a [`Key`]: raw bytes and a sequence number.
pub struct KeyView {
    pub raw: Seq<u8>,
    pub lsn: u64,
}

/// A versioned key: raw bytes plus a monotonically meaningful sequence
/// number. Keys order by raw bytes ascending, then by sequence number
/// descending, so the freshest version of a raw key comes first.
#[derive(Debug)]
pub struct Key {
    pub raw: Vec<u8>,
    pub lsn: u64,
}

impl View for Key {
    type V = KeyView;

    open spec fn view(&self) -> KeyView {
        KeyView { raw: self.raw@, lsn: self.lsn }
    }
}

impl Key {
    pub fn new(raw: Vec<u8>, lsn: u64) -> (r: Self)
        ensures
            r@.raw == raw@,
            r@.lsn == lsn,
    {
        Key { raw, lsn }
    }

    /// The raw part of the key.
    pub fn as_raw(&self) -> (r: &Vec<u8>)
        ensures
            r@ == self@.raw,
    {
        &self.raw
    }

    /// A key usable as a split separator: the same raw bytes with the
    /// greatest sequence number, so it sorts at the start of the raw key's
    /// run and a split never lands inside that run.
    pub fn as_split_separator(&self) -> (r: Self)
        ensures
            r@.raw == self@.raw,
            r@.lsn == u64::MAX,
    {
        Key { raw: copy_bytes(&self.raw), lsn: u64::MAX }
    }
}

impl DupItem for Key {
    fn dup(&self) -> (r: Self) {
        Key { raw: copy_bytes(&self.raw), lsn: self.lsn }
    }
}

/// Lexicographic order on byte strings; a proper prefix comes first.
pub open spec fn lex_le(a: Seq<u8>, b: Seq<u8>) -> bool
    decreases a.len(),
{
    if a.len() == 0 {
        true
    } else if b.len() == 0 {
        false
    } else if a[0] < b[0] {
        true
    } else if a[0] > b[0] {
        false
    } else {
        lex_le(a.drop_first(), b.drop_first())
    }
}

pub proof fn lemma_lex_total(a: Seq<u8>, b: Seq<u8>)
    ensures
        lex_le(a, b) || lex_le(b, a),
    decreases a.len(),
{
    if a.len() > 0 && b.len() > 0 && a[0] == b[0] {
        lemma_lex_total(a.drop_first(), b.drop_first());
    }
}

pub proof fn lemma_lex_antisym(a: Seq<u8>, b: Seq<u8>)
    requires
        lex_le(a, b),
        lex_le(b, a),
    ensures
        a == b,
    decreases a.len(),
{
    if a.len() == 0 {
        assert(b.len() == 0);
        assert(a =~= b);
    } else {
        assert(b.len() > 0);
        assert(a[0] == b[0]);
        lemma_lex_antisym(a.drop_first(), b.drop_first());
        assert(a =~= b) by {
            assert(a.drop_first() == b.drop_first());
            assert(forall|i: int|
                1 <= i < a.len() ==> a[i] == a.drop_first()[i - 1] && b[i] == b.drop_first()[i
                    - 1]);
        }
    }
}

pub proof fn lemma_lex_trans(a: Seq<u8>, b: Seq<u8>, c: Seq<u8>)
    requires
        lex_le(a, b),
        lex_le(b, c),
    ensures
        lex_le(a, c),
    decreases a.len(),
{
    if a.len() > 0 && b.len() > 0 && c.len() > 0 {
        if a[0] == b[0] && b[0] == c[0] {
            lemma_lex_trans(a.drop_first(), b.drop_first(), c.drop_first());
        }
    }
}

/// The key order: raw bytes ascending, then sequence numbers descending.
pub open spec fn key_le(a: KeyView, b: KeyView) -> bool {
    if a.raw == b.raw {
        a.lsn >= b.lsn
    } else {
        lex_le(a.raw, b.raw)
    }
}

impl SortKey for Key {
    open spec fn le(a: KeyView, b: KeyView) -> bool {
        key_le(a, b)
    }

    proof fn le_reflexive(a: KeyView) {
    }

    proof fn le_total(a: KeyView, b: KeyView) {
        if a.raw != b.raw {
            lemma_lex_total(a.raw, b.raw);
        }
    }

    proof fn le_transitive(a: KeyView, b: KeyView, c: KeyView) {
        if a.raw == b.raw && b.raw == c.raw {
        } else if a.raw == b.raw {
        } else if b.raw == c.raw {
        } else {
            lemma_lex_trans(a.raw, b.raw, c.raw);
            if a.raw == c.raw {
                lemma_lex_antisym(a.raw, b.raw);
            }
        }
    }

    proof fn le_antisymmetric(a: KeyView, b: KeyView) {
        if a.raw != b.raw {
            lemma_lex_antisym(a.raw, b.raw);
        }
    }

    fn compare(&self, other: &Self) -> (c: KeyCmp) {
        let a = &self.raw;
        let b = &other.raw;
        let alen = a.len();
        let blen = b.len();
        let n = if alen < blen {
            alen
        } else {
            blen
        };
        let mut i: usize = 0;
        while i < n
            invariant
                a@ == self@.raw,
                b@ == other@.raw,
                i <= n,
                n <= a@.len(),
                n <= b@.len(),
                n == if a@.len() < b@.len() {
                    a@.len()
                } else {
                    b@.len()
                },
                forall|j: int| 0 <= j < i ==> a@[j] == b@[j],
            decreases n - i,
        {
            let x = a[i];
            let y = b[i];
            if x < y {
                proof {
                    lemma_lex_skip_agree(a@, b@, i as int);
                    assert(lex_le(a@.skip(i as int), b@.skip(i as int)));
                    assert(a@ != b@) by {
                        assert(a@[i as int] != b@[i as int]);
                    }
                }
                return KeyCmp::Less;
            }
            if x > y {
                proof {
                    lemma_lex_skip_agree(b@, a@, i as int);
                    assert(lex_le(b@.skip(i as int), a@.skip(i as int)));
                    assert(a@ != b@) by {
                        assert(a@[i as int] != b@[i as int]);
                    }
                }
                return KeyCmp::Greater;
            }
            i += 1;
        }
        if alen < blen {
            proof {
                lemma_lex_skip_agree(a@, b@, n as int);
                assert(a@.skip(n as int).len() == 0);
                assert(a@ != b@);
            }
            return KeyCmp::Less;
        }
        if alen > blen {
            proof {
                lemma_lex_skip_agree(b@, a@, n as int);
                assert(b@.skip(n as int).len() == 0);
                assert(a@ != b@);
            }
            return KeyCmp::Greater;
        }
        proof {
            assert(a@ =~= b@);
        }
        if self.lsn > other.lsn {
            KeyCmp::Less
        } else if self.lsn < other.lsn {
            KeyCmp::Greater
        } else {
            KeyCmp::Equal
        }
    }
}

/// When the first `i` bytes agree, the lexicographic order is decided by
/// the remainders.
pub proof fn lemma_lex_skip_agree(a: Seq<u8>, b: Seq<u8>, i: int)
    requires
        0 <= i <= a.len(),
        i <= b.len(),
        forall|j: int| 0 <= j < i ==> a[j] == b[j],
    ensures
        lex_le(a, b) == lex_le(a.skip(i), b.skip(i)),
    decreases i,
{
    if i > 0 {
        assert(a.len() > 0 && b.len() > 0 && a[0] == b[0]);
        assert(lex_le(a, b) == lex_le(a.drop_first(), b.drop_first()));
        assert(forall|j: int|
            0 <= j < i - 1 ==> a.drop_first()[j] == a[j + 1] && b.drop_first()[j] == b[j + 1]);
        lemma_lex_skip_agree(a.drop_first(), b.drop_first(), i - 1);
        assert(a.drop_first().skip(i - 1) =~= a.skip(i));
        assert(b.drop_first().skip(i - 1) =~= b.skip(i));
    } else {
        assert(a.skip(0) =~= a);
        assert(b.skip(0) =~= b);
    }
}

/// The abstract value of a [`Value`].
pub enum ValueView {
    Put(Seq<u8>),
    Delete,
}

/// A stored value: bytes to put, or a tombstone.
#[derive(Debug)]
pub enum Value {
    Put(Vec<u8>),
    Delete,
}

impl View for Value {
    type V = ValueView;

    open spec fn view(&self) -> ValueView {
        match self {
            Value::Put(b) => ValueView::Put(b@),
            Value::Delete => ValueView::Delete,
        }
    }
}

impl DupItem for Value {
    fn dup(&self) -> (r: Self) {
        match self {
            Value::Put(b) => Value::Put(copy_bytes(b)),
            Value::Delete => Value::Delete,
        }
    }
}

/// A child or overflow pointer payload used in inner pages.
#[derive(Copy, Clone, Debug, PartialEq, Eq, Structural)]
pub struct Index {
    pub id: u64,
    pub epoch: u64,
}

impl View for Index {
    type V = Index;

    open spec fn view(&self) -> Index {
        *self
    }
}

impl Index {
    pub fn new(id: u64, epoch: u64) -> (r: Self)
        ensures
            r.id == id,
            r.epoch == epoch,
    {
        Index { id, epoch }
    }
}

/// The wire form of a raw byte string: u32 little-endian length, then the
/// bytes.
pub open spec fn spec_enc_bytes(b: Seq<u8>) -> Seq<u8> {
    spec_u32_to_le_bytes(b.len() as u32) + b
}

/// The wire form of a key: its raw byte string, then the u64 little-endian
/// sequence number.
pub open spec fn spec_enc_key(k: KeyView) -> Seq<u8> {
    spec_enc_bytes(k.raw) + spec_u64_to_le_bytes(k.lsn)
}

/// The wire form of a value: tag byte 0 plus the bytes for a put, tag byte
/// 1 alone for a delete.
pub open spec fn spec_enc_value(v: ValueView) -> Seq<u8> {
    match v {
        ValueView::Put(b) => seq![0u8] + b,
        ValueView::Delete => seq![1u8],
    }
}

/// The wire form of an index: two u64 little-endian fields.
pub open spec fn spec_enc_index(x: Index) -> Seq<u8> {
    spec_u64_to_le_bytes(x.id) + spec_u64_to_le_bytes(x.epoch)
}

/// The key encoding is twelve bytes longer than the raw bytes.
pub proof fn lemma_enc_key_len(k: KeyView)
    requires
        k.raw.len() <= u32::MAX,
    ensures
        spec_enc_key(k).len() == 12 + k.raw.len(),
{
    lemma_auto_spec_u32_to_from_le_bytes();
    lemma_auto_spec_u64_to_from_le_bytes();
}

/// Appends the u32 little-endian form of `x`.
pub fn put_u32(out: &mut Vec<u8>, x: u32) -> (nothing: ())
    ensures
        final(out)@ == old(out)@ + spec_u32_to_le_bytes(x),
{
    let mut b = u32_to_le_bytes(x);
    out.append(&mut b);
}

/// Appends the u64 little-endian form of `x`.
pub fn put_u64(out: &mut Vec<u8>, x: u64) -> (nothing: ())
    ensures
        final(out)@ == old(out)@ + spec_u64_to_le_bytes(x),
{
    let mut b = u64_to_le_bytes(x);
    out.append(&mut b);
}

/// Appends the bytes of `b`.
pub fn put_slice(out: &mut Vec<u8>, b: &Vec<u8>) -> (nothing: ())
    ensures
        final(out)@ == old(out)@ + b@,
{
    let mut c = copy_bytes(b);
    out.append(&mut c);
}

impl Key {
    /// The number of bytes the key encodes to.
    pub fn encode_size(&self) -> (r: usize)
        requires
            self@.raw.len() + 12 <= usize::MAX,
            self@.raw.len() <= u32::MAX,
        ensures
            r == spec_enc_key(self@).len(),
    {
        proof {
            lemma_enc_key_len(self@);
        }
        4 + self.raw.len() + 8
    }

    /// Appends the key's wire form.
    pub fn encode_to(&self, out: &mut Vec<u8>) -> (nothing: ())
        requires
            self@.raw.len() <= u32::MAX,
        ensures
            final(out)@ == old(out)@ + spec_enc_key(self@),
    {
        put_u32(out, self.raw.len() as u32);
        put_slice(out, &self.raw);
        put_u64(out, self.lsn);
        proof {
            assert(out@ =~= old(out)@ + spec_enc_key(self@));
        }
    }
}

impl Value {
    /// The number of bytes the value encodes to.
    pub fn encode_size(&self) -> (r: usize)
        requires
            spec_enc_value(self@).len() <= usize::MAX,
        ensures
            r == spec_enc_value(self@).len(),
    {
        match self {
            Value::Put(b) => 1 + b.len(),
            Value::Delete => 1,
        }
    }

    /// Appends the value's wire form.
    pub fn encode_to(&self, out: &mut Vec<u8>) -> (nothing: ())
        ensures
            final(out)@ == old(out)@ + spec_enc_value(self@),
    {
        match self {
            Value::Put(b) => {
                out.push(0);
                put_slice(out, b);
                proof {
                    assert(out@ =~= old(out)@ + spec_enc_value(self@));
                }
            },
            Value::Delete => {
                out.push(1);
                proof {
                    assert(out@ =~= old(out)@ + spec_enc_value(self@));
                }
            },
        }
    }
}

impl Index {
    /// The number of bytes the index encodes to: two u64 fields.
    pub fn encode_size(&self) -> (r: usize)
        ensures
            r == spec_enc_index(self@).len(),
    {
        proof {
            lemma_auto_spec_u64_to_from_le_bytes();
        }
        16
    }

    /// Appends the index's wire form.
    pub fn encode_to(&self, out: &mut Vec<u8>) -> (nothing: ())
        ensures
            final(out)@ == old(out)@ + spec_enc_index(self@),
    {
        put_u64(out, self.id);
        put_u64(out, self.epoch);
        proof {
            assert(out@ =~= old(out)@ + spec_enc_index(self@));
        }
    }
}

/// Two key encodings that lead the same byte string are the same key's.
pub proof fn lemma_enc_key_prefix_unique(k1: KeyView, k2: KeyView, t: Seq<u8>)
    requires
        k1.raw.len() <= u32::MAX,
        k2.raw.len() <= u32::MAX,
        spec_enc_key(k1).is_prefix_of(t),
        spec_enc_key(k2).is_prefix_of(t),
    ensures
        k1 == k2,
{
    lemma_auto_spec_u32_to_from_le_bytes();
    lemma_auto_spec_u64_to_from_le_bytes();
    let e1 = spec_enc_key(k1);
    let e2 = spec_enc_key(k2);
    assert(e1.subrange(0, 4) =~= spec_u32_to_le_bytes(k1.raw.len() as u32));
    assert(e2.subrange(0, 4) =~= spec_u32_to_le_bytes(k2.raw.len() as u32));
    assert(e1.subrange(0, 4) =~= t.subrange(0, 4));
    assert(e2.subrange(0, 4) =~= t.subrange(0, 4));
    assert(spec_u32_from_le_bytes(spec_u32_to_le_bytes(k1.raw.len() as u32)) == k1.raw.len()
        as u32);
    assert(spec_u32_from_le_bytes(spec_u32_to_le_bytes(k2.raw.len() as u32)) == k2.raw.len()
        as u32);
    assert(k1.raw.len() == k2.raw.len());
    let n = k1.raw.len() as int;
    assert(k1.raw =~= t.subrange(4, 4 + n)) by {
        assert(forall|i: int| 0 <= i < n ==> e1[4 + i] == k1.raw[i]);
    }
    assert(k2.raw =~= t.subrange(4, 4 + n)) by {
        assert(forall|i: int| 0 <= i < n ==> e2[4 + i] == k2.raw[i]);
    }
    assert(spec_u64_to_le_bytes(k1.lsn) =~= t.subrange(4 + n, 12 + n)) by {
        assert(forall|i: int| 0 <= i < 8 ==> e1[4 + n + i] == spec_u64_to_le_bytes(k1.lsn)[i]);
    }
    assert(spec_u64_to_le_bytes(k2.lsn) =~= t.subrange(4 + n, 12 + n)) by {
        assert(forall|i: int| 0 <= i < 8 ==> e2[4 + n + i] == spec_u64_to_le_bytes(k2.lsn)[i]);
    }
    assert(spec_u64_from_le_bytes(spec_u64_to_le_bytes(k1.lsn)) == k1.lsn);
    assert(spec_u64_from_le_bytes(spec_u64_to_le_bytes(k2.lsn)) == k2.lsn);
}

/// Decodes a key at `pos`: the length prefix, the raw bytes, the sequence
/// number. Succeeds exactly when a key encoding starts there.
pub fn decode_key(bytes: &[u8], pos: usize) -> (r: Option<(Key, usize)>)
    requires
        pos <= bytes@.len(),
    ensures
        r matches Some(p) ==> pos + 12 <= p.1 <= bytes@.len() && bytes@.subrange(pos as int, p.1 as int)
            == spec_enc_key(p.0@) && p.1 == pos + 12 + p.0@.raw.len() && p.0@.raw.len()
            <= u32::MAX,
        forall|kv: KeyView|
            (#[trigger] spec_enc_key(kv)).is_prefix_of(bytes@.skip(pos as int)) ==> r is Some,
{
    proof {
        lemma_auto_spec_u32_to_from_le_bytes();
        lemma_auto_spec_u64_to_from_le_bytes();
    }
    let len = bytes.len();
    if len - pos < 4 {
        proof {
            assert forall|kv: KeyView| !(#[trigger] spec_enc_key(kv)).is_prefix_of(
                bytes@.skip(pos as int),
            ) by {
                assert(spec_enc_key(kv).len() >= 12);
            }
        }
        return None;
    }
    let n32 = u32_from_le_bytes(slice_subrange(bytes, pos, pos + 4));
    let n = n32 as usize;
    if len - pos < 4 {
        return None;
    }
    if n > len - pos - 4 || (len - pos - 4 - n) < 8 {
        proof {
            assert forall|kv: KeyView| !(#[trigger] spec_enc_key(kv)).is_prefix_of(
                bytes@.skip(pos as int),
            ) by {
                if spec_enc_key(kv).is_prefix_of(bytes@.skip(pos as int)) {
                    let e = spec_enc_key(kv);
                    assert(e.subrange(0, 4) =~= spec_u32_to_le_bytes(kv.raw.len() as u32));
                    assert(e.subrange(0, 4) =~= bytes@.subrange(pos as int, pos + 4));
                    assert(kv.raw.len() as u32 == n32);
                    assert(e.len() == 12 + kv.raw.len());
                    assert(e.len() <= bytes@.len() - pos);
                }
            }
        }
        return None;
    }
    let mut raw: Vec<u8> = Vec::new();
    let mut i: usize = 0;
    while i < n
        invariant
            i <= n,
            pos + 4 + n <= bytes@.len(),
            bytes@.len() <= usize::MAX,
            raw@ == bytes@.subrange(pos + 4, pos + 4 + i),
        decreases n - i,
    {
        raw.push(bytes[pos + 4 + i]);
        proof {
            assert(raw@ =~= bytes@.subrange(pos + 4, pos + 4 + i + 1));
        }
        i += 1;
    }
    let lsn = u64_from_le_bytes(slice_subrange(bytes, pos + 4 + n, pos + 4 + n + 8));
    let end = pos + 4 + n + 8;
    let k = Key { raw, lsn };
    proof {
        let e = spec_enc_key(k@);
        assert(spec_u32_to_le_bytes(k@.raw.len() as u32) =~= bytes@.subrange(
            pos as int,
            pos + 4,
        )) by {
            assert(k@.raw.len() == n);
            assert(spec_u32_from_le_bytes(bytes@.subrange(pos as int, pos + 4)) == n32);
            assert(spec_u32_to_le_bytes(spec_u32_from_le_bytes(bytes@.subrange(pos as int, pos + 4)))
                =~= bytes@.subrange(pos as int, pos + 4));
        }
        assert(spec_u64_to_le_bytes(k@.lsn) =~= bytes@.subrange(pos + 4 + n, pos + 12 + n)) by {
            assert(spec_u64_from_le_bytes(bytes@.subrange(pos + 4 + n, pos + 12 + n)) == lsn);
            assert(spec_u64_to_le_bytes(spec_u64_from_le_bytes(bytes@.subrange(
                pos + 4 + n,
                pos + 12 + n,
            ))) =~= bytes@.subrange(pos + 4 + n, pos + 12 + n));
        }
        assert(bytes@.subrange(pos as int, end as int) =~= e);
    }
    Some((k, end))
}

/// Decodes the value filling `[pos, end)`: the tag byte, then the put
/// bytes. Succeeds exactly when the region is a value encoding.
pub fn decode_value(bytes: &[u8], pos: usize, end: usize) -> (r: Option<Value>)
    requires
        pos <= end <= bytes@.len(),
    ensures
        r matches Some(v) ==> spec_enc_value(v@) == bytes@.subrange(pos as int, end as int),
        forall|vv: ValueView|
            #[trigger] spec_enc_value(vv) == bytes@.subrange(pos as int, end as int) ==> r
                is Some,
{
    if end == pos {
        proof {
            assert forall|vv: ValueView| spec_enc_value(vv) != bytes@.subrange(
                pos as int,
                end as int,
            ) by {
                assert(spec_enc_value(vv).len() >= 1);
            }
        }
        return None;
    }
    let tag = bytes[pos];
    if tag == 0 {
        let mut raw: Vec<u8> = Vec::new();
        let mut i: usize = pos + 1;
        while i < end
            invariant
                pos + 1 <= i <= end <= bytes@.len(),
                raw@ == bytes@.subrange(pos + 1, i as int),
            decreases end - i,
        {
            raw.push(bytes[i]);
            proof {
                assert(raw@ =~= bytes@.subrange(pos + 1, i + 1));
            }
            i += 1;
        }
        let v = Value::Put(raw);
        proof {
            assert(spec_enc_value(v@) =~= bytes@.subrange(pos as int, end as int));
        }
        Some(v)
    } else if tag == 1 && end == pos + 1 {
        proof {
            assert(spec_enc_value(ValueView::Delete) =~= bytes@.subrange(pos as int, end as int));
        }
        Some(Value::Delete)
    } else {
        proof {
            assert forall|vv: ValueView| spec_enc_value(vv) != bytes@.subrange(
                pos as int,
                end as int,
            ) by {
                let s = bytes@.subrange(pos as int, end as int);
                assert(s[0] == tag);
                match vv {
                    ValueView::Put(b) => {
                        assert(spec_enc_value(vv)[0] == 0);
                    },
                    ValueView::Delete => {
                        assert(spec_enc_value(vv)[0] == 1 && spec_enc_value(vv).len() == 1);
                    },
                }
            }
        }
        None
    }
}

/// Decodes an index at `pos`: two u64 little-endian fields. Succeeds
/// exactly when sixteen bytes remain.
pub fn decode_index(bytes: &[u8], pos: usize) -> (r: Option<(Index, usize)>)
    requires
        pos <= bytes@.len(),
    ensures
        r matches Some(p) ==> p.1 == pos + 16 && p.1 <= bytes@.len() && bytes@.subrange(
            pos as int,
            p.1 as int,
        ) == spec_enc_index(p.0@),
        r is Some <==> pos + 16 <= bytes@.len(),
{
    proof {
        lemma_auto_spec_u64_to_from_le_bytes();
    }
    let len = bytes.len();
    if len - pos < 16 {
        return None;
    }
    let id = u64_from_le_bytes(slice_subrange(bytes, pos, pos + 8));
    let epoch = u64_from_le_bytes(slice_subrange(bytes, pos + 8, pos + 16));
    let x = Index { id, epoch };
    proof {
        assert(spec_u64_to_le_bytes(id) =~= bytes@.subrange(pos as int, pos + 8));
        assert(spec_u64_to_le_bytes(epoch) =~= bytes@.subrange(pos + 8, pos + 16));
        assert(bytes@.subrange(pos as int, pos + 16) =~= spec_enc_index(x@));
    }
    Some((x, pos + 16))
}

} // verus!
