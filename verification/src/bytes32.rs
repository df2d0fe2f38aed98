//! A 32-byte word serving as sparse-Merkle-tree key, tree value, and
//! little-endian integer window.

use vstd::prelude::*;
use vstd::bytes::{
    spec_u16_from_le_bytes, spec_u32_from_le_bytes, spec_u64_from_le_bytes, spec_u64_to_le_bytes,
    u16_from_le_bytes, u32_from_le_bytes, u64_from_le_bytes, u64_to_le_bytes,
};
use vstd::slice::slice_subrange;

verus! {

/// A sequence of 32 zero bytes, the value of an untouched tree leaf.
pub open spec fn zero32() -> Seq<u8> {
    Seq::new(32, |i: int| 0u8)
}

/// Strict lexicographic order on equal-length byte sequences.
pub open spec fn lex_lt(a: Seq<u8>, b: Seq<u8>) -> bool
    recommends
        a.len() == b.len(),
    decreases a.len(),
{
    if a.len() == 0 || b.len() == 0 {
        false
    } else if a.first() < b.first() {
        true
    } else if a.first() > b.first() {
        false
    } else {
        lex_lt(a.drop_first(), b.drop_first())
    }
}

/// At most one of `lex_lt(a, b)` and `lex_lt(b, a)` holds, and for
/// equal-length sequences one of them holds unless `a == b`.
pub proof fn lemma_lex_lt_total(a: Seq<u8>, b: Seq<u8>)
    requires
        a.len() == b.len(),
    ensures
        !(lex_lt(a, b) && lex_lt(b, a)),
        lex_lt(a, b) || lex_lt(b, a) || a == b,
    decreases a.len(),
{
    if a.len() > 0 {
        lemma_lex_lt_total(a.drop_first(), b.drop_first());
        if !lex_lt(a, b) && !lex_lt(b, a) {
            assert(a.first() == b.first());
            assert(a.drop_first() == b.drop_first());
            assert(a =~= seq![a.first()] + a.drop_first());
            assert(b =~= seq![b.first()] + b.drop_first());
        }
    } else {
        assert(a =~= b);
    }
}

/// Lexicographic order is transitive.
pub proof fn lemma_lex_lt_trans(a: Seq<u8>, b: Seq<u8>, c: Seq<u8>)
    requires
        a.len() == b.len(),
        b.len() == c.len(),
        lex_lt(a, b),
        lex_lt(b, c),
    ensures
        lex_lt(a, c),
    decreases a.len(),
{
    if a.first() == b.first() && b.first() == c.first() {
        lemma_lex_lt_trans(a.drop_first(), b.drop_first(), c.drop_first());
    }
}

/// If the first `i` bytes agree, the order is decided by the tails from `i` on.
proof fn lemma_lex_lt_skip(a: Seq<u8>, b: Seq<u8>, i: int)
    requires
        a.len() == b.len(),
        0 <= i <= a.len(),
        forall|j: int| 0 <= j < i ==> a[j] == b[j],
    ensures
        lex_lt(a, b) == lex_lt(a.skip(i), b.skip(i)),
    decreases i,
{
    if i > 0 && a.len() > 0 {
        assert(a.drop_first().skip(i - 1) =~= a.skip(i));
        assert(b.drop_first().skip(i - 1) =~= b.skip(i));
        lemma_lex_lt_skip(a.drop_first(), b.drop_first(), i - 1);
    } else {
        assert(a.skip(0) =~= a);
        assert(b.skip(0) =~= b);
    }
}

/// A 32-byte array.  It is at once a tree key, a tree value with read/write
/// helpers for sub-ranges, and a container for a little-endian integer padded
/// with zeros.
#[derive(Debug)]
pub struct Bytes32 {
    bytes: Vec<u8>,
}

impl View for Bytes32 {
    type V = Seq<u8>;

    closed spec fn view(&self) -> Seq<u8> {
        self.bytes@
    }
}

impl Bytes32 {
    #[verifier::type_invariant]
    pub(crate) open spec fn type_inv(self) -> bool {
        self@.len() == 32
    }

    /// Wrap 32 bytes; any other length is refused.
    pub fn new(bytes: Vec<u8>) -> (r: Option<Bytes32>)
        ensures
            match r {
                Some(b) => bytes@.len() == 32 && b@ == bytes@,
                None => bytes@.len() != 32,
            },
    {
        if bytes.len() == 32 {
            Some(Bytes32 { bytes })
        } else {
            None
        }
    }

    /// The all-zero word.
    pub fn zero() -> (r: Bytes32)
        ensures
            r@ == zero32(),
    {
        let bytes: Vec<u8> = vec![0u8; 32];
        assert(bytes@ =~= zero32());
        Bytes32 { bytes }
    }

    /// A word holding `val` in its first byte and zeros elsewhere.
    pub fn from_u8(val: u8) -> (r: Bytes32)
        ensures
            r@ == zero32().update(0, val),
    {
        let mut bytes: Vec<u8> = vec![0u8; 32];
        bytes[0] = val;
        assert(bytes@ =~= zero32().update(0, val));
        Bytes32 { bytes }
    }

    /// A word holding `val` little-endian in its first 8 bytes and zeros
    /// elsewhere.
    pub fn from_u64(val: u64) -> (r: Bytes32)
        ensures
            r@.len() == 32,
            r@.subrange(0, 8) == spec_u64_to_le_bytes(val),
            r@.skip(8) == zero32().skip(8),
    {
        let mut bytes = u64_to_le_bytes(val);
        let mut i: usize = 8;
        while i < 32
            invariant
                8 <= i <= 32,
                bytes@.len() == i,
                bytes@.subrange(0, 8) == spec_u64_to_le_bytes(val),
                forall|j: int| 8 <= j < i ==> bytes@[j] == 0u8,
            decreases 32 - i,
        {
            bytes.push(0u8);
            assert(bytes@.subrange(0, 8) =~= spec_u64_to_le_bytes(val));
            i = i + 1;
        }
        assert(bytes@.skip(8) =~= zero32().skip(8));
        Bytes32 { bytes }
    }

    /// The first byte.
    pub fn to_u8(&self) -> (r: u8)
        ensures
            r == self@[0],
    {
        proof { use_type_invariant(self); }
        self.bytes[0]
    }

    /// The first 2 bytes read as a little-endian integer.
    pub fn to_u16(&self) -> (r: u16)
        ensures
            r == spec_u16_from_le_bytes(self@.subrange(0, 2)),
    {
        proof { use_type_invariant(self); }
        u16_from_le_bytes(slice_subrange(self.bytes.as_slice(), 0, 2))
    }

    /// The first 4 bytes read as a little-endian integer.
    pub fn to_u32(&self) -> (r: u32)
        ensures
            r == spec_u32_from_le_bytes(self@.subrange(0, 4)),
    {
        proof { use_type_invariant(self); }
        u32_from_le_bytes(slice_subrange(self.bytes.as_slice(), 0, 4))
    }

    /// The first 8 bytes read as a little-endian integer.
    pub fn to_u64(&self) -> (r: u64)
        ensures
            r == spec_u64_from_le_bytes(self@.subrange(0, 8)),
    {
        proof { use_type_invariant(self); }
        u64_from_le_bytes(slice_subrange(self.bytes.as_slice(), 0, 8))
    }

    /// 8 bytes at `offset` read as a little-endian integer.
    pub fn read_u64(&self, offset: usize) -> (r: u64)
        requires
            offset + 8 < 32,
        ensures
            r == spec_u64_from_le_bytes(self@.subrange(offset as int, offset + 8)),
    {
        proof { use_type_invariant(self); }
        u64_from_le_bytes(slice_subrange(self.bytes.as_slice(), offset, offset + 8))
    }

    /// Copy `len` bytes starting at `offset` into `buf[start..start + len]`.
    pub fn read_value(&self, buf: &mut Vec<u8>, start: usize, offset: usize, len: usize)
        requires
            offset + len <= 32,
            start + len <= old(buf)@.len(),
        ensures
            final(buf)@.len() == old(buf)@.len(),
            forall|j: int|
                start <= j < start + len
                    ==> #[trigger] final(buf)@[j] == self@[offset - start + j],
            forall|j: int|
                0 <= j < old(buf)@.len() && !(start <= j < start + len)
                    ==> #[trigger] final(buf)@[j] == old(buf)@[j],
    {
        proof { use_type_invariant(self); }
        let buf_len: usize = buf.len();
        let mut j: usize = 0;
        while j < len
            invariant
                0 <= j <= len,
                offset + len <= 32,
                start + len <= buf_len,
                buf_len == buf@.len(),
                self@.len() == 32,
                buf@.len() == old(buf)@.len(),
                forall|k: int|
                    start <= k < start + j ==> #[trigger] buf@[k] == self@[offset - start + k],
                forall|k: int|
                    0 <= k < old(buf)@.len() && !(start <= k < start + len) ==> #[trigger] buf@[k]
                        == old(buf)@[k],
            decreases len - j,
        {
            buf[start + j] = self.bytes[offset + j];
            j = j + 1;
        }
    }

    /// Overwrite the bytes at `offset..offset + value.len()` with `value`.
    pub fn write_value(&mut self, value: &[u8], offset: usize)
        requires
            offset + value@.len() <= 32,
        ensures
            final(self)@.len() == 32,
            forall|j: int|
                offset <= j < offset + value@.len()
                    ==> #[trigger] final(self)@[j] == value@[j - offset],
            forall|j: int|
                0 <= j < 32 && !(offset <= j < offset + value@.len())
                    ==> #[trigger] final(self)@[j] == old(self)@[j],
    {
        proof { use_type_invariant(&*self); }
        let mut j: usize = 0;
        while j < value.len()
            invariant
                0 <= j <= value@.len(),
                offset + value@.len() <= 32,
                self.bytes@.len() == 32,
                forall|k: int|
                    offset <= k < offset + j ==> #[trigger] self.bytes@[k] == value@[k - offset],
                forall|k: int|
                    0 <= k < 32 && !(offset <= k < offset + value@.len()) ==> #[trigger] self.bytes@[k]
                        == old(self)@[k],
            decreases value@.len() - j,
        {
            self.bytes[offset + j] = *vstd::slice::slice_index_get(value, j);
            j = j + 1;
        }
    }

    /// Overwrite the byte at `i`.
    pub fn set_byte(&mut self, i: usize, v: u8)
        requires
            i < 32,
        ensures
            final(self)@ == old(self)@.update(i as int, v),
    {
        proof { use_type_invariant(&*self); }
        self.bytes[i] = v;
    }

    /// The bytes as a fresh vector.
    pub fn to_vec(&self) -> (r: Vec<u8>)
        ensures
            r@ == self@,
    {
        proof { use_type_invariant(self); }
        let mut r: Vec<u8> = Vec::new();
        let mut i: usize = 0;
        while i < 32
            invariant
                0 <= i <= 32,
                self@.len() == 32,
                r@ =~= self@.subrange(0, i as int),
            decreases 32 - i,
        {
            r.push(self.bytes[i]);
            assert(r@ =~= self@.subrange(0, i + 1));
            i = i + 1;
        }
        assert(r@ =~= self@);
        r
    }

    /// Whether `self` comes strictly before `other` in lexicographic order.
    pub fn lt(&self, other: &Bytes32) -> (r: bool)
        ensures
            r == lex_lt(self@, other@),
    {
        proof {
            use_type_invariant(self);
            use_type_invariant(other);
        }
        let mut i: usize = 0;
        while i < 32
            invariant
                0 <= i <= 32,
                self@.len() == 32,
                other@.len() == 32,
                forall|j: int| 0 <= j < i ==> self@[j] == other@[j],
            decreases 32 - i,
        {
            let a = self.bytes[i];
            let b = other.bytes[i];
            if a < b {
                proof {
                    lemma_lex_lt_skip(self@, other@, i as int);
                }
                return true;
            }
            if a > b {
                proof {
                    lemma_lex_lt_skip(self@, other@, i as int);
                }
                return false;
            }
            i = i + 1;
        }
        proof {
            assert(self@ =~= other@);
            lemma_lex_lt_total(self@, other@);
        }
        false
    }
}

impl Clone for Bytes32 {
    /// Cloning keeps the bytes.
    fn clone(&self) -> (r: Self)
        ensures
            r@ == self@,
    {
        proof { use_type_invariant(self); }
        Bytes32 { bytes: self.to_vec() }
    }
}

impl PartialEq for Bytes32 {
    fn eq(&self, other: &Self) -> (r: bool) {
        proof {
            use_type_invariant(self);
            use_type_invariant(other);
        }
        let mut i: usize = 0;
        while i < 32
            invariant
                0 <= i <= 32,
                self@.len() == 32,
                other@.len() == 32,
                forall|j: int| 0 <= j < i ==> self@[j] == other@[j],
            decreases 32 - i,
        {
            if self.bytes[i] != other.bytes[i] {
                return false;
            }
            i = i + 1;
        }
        assert(self@ =~= other@);
        true
    }
}

impl Eq for Bytes32 {}

impl vstd::std_specs::cmp::PartialEqSpecImpl for Bytes32 {
    open spec fn obeys_eq_spec() -> bool {
        true
    }

    open spec fn eq_spec(&self, other: &Bytes32) -> bool {
        self@ == other@
    }
}

} // verus!
