use vstd::prelude::*;
use vstd::std_specs::bits::{u64_leading_zeros, u32_leading_zeros};
use vstd::string::StringSliceAdditionalSpecFns;
use vstd::utf8::encode_utf8;
use crate::trie::key::{
    HotKey, KeyOrder, bytes_lt, bytes_order, bytes_bit, compare_bytes, find_first_diff_bit,
    first_diff_bit_spec, window_prefix, window_u64, byte_or_zero, max_key_bytes, opt_pos,
    lemma_bytes_lt_common_prefix, lemma_bytes_lt_asymmetric,
};

verus! {

/// An optional position of `int` read back as a `usize`.
pub open spec fn opt_usize(r: Option<int>) -> Option<usize> {
    match r {
        Some(p) => Some(p as usize),
        None => None,
    }
}

/// The 8 bytes of `bytes` at `byte_offset` read as a big-endian `u64`,
/// bytes past the end read as zero.
fn read_window(bytes: &[u8], byte_offset: usize) -> (r: u64)
    ensures
        r == window_u64(bytes@, byte_offset as int),
{
    let ghost b = bytes@;
    let mut val: u64 = 0;
    let mut i: usize = 0;
    while i < 8
        invariant
            b == bytes@,
            i <= 8,
            val == window_prefix(b, byte_offset as int, i as int),
        decreases 8 - i,
    {
        let ghost old_val = val;
        let shift: u64 = (8 * (7 - i)) as u64;
        if byte_offset < bytes.len() && i < bytes.len() - byte_offset {
            val = val | ((bytes[byte_offset + i] as u64) << shift);
        } else {
            assert(old_val | (0u64 << shift) == old_val) by (bit_vector);
        }
        i = i + 1;
    }
    val
}

impl HotKey for String {
    open spec fn key_bytes(&self) -> Seq<u8> {
        encode_utf8(self@)
    }

    open spec fn spec_get_bit(&self, pos: usize) -> bool {
        bytes_bit(self.key_bytes(), pos as int)
    }

    open spec fn spec_first_differing_bit(&self, other: &Self) -> Option<usize> {
        opt_usize(first_diff_bit_spec(self.key_bytes(), other.key_bytes()))
    }

    open spec fn spec_u64_at(&self, byte_offset: usize) -> u64 {
        window_u64(self.key_bytes(), byte_offset as int)
    }

    fn get_bit(&self, pos: usize) -> (b: bool) {
        let byte_idx = pos / 8;
        let bit_idx = (pos % 8) as u8;
        let bytes = self.as_str().as_bytes();
        if byte_idx < bytes.len() {
            (bytes[byte_idx] & (1u8 << (7 - bit_idx))) != 0
        } else {
            false
        }
    }

    fn first_differing_bit(&self, other: &Self) -> (r: Option<usize>) {
        find_first_diff_bit(self.as_str(), other.as_str())
    }

    fn get_u64_at(&self, byte_offset: usize) -> (r: u64) {
        read_window(self.as_str().as_bytes(), byte_offset)
    }

    fn compare_key(&self, other: &Self) -> (o: KeyOrder) {
        compare_bytes(self.as_str().as_bytes(), other.as_str().as_bytes())
    }

    fn clone_key(&self) -> (r: Self) {
        self.clone()
    }
}

/// A strictly smaller byte at position `k` behind an equal prefix decides the order.
pub proof fn lemma_bytes_lt_at(a: Seq<u8>, b: Seq<u8>, k: int)
    requires
        0 <= k < a.len(),
        k < b.len(),
        forall|j: int| 0 <= j < k ==> a[j] == b[j],
        a[k] < b[k],
    ensures
        bytes_lt(a, b),
        !bytes_lt(b, a),
{
    assert(a.take(k) =~= b.take(k));
    lemma_bytes_lt_common_prefix(a, b, k);
    assert(a.skip(k)[0] == a[k]);
    assert(b.skip(k)[0] == b[k]);
    lemma_bytes_lt_asymmetric(a, b);
}

/// The 8 bytes of a `u64`, most significant first.
pub open spec fn u64_be_bytes(x: u64) -> Seq<u8> {
    seq![
        (x >> 56u64) as u8, (x >> 48u64) as u8, (x >> 40u64) as u8, (x >> 32u64) as u8,
        (x >> 24u64) as u8, (x >> 16u64) as u8, (x >> 8u64) as u8, x as u8,
    ]
}

/// The 4 bytes of a `u32`, most significant first.
pub open spec fn u32_be_bytes(x: u32) -> Seq<u8> {
    seq![(x >> 24u32) as u8, (x >> 16u32) as u8, (x >> 8u32) as u8, x as u8]
}

proof fn lemma_u64_order_by_bytes(x: u64, y: u64)
    by (bit_vector)
    ensures
        x < y <==> (
            ((x >> 56u64) as u8) < ((y >> 56u64) as u8)
            || (((x >> 56u64) as u8) == ((y >> 56u64) as u8) && ((x >> 48u64) as u8) < ((y >> 48u64) as u8))
            || (((x >> 56u64) as u8) == ((y >> 56u64) as u8) && ((x >> 48u64) as u8) == ((y >> 48u64) as u8)
                && ((x >> 40u64) as u8) < ((y >> 40u64) as u8))
            || (((x >> 56u64) as u8) == ((y >> 56u64) as u8) && ((x >> 48u64) as u8) == ((y >> 48u64) as u8)
                && ((x >> 40u64) as u8) == ((y >> 40u64) as u8) && ((x >> 32u64) as u8) < ((y >> 32u64) as u8))
            || (((x >> 56u64) as u8) == ((y >> 56u64) as u8) && ((x >> 48u64) as u8) == ((y >> 48u64) as u8)
                && ((x >> 40u64) as u8) == ((y >> 40u64) as u8) && ((x >> 32u64) as u8) == ((y >> 32u64) as u8)
                && ((x >> 24u64) as u8) < ((y >> 24u64) as u8))
            || (((x >> 56u64) as u8) == ((y >> 56u64) as u8) && ((x >> 48u64) as u8) == ((y >> 48u64) as u8)
                && ((x >> 40u64) as u8) == ((y >> 40u64) as u8) && ((x >> 32u64) as u8) == ((y >> 32u64) as u8)
                && ((x >> 24u64) as u8) == ((y >> 24u64) as u8) && ((x >> 16u64) as u8) < ((y >> 16u64) as u8))
            || (((x >> 56u64) as u8) == ((y >> 56u64) as u8) && ((x >> 48u64) as u8) == ((y >> 48u64) as u8)
                && ((x >> 40u64) as u8) == ((y >> 40u64) as u8) && ((x >> 32u64) as u8) == ((y >> 32u64) as u8)
                && ((x >> 24u64) as u8) == ((y >> 24u64) as u8) && ((x >> 16u64) as u8) == ((y >> 16u64) as u8)
                && ((x >> 8u64) as u8) < ((y >> 8u64) as u8))
            || (((x >> 56u64) as u8) == ((y >> 56u64) as u8) && ((x >> 48u64) as u8) == ((y >> 48u64) as u8)
                && ((x >> 40u64) as u8) == ((y >> 40u64) as u8) && ((x >> 32u64) as u8) == ((y >> 32u64) as u8)
                && ((x >> 24u64) as u8) == ((y >> 24u64) as u8) && ((x >> 16u64) as u8) == ((y >> 16u64) as u8)
                && ((x >> 8u64) as u8) == ((y >> 8u64) as u8) && (x as u8) < (y as u8))
        ),
        (x == y) <==> (
            ((x >> 56u64) as u8) == ((y >> 56u64) as u8) && ((x >> 48u64) as u8) == ((y >> 48u64) as u8)
                && ((x >> 40u64) as u8) == ((y >> 40u64) as u8) && ((x >> 32u64) as u8) == ((y >> 32u64) as u8)
                && ((x >> 24u64) as u8) == ((y >> 24u64) as u8) && ((x >> 16u64) as u8) == ((y >> 16u64) as u8)
                && ((x >> 8u64) as u8) == ((y >> 8u64) as u8) && (x as u8) == (y as u8)
        ),
{
}

proof fn lemma_u32_order_by_bytes(x: u32, y: u32)
    by (bit_vector)
    ensures
        x < y <==> (
            ((x >> 24u32) as u8) < ((y >> 24u32) as u8)
            || (((x >> 24u32) as u8) == ((y >> 24u32) as u8) && ((x >> 16u32) as u8) < ((y >> 16u32) as u8))
            || (((x >> 24u32) as u8) == ((y >> 24u32) as u8) && ((x >> 16u32) as u8) == ((y >> 16u32) as u8)
                && ((x >> 8u32) as u8) < ((y >> 8u32) as u8))
            || (((x >> 24u32) as u8) == ((y >> 24u32) as u8) && ((x >> 16u32) as u8) == ((y >> 16u32) as u8)
                && ((x >> 8u32) as u8) == ((y >> 8u32) as u8) && (x as u8) < (y as u8))
        ),
        (x == y) <==> (
            ((x >> 24u32) as u8) == ((y >> 24u32) as u8) && ((x >> 16u32) as u8) == ((y >> 16u32) as u8)
                && ((x >> 8u32) as u8) == ((y >> 8u32) as u8) && (x as u8) == (y as u8)
        ),
{
}

/// Unsigned integers compare as their big-endian bytes do.
pub proof fn lemma_u64_order(x: u64, y: u64)
    ensures
        bytes_order(u64_be_bytes(x), u64_be_bytes(y)) == (if x == y {
            KeyOrder::Equal
        } else if x < y {
            KeyOrder::Less
        } else {
            KeyOrder::Greater
        }),
{
    let a = u64_be_bytes(x);
    let b = u64_be_bytes(y);
    lemma_u64_order_by_bytes(x, y);
    lemma_u64_order_by_bytes(y, x);
    if x == y {
    } else {
        if a == b {
            assert(a[0] == b[0] && a[1] == b[1] && a[2] == b[2] && a[3] == b[3]);
            assert(a[4] == b[4] && a[5] == b[5] && a[6] == b[6] && a[7] == b[7]);
        }
        let (p, q) = if x < y { (a, b) } else { (b, a) };
        if p[0] < q[0] {
            lemma_bytes_lt_at(p, q, 0);
        } else if p[1] < q[1] && p[0] == q[0] {
            lemma_bytes_lt_at(p, q, 1);
        } else if p[2] < q[2] && p[0] == q[0] && p[1] == q[1] {
            lemma_bytes_lt_at(p, q, 2);
        } else if p[3] < q[3] && p[0] == q[0] && p[1] == q[1] && p[2] == q[2] {
            lemma_bytes_lt_at(p, q, 3);
        } else if p[4] < q[4] && p[0] == q[0] && p[1] == q[1] && p[2] == q[2] && p[3] == q[3] {
            lemma_bytes_lt_at(p, q, 4);
        } else if p[5] < q[5] && p[0] == q[0] && p[1] == q[1] && p[2] == q[2] && p[3] == q[3]
            && p[4] == q[4] {
            lemma_bytes_lt_at(p, q, 5);
        } else if p[6] < q[6] && p[0] == q[0] && p[1] == q[1] && p[2] == q[2] && p[3] == q[3]
            && p[4] == q[4] && p[5] == q[5] {
            lemma_bytes_lt_at(p, q, 6);
        } else {
            lemma_bytes_lt_at(p, q, 7);
        }
    }
}

/// Unsigned integers compare as their big-endian bytes do.
pub proof fn lemma_u32_order(x: u32, y: u32)
    ensures
        bytes_order(u32_be_bytes(x), u32_be_bytes(y)) == (if x == y {
            KeyOrder::Equal
        } else if x < y {
            KeyOrder::Less
        } else {
            KeyOrder::Greater
        }),
{
    let a = u32_be_bytes(x);
    let b = u32_be_bytes(y);
    lemma_u32_order_by_bytes(x, y);
    lemma_u32_order_by_bytes(y, x);
    if x == y {
    } else {
        if a == b {
            assert(a[0] == b[0] && a[1] == b[1] && a[2] == b[2] && a[3] == b[3]);
        }
        let (p, q) = if x < y { (a, b) } else { (b, a) };
        if p[0] < q[0] {
            lemma_bytes_lt_at(p, q, 0);
        } else if p[1] < q[1] && p[0] == q[0] {
            lemma_bytes_lt_at(p, q, 1);
        } else if p[2] < q[2] && p[0] == q[0] && p[1] == q[1] {
            lemma_bytes_lt_at(p, q, 2);
        } else {
            lemma_bytes_lt_at(p, q, 3);
        }
    }
}

/// The first differing bit of two integers: the leading zeros of their xor.
pub open spec fn u64_first_diff(x: u64, y: u64) -> Option<usize> {
    if x ^ y == 0 {
        None
    } else {
        Some(u64_leading_zeros(x ^ y) as usize)
    }
}

/// The first differing bit of two 32-bit integers.
pub open spec fn u32_first_diff(x: u32, y: u32) -> Option<usize> {
    if x ^ y == 0 {
        None
    } else {
        Some(u32_leading_zeros(x ^ y) as usize)
    }
}

impl HotKey for u64 {
    open spec fn key_bytes(&self) -> Seq<u8> {
        u64_be_bytes(*self)
    }

    open spec fn spec_get_bit(&self, pos: usize) -> bool {
        pos < 64 && (*self & (1u64 << (63 - pos) as u64)) != 0
    }

    open spec fn spec_first_differing_bit(&self, other: &Self) -> Option<usize> {
        u64_first_diff(*self, *other)
    }

    open spec fn spec_u64_at(&self, byte_offset: usize) -> u64 {
        window_u64(self.key_bytes(), byte_offset as int)
    }

    fn get_bit(&self, pos: usize) -> (b: bool) {
        if pos < 64 {
            (*self & (1u64 << (63 - pos) as u64)) != 0
        } else {
            false
        }
    }

    fn first_differing_bit(&self, other: &Self) -> (r: Option<usize>) {
        let diff = *self ^ *other;
        if diff == 0 {
            None
        } else {
            Some(diff.leading_zeros() as usize)
        }
    }

    fn get_u64_at(&self, byte_offset: usize) -> (r: u64) {
        let x = *self;
        let bytes: Vec<u8> = vec![
            (x >> 56u64) as u8, (x >> 48u64) as u8, (x >> 40u64) as u8, (x >> 32u64) as u8,
            (x >> 24u64) as u8, (x >> 16u64) as u8, (x >> 8u64) as u8, x as u8,
        ];
        proof {
            assert(bytes@ =~= u64_be_bytes(x));
        }
        read_window(bytes.as_slice(), byte_offset)
    }

    fn compare_key(&self, other: &Self) -> (o: KeyOrder) {
        proof {
            lemma_u64_order(*self, *other);
        }
        if *self == *other {
            KeyOrder::Equal
        } else if *self < *other {
            KeyOrder::Less
        } else {
            KeyOrder::Greater
        }
    }

    fn clone_key(&self) -> (r: Self) {
        *self
    }
}

impl HotKey for u32 {
    open spec fn key_bytes(&self) -> Seq<u8> {
        u32_be_bytes(*self)
    }

    open spec fn spec_get_bit(&self, pos: usize) -> bool {
        pos < 32 && (*self & (1u32 << (31 - pos) as u32)) != 0
    }

    open spec fn spec_first_differing_bit(&self, other: &Self) -> Option<usize> {
        u32_first_diff(*self, *other)
    }

    open spec fn spec_u64_at(&self, byte_offset: usize) -> u64 {
        window_u64(self.key_bytes(), byte_offset as int)
    }

    fn get_bit(&self, pos: usize) -> (b: bool) {
        if pos < 32 {
            (*self & (1u32 << (31 - pos) as u32)) != 0
        } else {
            false
        }
    }

    fn first_differing_bit(&self, other: &Self) -> (r: Option<usize>) {
        let diff = *self ^ *other;
        if diff == 0 {
            None
        } else {
            Some(diff.leading_zeros() as usize)
        }
    }

    fn get_u64_at(&self, byte_offset: usize) -> (r: u64) {
        let x = *self;
        let bytes: Vec<u8> = vec![(x >> 24u32) as u8, (x >> 16u32) as u8, (x >> 8u32) as u8, x as u8];
        proof {
            assert(bytes@ =~= u32_be_bytes(x));
        }
        read_window(bytes.as_slice(), byte_offset)
    }

    fn compare_key(&self, other: &Self) -> (o: KeyOrder) {
        proof {
            lemma_u32_order(*self, *other);
        }
        if *self == *other {
            KeyOrder::Equal
        } else if *self < *other {
            KeyOrder::Less
        } else {
            KeyOrder::Greater
        }
    }

    fn clone_key(&self) -> (r: Self) {
        *self
    }
}

} // verus!
