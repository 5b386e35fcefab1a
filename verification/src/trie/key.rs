use vstd::prelude::*;
use vstd::std_specs::bits::u8_leading_zeros;
use vstd::utf8::encode_utf8;
use vstd::string::StringSliceAdditionalSpecFns;

verus! {

/// The longest key, in bytes, whose bit positions can all be named by a `usize`.
pub open spec fn max_key_bytes() -> int {
    (usize::MAX / 8) as int - 1
}

/// Strict lexicographic order on byte strings: the order of `str`, `[u8]`
/// and, through their big-endian bytes, of unsigned integers.
pub open spec fn bytes_lt(a: Seq<u8>, b: Seq<u8>) -> bool
    decreases a.len(),
{
    if a.len() == 0 {
        b.len() > 0
    } else if b.len() == 0 {
        false
    } else if a[0] != b[0] {
        a[0] < b[0]
    } else {
        bytes_lt(a.drop_first(), b.drop_first())
    }
}

/// The outcome of comparing two keys.
#[derive(Clone, Copy, Debug, PartialEq, Eq, Structural)]
pub enum KeyOrder {
    Less,
    Equal,
    Greater,
}

/// Three-way comparison of byte strings.
pub open spec fn bytes_order(a: Seq<u8>, b: Seq<u8>) -> KeyOrder {
    if a == b {
        KeyOrder::Equal
    } else if bytes_lt(a, b) {
        KeyOrder::Less
    } else {
        KeyOrder::Greater
    }
}

pub proof fn lemma_bytes_lt_irreflexive(a: Seq<u8>)
    ensures
        !bytes_lt(a, a),
    decreases a.len(),
{
    if a.len() > 0 {
        lemma_bytes_lt_irreflexive(a.drop_first());
    }
}

pub proof fn lemma_bytes_lt_transitive(a: Seq<u8>, b: Seq<u8>, c: Seq<u8>)
    requires
        bytes_lt(a, b),
        bytes_lt(b, c),
    ensures
        bytes_lt(a, c),
    decreases a.len(),
{
    if a.len() > 0 && b.len() > 0 && c.len() > 0 && a[0] == b[0] && b[0] == c[0] {
        lemma_bytes_lt_transitive(a.drop_first(), b.drop_first(), c.drop_first());
    }
}

pub proof fn lemma_bytes_lt_total(a: Seq<u8>, b: Seq<u8>)
    ensures
        a == b || bytes_lt(a, b) || bytes_lt(b, a),
    decreases a.len(),
{
    if a.len() > 0 && b.len() > 0 && a[0] == b[0] {
        lemma_bytes_lt_total(a.drop_first(), b.drop_first());
        if a.drop_first() == b.drop_first() {
            assert(a =~= seq![a[0]] + a.drop_first());
            assert(b =~= seq![b[0]] + b.drop_first());
        }
    } else if a.len() == 0 && b.len() == 0 {
        assert(a =~= b);
    }
}

pub proof fn lemma_bytes_lt_asymmetric(a: Seq<u8>, b: Seq<u8>)
    requires
        bytes_lt(a, b),
    ensures
        !bytes_lt(b, a),
        a != b,
{
    lemma_bytes_lt_irreflexive(a);
    if bytes_lt(b, a) {
        lemma_bytes_lt_transitive(a, b, a);
    }
}

/// Comparing behind a common prefix is comparing what follows it.
pub proof fn lemma_bytes_lt_common_prefix(a: Seq<u8>, b: Seq<u8>, i: int)
    requires
        0 <= i <= a.len(),
        i <= b.len(),
        a.take(i) == b.take(i),
    ensures
        bytes_lt(a, b) == bytes_lt(a.skip(i), b.skip(i)),
    decreases i,
{
    if i > 0 {
        assert(a[0] == a.take(i)[0]);
        assert(b[0] == b.take(i)[0]);
        assert(a.drop_first().take(i - 1) =~= a.take(i).drop_first());
        assert(b.drop_first().take(i - 1) =~= b.take(i).drop_first());
        lemma_bytes_lt_common_prefix(a.drop_first(), b.drop_first(), i - 1);
        assert(a.drop_first().skip(i - 1) =~= a.skip(i));
        assert(b.drop_first().skip(i - 1) =~= b.skip(i));
    } else {
        assert(a.skip(0) =~= a);
        assert(b.skip(0) =~= b);
    }
}

/// Compares two byte slices lexicographically.
pub fn compare_bytes(a: &[u8], b: &[u8]) -> (o: KeyOrder)
    ensures
        o == bytes_order(a@, b@),
{
    let min_len: usize = if a.len() < b.len() { a.len() } else { b.len() };
    let mut i: usize = 0;
    while i < min_len
        invariant
            min_len <= a@.len(),
            min_len <= b@.len(),
            min_len == a@.len() || min_len == b@.len(),
            i <= min_len,
            a@.take(i as int) == b@.take(i as int),
        decreases min_len - i,
    {
        if a[i] != b[i] {
            proof {
                lemma_bytes_lt_common_prefix(a@, b@, i as int);
                assert(a@.skip(i as int)[0] == a@[i as int]);
                assert(b@.skip(i as int)[0] == b@[i as int]);
                if a@ == b@ {
                    assert(a@[i as int] == b@[i as int]);
                }
            }
            if a[i] < b[i] {
                return KeyOrder::Less;
            } else {
                proof {
                    lemma_bytes_lt_common_prefix(b@, a@, i as int);
                    lemma_bytes_lt_asymmetric(b@, a@);
                }
                return KeyOrder::Greater;
            }
        }
        assert(a@.take(i + 1) =~= a@.take(i as int).push(a@[i as int]));
        assert(b@.take(i + 1) =~= b@.take(i as int).push(b@[i as int]));
        i = i + 1;
    }
    proof {
        lemma_bytes_lt_common_prefix(a@, b@, i as int);
    }
    if a.len() == b.len() {
        assert(a@ =~= a@.take(i as int));
        assert(b@ =~= b@.take(i as int));
        KeyOrder::Equal
    } else if a.len() < b.len() {
        assert(a@.skip(i as int).len() == 0);
        KeyOrder::Less
    } else {
        assert(b@.skip(i as int).len() == 0);
        proof {
            lemma_bytes_lt_common_prefix(b@, a@, i as int);
            lemma_bytes_lt_asymmetric(b@, a@);
        }
        KeyOrder::Greater
    }
}

/// The first bit (most significant first) at which two byte strings differ:
/// inside the common length, the first differing byte and its first
/// differing bit; otherwise, when one is a proper prefix of the other, the
/// first bit after the common length; `None` for equal strings.
pub open spec fn first_diff_bit_spec(a: Seq<u8>, b: Seq<u8>) -> Option<int> {
    let n = if a.len() < b.len() { a.len() } else { b.len() };
    if exists|i: int| 0 <= i < n && a[i] != b[i] && a.take(i) == b.take(i) {
        let i = choose|i: int| 0 <= i < n && a[i] != b[i] && a.take(i) == b.take(i);
        Some(i * 8 + u8_leading_zeros(a[i] ^ b[i]))
    } else if a.len() != b.len() {
        Some((n * 8) as int)
    } else {
        None
    }
}

/// Keys that a HOT can index: they compare as byte strings and expose their
/// bits (most significant first) for building discriminative masks and
/// partial keys.
pub trait HotKey: Sized {
    /// The bytes by which keys compare and are told apart.
    spec fn key_bytes(&self) -> Seq<u8>;

    /// The bit at `pos`.
    spec fn spec_get_bit(&self, pos: usize) -> bool;

    /// The first bit position at which two keys differ.
    spec fn spec_first_differing_bit(&self, other: &Self) -> Option<usize>;

    /// The 64 bits that a node with the given byte offset reads partial keys from.
    spec fn spec_u64_at(&self, byte_offset: usize) -> u64;

    /// Returns the bit at the specified position.
    fn get_bit(&self, pos: usize) -> (b: bool)
        ensures
            b == self.spec_get_bit(pos),
    ;

    /// Returns the first bit position where two keys differ.
    fn first_differing_bit(&self, other: &Self) -> (r: Option<usize>)
        requires
            self.key_bytes().len() <= max_key_bytes(),
            other.key_bytes().len() <= max_key_bytes(),
        ensures
            r == self.spec_first_differing_bit(other),
    ;

    /// Returns 8 bytes from the key starting at the given byte offset as a big-endian u64.
    fn get_u64_at(&self, byte_offset: usize) -> (r: u64)
        ensures
            r == self.spec_u64_at(byte_offset),
    ;

    /// Compares two keys by their bytes.
    fn compare_key(&self, other: &Self) -> (o: KeyOrder)
        ensures
            o == bytes_order(self.key_bytes(), other.key_bytes()),
    ;

    /// Returns a copy of the key.
    fn clone_key(&self) -> (r: Self)
        ensures
            r == *self,
    ;
}

/// An optional bit position as a mathematical integer.
pub open spec fn opt_pos(r: Option<usize>) -> Option<int> {
    match r {
        Some(p) => Some(p as int),
        None => None,
    }
}

/// Helper function to find the first bit position where two strings differ.
pub fn find_first_diff_bit(a: &str, b: &str) -> (r: Option<usize>)
    requires
        a.spec_bytes().len() <= max_key_bytes(),
        b.spec_bytes().len() <= max_key_bytes(),
    ensures
        opt_pos(r) == first_diff_bit_spec(a.spec_bytes(), b.spec_bytes()),
{
    let a_bytes = a.as_bytes();
    let b_bytes = b.as_bytes();
    let ghost sa = a_bytes@;
    let ghost sb = b_bytes@;
    let min_len: usize = if a_bytes.len() < b_bytes.len() { a_bytes.len() } else { b_bytes.len() };
    let mut i: usize = 0;
    while i < min_len
        invariant
            sa == a_bytes@,
            sb == b_bytes@,
            sa == a.spec_bytes(),
            sb == b.spec_bytes(),
            min_len == (if sa.len() < sb.len() { sa.len() } else { sb.len() }),
            sa.len() <= max_key_bytes(),
            i <= min_len,
            forall|j: int| 0 <= j < i ==> sa[j] == sb[j],
        decreases min_len - i,
    {
        if a_bytes[i] != b_bytes[i] {
            let diff: u8 = a_bytes[i] ^ b_bytes[i];
            let lz: u32 = diff.leading_zeros();
            proof {
                vstd::std_specs::bits::axiom_u8_leading_zeros(diff);
                assert(sa.take(i as int) =~= sb.take(i as int));
                let w = i as int;
                assert(0 <= w < min_len && sa[w] != sb[w] && sa.take(w) == sb.take(w));
                let c = choose|c: int| 0 <= c < min_len && sa[c] != sb[c] && sa.take(c) == sb.take(c);
                if c < w {
                    assert(sa[c] == sb[c]);
                } else if c > w {
                    assert(sa.take(c)[w] == sb.take(c)[w]);
                }
                assert(c == w);
                assert(lz == u8_leading_zeros(sa[w] ^ sb[w]));
                assert(first_diff_bit_spec(sa, sb) == Some(w * 8 + lz));
            }
            return Some(i * 8 + lz as usize);
        }
        i = i + 1;
    }
    proof {
        if exists|c: int| 0 <= c < min_len && sa[c] != sb[c] && sa.take(c) == sb.take(c) {
            let c = choose|c: int| 0 <= c < min_len && sa[c] != sb[c] && sa.take(c) == sb.take(c);
            assert(sa[c] == sb[c]);
        }
    }
    if a_bytes.len() != b_bytes.len() {
        return Some(min_len * 8);
    }
    None
}

/// The byte at position `i`, or zero past the end.
pub open spec fn byte_or_zero(b: Seq<u8>, i: int) -> u64 {
    if 0 <= i < b.len() {
        b[i] as u64
    } else {
        0
    }
}

/// The first `n` bytes of the 8-byte big-endian window at `off`, zero-padded.
pub open spec fn window_prefix(b: Seq<u8>, off: int, n: int) -> u64
    decreases n,
{
    if n <= 0 {
        0
    } else {
        window_prefix(b, off, n - 1) | (byte_or_zero(b, off + n - 1) << ((8 * (7 - (n - 1))) as u64))
    }
}

/// The 8 bytes at `off` read as a big-endian `u64`, bytes past the end read as zero.
pub open spec fn window_u64(b: Seq<u8>, off: int) -> u64 {
    window_prefix(b, off, 8)
}

/// The bit at `pos` (most significant first), false past the end.
pub open spec fn bytes_bit(b: Seq<u8>, pos: int) -> bool {
    let byte_idx = pos / 8;
    let bit_idx = (pos % 8) as u8;
    if byte_idx < b.len() {
        (b[byte_idx] & (1u8 << (7 - bit_idx) as u8)) != 0
    } else {
        false
    }
}

} // verus!
