use vstd::prelude::*;

verus! {

/// Parallel bit extraction from position `i` upward: the bits of `val` at
/// the positions `>= i` where `mask` has a one, packed into the low bits in
/// order of position.
pub open spec fn pext_from(val: u64, mask: u64, i: nat) -> u64
    decreases 64 - i,
{
    if i >= 64 {
        0
    } else if (mask >> i as u64) & 1 == 1 {
        ((val >> i as u64) & 1) | (pext_from(val, mask, i + 1) << 1u64)
    } else {
        pext_from(val, mask, i + 1)
    }
}

/// Parallel bit extraction (the PEXT instruction): the bits of `val` selected
/// by `mask`, packed into the low bits in order of position.
pub open spec fn pext_spec(val: u64, mask: u64) -> u64 {
    pext_from(val, mask, 0)
}

/// Parallel bit extraction computed one bit position at a time.
pub fn pext_soft(val: u64, mask: u64) -> (r: u64)
    ensures
        r == pext_spec(val, mask),
{
    let mut res: u64 = 0;
    let mut i: u64 = 64;
    while i > 0
        invariant
            i <= 64,
            res == pext_from(val, mask, i as nat),
        decreases i,
    {
        i = i - 1;
        if (mask >> i) & 1 == 1 {
            res = ((val >> i) & 1) | (res << 1u64);
        }
    }
    res
}

/// Parallel bit extraction.
pub fn pext(val: u64, mask: u64) -> (r: u64)
    ensures
        r == pext_spec(val, mask),
{
    pext_soft(val, mask)
}

/// The word bit that a mask bit position selects in the 64-bit window starting
/// at byte `byte_offset`: positions before the window count as its first bit,
/// positions past it select nothing.
pub open spec fn window_bit(bit_pos: usize, byte_offset: usize) -> u64 {
    let rel: int = if bit_pos >= byte_offset * 8 { bit_pos - byte_offset * 8 } else { 0 };
    if rel < 64 {
        1u64 << (63 - rel) as u64
    } else {
        0
    }
}

/// The extraction mask that a node's sorted bit positions give in its 64-bit window.
pub open spec fn window_mask(mask_bits: Seq<usize>, byte_offset: usize) -> u64
    decreases mask_bits.len(),
{
    if mask_bits.len() == 0 {
        0
    } else {
        window_mask(mask_bits.drop_last(), byte_offset) | window_bit(mask_bits.last(), byte_offset)
    }
}

/// Builds the extraction mask of a node's bit positions within its window.
pub fn build_window_mask(mask_bits: &[usize], byte_offset: usize) -> (m: u64)
    requires
        byte_offset <= usize::MAX / 8,
    ensures
        m == window_mask(mask_bits@, byte_offset),
{
    let mut mask: u64 = 0;
    let mut i: usize = 0;
    while i < mask_bits.len()
        invariant
            byte_offset <= usize::MAX / 8,
            i <= mask_bits@.len(),
            mask == window_mask(mask_bits@.take(i as int), byte_offset),
        decreases mask_bits.len() - i,
    {
        let bit_pos = mask_bits[i];
        let relative_pos = bit_pos.saturating_sub(byte_offset * 8);
        assert(mask_bits@.take(i + 1).drop_last() =~= mask_bits@.take(i as int));
        if relative_pos < 64 {
            mask = mask | (1u64 << (63 - relative_pos) as u64);
        } else {
            let ghost old_mask = mask;
            assert(old_mask | 0u64 == old_mask) by (bit_vector);
        }
        i = i + 1;
    }
    assert(mask_bits@.take(mask_bits@.len() as int) =~= mask_bits@);
    mask
}

} // verus!
