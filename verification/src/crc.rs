//! The running CRC-32 of the dump format: polynomial 0x04C11DB7, no bit
//! reflection, zero initial state, final complement.

use vstd::prelude::*;

verus! {

/// The generator polynomial.
pub const CRC_POLY: u32 = 0x04C1_1DB7;

/// One shift step: shift left, folding the polynomial in when the top bit
/// falls out.
pub open spec fn crc_shift(c: u32) -> u32 {
    if c & 0x8000_0000u32 != 0 {
        (c << 1u32) ^ CRC_POLY
    } else {
        c << 1u32
    }
}

/// `k` shift steps.
pub open spec fn crc_shift_n(c: u32, k: nat) -> u32
    decreases k,
{
    if k == 0 {
        c
    } else {
        crc_shift_n(crc_shift(c), (k - 1) as nat)
    }
}

/// One byte folded into the running state: the byte enters at the top,
/// followed by eight shift steps.
pub open spec fn crc_step(c: u32, b: u8) -> u32 {
    crc_shift_n(c ^ ((b as u32) << 24u32), 8)
}

/// The running state after all bytes of `s`, from the zero state.
pub open spec fn crc_state(s: Seq<u8>) -> u32
    decreases s.len(),
{
    if s.len() == 0 {
        0u32
    } else {
        crc_step(crc_state(s.drop_last()), s.last())
    }
}

/// The checksum of `s`: the final state, complemented.
pub open spec fn crc32_cksum(s: Seq<u8>) -> u32 {
    crc_state(s) ^ 0xFFFF_FFFFu32
}

/// Applying one more shift step after `k` steps is the same as `k + 1`
/// steps.
proof fn lemma_crc_shift_n_succ(c: u32, k: nat)
    ensures
        crc_shift_n(c, k + 1) == crc_shift(crc_shift_n(c, k)),
    decreases k,
{
    if k == 0 {
        assert(crc_shift_n(c, 1) == crc_shift_n(crc_shift(c), 0));
    } else {
        lemma_crc_shift_n_succ(crc_shift(c), (k - 1) as nat);
        assert(crc_shift_n(c, k + 1) == crc_shift_n(crc_shift(c), k));
        assert(crc_shift_n(c, k) == crc_shift_n(crc_shift(c), (k - 1) as nat));
    }
}

/// Folds one byte into a running state.
pub(crate) fn crc_update(c: u32, b: u8) -> (r: u32)
    ensures
        r == crc_step(c, b),
{
    let start: u32 = c ^ ((b as u32) << 24u32);
    let mut state: u32 = start;
    let mut k: usize = 0;
    while k < 8
        invariant
            k <= 8,
            state == crc_shift_n(start, k as nat),
        decreases 8 - k,
    {
        proof {
            lemma_crc_shift_n_succ(start, k as nat);
        }
        if state & 0x8000_0000u32 != 0 {
            state = (state << 1u32) ^ CRC_POLY;
        } else {
            state = state << 1u32;
        }
        k = k + 1;
    }
    state
}

} // verus!
