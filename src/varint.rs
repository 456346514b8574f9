use vstd::prelude::*;
use vstd::arithmetic::div_mod::lemma_mod_multiples_vanish;
use crate::error::DecodeError;

verus! {

/// The signed value of the low seven bits of a terminating byte
/// (bit 6 is the sign).
pub open spec fn sign_extend7(b: u8) -> int {
    if b < 64 {
        b as int
    } else {
        b as int - 128
    }
}

/// Decoding of a varint that starts at `i`, where `k` continuation bytes
/// have been read so far, `acc` holds their value and `scale == 128^k`.
/// Yields the value and the position just after the terminating byte.
pub open spec fn varint_from(s: Seq<u8>, i: int, k: nat, acc: int, scale: int) -> Result<(int, int), DecodeError>
    decreases s.len() - i,
{
    if i < 0 || i >= s.len() {
        Err(DecodeError::VarintTruncated)
    } else if s[i] >= 0x80 {
        if 7 * (k + 1) >= 32 {
            Err(DecodeError::VarintOverflow)
        } else {
            varint_from(s, i + 1, k + 1, acc + (s[i] - 0x80) * scale, scale * 128)
        }
    } else {
        Ok((acc + sign_extend7(s[i]) * scale, i + 1))
    }
}

/// The signed varint that starts at position `i` of `s`.
pub open spec fn varint_at(s: Seq<u8>, i: int) -> Result<(int, int), DecodeError> {
    varint_from(s, i, 0, 0, 1)
}

/// `x` reduced to a 32-bit two's-complement integer: the value in
/// `[-2^31, 2^31)` that is congruent to `x` modulo `2^32`.
pub open spec fn wrap32(x: int) -> int {
    let m = x % 0x1_0000_0000;
    if m >= 0x8000_0000 {
        m - 0x1_0000_0000
    } else {
        m
    }
}

/// Reads one signed varint starting at `start`; on success returns its value
/// as a 32-bit integer (bits above the 32nd are dropped) and the position
/// just after its last byte.
pub fn read_number(bytes: &[u8], start: usize) -> (r: Result<(i32, usize), DecodeError>)
    ensures
        match (r, varint_at(bytes@, start as int)) {
            (Ok((v, p)), Ok((sv, sp))) => v as int == wrap32(sv) && p as int == sp,
            (Err(e), Err(se)) => e == se,
            _ => false,
        },
        r matches Ok((v, p)) ==> start < p <= bytes@.len(),
{
    let mut i: usize = start;
    let mut k: u32 = 0;
    let mut acc: i64 = 0;
    let mut scale: i64 = 1;
    while i < bytes.len()
        invariant
            start <= i,
            i <= bytes@.len() || i == start,
            k <= 4,
            k == 0 ==> scale == 1,
            k == 1 ==> scale == 128,
            k == 2 ==> scale == 16384,
            k == 3 ==> scale == 2097152,
            k == 4 ==> scale == 268435456,
            0 <= acc < scale,
            varint_from(bytes@, i as int, k as nat, acc as int, scale as int)
                == varint_at(bytes@, start as int),
        decreases bytes@.len() - i,
    {
        let b = bytes[i];
        if b >= 0x80 {
            if 7 * (k + 1) >= 32 {
                return Err(DecodeError::VarintOverflow);
            }
            proof {
                let d: int = b - 0x80;
                let a: int = acc as int;
                let sc: int = scale as int;
                assert(a + d * sc < sc * 128 && a + d * sc >= 0) by (nonlinear_arith)
                    requires 0 <= a < sc, 0 <= d < 128;
            }
            acc = acc + ((b - 0x80) as i64) * scale;
            scale = scale * 128;
            k = k + 1;
            i = i + 1;
        } else {
            let x: i64 = (b as i64) ^ 0x40;
            proof {
                assert(b < 64 ==> x == b as i64 + 0x40) by (bit_vector)
                    requires b < 128u8, x == (b as i64) ^ 0x40;
                assert(b >= 64 ==> x == b as i64 - 0x40) by (bit_vector)
                    requires b < 128u8, x == (b as i64) ^ 0x40;
            }
            let q: i64 = x - 0x40;
            proof {
                assert(q == sign_extend7(b));
                assert(-64 * scale <= q * scale <= 63 * scale) by (nonlinear_arith)
                    requires -64 <= q <= 63, scale > 0;
            }
            let v: i64 = acc + q * scale;
            let u: u64 = (v + 0x4_0000_0000) as u64;
            proof {
                lemma_mod_multiples_vanish(4, v as int, 0x1_0000_0000);
                assert(u as int == 0x1_0000_0000 * 4 + v);
            }
            let m: u64 = u % 0x1_0000_0000;
            let w: i32 = if m >= 0x8000_0000 {
                (m as i64 - 0x1_0000_0000) as i32
            } else {
                m as i32
            };
            return Ok((w, i + 1));
        }
    }
    Err(DecodeError::VarintTruncated)
}

} // verus!
