use vstd::prelude::*;
use vstd::arithmetic::power2::{pow2, lemma2_to64};
use crate::error::DecodeError;

verus! {

/// A byte of the 64-symbol alphabet, `'0'` (48) up to 111.
pub open spec fn is_symbol(b: u8) -> bool {
    48 <= b < 112
}

/// The byte that ends the armored unit starting at `i`: the first byte above
/// 0x20 that is not an alphabet symbol (or the end of the input).
pub open spec fn armor_end(s: Seq<u8>, i: int) -> int
    decreases s.len() - i,
{
    if i < 0 || i >= s.len() || (s[i] > 32 && !is_symbol(s[i])) {
        i
    } else {
        armor_end(s, i + 1)
    }
}

/// The 6-bit values that the alphabet bytes of `s[i..e]` stand for, in order;
/// formatting bytes (at most 0x20) are skipped.
pub open spec fn symbol_values(s: Seq<u8>, i: int, e: int) -> Seq<u8>
    decreases e - i,
{
    if e <= i {
        seq![]
    } else if s[e - 1] <= 32 {
        symbol_values(s, i, e - 1)
    } else {
        symbol_values(s, i, e - 1).push((s[e - 1] - 48) as u8)
    }
}

/// Packing 6-bit values least-significant bit first: the completed bytes, the
/// bits still buffered, and how many they are.
pub open spec fn armor_pack(v: Seq<u8>) -> (Seq<u8>, nat, nat)
    decreases v.len(),
{
    if v.len() == 0 {
        (seq![], 0, 0)
    } else {
        let (out, buf, bits) = armor_pack(v.drop_last());
        let b2: nat = (buf + v.last() * pow2(bits)) as nat;
        if bits + 6 >= 8 {
            (out.push((b2 % 256) as u8), b2 / 256, (bits + 6 - 8) as nat)
        } else {
            (out, b2, bits + 6)
        }
    }
}

/// The number of leftover bits that a sentinel asserts.
pub open spec fn sentinel_bits(t: u8) -> Option<nat> {
    if t == 35 {
        Some(0)
    } else if t == 37 {
        Some(2)
    } else if t == 36 {
        Some(4)
    } else {
        None
    }
}

/// The armored unit that starts at `i`: its bytes and the position after its
/// sentinel.
pub open spec fn armor_at(s: Seq<u8>, i: int) -> Result<(Seq<u8>, int), DecodeError> {
    let e = armor_end(s, i);
    let (out, buf, bits) = armor_pack(symbol_values(s, i, e));
    if e >= s.len() {
        Err(DecodeError::ArmorTerminatorMismatch)
    } else {
        match sentinel_bits(s[e]) {
            None => Err(DecodeError::ArmorAlphabetError),
            Some(n) => if n == bits {
                Ok((out, e + 1))
            } else {
                Err(DecodeError::ArmorTerminatorMismatch)
            },
        }
    }
}

/// Decodes the armored unit that starts at `start`. Returns its bytes and
/// the position after its sentinel.
pub fn decode(bytes: &[u8], start: usize) -> (r: Result<(Vec<u8>, usize), DecodeError>)
    requires
        start <= bytes@.len(),
    ensures
        match (r, armor_at(bytes@, start as int)) {
            (Ok((v, p)), Ok((sv, sp))) => v@ == sv && p as int == sp,
            (Err(e), Err(se)) => e == se,
            _ => false,
        },
        r matches Ok((v, p)) ==> p <= bytes@.len(),
{
    let mut out: Vec<u8> = Vec::new();
    let mut bits: u32 = 0;
    let mut scale: u32 = 1;
    let mut buf: u32 = 0;
    let mut i: usize = start;
    proof {
        lemma2_to64();
    }
    while i < bytes.len() && (bytes[i] <= 32 || (48 <= bytes[i] && bytes[i] < 112))
        invariant
            start <= i <= bytes@.len(),
            armor_end(bytes@, i as int) == armor_end(bytes@, start as int),
            forall|k: int| 0 <= k < symbol_values(bytes@, start as int, i as int).len()
                ==> symbol_values(bytes@, start as int, i as int)[k] < 64,
            armor_pack(symbol_values(bytes@, start as int, i as int)) == (out@, buf as nat, bits as nat),
            bits < 8,
            bits % 2 == 0,
            scale == pow2(bits as nat),
            buf < scale,
        decreases bytes@.len() - i,
    {
        let ch = bytes[i];
        let ghost vals = symbol_values(bytes@, start as int, i as int);
        if ch > 32 {
            proof {
                lemma2_to64();
                assert(symbol_values(bytes@, start as int, i + 1) == vals.push((ch - 48) as u8));
                assert(vals.push((ch - 48) as u8).drop_last() =~= vals);
                let x: nat = (ch - 48) as nat;
                assert(buf + x * scale < scale * 64) by (nonlinear_arith)
                    requires buf < scale, x < 64;
            }
            buf = buf + ((ch - 48) as u32) * scale;
            bits = bits + 6;
            scale = scale * 64;
            if bits >= 8 {
                proof {
                    assert(bits == 8 || bits == 10 || bits == 12);
                }
                out.push((buf % 256) as u8);
                buf = buf / 256;
                bits = bits - 8;
                scale = scale / 256;
            }
            proof {
                assert(scale == pow2(bits as nat));
            }
        }
        i = i + 1;
    }
    if i >= bytes.len() {
        return Err(DecodeError::ArmorTerminatorMismatch);
    }
    let t = bytes[i];
    if (t == 35 && bits == 0) || (t == 37 && bits == 2) || (t == 36 && bits == 4) {
        Ok((out, i + 1))
    } else if t == 35 || t == 37 || t == 36 {
        Err(DecodeError::ArmorTerminatorMismatch)
    } else {
        Err(DecodeError::ArmorAlphabetError)
    }
}

/// The four 6-bit values that armor three bytes.
pub open spec fn armor_group(x: u8, y: u8, z: u8) -> Seq<u8> {
    seq![x % 64, (x / 64 + (y % 16) * 4) as u8, (y / 16 + (z % 4) * 16) as u8, z / 4]
}

/// The 6-bit values that armor the bytes `b`: each group of three bytes
/// gives four values, a final one or two bytes give two or three, least
/// significant bits first and padded with zero bits.
pub open spec fn armor_values(b: Seq<u8>) -> Seq<u8>
    decreases b.len(),
{
    if b.len() >= 3 {
        armor_group(b[0], b[1], b[2]) + armor_values(b.subrange(3, b.len() as int))
    } else if b.len() == 2 {
        let (x, y) = (b[0], b[1]);
        seq![x % 64, (x / 64 + (y % 16) * 4) as u8, y / 16]
    } else if b.len() == 1 {
        seq![b[0] % 64, b[0] / 64]
    } else {
        seq![]
    }
}

/// The bits left over after the armor of `n` bytes.
pub open spec fn armor_leftover(n: nat) -> nat {
    if n % 3 == 0 {
        0
    } else if n % 3 == 1 {
        4
    } else {
        2
    }
}

/// The alphabet bytes that armor the bytes `b`, one per 6-bit value.
pub open spec fn armor_text(b: Seq<u8>) -> Seq<u8> {
    armor_values(b).map_values(|v: u8| (v + 48) as u8)
}

/// The sentinel that ends the armor of `n` bytes.
pub open spec fn armor_sentinel(n: nat) -> u8 {
    if n % 3 == 0 {
        35
    } else if n % 3 == 1 {
        36
    } else {
        37
    }
}

/// The bytes of `f` above 0x20, in order.
pub open spec fn strip_blanks(f: Seq<u8>) -> Seq<u8>
    decreases f.len(),
{
    if f.len() == 0 {
        seq![]
    } else if f.last() <= 32 {
        strip_blanks(f.drop_last())
    } else {
        strip_blanks(f.drop_last()).push(f.last())
    }
}

proof fn lemma_armor_values_small(b: Seq<u8>)
    ensures
        forall|k: int| 0 <= k < armor_values(b).len() ==> armor_values(b)[k] < 64,
    decreases b.len(),
{
    if b.len() >= 3 {
        lemma_armor_values_small(b.subrange(3, b.len() as int));
        let r = armor_values(b.subrange(3, b.len() as int));
        assert forall|k: int| 0 <= k < armor_values(b).len() implies armor_values(b)[k] < 64 by {
            if k >= 4 {
                assert(armor_values(b)[k] == r[k - 4]);
            }
        }
    }
}

proof fn lemma_pack_append(v1: Seq<u8>, v2: Seq<u8>)
    requires
        armor_pack(v1).1 == 0,
        armor_pack(v1).2 == 0,
    ensures
        armor_pack(v1 + v2) == (armor_pack(v1).0 + armor_pack(v2).0, armor_pack(v2).1, armor_pack(v2).2),
    decreases v2.len(),
{
    if v2.len() == 0 {
        assert(v1 + v2 =~= v1);
        assert(armor_pack(v1).0 + armor_pack(v2).0 =~= armor_pack(v1).0);
    } else {
        lemma_pack_append(v1, v2.drop_last());
        assert((v1 + v2).drop_last() =~= v1 + v2.drop_last());
        let o1 = armor_pack(v1).0;
        let o2 = armor_pack(v2.drop_last()).0;
        let (_, buf, bits) = armor_pack(v2.drop_last());
        let b2: nat = (buf + v2.last() * pow2(bits)) as nat;
        assert((o1 + o2).push((b2 % 256) as u8) =~= o1 + o2.push((b2 % 256) as u8));
    }
}

proof fn lemma_pack_group(x: u8, y: u8, z: u8)
    ensures
        armor_pack(armor_group(x, y, z)) == (seq![x, y, z], 0nat, 0nat),
{
    lemma2_to64();
    let s0: u8 = x % 64;
    let s1: u8 = (x / 64 + (y % 16) * 4) as u8;
    let s2: u8 = (y / 16 + (z % 4) * 16) as u8;
    let s3: u8 = z / 4;
    let g = seq![s0, s1, s2, s3];
    assert(g =~= armor_group(x, y, z));
    assert(g.drop_last() =~= seq![s0, s1, s2]);
    assert(seq![s0, s1, s2].drop_last() =~= seq![s0, s1]);
    assert(seq![s0, s1].drop_last() =~= seq![s0]);
    assert(seq![s0].drop_last() =~= Seq::<u8>::empty());
    assert(seq![s0].last() == s0);
    assert(armor_pack(Seq::<u8>::empty()) == (Seq::<u8>::empty(), 0nat, 0nat));
    assert(armor_pack(seq![s0]) == (Seq::<u8>::empty(), s0 as nat, 6nat));
    assert(s0 + s1 * 64 == x + (y % 16) * 256);
    assert(armor_pack(seq![s0, s1]) == (seq![x], (y % 16) as nat, 4nat)) by {
        assert(Seq::<u8>::empty().push(x) =~= seq![x]);
    }
    assert((y % 16) + s2 * 16 == y + (z % 4) * 256);
    assert(armor_pack(seq![s0, s1, s2]) == (seq![x, y], (z % 4) as nat, 2nat)) by {
        assert(seq![x].push(y) =~= seq![x, y]);
    }
    assert((z % 4) + s3 * 4 == z);
    assert(seq![x, y].push(z) =~= seq![x, y, z]);
}

proof fn lemma_pack_values(b: Seq<u8>)
    ensures
        armor_pack(armor_values(b)) == (b, 0nat, armor_leftover(b.len())),
    decreases b.len(),
{
    lemma2_to64();
    if b.len() >= 3 {
        let rest = b.subrange(3, b.len() as int);
        lemma_pack_values(rest);
        lemma_pack_group(b[0], b[1], b[2]);
        lemma_pack_append(armor_group(b[0], b[1], b[2]), armor_values(rest));
        assert(seq![b[0], b[1], b[2]] + rest =~= b);
        assert(rest.len() % 3 == b.len() % 3);
    } else if b.len() == 2 {
        let (x, y) = (b[0], b[1]);
        let s0: u8 = x % 64;
        let s1: u8 = (x / 64 + (y % 16) * 4) as u8;
        let s2: u8 = y / 16;
        assert(armor_values(b) =~= seq![s0, s1, s2]);
        assert(seq![s0, s1, s2].drop_last() =~= seq![s0, s1]);
        assert(seq![s0, s1].drop_last() =~= seq![s0]);
        assert(seq![s0].drop_last() =~= Seq::<u8>::empty());
        assert(seq![s0].last() == s0);
        assert(armor_pack(Seq::<u8>::empty()) == (Seq::<u8>::empty(), 0nat, 0nat));
        assert(armor_pack(seq![s0]) == (Seq::<u8>::empty(), s0 as nat, 6nat));
        assert(s0 + s1 * 64 == x + (y % 16) * 256);
        assert(armor_pack(seq![s0, s1]) == (seq![x], (y % 16) as nat, 4nat)) by {
            assert(Seq::<u8>::empty().push(x) =~= seq![x]);
        }
        assert((y % 16) + s2 * 16 == y);
        assert(seq![x].push(y) =~= b);
    } else if b.len() == 1 {
        let x = b[0];
        let s0: u8 = x % 64;
        let s1: u8 = x / 64;
        assert(armor_values(b) =~= seq![s0, s1]);
        assert(seq![s0, s1].drop_last() =~= seq![s0]);
        assert(seq![s0].drop_last() =~= Seq::<u8>::empty());
        assert(seq![s0].last() == s0);
        assert(armor_pack(Seq::<u8>::empty()) == (Seq::<u8>::empty(), 0nat, 0nat));
        assert(armor_pack(seq![s0]) == (Seq::<u8>::empty(), s0 as nat, 6nat));
        assert(s0 + s1 * 64 == x);
        assert(Seq::<u8>::empty().push(x) =~= b);
    } else {
        assert(b =~= Seq::<u8>::empty());
    }
}

proof fn lemma_strip_symbols(f: Seq<u8>)
    requires
        forall|k: int| 0 <= k < strip_blanks(f).len() ==> is_symbol(#[trigger] strip_blanks(f)[k]),
    ensures
        forall|k: int| 0 <= k < f.len() ==> f[k] <= 32 || is_symbol(f[k]),
    decreases f.len(),
{
    if f.len() > 0 {
        let g = f.drop_last();
        assert forall|k: int| 0 <= k < strip_blanks(g).len() implies is_symbol(
            #[trigger] strip_blanks(g)[k],
        ) by {
            assert(strip_blanks(f)[k] == strip_blanks(g)[k]);
        }
        lemma_strip_symbols(g);
        assert forall|k: int| 0 <= k < f.len() implies f[k] <= 32 || is_symbol(f[k]) by {
            if k < f.len() - 1 {
                assert(f[k] == g[k]);
            } else if f.last() > 32 {
                assert(strip_blanks(f).last() == f.last());
            }
        }
    }
}

proof fn lemma_symbols_of_prefix(t: Seq<u8>, f: Seq<u8>, i: int)
    requires
        0 <= i <= f.len() <= t.len(),
        forall|k: int| 0 <= k < f.len() ==> t[k] == f[k] && (f[k] <= 32 || is_symbol(f[k])),
    ensures
        symbol_values(t, 0, i) == strip_blanks(f.subrange(0, i)).map_values(|c: u8| (c - 48) as u8),
    decreases i,
{
    if i > 0 {
        lemma_symbols_of_prefix(t, f, i - 1);
        assert(f.subrange(0, i).drop_last() =~= f.subrange(0, i - 1));
        let prev = strip_blanks(f.subrange(0, i - 1));
        assert(prev.push(f[i - 1]).map_values(|c: u8| (c - 48) as u8) =~= prev.map_values(
            |c: u8| (c - 48) as u8,
        ).push((f[i - 1] - 48) as u8));
    } else {
        assert(strip_blanks(f.subrange(0, 0)).map_values(|c: u8| (c - 48) as u8)
            =~= Seq::<u8>::empty());
    }
}

proof fn lemma_armor_end_of(t: Seq<u8>, f: Seq<u8>, i: int)
    requires
        0 <= i <= f.len() < t.len(),
        forall|k: int| 0 <= k < f.len() ==> t[k] == f[k] && (f[k] <= 32 || is_symbol(f[k])),
        32 < t[f.len() as int] < 48,
    ensures
        armor_end(t, i) == f.len(),
    decreases f.len() - i,
{
    if i < f.len() {
        lemma_armor_end_of(t, f, i + 1);
    }
}

/// Armor round trip: take the alphabet bytes that armor `b`, put any blank
/// bytes (at most 0x20) among them, add the matching sentinel and any bytes
/// after it. Decoding gives back exactly `b` and stops just after the
/// sentinel.
pub proof fn lemma_armor_round_trip(b: Seq<u8>, f: Seq<u8>, rest: Seq<u8>)
    requires
        strip_blanks(f) == armor_text(b),
    ensures
        armor_at(f.push(armor_sentinel(b.len())) + rest, 0) == Ok::<(Seq<u8>, int), DecodeError>(
            (b, f.len() + 1int),
        ),
{
    let v = armor_values(b);
    let t = f.push(armor_sentinel(b.len())) + rest;
    lemma_armor_values_small(b);
    lemma_pack_values(b);
    assert forall|k: int| 0 <= k < strip_blanks(f).len() implies is_symbol(
        #[trigger] strip_blanks(f)[k],
    ) by {
        assert(armor_text(b)[k] == (v[k] + 48) as u8);
    }
    lemma_strip_symbols(f);
    assert forall|k: int| 0 <= k < f.len() implies t[k] == f[k] && (f[k] <= 32 || is_symbol(
        f[k],
    )) by {}
    assert(t[f.len() as int] == armor_sentinel(b.len()));
    lemma_symbols_of_prefix(t, f, f.len() as int);
    lemma_armor_end_of(t, f, 0);
    assert(f.subrange(0, f.len() as int) =~= f);
    assert(armor_text(b).map_values(|c: u8| (c - 48) as u8) =~= v);
    assert(b.len() % 3 == 0 || b.len() % 3 == 1 || b.len() % 3 == 2);
}

} // verus!
