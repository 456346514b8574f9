use vstd::prelude::*;
use vstd::arithmetic::power2::{pow2, lemma2_to64};
use vstd::arithmetic::div_mod::lemma_fundamental_div_mod_converse;
use crate::error::DecodeError;
use crate::varint::{varint_at, read_number, wrap32};

verus! {

/// Number of slots of the prediction table, and modulus of the context hash.
pub const TABLE_SIZE: usize = 16384;

/// Bit `j` of the stream that starts at byte `base`, bits taken least
/// significant first from each byte.
pub open spec fn stream_bit(s: Seq<u8>, base: int, j: int) -> u8 {
    (s[base + j / 8] >> ((j % 8) as u8)) & 1u8
}

/// The value of the `n` stream bits from position `c`, the first of them
/// least significant.
pub open spec fn bits_value(s: Seq<u8>, base: int, c: int, n: nat) -> nat
    decreases n,
{
    if n == 0 {
        0
    } else {
        bits_value(s, base, c, (n - 1) as nat) + (stream_bit(s, base, c + n - 1) as nat) * pow2((n - 1) as nat)
    }
}

/// The context hash after one more emitted byte.
pub open spec fn next_hash(hash: int, b: u8) -> int {
    (16 * hash + b) % (TABLE_SIZE as int)
}

/// The context hash that the emitted bytes `out` lead to, from 0.
pub open spec fn context_hash(out: Seq<u8>) -> int
    decreases out.len(),
{
    if out.len() == 0 {
        0
    } else {
        next_hash(context_hash(out.drop_last()), out.last())
    }
}

/// The state of a decompression: bytes emitted, prediction table, context
/// hash and bit cursor.
pub type DecompressState = (Seq<u8>, Seq<u8>, int, int);

/// Emits one byte: a clear control bit reuses the table's prediction for the
/// current context; a set one is followed by an 8-bit literal, which is
/// emitted and stored in the table. `None` when the stream runs out.
pub open spec fn step(s: Seq<u8>, base: int, st: DecompressState) -> Option<DecompressState> {
    let (out, table, hash, c) = st;
    let avail = (s.len() - base) * 8;
    if c >= avail {
        None
    } else if stream_bit(s, base, c) == 0 {
        let b = table[hash];
        Some((out.push(b), table, next_hash(hash, b), c + 1))
    } else if c + 9 > avail {
        None
    } else {
        let b = bits_value(s, base, c + 1, 8) as u8;
        Some((out.push(b), table.update(hash, b), next_hash(hash, b), c + 9))
    }
}

/// The state after `k` bytes have been emitted from the stream at `base`.
pub open spec fn run(s: Seq<u8>, base: int, k: nat) -> Option<DecompressState>
    decreases k,
{
    if k == 0 {
        Some((seq![], Seq::new(TABLE_SIZE as nat, |i: int| 0u8), 0, 0))
    } else {
        match run(s, base, (k - 1) as nat) {
            None => None,
            Some(st) => step(s, base, st),
        }
    }
}

/// What a compressed payload decompresses to: a signed varint length `n`,
/// taken as a 32-bit integer, then `n` symbols of the bit-stream that
/// follows it.
pub open spec fn decompressed(s: Seq<u8>) -> Result<Seq<u8>, DecodeError> {
    match varint_at(s, 0) {
        Err(e) => Err(e),
        Ok((v, p)) => if wrap32(v) < 0 {
            Err(DecodeError::NegativeLength)
        } else {
            match run(s, p, wrap32(v) as nat) {
                None => Err(DecodeError::DecompressionTruncated),
                Some(st) => Ok(st.0),
            }
        },
    }
}

/// A decompression that has emitted `k` bytes has emitted exactly `k` bytes.
pub proof fn lemma_run_len(s: Seq<u8>, base: int, k: nat)
    ensures
        run(s, base, k) matches Some(st) ==> st.0.len() == k,
    decreases k,
{
    if k > 0 {
        lemma_run_len(s, base, (k - 1) as nat);
    }
}

/// The context hash stays in `[0, 16384)`, is the hash of the bytes emitted
/// so far, and the table keeps its 16384 slots.
pub proof fn lemma_run_hash(s: Seq<u8>, base: int, k: nat)
    ensures
        run(s, base, k) matches Some(st) ==> 0 <= st.2 < TABLE_SIZE && st.2 == context_hash(st.0)
            && st.1.len() == TABLE_SIZE,
    decreases k,
{
    if k > 0 {
        lemma_run_hash(s, base, (k - 1) as nat);
        if let Some(st) = run(s, base, (k - 1) as nat) {
            if let Some(st2) = step(s, base, st) {
                assert(st2.0.drop_last() =~= st.0);
            }
        }
    }
}

/// A hit leaves the prediction table unchanged; a miss overwrites exactly the
/// slot of the current context with the literal it emits.
pub proof fn lemma_step_table(s: Seq<u8>, base: int, st: DecompressState)
    requires
        0 <= base,
        0 <= st.3,
    ensures
        step(s, base, st) matches Some(st2) ==> {
            &&& st2.0.len() == st.0.len() + 1
            &&& stream_bit(s, base, st.3) == 0 ==> st2.1 == st.1
            &&& stream_bit(s, base, st.3) != 0 ==> st2.1 == st.1.update(st.2, st2.0.last())
        },
{
}

/// The byte that most recently followed context `h` in the emitted bytes
/// `out`, or 0 when `h` has not occurred.
pub open spec fn last_in_context(out: Seq<u8>, h: int) -> u8
    decreases out.len(),
{
    if out.len() == 0 {
        0
    } else if context_hash(out.drop_last()) == h {
        out.last()
    } else {
        last_in_context(out.drop_last(), h)
    }
}

/// Over a whole run, each slot of the prediction table holds the byte that
/// most recently followed its context, or 0: hits leave the table as it was,
/// and a miss stores exactly the literal it emits. So every hit emits the
/// last byte seen after the same context.
pub proof fn lemma_run_table(s: Seq<u8>, base: int, k: nat)
    requires
        0 <= base,
    ensures
        run(s, base, k) matches Some(st) ==> forall|h: int|
            0 <= h < TABLE_SIZE ==> st.1[h] == #[trigger] last_in_context(st.0, h),
    decreases k,
{
    if k > 0 {
        lemma_run_table(s, base, (k - 1) as nat);
        lemma_run_hash(s, base, (k - 1) as nat);
        if let Some(st) = run(s, base, (k - 1) as nat) {
            if let Some(st2) = step(s, base, st) {
                assert(0 <= st.3) by {
                    lemma_run_cursor(s, base, (k - 1) as nat);
                }
                lemma_step_table(s, base, st);
                assert(st2.0.drop_last() =~= st.0);
                assert forall|h: int| 0 <= h < TABLE_SIZE implies st2.1[h]
                    == #[trigger] last_in_context(st2.0, h) by {
                    if h != st.2 {
                        assert(last_in_context(st2.0, h) == last_in_context(st.0, h));
                    }
                }
            }
        }
    }
}

proof fn lemma_run_cursor(s: Seq<u8>, base: int, k: nat)
    ensures
        run(s, base, k) matches Some(st) ==> st.3 >= 0,
    decreases k,
{
    if k > 0 {
        lemma_run_cursor(s, base, (k - 1) as nat);
    }
}

proof fn lemma_run_stops(s: Seq<u8>, base: int, k: nat, m: nat)
    requires
        k <= m,
        run(s, base, k) is None,
    ensures
        run(s, base, m) is None,
    decreases m - k,
{
    if k < m {
        lemma_run_stops(s, base, k, (m - 1) as nat);
    }
}

proof fn lemma_cursor(rel: int, sh: int)
    requires
        0 <= rel,
        0 <= sh < 8,
    ensures
        (rel * 8 + sh) / 8 == rel,
        (rel * 8 + sh) % 8 == sh,
{
    lemma_fundamental_div_mod_converse(rel * 8 + sh, 8, rel, sh);
}

fn read_bit(bytes: &[u8], pos: usize, sh: u8, Ghost(base): Ghost<int>) -> (r: (u8, usize, u8))
    requires
        0 <= base <= pos < bytes@.len(),
        sh < 8,
    ensures
        r.0 == stream_bit(bytes@, base, (pos - base) * 8 + sh),
        r.0 < 2,
        (r.1 - base) * 8 + r.2 == (pos - base) * 8 + sh + 1,
        r.2 < 8,
        pos <= r.1 <= pos + 1,
{
    proof {
        lemma_cursor(pos - base, sh as int);
    }
    let byte = bytes[pos];
    let bit = (byte >> sh) & 1u8;
    assert(bit < 2) by (bit_vector)
        requires bit == (byte >> sh) & 1u8;
    if sh == 7 {
        (bit, pos + 1, 0)
    } else {
        (bit, pos, sh + 1)
    }
}

proof fn lemma_avail(rel: int, sh: int, len: int)
    requires
        0 <= rel,
        0 <= sh < 8,
    ensures
        rel * 8 + sh < len * 8 <==> rel < len,
{
    assert(rel * 8 + sh < len * 8 <==> rel < len) by (nonlinear_arith)
        requires 0 <= sh < 8;
}

/// Decompresses a payload: reads the length `n` as a signed varint, then
/// rebuilds `n` bytes from the bit-stream that follows.
pub fn decompress(bytes: &[u8]) -> (r: Result<Vec<u8>, DecodeError>)
    ensures
        match (r, decompressed(bytes@)) {
            (Ok(v), Ok(sv)) => v@ == sv,
            (Err(e), Err(se)) => e == se,
            _ => false,
        },
        r matches Ok(v) ==> varint_at(bytes@, 0) matches Ok((n, p)) && v@.len() == wrap32(n),
{
    let (size, base) = match read_number(bytes, 0) {
        Ok((n, p)) => {
            if n < 0 {
                return Err(DecodeError::NegativeLength);
            }
            (n as u64, p)
        },
        Err(e) => {
            return Err(e);
        },
    };
    let mut table: Vec<u8> = Vec::new();
    let mut t: usize = 0;
    while t < TABLE_SIZE
        invariant
            t <= TABLE_SIZE,
            table@.len() == t,
            forall|j: int| 0 <= j < t ==> table@[j] == 0u8,
        decreases TABLE_SIZE - t,
    {
        table.push(0u8);
        t = t + 1;
    }
    assert(table@ =~= Seq::new(TABLE_SIZE as nat, |i: int| 0u8));
    let mut out: Vec<u8> = Vec::new();
    let mut hash: usize = 0;
    let mut pos: usize = base;
    let mut sh: u8 = 0;
    let mut i: u64 = 0;
    let ghost s = bytes@;
    let ghost b = base as int;
    while i < size
        invariant
            s == bytes@,
            b == base,
            base <= pos <= bytes@.len(),
            sh < 8,
            pos == bytes@.len() ==> sh == 0,
            i <= size,
            run(s, b, i as nat) == Some((out@, table@, hash as int, (pos - b) * 8 + sh)),
            hash < TABLE_SIZE,
            table@.len() == TABLE_SIZE,
            varint_at(s, 0) matches Ok((n, p)) && wrap32(n) == size && p == base,
        decreases size - i,
    {
        let ghost c = (pos - b) * 8 + sh;
        proof {
            lemma_avail(pos - b, sh as int, s.len() - b);
        }
        if pos >= bytes.len() {
            proof {
                lemma_run_stops(s, b, (i + 1) as nat, size as nat);
            }
            return Err(DecodeError::DecompressionTruncated);
        }
        let (bit, p1, s1) = read_bit(bytes, pos, sh, Ghost(b));
        pos = p1;
        sh = s1;
        let data: u8;
        if bit == 0 {
            data = table[hash];
        } else {
            if !(pos < bytes.len() && (sh == 0 || pos + 1 < bytes.len())) {
                proof {
                    lemma_avail(pos - b, sh as int, s.len() - b);
                    lemma_avail(pos - b + 1, sh as int, s.len() - b);
                    assert(c + 9 > (s.len() - b) * 8) by (nonlinear_arith)
                        requires
                            c + 1 == (pos - b) * 8 + sh,
                            0 <= sh < 8,
                            pos <= s.len(),
                            pos == s.len() ==> sh == 0,
                            !(pos < s.len() && (sh == 0 || pos + 1 < s.len()));
                    lemma_run_stops(s, b, (i + 1) as nat, size as nat);
                }
                return Err(DecodeError::DecompressionTruncated);
            }
            proof {
                assert(c + 9 <= (s.len() - b) * 8) by (nonlinear_arith)
                    requires
                        c + 1 == (pos - b) * 8 + sh,
                        0 <= sh < 8,
                        pos < s.len(),
                        sh == 0 || pos + 1 < s.len();
            }
            let mut lit: u32 = 0;
            let mut w: u32 = 1;
            let mut k: u8 = 0;
            proof {
                lemma2_to64();
            }
            while k < 8
                invariant
                    s == bytes@,
                    b == base,
                    base <= pos <= bytes@.len(),
                    sh < 8,
                    k <= 8,
                    (pos - b) * 8 + sh == c + 1 + k,
                    c + 9 <= (s.len() - b) * 8,
                    w == pow2(k as nat),
                    lit == bits_value(s, b, c + 1, k as nat),
                    lit < w,
                decreases 8 - k,
            {
                proof {
                    lemma_avail(pos - b, sh as int, s.len() - b);
                    lemma2_to64();
                    assert(w <= 128) by {
                        assert(k == 0 || k == 1 || k == 2 || k == 3 || k == 4 || k == 5 || k == 6
                            || k == 7);
                    }
                }
                let (bt, p2, s2) = read_bit(bytes, pos, sh, Ghost(b));
                lit = lit + (bt as u32) * w;
                w = w * 2;
                k = k + 1;
                pos = p2;
                sh = s2;
            }
            data = lit as u8;
            table.set(hash, data);
        }
        out.push(data);
        hash = (16 * hash + data as usize) % TABLE_SIZE;
        i = i + 1;
    }
    proof {
        lemma_run_len(s, b, size as nat);
    }
    Ok(out)
}

} // verus!
