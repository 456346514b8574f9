use vstd::prelude::*;
use crate::error::DecodeError;

verus! {

/// The literal `AsciiCoder.DecodeFiles` that announces an archive.
pub open spec fn marker() -> Seq<u8> {
    seq![65u8, 115, 99, 105, 105, 67, 111, 100, 101, 114, 46, 68, 101, 99, 111, 100, 101, 70, 105, 108, 101, 115]
}

pub const MARKER_LEN: usize = 22;

fn marker_bytes() -> (r: Vec<u8>)
    ensures
        r@ == marker(),
{
    let r = vec![65u8, 115, 99, 105, 105, 67, 111, 100, 101, 114, 46, 68, 101, 99, 111, 100, 101, 70, 105, 108, 101, 115];
    assert(r@ =~= marker());
    r
}

/// One step of the reset-on-mismatch scanner from matched length `idx < 22`.
pub open spec fn scan_step(idx: nat, ch: u8) -> nat {
    let i: nat = if ch != marker()[idx as int] { 0 } else { idx };
    if ch == marker()[i as int] { i + 1 } else { i }
}

/// Matched prefix length after scanning `s[start..end]`; it stays at the
/// full marker length once that is reached.
pub open spec fn scan_state(s: Seq<u8>, start: int, end: int) -> nat
    decreases end - start,
{
    if end <= start {
        0
    } else {
        let p = scan_state(s, start, end - 1);
        if p >= MARKER_LEN { p } else { scan_step(p, s[end - 1]) }
    }
}

proof fn lemma_scan_state_matches(s: Seq<u8>, start: int, end: int)
    requires
        0 <= start <= end <= s.len(),
        end > start ==> scan_state(s, start, end - 1) < MARKER_LEN,
    ensures
        scan_state(s, start, end) <= MARKER_LEN,
        scan_state(s, start, end) <= end - start,
        s.subrange(end - scan_state(s, start, end) as int, end)
            == marker().subrange(0, scan_state(s, start, end) as int),
    decreases end - start,
{
    let k = scan_state(s, start, end) as int;
    if end > start {
        if end - 1 > start && scan_state(s, start, end - 2) >= MARKER_LEN {
            lemma_scan_state_stays(s, start, end - 2, end - 1);
        }
        lemma_scan_state_matches(s, start, end - 1);
        let p = scan_state(s, start, end - 1) as int;
        if p < MARKER_LEN {
            let ch = s[end - 1];
            let i: int = if ch != marker()[p] { 0 } else { p };
            if ch == marker()[i] {
                assert(s.subrange(end - k, end) =~= s.subrange(end - 1 - i, end - 1).push(ch));
                assert(marker().subrange(0, k) =~= marker().subrange(0, i).push(ch));
            }
        }
    } else {
        assert(s.subrange(end, end) =~= marker().subrange(0, 0));
    }
}

/// Once the scanner has matched the whole marker it stays there.
pub proof fn lemma_scan_state_stays(s: Seq<u8>, start: int, mid: int, end: int)
    requires
        start <= mid <= end,
        scan_state(s, start, mid) >= MARKER_LEN,
    ensures
        scan_state(s, start, end) == scan_state(s, start, mid),
    decreases end - mid,
{
    if end > mid {
        lemma_scan_state_stays(s, start, mid, end - 1);
    }
}

/// The marker occurs in `s[start..]` and ends just before position `q`.
pub open spec fn marker_ends_at(s: Seq<u8>, start: int, q: int) -> bool {
    &&& start + MARKER_LEN <= q <= s.len()
    &&& s.subrange(q - MARKER_LEN, q) == marker()
}

proof fn lemma_marker_head_unique()
    ensures
        forall|k: int| 1 <= k < MARKER_LEN ==> marker()[k] != 65u8,
        marker()[0] == 65u8,
        marker().len() == MARKER_LEN,
{
}

/// While the scanner has not completed the marker, it holds the length of
/// any nonempty marker prefix that ends at the current position: the marker
/// has no `A` but its first byte, so no shorter prefix can end there too.
proof fn lemma_scan_tracks_prefix(s: Seq<u8>, start: int, j: int, m: int)
    requires
        0 <= start <= j <= s.len(),
        1 <= m <= MARKER_LEN,
        m <= j - start,
        s.subrange(j - m, j) == marker().subrange(0, m),
        scan_state(s, start, j - 1) < MARKER_LEN,
    ensures
        scan_state(s, start, j) == m,
    decreases j - start,
{
    lemma_marker_head_unique();
    let k = scan_state(s, start, j - 1) as int;
    assert(s[j - 1] == s.subrange(j - m, j)[m - 1]);
    assert(s[j - 1] == marker()[m - 1]);
    if m == 1 {
        if s[j - 1] == marker()[k] {
            assert(k == 0);
        }
    } else {
        if scan_state(s, start, j - 2) >= MARKER_LEN {
            lemma_scan_state_stays(s, start, j - 2, j - 1);
        }
        assert(s.subrange(j - m, j - 1) =~= marker().subrange(0, m - 1)) by {
            assert forall|t: int| 0 <= t < m - 1 implies #[trigger] s.subrange(j - m, j - 1)[t]
                == marker().subrange(0, m - 1)[t] by {
                assert(s.subrange(j - m, j)[t] == marker().subrange(0, m)[t]);
            }
        }
        lemma_scan_tracks_prefix(s, start, j - 1, m - 1);
    }
}

/// Scans from `start` for the archive marker. Returns the position just
/// after its first occurrence in `bytes[start..]`, or `None` when it does
/// not occur there.
pub fn skip_header(bytes: &[u8], start: usize) -> (r: Option<usize>)
    ensures
        match r {
            Some(p) => {
                &&& marker_ends_at(bytes@, start as int, p as int)
                &&& forall|q: int| q < p ==> !marker_ends_at(bytes@, start as int, q)
            },
            None => forall|q: int| !marker_ends_at(bytes@, start as int, q),
        },
{
    let command = marker_bytes();
    let mut idx: usize = 0;
    let mut i: usize = start;
    while i < bytes.len()
        invariant
            start <= i,
            i <= bytes@.len() || i == start,
            command@ == marker(),
            idx as nat == scan_state(bytes@, start as int, i as int),
            idx < MARKER_LEN,
            forall|q: int| start <= q <= i ==> scan_state(bytes@, start as int, q) < MARKER_LEN,
        decreases bytes@.len() - i,
    {
        let ch = bytes[i];
        if ch != command[idx] {
            idx = 0;
        }
        if ch == command[idx] {
            idx = idx + 1;
        }
        i = i + 1;
        if idx == MARKER_LEN {
            proof {
                lemma_scan_state_matches(bytes@, start as int, i as int);
                assert(marker().subrange(0, 22) =~= marker());
                assert forall|q: int| q < i implies !marker_ends_at(bytes@, start as int, q) by {
                    if marker_ends_at(bytes@, start as int, q) {
                        assert(marker().subrange(0, 22) =~= marker());
                        lemma_scan_tracks_prefix(bytes@, start as int, q, 22);
                    }
                }
            }
            return Some(i);
        }
    }
    proof {
        assert forall|q: int| !marker_ends_at(bytes@, start as int, q) by {
            if marker_ends_at(bytes@, start as int, q) {
                assert(marker().subrange(0, 22) =~= marker());
                lemma_scan_tracks_prefix(bytes@, start as int, q, 22);
            }
        }
    }
    None
}

/// First position at or after `i` that holds a byte above 0x20, or the end.
pub open spec fn skip_blank(s: Seq<u8>, i: int) -> int
    decreases s.len() - i,
{
    if i >= s.len() || s[i] > 32 { i } else { skip_blank(s, i + 1) }
}

/// First position at or after `i` that holds a byte at most 0x20, or the end.
pub open spec fn token_end(s: Seq<u8>, i: int) -> int
    decreases s.len() - i,
{
    if i >= s.len() || s[i] <= 32 { i } else { token_end(s, i + 1) }
}

/// The token read from `i`: `None` when only blank bytes remain; else the
/// token and the position after it and its one delimiting byte.
pub open spec fn token_at(s: Seq<u8>, i: int) -> Option<(Seq<u8>, int)> {
    let b = skip_blank(s, i);
    let e = token_end(s, b);
    if b >= s.len() {
        None
    } else {
        Some((s.subrange(b, e), if e < s.len() { e + 1 } else { e }))
    }
}

proof fn lemma_skip_blank(s: Seq<u8>, i: int)
    requires
        0 <= i,
    ensures
        i <= skip_blank(s, i),
        i <= s.len() ==> skip_blank(s, i) <= s.len(),
        forall|k: int| i <= k < skip_blank(s, i) ==> s[k] <= 32,
        skip_blank(s, i) < s.len() ==> s[skip_blank(s, i)] > 32,
    decreases s.len() - i,
{
    if i < s.len() && s[i] <= 32 {
        lemma_skip_blank(s, i + 1);
    }
}

proof fn lemma_token_end(s: Seq<u8>, i: int)
    requires
        0 <= i,
    ensures
        i <= token_end(s, i),
        i <= s.len() ==> token_end(s, i) <= s.len(),
        forall|k: int| i <= k < token_end(s, i) ==> s[k] > 32,
        token_end(s, i) < s.len() ==> s[token_end(s, i)] <= 32,
    decreases s.len() - i,
{
    if i < s.len() && s[i] > 32 {
        lemma_token_end(s, i + 1);
    }
}

/// A token read from `i` is never empty and always moves the position forward.
pub proof fn lemma_token_advances(s: Seq<u8>, i: int)
    requires
        0 <= i <= s.len(),
    ensures
        token_at(s, i) matches Some((t, n)) ==> t.len() > 0 && i < n <= s.len(),
{
    lemma_skip_blank(s, i);
    let b = skip_blank(s, i);
    lemma_token_end(s, b);
    if b < s.len() {
        lemma_token_end(s, b + 1);
    }
}

/// Reads one whitespace-delimited token from `start`. Returns the token, or
/// `None` when only blank bytes remain, together with the new position.
pub fn read_name(bytes: &[u8], start: usize) -> (r: (Option<Vec<u8>>, usize))
    requires
        start <= bytes@.len(),
    ensures
        match token_at(bytes@, start as int) {
            Some((t, n)) => r.0 matches Some(v) && v@ == t && r.1 == n,
            None => r.0 is None && r.1 == bytes@.len(),
        },
{
    let mut i: usize = start;
    while i < bytes.len() && bytes[i] <= 32
        invariant
            start <= i <= bytes@.len(),
            skip_blank(bytes@, start as int) == skip_blank(bytes@, i as int),
        decreases bytes@.len() - i,
    {
        i = i + 1;
    }
    if i >= bytes.len() {
        return (None, i);
    }
    let mut name: Vec<u8> = Vec::new();
    let b = i;
    while i < bytes.len() && bytes[i] > 32
        invariant
            b <= i <= bytes@.len(),
            token_end(bytes@, b as int) == token_end(bytes@, i as int),
            name@ == bytes@.subrange(b as int, i as int),
        decreases bytes@.len() - i,
    {
        name.push(bytes[i]);
        i = i + 1;
        assert(name@ =~= bytes@.subrange(b as int, i as int));
    }
    if i < bytes.len() {
        i = i + 1;
    }
    (Some(name), i)
}

/// The contents of a list of byte strings.
pub open spec fn views(v: Seq<Vec<u8>>) -> Seq<Seq<u8>> {
    v.map_values(|x: Vec<u8>| x@)
}

/// The ordered file names of an archive and its compression flag.
pub struct Manifest {
    pub names: Vec<Vec<u8>>,
    pub compressed: bool,
}

/// Parsing of the manifest tokens from `i`, with the names and flag gathered
/// so far: the names, the flag and the position after the `~` terminator.
pub open spec fn manifest_from(s: Seq<u8>, i: int, names: Seq<Seq<u8>>, compressed: bool) -> Result<
    (Seq<Seq<u8>>, bool, int),
    DecodeError,
>
    decreases s.len() - i via manifest_from_decreases
{
    if i < 0 || i > s.len() {
        Err(DecodeError::ManifestUnterminated)
    } else {
        match token_at(s, i) {
            None => Err(DecodeError::ManifestUnterminated),
            Some((t, n)) => if t == seq![126u8] {
                Ok((names, compressed, n))
            } else if t == seq![37u8] {
                manifest_from(s, n, names, true)
            } else {
                manifest_from(s, n, names.push(t), compressed)
            },
        }
    }
}

#[via_fn]
proof fn manifest_from_decreases(s: Seq<u8>, i: int, names: Seq<Seq<u8>>, compressed: bool) {
    if 0 <= i <= s.len() {
        lemma_token_advances(s, i);
    }
}

/// The manifest that follows position `i`.
pub open spec fn manifest_at(s: Seq<u8>, i: int) -> Result<(Seq<Seq<u8>>, bool, int), DecodeError> {
    manifest_from(s, i, seq![], false)
}

/// Reads the manifest from `start`: every token up to `~`, where `%` sets
/// the compression flag and every other token is a file name. Returns the
/// manifest and the position after the terminator.
pub fn read_manifest(bytes: &[u8], start: usize) -> (r: Result<(Manifest, usize), DecodeError>)
    requires
        start <= bytes@.len(),
    ensures
        match (r, manifest_at(bytes@, start as int)) {
            (Ok((m, p)), Ok((names, c, sp))) => views(m.names@) == names && m.compressed == c
                && p as int == sp,
            (Err(e), Err(se)) => e == se,
            _ => false,
        },
        r matches Ok((m, p)) ==> p <= bytes@.len(),
{
    let mut names: Vec<Vec<u8>> = Vec::new();
    let mut compressed = false;
    let mut i: usize = start;
    assert(views(names@) =~= Seq::<Seq<u8>>::empty());
    loop
        invariant
            i <= bytes@.len(),
            manifest_from(bytes@, i as int, views(names@), compressed) == manifest_at(
                bytes@,
                start as int,
            ),
        decreases bytes@.len() - i,
    {
        proof {
            lemma_token_advances(bytes@, i as int);
        }
        let (tok, next) = read_name(bytes, i);
        match tok {
            None => {
                return Err(DecodeError::ManifestUnterminated);
            },
            Some(t) => {
                if t.len() == 1 && t[0] == 126 {
                    assert(t@ =~= seq![126u8]);
                    return Ok((Manifest { names, compressed }, next));
                } else if t.len() == 1 && t[0] == 37 {
                    assert(t@ =~= seq![37u8]);
                    compressed = true;
                } else {
                    assert(t@ != seq![126u8] && t@ != seq![37u8]);
                    let ghost old_names = names@;
                    names.push(t);
                    assert(views(names@) =~= views(old_names).push(t@));
                }
                i = next;
            },
        }
    }
}

} // verus!
