use vstd::prelude::*;
use crate::error::DecodeError;
use crate::header::{marker_ends_at, manifest_at, skip_header, read_manifest, views};
use crate::armor::{armor_at, decode};
use crate::decompress::{decompressed, decompress};

verus! {

/// One recovered file: its name as it stands in the manifest, and its bytes.
pub struct Entry {
    pub name: Vec<u8>,
    pub data: Vec<u8>,
}

/// The contents of a list of entries.
pub open spec fn entries_view(v: Seq<Entry>) -> Seq<(Seq<u8>, Seq<u8>)> {
    v.map_values(|e: Entry| (e.name@, e.data@))
}

/// `p` is the position just after the first occurrence of the marker in `s`.
pub open spec fn is_marker_end(s: Seq<u8>, p: int) -> bool {
    &&& marker_ends_at(s, 0, p)
    &&& forall|q: int| q < p ==> !marker_ends_at(s, 0, q)
}

/// The final bytes of one entry, given its armor-decoded bytes.
pub open spec fn entry_data(raw: Seq<u8>, compressed: bool) -> Result<Seq<u8>, DecodeError> {
    if compressed {
        decompressed(raw)
    } else {
        Ok(raw)
    }
}

/// The final bytes of the entry whose armor starts at `i`, and the position
/// after its sentinel.
pub open spec fn entry_at(s: Seq<u8>, i: int, compressed: bool) -> Result<(Seq<u8>, int), DecodeError> {
    match armor_at(s, i) {
        Err(e) => Err(e),
        Ok((raw, n)) => match entry_data(raw, compressed) {
            Err(e) => Err(e),
            Ok(d) => Ok((d, n)),
        },
    }
}

/// Decoding the entries `names[k..]` from position `i`, after `acc`.
pub open spec fn entries_from(
    s: Seq<u8>,
    names: Seq<Seq<u8>>,
    compressed: bool,
    k: int,
    i: int,
    acc: Seq<(Seq<u8>, Seq<u8>)>,
) -> Result<Seq<(Seq<u8>, Seq<u8>)>, DecodeError>
    decreases names.len() - k,
{
    if k < 0 || k >= names.len() {
        Ok(acc)
    } else {
        match entry_at(s, i, compressed) {
            Err(e) => Err(e),
            Ok((d, n)) => entries_from(s, names, compressed, k + 1, n, acc.push((names[k], d))),
        }
    }
}

/// Every file of the archive in `s`, in manifest order, or the first
/// structural failure.
pub open spec fn archive(s: Seq<u8>) -> Result<Seq<(Seq<u8>, Seq<u8>)>, DecodeError> {
    if exists|p: int| is_marker_end(s, p) {
        let p = choose|p: int| is_marker_end(s, p);
        match manifest_at(s, p) {
            Err(e) => Err(e),
            Ok((names, c, m)) => entries_from(s, names, c, 0, m, seq![]),
        }
    } else {
        Err(DecodeError::MarkerNotFound)
    }
}

/// Decodes the entry whose armor starts at `start`: its armored unit,
/// decompressed when `compressed` is set. Returns the final bytes and the
/// position after the unit's sentinel.
pub fn decode_entry(bytes: &[u8], start: usize, compressed: bool) -> (r: Result<(Vec<u8>, usize), DecodeError>)
    requires
        start <= bytes@.len(),
    ensures
        match (r, entry_at(bytes@, start as int, compressed)) {
            (Ok((v, p)), Ok((sv, sp))) => v@ == sv && p as int == sp,
            (Err(e), Err(se)) => e == se,
            _ => false,
        },
        r matches Ok((v, p)) ==> p <= bytes@.len(),
{
    let (raw, next) = match decode(bytes, start) {
        Ok(d) => d,
        Err(e) => {
            return Err(e);
        },
    };
    if compressed {
        match decompress(raw.as_slice()) {
            Ok(v) => Ok((v, next)),
            Err(e) => Err(e),
        }
    } else {
        Ok((raw, next))
    }
}

/// Decodes a whole archive: finds the marker, reads the manifest, then one
/// armored unit per name, decompressed when the archive is flagged so.
pub fn decode_archive(bytes: &[u8]) -> (r: Result<Vec<Entry>, DecodeError>)
    ensures
        match (r, archive(bytes@)) {
            (Ok(v), Ok(sv)) => entries_view(v@) == sv,
            (Err(e), Err(se)) => e == se,
            _ => false,
        },
{
    let ghost s = bytes@;
    let p = match skip_header(bytes, 0) {
        Some(p) => p,
        None => {
            return Err(DecodeError::MarkerNotFound);
        },
    };
    proof {
        assert(is_marker_end(s, p as int));
        let q = choose|q: int| is_marker_end(s, q);
        assert(q == p as int) by {
            if q > p {
                assert(marker_ends_at(s, 0, p as int));
            }
        }
    }
    let (manifest, mut i) = match read_manifest(bytes, p) {
        Ok(m) => m,
        Err(e) => {
            return Err(e);
        },
    };
    let ghost names = views(manifest.names@);
    let compressed = manifest.compressed;
    let mut out: Vec<Entry> = Vec::new();
    let mut k: usize = 0;
    assert(entries_view(out@) =~= Seq::<(Seq<u8>, Seq<u8>)>::empty());
    while k < manifest.names.len()
        invariant
            s == bytes@,
            names == views(manifest.names@),
            compressed == manifest.compressed,
            manifest_at(s, p as int) == Ok::<(Seq<Seq<u8>>, bool, int), DecodeError>(
                (names, compressed, i as int),
            ) || k > 0,
            archive(s) == entries_from(s, names, compressed, k as int, i as int, entries_view(out@)),
            k <= manifest.names@.len(),
            i <= bytes@.len(),
        decreases manifest.names@.len() - k,
    {
        let (data, next) = match decode_entry(bytes, i, compressed) {
            Ok(d) => d,
            Err(e) => {
                return Err(e);
            },
        };
        let ghost old_out = out@;
        out.push(Entry { name: manifest.names[k].clone(), data });
        assert(entries_view(out@) =~= entries_view(old_out).push((names[k as int], data@)));
        i = next;
        k = k + 1;
    }
    Ok(out)
}

} // verus!
