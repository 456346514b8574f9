use asciidecoder::archive::{decode_archive, decode_entry};
use asciidecoder::armor::decode;
use asciidecoder::decompress::decompress;
use asciidecoder::error::DecodeError;
use asciidecoder::header::{read_manifest, read_name, skip_header};
use asciidecoder::varint::read_number;

/// Armors `data` as 6-bit symbols, least significant bit first, with the
/// sentinel that matches the leftover bit count.
fn armor(data: &[u8]) -> Vec<u8> {
    let mut out = Vec::new();
    let mut buf: u32 = 0;
    let mut bits = 0;
    for &b in data {
        buf |= (b as u32) << bits;
        bits += 8;
        while bits >= 6 {
            out.push(48 + (buf & 63) as u8);
            buf >>= 6;
            bits -= 6;
        }
    }
    let sentinel = match bits {
        0 => b'#',
        2 => {
            out.push(48 + buf as u8);
            b'$'
        }
        4 => {
            out.push(48 + buf as u8);
            b'%'
        }
        _ => unreachable!(),
    };
    out.push(sentinel);
    out
}

fn varint(n: i64) -> Vec<u8> {
    let mut out = Vec::new();
    let mut n = n;
    while !(-64..64).contains(&n) {
        out.push(0x80 | (n & 0x7F) as u8);
        n >>= 7;
    }
    out.push((n & 0x7F) as u8);
    out
}

struct BitWriter {
    out: Vec<u8>,
    cur: u8,
    used: u32,
}

impl BitWriter {
    fn put(&mut self, bit: u8) {
        self.cur |= bit << self.used;
        self.used += 1;
        if self.used == 8 {
            self.out.push(self.cur);
            self.cur = 0;
            self.used = 0;
        }
    }
    fn finish(mut self) -> Vec<u8> {
        if self.used > 0 {
            self.out.push(self.cur);
        }
        self.out
    }
}

fn compress(data: &[u8]) -> Vec<u8> {
    let mut table = vec![0u8; 16384];
    let mut hash = 0usize;
    let mut w = BitWriter { out: varint(data.len() as i64), cur: 0, used: 0 };
    for &b in data {
        if table[hash] == b {
            w.put(0);
        } else {
            w.put(1);
            for k in 0..8 {
                w.put((b >> k) & 1);
            }
            table[hash] = b;
        }
        hash = (16 * hash + b as usize) % 16384;
    }
    w.finish()
}

#[test]
fn armor_round_trip_short_inputs() {
    for data in [&b""[..], &b"A"[..], &b"AB"[..], &b"ABC"[..], &[0u8, 255, 7, 128, 64][..]] {
        let a = armor(data);
        let (v, p) = decode(&a, 0).unwrap();
        assert_eq!(v, data.to_vec());
        assert_eq!(p, a.len());
    }
}

#[test]
fn armor_round_trip_sentinels() {
    assert_eq!(*armor(b"").last().unwrap(), b'#');
    assert_eq!(*armor(b"x").last().unwrap(), b'$');
    assert_eq!(*armor(b"xy").last().unwrap(), b'%');
    assert_eq!(*armor(b"xyz").last().unwrap(), b'#');
}

#[test]
fn armor_two_zero_symbols() {
    assert_eq!(decode(b"00$", 0), Ok((vec![0u8], 3)));
    assert_eq!(decode(b"00%", 0), Err(DecodeError::ArmorTerminatorMismatch));
}

#[test]
fn armor_leftover_mismatch() {
    assert_eq!(decode(b"00#", 0), Err(DecodeError::ArmorTerminatorMismatch));
}

#[test]
fn armor_skips_formatting_and_values() {
    // 'o' is 111, the last symbol: value 63
    assert_eq!(decode(b" o\n o  o\r\no#tail", 0), Ok((vec![255u8, 255, 255], 12)));
    assert_eq!(decode(b"1000#", 0), Ok((vec![1u8, 0, 0], 5)));
}

#[test]
fn armor_bad_terminator() {
    assert_eq!(decode(b"00!", 0), Err(DecodeError::ArmorAlphabetError));
    assert_eq!(decode(b"00\x7f", 0), Err(DecodeError::ArmorAlphabetError));
}

#[test]
fn armor_truncated() {
    assert_eq!(decode(b"000 ", 0), Err(DecodeError::ArmorTerminatorMismatch));
    assert_eq!(decode(b"", 0), Err(DecodeError::ArmorTerminatorMismatch));
}

#[test]
fn varint_single_bytes() {
    assert_eq!(read_number(&[0x05], 0), Ok((5, 1)));
    assert_eq!(read_number(&[0x7F], 0), Ok((-1, 1)));
    assert_eq!(read_number(&[0x40], 0), Ok((-64, 1)));
    assert_eq!(read_number(&[0x3F], 0), Ok((63, 1)));
}

#[test]
fn varint_multi_bytes() {
    assert_eq!(read_number(&[0x81, 0x01], 0), Ok((129, 2)));
    assert_eq!(read_number(&[0x80, 0x7F], 0), Ok((-128, 2)));
    assert_eq!(read_number(&[9, 0xFF, 0xFF, 0xFF, 0xFF, 0x00], 1), Ok((268435455, 6)));
    for n in [0i32, 1, -1, 300, -300, 100000, -100000, 2147483647, -2147483648] {
        let v = varint(n as i64);
        assert_eq!(read_number(&v, 0), Ok((n, v.len())));
    }
}

#[test]
fn varint_wraps_to_32_bits() {
    assert_eq!(read_number(&[0x80, 0x80, 0x80, 0x80, 0x10], 0), Ok((0, 5)));
    assert_eq!(read_number(&[0xFF, 0xFF, 0xFF, 0xFF, 0x07], 0), Ok((2147483647, 5)));
    assert_eq!(read_number(&[0x80, 0x80, 0x80, 0x80, 0x08], 0), Ok((-2147483648, 5)));
    assert_eq!(read_number(&[0x80, 0x80, 0x80, 0x80, 0x7F], 0), Ok((-268435456, 5)));
    assert_eq!(decompress(&[0x80, 0x80, 0x80, 0x80, 0x10]), Ok(vec![]));
    assert_eq!(decompress(&[0x80, 0x80, 0x80, 0x80, 0x08]), Err(DecodeError::NegativeLength));
}

#[test]
fn varint_errors() {
    assert_eq!(read_number(&[0xFF, 0xFF, 0xFF, 0xFF, 0xFF, 0x00], 0), Err(DecodeError::VarintOverflow));
    assert_eq!(read_number(&[0x80, 0x80], 0), Err(DecodeError::VarintTruncated));
    assert_eq!(read_number(&[], 0), Err(DecodeError::VarintTruncated));
}

#[test]
fn decompress_round_trip() {
    let samples: [&[u8]; 4] = [b"", b"a", b"abababababababab", b"the quick brown fox; the quick brown fox"];
    for data in samples {
        let c = compress(data);
        let d = decompress(&c).unwrap();
        assert_eq!(d.len(), data.len());
        assert_eq!(d, data.to_vec());
    }
}

#[test]
fn decompress_hits_and_misses() {
    // length 3; control bits 0,0,0: three hits on a zero table
    assert_eq!(decompress(&[0x03, 0x00]), Ok(vec![0u8, 0, 0]));
    // length 2: a miss with literal 0x41, then a hit on context 0x41, empty
    // slot, so 0
    assert_eq!(decompress(&[0x02, 0x83, 0x00]), Ok(vec![0x41u8, 0]));
    // length 2: miss 0x41 (hash 0 then 0x41), miss 0x41 again
    assert_eq!(decompress(&[0x02, 0x83, 0x06, 0x01]), Ok(vec![0x41u8, 0x41]));
}

#[test]
fn decompress_exact_length_or_failure() {
    assert_eq!(decompress(&[0x09, 0x00]), Err(DecodeError::DecompressionTruncated));
    assert_eq!(decompress(&[0x01, 0x01]), Err(DecodeError::DecompressionTruncated));
    assert_eq!(decompress(&[0x7F]), Err(DecodeError::NegativeLength));
    assert_eq!(decompress(&[0x80]), Err(DecodeError::VarintTruncated));
    assert_eq!(decompress(&[0x00]), Ok(vec![]));
    assert_eq!(decompress(&[0x08, 0x00]), Ok(vec![0u8; 8]));
}

#[test]
fn header_found_after_noise() {
    let text = b"hello AsciiAsciiCoder.DecodeFiles rest";
    assert_eq!(skip_header(text, 0), Some(33));
    assert_eq!(skip_header(b"AsciiCoder.DecodeFile", 0), None);
    assert_eq!(skip_header(b"", 0), None);
}

#[test]
fn names_are_read_one_by_one() {
    let text = b"  foo.txt\tbar ";
    assert_eq!(read_name(text, 0), (Some(b"foo.txt".to_vec()), 10));
    assert_eq!(read_name(text, 10), (Some(b"bar".to_vec()), 14));
    assert_eq!(read_name(text, 14), (None, 14));
    assert_eq!(read_name(b"end", 0), (Some(b"end".to_vec()), 3));
}

#[test]
fn manifest_single_name() {
    let (m, p) = read_manifest(b"foo.txt ~", 0).unwrap();
    assert_eq!(m.names, vec![b"foo.txt".to_vec()]);
    assert!(!m.compressed);
    assert_eq!(p, 9);
}

#[test]
fn manifest_compressed_flag() {
    let (m, _) = read_manifest(b"% a.bin ~", 0).unwrap();
    assert_eq!(m.names, vec![b"a.bin".to_vec()]);
    assert!(m.compressed);
}

#[test]
fn manifest_unterminated() {
    assert!(matches!(read_manifest(b"a b c", 0), Err(DecodeError::ManifestUnterminated)));
    assert!(matches!(read_manifest(b"", 0), Err(DecodeError::ManifestUnterminated)));
}

#[test]
fn manifest_keeps_duplicates_in_order() {
    let (m, _) = read_manifest(b"\nb a % b ~ x", 0).unwrap();
    assert_eq!(m.names, vec![b"b".to_vec(), b"a".to_vec(), b"b".to_vec()]);
    assert!(m.compressed);
}

#[test]
fn archive_without_marker() {
    assert!(matches!(decode_archive(b"just some text ~ 00$"), Err(DecodeError::MarkerNotFound)));
}

#[test]
fn archive_plain() {
    let mut input = b"Subject: files\nAsciiCoder.DecodeFiles foo.txt bar ~\n".to_vec();
    input.extend(armor(b"hello"));
    input.extend(b"\n");
    input.extend(armor(b""));
    let entries = decode_archive(&input).unwrap();
    assert_eq!(entries.len(), 2);
    assert_eq!(entries[0].name, b"foo.txt".to_vec());
    assert_eq!(entries[0].data, b"hello".to_vec());
    assert_eq!(entries[1].name, b"bar".to_vec());
    assert_eq!(entries[1].data, Vec::<u8>::new());
}

#[test]
fn archive_compressed() {
    let mut input = b"AsciiCoder.DecodeFiles % a.bin ~ ".to_vec();
    let payload = b"abcabcabcabcabc";
    input.extend(armor(&compress(payload)));
    let entries = decode_archive(&input).unwrap();
    assert_eq!(entries.len(), 1);
    assert_eq!(entries[0].name, b"a.bin".to_vec());
    assert_eq!(entries[0].data, payload.to_vec());
}

#[test]
fn archive_failures() {
    assert!(matches!(decode_archive(b"AsciiCoder.DecodeFiles a"), Err(DecodeError::ManifestUnterminated)));
    assert!(matches!(decode_archive(b"AsciiCoder.DecodeFiles a ~ 00%"), Err(DecodeError::ArmorTerminatorMismatch)));
    assert!(matches!(decode_archive(b"AsciiCoder.DecodeFiles % a ~ 10$"), Err(DecodeError::DecompressionTruncated)));
}

#[test]
fn armor_round_trip_with_blanks_and_trailing_bytes() {
    for data in [&b""[..], &b"A"[..], &b"AB"[..], &b"ABC"[..], &b"hello world"[..]] {
        let a = armor(data);
        let (body, sentinel) = a.split_at(a.len() - 1);
        let mut text = b"\n ".to_vec();
        for (n, &c) in body.iter().enumerate() {
            text.push(c);
            if n % 2 == 0 {
                text.extend(b" \r\n\t");
            }
        }
        text.extend(sentinel);
        let end = text.len();
        text.extend(b"ZZ trailing #");
        assert_eq!(decode(&text, 0), Ok((data.to_vec(), end)));
    }
}

#[test]
fn hit_repeats_last_byte_in_context() {
    // length 3: miss 0x41 at context 0, miss 0x00 at context 0x41
    // (hash becomes 0x410), then a hit at context 0x410: the table slot is
    // still 0, so 0 is emitted. Bits: 1, 0x41, 1, 0x00, 0.
    assert_eq!(decompress(&[0x03, 0x83, 0x02, 0x00]), Ok(vec![0x41u8, 0, 0]));
    // "aaaa": miss 'a' at context 0, then contexts 0x61, 0x671, 0x2771
    // are new, so every byte is a miss
    let c = compress(b"aaaa");
    assert_eq!(decompress(&c), Ok(b"aaaa".to_vec()));
    // a context seen again predicts the byte that followed it last time
    let data = b"xyxyxyxyxyxyxyxy";
    let c = compress(data);
    assert!(c.len() < 2 + data.len());
    assert_eq!(decompress(&c), Ok(data.to_vec()));
}

#[test]
fn entry_by_entry() {
    let mut input = armor(b"one");
    input.extend(armor(&compress(b"two")));
    let (first, p) = decode_entry(&input, 0, false).unwrap();
    assert_eq!(first, b"one".to_vec());
    let (second, q) = decode_entry(&input, p, true).unwrap();
    assert_eq!(second, b"two".to_vec());
    assert_eq!(q, input.len());
    assert_eq!(decode_entry(b"00$", 0, true), Ok((vec![], 3)));
    assert_eq!(decode_entry(b"00$", 0, false), Ok((vec![0u8], 3)));
}
