use mldata::lzw::{Decoder, LzwError};
use std::collections::HashMap;

fn read_all(dec: &mut Decoder, chunk: usize) -> Result<Vec<u8>, LzwError> {
    let mut out = Vec::new();
    let mut buf = vec![0u8; chunk];
    loop {
        let n = dec.read(&mut buf)?;
        if n == 0 {
            return Ok(out);
        }
        out.extend_from_slice(&buf[..n]);
    }
}

fn decode_file(data: &[u8]) -> Result<Vec<u8>, LzwError> {
    let mut dec = Decoder::with_header(data)?;
    read_all(&mut dec, 64)
}

fn width_for(next: usize) -> usize {
    let mut c = 9;
    while c < 16 && next >= (1 << c) {
        c += 1;
    }
    c
}

/// Packs codes least significant bit first, each in the width that a
/// decoder reads it with when it has learnt from every code before it.
fn pack(codes: &[(usize, usize)]) -> Vec<u8> {
    let mut bits: Vec<u8> = Vec::new();
    for &(code, width) in codes {
        for i in 0..width {
            bits.push(((code >> i) & 1) as u8);
        }
    }
    bits.chunks(8)
        .map(|c| c.iter().enumerate().fold(0u8, |b, (i, x)| b | (x << i)))
        .collect()
}

/// An LZW encoder for test data; returns the packed codes and their number.
fn compress(data: &[u8]) -> (Vec<u8>, usize) {
    let mut table: HashMap<Vec<u8>, usize> = HashMap::new();
    for i in 0..256usize {
        table.insert(vec![i as u8], i);
    }
    let mut next = 257usize;
    let mut codes: Vec<usize> = Vec::new();
    let mut w: Vec<u8> = Vec::new();
    for &ch in data {
        let mut wc = w.clone();
        wc.push(ch);
        if table.contains_key(&wc) {
            w = wc;
        } else {
            codes.push(table[&w]);
            if next < 65536 {
                table.insert(wc, next);
                next += 1;
            }
            w = vec![ch];
        }
    }
    if !w.is_empty() {
        codes.push(table[&w]);
    }
    let sized: Vec<(usize, usize)> = codes
        .iter()
        .enumerate()
        .map(|(j, &c)| (c, width_for((257 + j.saturating_sub(1)).min(65536))))
        .collect();
    (pack(&sized), codes.len())
}

#[test]
fn decoder() {
    let abcdefg = [0x1F, 0x9D, 0x90, 0x61, 0xC4, 0x8C, 0x21, 0x53, 0xC6, 0xCC, 0x19, 0x05];
    assert_eq!(decode_file(&abcdefg).unwrap(), b"abcdefg\n");
    let abab = [0x1F, 0x9D, 0x90, 0x61, 0xC4, 0x04, 0x1C, 0x28, 0x46, 0x01];
    assert_eq!(decode_file(&abab).unwrap(), b"abababab\n");
    let xyz = [
        0x1F, 0x9D, 0x90, 0x78, 0xF2, 0xE8, 0x09, 0x38, 0x50, 0x20, 0xC1, 0x83, 0x06, 0x13, 0x16,
        0x5C, 0x88, 0x50, 0x8F, 0x02,
    ];
    assert_eq!(decode_file(&xyz).unwrap(), b"xyzxyzxyzxyzxyzxyzxyzxyzxyzxyzxyzxyz\n");
    let zeros = [0x1F, 0x9D, 0x90, 0x30, 0x02, 0x0A, 0x1C, 0xA8, 0x00];
    assert_eq!(decode_file(&zeros).unwrap(), b"0000000000\n");
    let mixed = [
        0x1F, 0x9D, 0x90, 0x30, 0x02, 0x0A, 0x1C, 0x18, 0xA3, 0x60, 0xC1, 0x81, 0x30, 0x14, 0x00,
    ];
    assert_eq!(decode_file(&mixed).unwrap(), b"00000000001111100000\n");

    let five: Vec<u8> = (0..5000u32).map(|i| b"five lines of text\n"[(i % 19) as usize]).collect();
    let (packed, _) = compress(&five);
    let mut file = vec![0x1F, 0x9D, 0x90];
    file.extend_from_slice(&packed);
    assert_eq!(decode_file(&file).unwrap(), five);
}

#[test]
fn literal_codes() {
    let mut dec = Decoder::new(&[0x61, 0xC4, 0x8C, 0x21]);
    assert_eq!(read_all(&mut dec, 16).unwrap(), b"abc");
}

#[test]
fn header_fixture() {
    let data = [0x1F, 0x9D, 0x90, 0x61, 0xC4, 0x8C, 0x21];
    assert_eq!(decode_file(&data).unwrap(), b"abc");
}

#[test]
fn bad_header() {
    assert!(matches!(Decoder::with_header(&[0x1F, 0x9D]), Err(LzwError::BadHeader)));
    assert!(matches!(Decoder::with_header(&[]), Err(LzwError::BadHeader)));
    assert!(matches!(
        Decoder::with_header(&[0x1F, 0x8B, 0x90, 0x61, 0xC4, 0x8C, 0x21]),
        Err(LzwError::BadHeader)
    ));
    assert!(matches!(Decoder::with_header(&[0x1F, 0x9D, 0x90]), Ok(_)));
    assert_eq!(decode_file(&[0x1F, 0x9D, 0x90]).unwrap(), b"");
}

#[test]
fn clear_code_restarts() {
    // 'a', 'b', CLEAR, 'a', 'b', 257: after the clear, 257 is "ab" again.
    let codes = [(97, 9), (98, 9), (256, 9), (97, 9), (98, 9), (257, 9)];
    let mut dec = Decoder::new(&pack(&codes));
    assert_eq!(read_all(&mut dec, 3).unwrap(), b"ababab");

    // After a clear, a code naming the entry about to be learnt is unknown.
    let codes = [(97, 9), (256, 9), (257, 9)];
    let mut dec = Decoder::new(&pack(&codes));
    assert_eq!(read_all(&mut dec, 1), Err(LzwError::UnknownCode));
}

#[test]
fn clear_code_resets_width() {
    // Enough codes to widen to 10 bits, then a clear: the codes after it
    // are read with 9 bits again.
    let mut codes: Vec<(usize, usize)> = Vec::new();
    let mut expected: Vec<u8> = Vec::new();
    for j in 0..300usize {
        let c = 32 + (j % 90);
        codes.push((c, width_for(257 + j.saturating_sub(1))));
        expected.push(c as u8);
    }
    codes.push((256, width_for(257 + 299)));
    codes.push((b'x' as usize, 9));
    codes.push((b'y' as usize, 9));
    codes.push((257, 9));
    expected.extend_from_slice(b"xyxy");
    let mut dec = Decoder::new(&pack(&codes));
    assert_eq!(read_all(&mut dec, 1000).unwrap(), expected);
}

#[test]
fn self_referential_code() {
    // 'a' then 257, which is not yet in the dictionary: "a" + "aa".
    let mut dec = Decoder::new(&pack(&[(97, 9), (257, 9)]));
    assert_eq!(read_all(&mut dec, 8).unwrap(), b"aaa");

    // "ab", then 259 while the next code is 259: "ab" + 'a'.
    let mut dec = Decoder::new(&pack(&[(97, 9), (98, 9), (257, 9), (259, 9)]));
    assert_eq!(read_all(&mut dec, 8).unwrap(), b"abababa");
}

#[test]
fn unknown_codes() {
    let mut dec = Decoder::new(&pack(&[(97, 9), (300, 9)]));
    assert_eq!(read_all(&mut dec, 8), Err(LzwError::UnknownCode));
    let mut dec = Decoder::new(&pack(&[(257, 9)]));
    assert_eq!(read_all(&mut dec, 8), Err(LzwError::UnknownCode));
    // The bytes before the bad code are handed out by reads that do not
    // need to decode it.
    let mut dec = Decoder::new(&pack(&[(97, 9), (98, 9), (400, 9)]));
    let mut buf = [0u8; 1];
    assert_eq!(dec.read(&mut buf), Ok(1));
    assert_eq!(buf, [b'a']);
    assert_eq!(dec.read(&mut buf), Ok(1));
    assert_eq!(buf, [b'b']);
    assert_eq!(dec.read(&mut buf), Err(LzwError::UnknownCode));
}

#[test]
fn codesize_widens_and_caps() {
    // Pseudo-random bytes teach the dictionary past every width, up to and
    // beyond its 65536 entries.
    let mut x: u32 = 12345;
    let data: Vec<u8> = (0..400_000)
        .map(|_| {
            x = x.wrapping_mul(1103515245).wrapping_add(12345);
            (x >> 16) as u8
        })
        .collect();
    let (packed, n_codes) = compress(&data);
    assert!(n_codes > 70_000);
    let mut dec = Decoder::new(&packed);
    assert_eq!(read_all(&mut dec, 4096).unwrap(), data);

    // A stream long enough to cross from 9-bit to 10-bit codes and beyond.
    let text: Vec<u8> = (0..3000u32).map(|i| (i * 7 % 251) as u8).collect();
    let (packed, n) = compress(&text);
    assert!(n > 300);
    let mut dec = Decoder::new(&packed);
    assert_eq!(read_all(&mut dec, 100).unwrap(), text);
}

#[test]
fn read_size_independent() {
    let text: Vec<u8> = (0..20_000u32).map(|i| b"the quick brown fox "[(i * i % 20) as usize]).collect();
    let (packed, _) = compress(&text);
    let mut whole = Decoder::new(&packed);
    let mut buf = vec![0u8; 100_000];
    let n = whole.read(&mut buf).unwrap();
    assert_eq!(n, text.len());
    assert_eq!(whole.read(&mut buf).unwrap(), 0);
    for chunk in [1usize, 2, 7, 64, 1000] {
        let mut dec = Decoder::new(&packed);
        assert_eq!(read_all(&mut dec, chunk).unwrap(), &buf[..n]);
    }
}

#[test]
fn empty_read_buffer() {
    let mut dec = Decoder::new(&[0x61, 0xC4, 0x8C, 0x21]);
    let mut empty: [u8; 0] = [];
    assert_eq!(dec.read(&mut empty), Ok(0));
    assert_eq!(read_all(&mut dec, 2).unwrap(), b"abc");
}

#[test]
fn repeated_pattern_compresses_better_over_time() {
    let short = b"abababab".to_vec();
    let (_, short_codes) = compress(&short);
    let long: Vec<u8> = b"ab".iter().cycle().take(2000).cloned().collect();
    let (packed, long_codes) = compress(&long);
    assert!(long_codes * short.len() < short_codes * long.len());
    let mut dec = Decoder::new(&packed);
    assert_eq!(read_all(&mut dec, 50).unwrap(), long);
    let (packed_short, _) = compress(&short);
    let mut dec = Decoder::new(&packed_short);
    assert_eq!(read_all(&mut dec, 50).unwrap(), short);
}
