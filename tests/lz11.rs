use nebula_io::lz11::{decompress, decompress_raw, LZFile, Lz11Error};

fn literal_run() -> Vec<u8> {
    b"ABCDEFGHIJKLMNOPQRSTUVWXYZabc".to_vec()
}

#[test]
fn short_back_reference_yields_declared_size() {
    let lits = literal_run();
    let mut s = vec![0x11, 0x20, 0x00, 0x00];
    let mut i = 0;
    for _ in 0..3 {
        s.push(0x00);
        s.extend_from_slice(&lits[i..i + 8]);
        i += 8;
    }
    // five literals, then a back-reference of length 3, displacement 2
    s.push(0b0000_0100);
    s.extend_from_slice(&lits[24..29]);
    s.push(0x20);
    s.push(0x02);
    let out = decompress(&s).unwrap();
    let mut expected = lits.clone();
    expected.extend_from_slice(b"abc");
    assert_eq!(out.len(), 0x20);
    assert_eq!(out, expected);
}

#[test]
fn all_three_encodings_with_overlap() {
    let mut s = vec![0x11, 0x28, 0x01, 0x00];
    s.push(0b0101_1000);
    s.push(b'A');
    s.extend_from_slice(&[0x00, 0x00, 0x00]); // length 0x11, displacement 0
    s.push(b'B');
    s.extend_from_slice(&[0x10, 0x00, 0x00, 0x01]); // length 0x111, displacement 1
    s.extend_from_slice(&[0x30, 0x05]); // length 4, displacement 5
    let out = decompress(&s).unwrap();

    let mut expected = vec![b'A'; 18];
    expected.push(b'B');
    for _ in 0..0x111 {
        let b = expected[expected.len() - 2];
        expected.push(b);
    }
    for _ in 0..4 {
        let b = expected[expected.len() - 6];
        expected.push(b);
    }
    assert_eq!(expected.len(), 0x128);
    assert_eq!(out, expected);
}

#[test]
fn extended_size_field() {
    let mut s = vec![0x11, 0, 0, 0, 0x02, 0, 0, 0];
    s.push(0x00);
    s.extend_from_slice(b"hi");
    assert_eq!(decompress(&s).unwrap(), b"hi".to_vec());
}

#[test]
fn output_stops_mid_flag_byte() {
    let s = vec![0x11, 0x03, 0x00, 0x00, 0x00, b'x', b'y', b'z', b'w', b'v'];
    assert_eq!(decompress(&s).unwrap(), b"xyz".to_vec());
}

#[test]
fn copy_clipped_at_declared_size() {
    // literal then a length-16 copy of it, clipped to 5 bytes in all
    let s = vec![0x11, 0x05, 0x00, 0x00, 0b0100_0000, b'q', 0xf0, 0x00];
    assert_eq!(decompress(&s).unwrap(), b"qqqqq".to_vec());
}

#[test]
fn unsupported_tag() {
    assert_eq!(decompress(&[0x10, 1, 0, 0, 0, 7]), Err(Lz11Error::Unsupported));
    assert_eq!(decompress(&[]), Err(Lz11Error::Unsupported));
}

#[test]
fn truncated_header() {
    assert_eq!(decompress(&[0x11, 1, 0]), Err(Lz11Error::TruncatedHeader));
    assert_eq!(decompress(&[0x11, 0, 0, 0, 1]), Err(Lz11Error::TruncatedHeader));
}

#[test]
fn invalid_size() {
    assert_eq!(decompress(&[0x11, 0, 0, 0, 0, 0, 0, 0]), Err(Lz11Error::InvalidSize));
    assert_eq!(decompress(&[0x11, 0, 0, 0, 1, 0, 0x80, 0]), Err(Lz11Error::InvalidSize));
}

#[test]
fn displacement_before_start() {
    let s = vec![0x11, 0x04, 0x00, 0x00, 0b0100_0000, b'a', 0x20, 0x01];
    assert_eq!(decompress(&s), Err(Lz11Error::InvalidDisplacement));
    let s = vec![0x11, 0x04, 0x00, 0x00, 0b1000_0000, 0x20, 0x00];
    assert_eq!(decompress(&s), Err(Lz11Error::InvalidDisplacement));
}

#[test]
fn premature_end() {
    assert_eq!(decompress(&[0x11, 0x04, 0x00, 0x00, 0x00, b'a']), Err(Lz11Error::UnexpectedEnd));
    assert_eq!(decompress(&[0x11, 0x04, 0x00, 0x00, 0b0100_0000, b'a', 0x20]), Err(Lz11Error::UnexpectedEnd));
}

#[test]
fn raw_and_file_entry_points() {
    let s = vec![0x11, 0x02, 0x00, 0x00, 0x00, b'o', b'k'];
    assert_eq!(decompress_raw(s.clone()), Some(b"ok".to_vec()));
    assert_eq!(decompress_raw(vec![]), None);
    assert_eq!(decompress_raw(vec![0x10, 2, 0, 0, 0, 1, 2]), None);
    let f = LZFile::from_bytes(s).unwrap();
    assert_eq!(f.decompress(), Some(b"ok".to_vec()));
    assert!(LZFile::from_bytes(vec![]).is_none());
}
