use cbc::cipher::{BlockEncryptMut, KeyIvInit};
use nebula_io::bytesource::{ByteSource, MemoryByteSource};
use nebula_io::wbfs::{
    disc_number, is_valid_wbfs, parse_fst, parse_header, publisher_code, region_code, region_name,
    universal_id, WbfsError, WbfsFs,
};

fn be32(v: u32) -> [u8; 4] {
    v.to_be_bytes()
}

fn fst_bytes() -> Vec<u8> {
    let mut s = Vec::new();
    s.extend_from_slice(&be32(0x0100_0000));
    s.extend_from_slice(&be32(0));
    s.extend_from_slice(&be32(4));
    s.extend_from_slice(&be32(0x0100_0000));
    s.extend_from_slice(&be32(0));
    s.extend_from_slice(&be32(3));
    s.extend_from_slice(&be32(6));
    s.extend_from_slice(&be32(0x100));
    s.extend_from_slice(&be32(10));
    s.extend_from_slice(&be32(12));
    s.extend_from_slice(&be32(0x200));
    s.extend_from_slice(&be32(3));
    s.extend_from_slice(b"files\0a.bin\0top.bin\0");
    s
}

#[test]
fn fst_paths_and_ranges() {
    let files = parse_fst(&fst_bytes()).unwrap();
    assert_eq!(files.len(), 2);
    assert_eq!(files[0].path(), &b"files/a.bin".to_vec());
    assert_eq!(files[0].offset(), 0x400);
    assert_eq!(files[0].size(), 10);
    assert_eq!(files[1].path(), &b"top.bin".to_vec());
    assert_eq!(files[1].offset(), 0x800);
    assert_eq!(files[1].size(), 3);
}

#[test]
fn fst_errors() {
    assert_eq!(parse_fst(&[0u8; 4]).err(), Some(WbfsError::BadFst));
    let mut zero = fst_bytes();
    zero[8..12].copy_from_slice(&be32(0));
    assert_eq!(parse_fst(&zero).err(), Some(WbfsError::BadFst));
    let mut bad_name = fst_bytes();
    let n = bad_name.len();
    bad_name[n - 3] = 0x07;
    assert_eq!(parse_fst(&bad_name).err(), Some(WbfsError::BadFst));
}

fn header(hd_shift: u8, wbfs_shift: u8) -> Vec<u8> {
    let mut h = vec![0u8; 0x200];
    h[0..4].copy_from_slice(b"WBFS");
    h[8] = hd_shift;
    h[9] = wbfs_shift;
    h
}

#[test]
fn header_checks() {
    assert!(is_valid_wbfs(&header(9, 21)));
    assert_eq!(parse_header(&header(9, 21)).unwrap().wbfs_sector_shift, 21);
    assert_eq!(parse_header(&header(9, 14)).err(), Some(WbfsError::SectorTooSmall));
    assert_eq!(parse_header(&header(9, 40)).err(), Some(WbfsError::BadShift));
    let mut bad = header(9, 21);
    bad[0] = b'X';
    assert_eq!(parse_header(&bad).err(), Some(WbfsError::BadMagic));
    assert_eq!(parse_header(&[0u8; 16]).err(), Some(WbfsError::TooSmall));
    assert!(!is_valid_wbfs(&bad));
}

fn encrypt(key: &[u8], iv: &[u8], data: &mut [u8]) {
    let len = data.len();
    let enc = cbc::Encryptor::<aes::Aes128>::new_from_slices(key, iv).unwrap();
    enc.encrypt_padded_mut::<cbc::cipher::block_padding::NoPadding>(data, len).unwrap();
}

const COMMON: [u8; 16] = [0x0f; 16];
const TITLE: [u8; 16] = [0x3c; 16];

/// A small image: one 2 MiB container sector holding disc block 0, with
/// the partition at disc offset 0x50000 and its data at 0x70000.
fn image() -> Vec<u8> {
    let sector = 0x20_0000usize;
    let mut disc = vec![0u8; 0x78000];
    disc[0x40004..0x40008].copy_from_slice(&be32(0x40020 / 4));
    disc[0x40020..0x40024].copy_from_slice(&be32(0x50000 / 4));
    let part = 0x50000usize;
    let ticket_iv = [1u8, 2, 3, 4, 5, 6, 7, 8, 0, 0, 0, 0, 0, 0, 0, 0];
    let mut enc_title = TITLE;
    encrypt(&COMMON, &ticket_iv, &mut enc_title);
    disc[part + 0x1bf..part + 0x1cf].copy_from_slice(&enc_title);
    disc[part + 0x1dc..part + 0x1e4].copy_from_slice(&ticket_iv[..8]);
    disc[part + 0x2b8..part + 0x2bc].copy_from_slice(&be32(0x20000 / 4));
    disc[part + 0x2bc..part + 0x2c0].copy_from_slice(&be32(0x8000 / 4));

    let mut plain = vec![0u8; 0x7c00];
    let fst = fst_bytes();
    plain[0x424..0x428].copy_from_slice(&be32(0x440 / 4));
    plain[0x428..0x42c].copy_from_slice(&be32(((fst.len() + 3) / 4) as u32));
    plain[0x440..0x440 + fst.len()].copy_from_slice(&fst);
    for i in 0..10 {
        plain[0x400 + i] = 0xa0 + i as u8;
    }
    plain[0x800..0x803].copy_from_slice(b"top");
    let cluster = 0x70000usize;
    let cluster_iv = [9u8; 16];
    disc[cluster + 0x3d0..cluster + 0x3e0].copy_from_slice(&cluster_iv);
    let mut enc = plain.clone();
    encrypt(&TITLE, &cluster_iv, &mut enc);
    disc[cluster + 0x400..cluster + 0x8000].copy_from_slice(&enc);

    let mut img = header(9, 21);
    img.resize(0x400, 0);
    img[0x200..0x206].copy_from_slice(b"SMNE01");
    img[0x220..0x22a].copy_from_slice(b"NEW MARIO!");
    img.resize(sector, 0);
    img[0x300..0x302].copy_from_slice(&1u16.to_be_bytes());
    img.extend_from_slice(&disc);
    img
}

fn hex(k: &[u8]) -> String {
    k.iter().map(|b| format!("{:02x}", b)).collect()
}

#[test]
fn opens_an_image_and_reads_files() {
    let mut fs = WbfsFs::new(MemoryByteSource::from_vec(image()), &hex(&COMMON)).unwrap();
    assert!(fs.file_exists("files/a.bin"));
    assert!(fs.file_exists("top.bin"));
    assert!(!fs.file_exists("files"));
    assert!(fs.dir_exists("files"));
    assert!(fs.dir_exists("files/"));
    assert!(fs.dir_exists(""));
    assert!(!fs.dir_exists("top.bin"));
    assert_eq!(fs.get_file_size("files/a.bin"), 10);
    assert_eq!(fs.get_entries(""), vec![b"files/".to_vec(), b"top.bin".to_vec()]);
    assert_eq!(fs.get_entries("files"), vec![b"a.bin".to_vec()]);
    let a = fs.get_file("files/a.bin").unwrap();
    assert_eq!(a.read_range(0, 10), (0..10).map(|i| 0xa0 + i as u8).collect::<Vec<u8>>());
    let top = fs.get_file("top.bin").unwrap();
    assert_eq!(top.read_range(0, 3), b"top".to_vec());
    assert!(fs.get_file("nope").is_none());
}

#[test]
fn warm_cache_reads_agree() {
    let mut fs = WbfsFs::new(MemoryByteSource::from_vec(image()), &hex(&COMMON)).unwrap();
    let first = fs.read_plain(0x3f0, 0x40).unwrap();
    let second = fs.read_plain(0x3f0, 0x40).unwrap();
    assert_eq!(first, second);
    assert_eq!(&first[0x10..0x1a], &(0..10).map(|i| 0xa0 + i as u8).collect::<Vec<u8>>()[..]);
}

#[test]
fn bad_common_key() {
    let r = WbfsFs::new(MemoryByteSource::from_vec(image()), "00ff");
    assert_eq!(r.err(), Some(WbfsError::BadCommonKey));
    let r = WbfsFs::new(MemoryByteSource::from_vec(image()), "zz");
    assert_eq!(r.err(), Some(WbfsError::BadCommonKey));
}

#[test]
fn truncated_image() {
    let mut img = image();
    img.truncate(0x300);
    let r = WbfsFs::new(MemoryByteSource::from_vec(img), &hex(&COMMON));
    assert_eq!(r.err(), Some(WbfsError::Truncated));
}

#[test]
fn wrong_key_breaks_the_fst() {
    let r = WbfsFs::new(MemoryByteSource::from_vec(image()), &hex(&[0x11; 16]));
    assert!(r.is_err());
}

#[test]
fn game_id_and_name() {
    let fs = WbfsFs::new(MemoryByteSource::from_vec(image()), &hex(&COMMON)).unwrap();
    assert_eq!(fs.get_id(), b"SMNE01".to_vec());
    assert_eq!(fs.get_name(), b"NEW MARIO!".to_vec());
}

#[test]
fn wbfs_directory_handles() {
    let fs = WbfsFs::new(MemoryByteSource::from_vec(image()), &hex(&COMMON)).unwrap();
    let d = fs.get_dir("files").unwrap();
    assert_eq!(d.get_entries(), vec![b"a.bin".to_vec()]);
    assert!(fs.get_dir("nothing").is_none());
}

#[test]
fn identifier_parts() {
    let id = b"SMNE01";
    assert_eq!(universal_id(id), b"SMNx01".to_vec());
    assert_eq!(region_code(id), b'E');
    assert_eq!(region_name(region_code(id)), "USA");
    assert_eq!(region_name(b'Q'), "Unknown");
    assert_eq!(region_code(b"AB"), b'X');
    assert_eq!(disc_number(b"SMNE01"), 1);
    assert_eq!(disc_number(b"SMNE0x"), 0);
    assert_eq!(publisher_code(id), b"SM".to_vec());
    assert_eq!(publisher_code(b"S"), Vec::<u8>::new());
}

#[test]
fn used_size_sums_file_sizes() {
    let fs = WbfsFs::new(MemoryByteSource::from_vec(image()), &hex(&COMMON)).unwrap();
    assert_eq!(fs.get_used_size(), 13);
}
