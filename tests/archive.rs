use nebula_io::arc::{parse_arc_index, ArcError, ArcFs, U8Arc};
use nebula_io::bytesource::{ByteSource, MemoryByteSource};
use nebula_io::vfs::ReadOnlyFs;
use std::sync::Arc;

fn course_archive() -> Vec<u8> {
    let mut arc = U8Arc::new();
    arc.add_dir("course");
    arc.add_file("course/course1.bin", (0u8..17).collect());
    arc.dump().unwrap()
}

fn open(bytes: Vec<u8>) -> ArcFs<MemoryByteSource> {
    ArcFs::new(Arc::new(MemoryByteSource::from_vec(bytes))).unwrap()
}

#[test]
fn course_scenario() {
    let fs = open(course_archive());
    assert_eq!(fs.get_entries(""), vec![b"course/".to_vec()]);
    assert_eq!(fs.get_entries("course"), vec![b"course1.bin".to_vec()]);
    assert_eq!(fs.get_file_size("course/course1.bin"), 17);
    assert!(fs.file_exists("course/course1.bin"));
    assert!(!fs.file_exists("course"));
    assert!(fs.dir_exists("course"));
    assert!(fs.dir_exists(""));
    assert!(!fs.dir_exists("nothing"));
    assert_eq!(fs.get_file_size("missing"), 0);
}

#[test]
fn file_view_reads_its_bytes() {
    let fs = open(course_archive());
    let f = fs.get_file("course/course1.bin").unwrap();
    assert_eq!(f.len(), 17);
    assert_eq!(f.read_range(0, 100), (0u8..17).collect::<Vec<u8>>());
    assert_eq!(f.read_range(15, 5), vec![15, 16]);
    assert!(fs.get_file("course").is_none());
}

#[test]
fn every_nested_path_has_its_directory() {
    let mut arc = U8Arc::new();
    arc.add_dir("a");
    arc.add_dir("a/b");
    arc.set("a/b/c.bin", vec![1, 2, 3]);
    arc.set("a/d.bin", vec![4]);
    arc.set("top.bin", vec![5, 6]);
    let bytes = arc.dump().unwrap();
    let fs = open(bytes);
    assert_eq!(fs.get_entries(""), vec![b"a/".to_vec(), b"top.bin".to_vec()]);
    assert_eq!(fs.get_entries("a"), vec![b"b/".to_vec(), b"d.bin".to_vec()]);
    assert_eq!(fs.get_entries("a/b"), vec![b"c.bin".to_vec()]);
    for p in ["a/b/c.bin", "a/d.bin"] {
        let parent = &p[..p.rfind('/').unwrap()];
        assert!(fs.dir_exists(parent));
    }
    assert!(fs.dir_exists("a/b"));
}

#[test]
fn load_and_lookups() {
    let mut arc = U8Arc::new();
    arc.load(&course_archive()).unwrap();
    assert_eq!(arc.get("course/course1.bin"), Some(&(0u8..17).collect::<Vec<u8>>()));
    assert_eq!(arc.get("course"), None);
    assert_eq!(arc.get("missing"), None);
    assert_eq!(arc.get_dir("course"), Some(vec![b"course1.bin".to_vec()]));
    assert_eq!(arc.get_dir("course/course1.bin"), None);
    arc.set("course/course1.bin", vec![9]);
    assert_eq!(arc.get("course/course1.bin"), Some(&vec![9]));
    arc.set("new.bin", vec![1]);
    assert_eq!(arc.files().len(), 3);
}

#[test]
fn dump_layout() {
    let mut arc = U8Arc::new();
    arc.set("x", vec![0xab; 3]);
    let b = arc.dump().unwrap();
    assert_eq!(&b[0..4], &[0x55, 0xaa, 0x38, 0x2d]);
    assert_eq!(&b[4..8], &[0, 0, 0, 0x20]);
    // two nodes and the names "\0x\0"
    assert_eq!(&b[8..12], &[0, 0, 0, 27]);
    assert_eq!(&b[12..16], &[0, 0, 0, 64]);
    assert_eq!(b.len(), 64 + 32);
    assert_eq!(&b[64..67], &[0xab; 3]);
}

#[test]
fn header_errors() {
    assert_eq!(parse_arc_index(&[0u8; 8]).err(), Some(ArcError::TooSmall));
    assert_eq!(parse_arc_index(&[0u8; 64]).err(), Some(ArcError::BadHeader));
    let mut junk = vec![0u8; 40];
    junk[30..34].copy_from_slice(&[0x55, 0xaa, 0x38, 0x2d]);
    assert_eq!(parse_arc_index(&junk).err(), Some(ArcError::BadHeader));
    let mut far = vec![0u8; 40];
    far[0..4].copy_from_slice(&[0x55, 0xaa, 0x38, 0x2d]);
    far[4..8].copy_from_slice(&[0, 0, 1, 0]);
    assert_eq!(parse_arc_index(&far).err(), Some(ArcError::BadNodeBase));
}

#[test]
fn leading_junk_is_skipped() {
    let mut bytes = vec![0xffu8; 5];
    bytes.extend(course_archive());
    let fs = open(bytes);
    assert_eq!(fs.get_entries(""), vec![b"course/".to_vec()]);
}

#[test]
fn directory_handles() {
    let fs = open(course_archive());
    let d = fs.get_dir("course").unwrap();
    assert_eq!(d.path(), &b"course".to_vec());
    assert_eq!(d.get_entries(), vec![b"course1.bin".to_vec()]);
    assert_eq!(fs.get_dir("").unwrap().get_entries(), vec![b"course/".to_vec()]);
    assert!(fs.get_dir("course/course1.bin").is_none());
}

#[test]
fn mutations_are_refused() {
    let fs = open(course_archive());
    assert!(!fs.create_dir("new"));
    assert!(!fs.create_file("new.bin"));
    assert!(!fs.remove_file("course/course1.bin"));
    assert!(!fs.remove_dir("course"));
    assert!(!fs.rename_path("course", "other"));
    assert!(fs.file_exists("course/course1.bin"));
}

#[test]
fn index_entries_carry_ranges() {
    let bytes = course_archive();
    let es = parse_arc_index(&bytes).unwrap();
    assert_eq!(es.len(), 3);
    assert!(es[0].is_dir());
    assert_eq!(es[0].path(), &Vec::<u8>::new());
    assert_eq!(es[1].path(), &b"course".to_vec());
    assert!(!es[2].is_dir());
    assert_eq!(es[2].size(), 17);
    let off = es[2].offset() as usize;
    assert_eq!(&bytes[off..off + 17], &(0u8..17).collect::<Vec<u8>>()[..]);
}
