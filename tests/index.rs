use git_index::entry::Stat;
use git_index::error::IndexError;
use git_index::index::{check_trailer, trailer_matches, Index, Phase, WriteAction, WriteEvent};

const OID_A: &str = "1111111111111111111111111111111111111111";
const OID_B: &str = "2222222222222222222222222222222222222222";

fn stat(size: u64) -> Stat {
    Stat {
        ctime: 10,
        ctime_nsec: 0,
        mtime: 20,
        mtime_nsec: 0,
        dev: 1,
        ino: 2,
        mode: 0o100644,
        uid: 1000,
        gid: 1000,
        size,
    }
}

fn count_field(file: &[u8]) -> u32 {
    u32::from_be_bytes([file[8], file[9], file[10], file[11]])
}

fn find(hay: &[u8], needle: &[u8]) -> usize {
    hay.windows(needle.len()).position(|w| w == needle).unwrap()
}

#[test]
fn header_of_empty_index() {
    let idx = Index::new(String::from("index"));
    let f = idx.encode().unwrap();
    assert_eq!(&f[0..4], b"DIRC");
    assert_eq!(&f[4..8], &[0, 0, 0, 2]);
    assert_eq!(count_field(&f), 0);
    assert_eq!(f.len(), 12 + 20);
}

#[test]
fn header_counts_one_and_many() {
    let mut idx = Index::new(String::from("index"));
    idx.add("one", OID_A, stat(1));
    let f = idx.encode().unwrap();
    assert_eq!(count_field(&f), 1);
    // 62 + 3 + 1 = 66 bytes, padded to 72
    assert_eq!(f.len(), 12 + 72 + 20);
    idx.add("two", OID_A, stat(2));
    idx.add("three", OID_B, stat(3));
    let f = idx.encode().unwrap();
    assert_eq!(count_field(&f), 3);
    assert_eq!(idx.len(), 3);
}

#[test]
fn entries_emitted_in_path_order() {
    let mut idx = Index::new(String::from("index"));
    idx.add("b.txt", OID_A, stat(1));
    idx.add("a.txt", OID_A, stat(2));
    idx.add("c.txt", OID_A, stat(3));
    let f = idx.encode().unwrap();
    let a = find(&f, b"a.txt");
    let b = find(&f, b"b.txt");
    let c = find(&f, b"c.txt");
    assert_eq!(a, 12 + 62);
    assert!(a < b && b < c);
    // each block here is 72 bytes
    assert_eq!(b - a, 72);
    assert_eq!(c - b, 72);
}

#[test]
fn insertion_order_leaves_no_trace() {
    let mut x = Index::new(String::from("index"));
    x.add("b", OID_A, stat(1));
    x.add("a", OID_B, stat(2));
    let mut y = Index::new(String::from("index"));
    y.add("a", OID_B, stat(2));
    y.add("b", OID_A, stat(1));
    assert_eq!(x.encode().unwrap(), y.encode().unwrap());
}

#[test]
fn adding_same_path_replaces() {
    let mut idx = Index::new(String::from("index"));
    idx.add("a.txt", OID_A, stat(1));
    idx.add("a.txt", OID_B, stat(77));
    assert_eq!(idx.len(), 1);
    let f = idx.encode().unwrap();
    assert_eq!(count_field(&f), 1);
    assert_eq!(&f[12 + 36..12 + 40], &[0, 0, 0, 77]);
    assert_eq!(&f[12 + 40..12 + 60], &[0x22u8; 20]);
}

#[test]
fn encoding_twice_is_identical() {
    let mut idx = Index::new(String::from("index"));
    idx.add("src/lib.rs", OID_A, stat(5));
    idx.add("Cargo.toml", OID_B, stat(6));
    assert_eq!(idx.encode().unwrap(), idx.encode().unwrap());
}

#[test]
fn trailing_digest_matches_recomputation() {
    let mut idx = Index::new(String::from("index"));
    idx.add("a.txt", OID_A, stat(1));
    idx.add("b.txt", OID_B, stat(2));
    let f = idx.encode().unwrap();
    let split = f.len() - 20;
    let want = sha1::Sha1::from(&f[..split]).digest().bytes();
    assert_eq!(&f[split..], &want[..]);
    assert_eq!(&f[..split], &idx.encode_body().unwrap()[..]);
    assert!(check_trailer(&f));
}

#[test]
fn trailer_check_rejects_damage() {
    let mut idx = Index::new(String::from("index"));
    idx.add("a.txt", OID_A, stat(1));
    let mut f = idx.encode().unwrap();
    f[20] ^= 1;
    assert!(!check_trailer(&f));
    assert!(!check_trailer(&[0u8; 19]));
}

#[test]
fn bad_hash_fails_encode() {
    let mut idx = Index::new(String::from("index"));
    idx.add("a.txt", OID_A, stat(1));
    idx.add("b.txt", "xyz", stat(2));
    assert_eq!(idx.encode(), Err(IndexError::Encode));
    assert_eq!(idx.encode_body(), Err(IndexError::Encode));
}

#[test]
fn existing_target_fails_before_writing() {
    let mut idx = Index::new(String::from("index"));
    idx.add("a.txt", OID_A, stat(1));
    assert!(matches!(idx.write_step(WriteEvent::Begin), WriteAction::Open));
    assert!(matches!(
        idx.write_step(WriteEvent::AlreadyExists),
        WriteAction::Fail(IndexError::AlreadyExists)
    ));
    assert_eq!(idx.phase(), Phase::Ready);
}

#[test]
fn write_steps_in_order() {
    let mut idx = Index::new(String::from("index"));
    idx.add("a.txt", OID_A, stat(1));
    let want = idx.encode().unwrap();
    assert!(matches!(idx.write_step(WriteEvent::Begin), WriteAction::Open));
    assert!(matches!(idx.write_step(WriteEvent::Opened), WriteAction::Lock));
    match idx.write_step(WriteEvent::Locked) {
        WriteAction::Write(bytes) => assert_eq!(bytes, want),
        _ => panic!("expected bytes to write"),
    }
    assert!(matches!(idx.write_step(WriteEvent::Written), WriteAction::Finish));
    assert_eq!(idx.phase(), Phase::Finalized);
    assert!(matches!(
        idx.write_step(WriteEvent::Begin),
        WriteAction::Fail(IndexError::Finalized)
    ));
}

#[test]
fn lock_held_fails() {
    let mut idx = Index::new(String::from("index"));
    assert!(matches!(idx.write_step(WriteEvent::Begin), WriteAction::Open));
    assert!(matches!(idx.write_step(WriteEvent::Opened), WriteAction::Lock));
    assert!(matches!(
        idx.write_step(WriteEvent::LockHeld),
        WriteAction::Fail(IndexError::Lock)
    ));
}

#[test]
fn encode_error_during_write() {
    let mut idx = Index::new(String::from("index"));
    idx.add("a.txt", "0", stat(1));
    idx.write_step(WriteEvent::Begin);
    idx.write_step(WriteEvent::Opened);
    assert!(matches!(
        idx.write_step(WriteEvent::Locked),
        WriteAction::Fail(IndexError::Encode)
    ));
    assert_eq!(idx.phase(), Phase::Finalized);
}

#[test]
fn io_failure_while_writing() {
    let mut idx = Index::new(String::from("index"));
    idx.write_step(WriteEvent::Begin);
    assert!(matches!(
        idx.write_step(WriteEvent::IoFailed),
        WriteAction::Fail(IndexError::Io)
    ));
    assert_eq!(idx.phase(), Phase::Ready);
}

#[test]
fn step_out_of_order_is_refused() {
    let mut idx = Index::new(String::from("index"));
    assert!(matches!(
        idx.write_step(WriteEvent::Written),
        WriteAction::Fail(IndexError::OutOfOrder)
    ));
    assert_eq!(idx.phase(), Phase::Ready);
    assert_eq!(idx.target(), "index");
}

#[test]
fn trailer_matches_suffix_only() {
    assert!(trailer_matches(&[1, 2, 3, 4], &[3, 4]));
    assert!(!trailer_matches(&[1, 2, 3, 4], &[2, 3]));
    assert!(trailer_matches(&[1, 2], &[]));
    assert!(!trailer_matches(&[1], &[0, 1]));
}
