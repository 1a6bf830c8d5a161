use git_index::bytes::compare_bytes;
use git_index::entry::{Entry, Stat};
use git_index::error::IndexError;
use git_index::hex::decode_hex;

const OID: &str = "0123456789abcdef0123456789ABCDEF01234567";

fn stat() -> Stat {
    Stat {
        ctime: 1,
        ctime_nsec: 2,
        mtime: 3,
        mtime_nsec: 4,
        dev: 5,
        ino: 6,
        mode: 0o100644,
        uid: 7,
        gid: 8,
        size: 9,
    }
}

#[test]
fn flags_hold_path_length() {
    let e = Entry::new("a.txt", stat(), OID);
    assert_eq!(e.flags(), 5);
    assert_eq!(e.path(), b"a.txt");
}

#[test]
fn flags_capped_for_long_paths() {
    let at_cap = "x".repeat(4095);
    assert_eq!(Entry::new(&at_cap, stat(), OID).flags(), 4095);
    let over = "x".repeat(4096);
    assert_eq!(Entry::new(&over, stat(), OID).flags(), 0xFFF);
    let far_over = "y".repeat(5000);
    assert_eq!(Entry::new(&far_over, stat(), OID).flags(), 0xFFF);
}

#[test]
fn pack_exact_layout() {
    let e = Entry::new("a.txt", stat(), OID);
    let b = e.pack().unwrap();
    let mut want: Vec<u8> = Vec::new();
    for v in [1u32, 2, 3, 4, 5, 6, 0o100644, 7, 8, 9] {
        want.extend_from_slice(&v.to_be_bytes());
    }
    want.extend_from_slice(&[
        0x01, 0x23, 0x45, 0x67, 0x89, 0xab, 0xcd, 0xef, 0x01, 0x23, 0x45, 0x67, 0x89, 0xab,
        0xcd, 0xef, 0x01, 0x23, 0x45, 0x67,
    ]);
    want.extend_from_slice(&[0x00, 0x05]);
    want.extend_from_slice(b"a.txt");
    want.push(0);
    // 40 + 20 + 2 + 5 + 1 = 68 bytes, padded to 72
    want.extend_from_slice(&[0, 0, 0, 0]);
    assert_eq!(b.len(), 72);
    assert_eq!(b, want);
}

#[test]
fn pack_truncates_wide_fields() {
    let mut s = stat();
    s.ctime = -1;
    s.size = 0x1_0000_0005;
    s.ino = 0xAABB_CCDD_0102_0304;
    let b = Entry::new("f", s, OID).pack().unwrap();
    assert_eq!(&b[0..4], &[0xff, 0xff, 0xff, 0xff]);
    assert_eq!(&b[20..24], &[0x01, 0x02, 0x03, 0x04]);
    assert_eq!(&b[36..40], &[0x00, 0x00, 0x00, 0x05]);
}

#[test]
fn pack_blocks_are_whole_words() {
    for n in 0..40 {
        let p = "p".repeat(n);
        let b = Entry::new(&p, stat(), OID).pack().unwrap();
        assert_eq!(b.len() % 8, 0);
        assert!(b.len() >= 62 + n + 1);
        assert!(b.len() < 62 + n + 1 + 8);
        assert_eq!(b[62 + n], 0);
    }
}

#[test]
fn pack_no_padding_when_aligned() {
    // 62 + 1 + 1 = 64: the NUL already ends on a word boundary
    let b = Entry::new("q", stat(), OID).pack().unwrap();
    assert_eq!(b.len(), 64);
}

#[test]
fn pack_odd_hash_fails() {
    let e = Entry::new("a.txt", stat(), "abc");
    assert_eq!(e.pack(), Err(IndexError::Encode));
}

#[test]
fn pack_non_hex_hash_fails() {
    let e = Entry::new("a.txt", stat(), "zz0123456789abcdef0123456789abcdef012345");
    assert_eq!(e.pack(), Err(IndexError::Encode));
}

#[test]
fn pack_empty_hash_gives_no_hash_bytes() {
    let b = Entry::new("abcdefgh", stat(), "").pack().unwrap();
    // 40 + 0 + 2 + 8 + 1 = 51, padded to 56
    assert_eq!(b.len(), 56);
    assert_eq!(&b[40..42], &[0, 8]);
}

#[test]
fn hex_decodes_both_cases() {
    assert_eq!(decode_hex(b"0aFf"), Some(vec![0x0a, 0xff]));
    assert_eq!(decode_hex(b""), Some(vec![]));
    assert_eq!(decode_hex(b"abc"), None);
    assert_eq!(decode_hex(b"0g"), None);
}

#[test]
fn compare_is_lexicographic() {
    assert!(compare_bytes(b"a.txt", b"b.txt") < 0);
    assert!(compare_bytes(b"b", b"a.txt") > 0);
    assert!(compare_bytes(b"a", b"a.txt") < 0);
    assert_eq!(compare_bytes(b"same", b"same"), 0);
    assert!(compare_bytes(b"", b"") == 0);
}

#[test]
fn entries_equal_by_path() {
    let a = Entry::new("a.txt", stat(), OID);
    let mut s = stat();
    s.size = 1234;
    let b = Entry::new("a.txt", s, "00");
    let c = Entry::new("b.txt", stat(), OID);
    assert!(a == b);
    assert!(a != c);
}
