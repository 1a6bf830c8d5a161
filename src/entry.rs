//! One tracked file and its packed form.

use vstd::prelude::*;
use crate::bytes::{be16, be32, compare_bytes, push_all, push_be16, push_be32};
use crate::error::IndexError;
use crate::hex::{decode_hex, decode_hex_spec, hex_digit};
use vstd::string::StringSliceAdditionalSpecFns;

verus! {

/// The largest value of the path-length field; longer paths store it.
pub const MAX_FLAG_LEN: u16 = 0xFFF;

/// A snapshot of a file's metadata, as the file system reports it.
#[derive(Clone, Copy, Debug, PartialEq, Eq, Structural)]
pub struct Stat {
    pub ctime: i64,
    pub ctime_nsec: i64,
    pub mtime: i64,
    pub mtime_nsec: i64,
    pub dev: u64,
    pub ino: u64,
    pub mode: u32,
    pub uid: u32,
    pub gid: u32,
    pub size: u64,
}

/// One tracked file: its path, its metadata and its content hash in hex.
pub struct Entry {
    path: Vec<u8>,
    stat: Stat,
    oid: Vec<u8>,
    flags: u16,
}

/// An entry as values: path bytes, metadata, hash text bytes, flags.
pub type EntryModel = (Seq<u8>, Stat, Seq<u8>, u16);

impl View for Entry {
    type V = EntryModel;

    closed spec fn view(&self) -> EntryModel {
        (self.path@, self.stat, self.oid@, self.flags)
    }
}

/// The flags of a path of `len` bytes: its length, capped.
pub open spec fn flags_for(len: nat) -> u16 {
    if len > 0xFFF {
        0xFFF
    } else {
        len as u16
    }
}

/// The ten metadata fields, each cut to 32 bits, big-endian.
pub open spec fn stat_bytes(s: Stat) -> Seq<u8> {
    be32(s.ctime as u32) + be32(s.ctime_nsec as u32) + be32(s.mtime as u32) + be32(
        s.mtime_nsec as u32,
    ) + be32(s.dev as u32) + be32(s.ino as u32) + be32(s.mode) + be32(s.uid) + be32(s.gid)
        + be32(s.size as u32)
}

/// How many zero bytes bring a block of `n` bytes to a multiple of eight.
pub open spec fn pad_len(n: nat) -> nat {
    ((8 - n % 8) % 8) as nat
}

pub open spec fn zeros(n: nat) -> Seq<u8> {
    Seq::new(n, |i: int| 0u8)
}

/// The block before padding: metadata, hash bytes, flags, path and a NUL.
pub open spec fn unpadded_block(e: EntryModel, hash: Seq<u8>) -> Seq<u8> {
    stat_bytes(e.1) + hash + be16(e.3) + e.0 + seq![0u8]
}

/// The packed block of an entry, or nothing when its hash text does not decode.
pub open spec fn pack_spec(e: EntryModel) -> Option<Seq<u8>> {
    match decode_hex_spec(e.2) {
        Some(hash) => {
            let b = unpadded_block(e, hash);
            Some(b + zeros(pad_len(b.len())))
        },
        None => None,
    }
}

/// Every packed block is a whole number of eight-byte words.
pub proof fn lemma_pack_aligned(e: EntryModel)
    ensures
        pack_spec(e) matches Some(b) ==> b.len() % 8 == 0,
{
}

/// Hash text of odd length, or holding a byte that is no hexadecimal
/// digit, makes packing fail.
pub proof fn lemma_bad_hash_fails(e: EntryModel)
    requires
        e.2.len() % 2 == 1 || exists|i: int| 0 <= i < e.2.len() && (#[trigger] hex_digit(e.2[i])) is None,
    ensures
        pack_spec(e) is None,
{
}

impl Entry {
    /// An entry for `path`; the flags hold the path's byte length, capped.
    pub fn new(path: &str, stat: Stat, oid: &str) -> (r: Entry)
        ensures
            r@ == (path.spec_bytes(), stat, oid.spec_bytes(), flags_for(path.spec_bytes().len())),
    {
        let pb = path.as_bytes();
        let len = pb.len();
        let flags: u16 = if len > 0xFFF {
            MAX_FLAG_LEN
        } else {
            len as u16
        };
        let mut p: Vec<u8> = Vec::new();
        push_all(&mut p, pb);
        let mut o: Vec<u8> = Vec::new();
        push_all(&mut o, oid.as_bytes());
        Entry { path: p, stat, oid: o, flags }
    }

    pub fn path(&self) -> (r: &[u8])
        ensures
            r@ == self@.0,
    {
        self.path.as_slice()
    }

    pub fn flags(&self) -> (r: u16)
        ensures
            r == self@.3,
    {
        self.flags
    }

    /// The entry's block; fails with `Encode`, and gives no bytes, when the
    /// hash text is not valid hexadecimal.
    pub fn pack(&self) -> (r: Result<Vec<u8>, IndexError>)
        ensures
            r matches Ok(v) ==> pack_spec(self@) == Some(v@) && v@.len() % 8 == 0,
            r is Err ==> pack_spec(self@) is None && r == Err::<Vec<u8>, IndexError>(
                IndexError::Encode,
            ),
    {
        let mut data: Vec<u8> = Vec::new();
        push_be32(&mut data, self.stat.ctime as u32);
        push_be32(&mut data, self.stat.ctime_nsec as u32);
        push_be32(&mut data, self.stat.mtime as u32);
        push_be32(&mut data, self.stat.mtime_nsec as u32);
        push_be32(&mut data, self.stat.dev as u32);
        push_be32(&mut data, self.stat.ino as u32);
        push_be32(&mut data, self.stat.mode);
        push_be32(&mut data, self.stat.uid);
        push_be32(&mut data, self.stat.gid);
        push_be32(&mut data, self.stat.size as u32);
        assert(data@ =~= stat_bytes(self.stat));
        let hash = match decode_hex(self.oid.as_slice()) {
            Some(h) => h,
            None => return Err(IndexError::Encode),
        };
        push_all(&mut data, hash.as_slice());
        push_be16(&mut data, self.flags);
        push_all(&mut data, self.path.as_slice());
        data.push(0u8);
        let ghost b = data@;
        assert(b =~= unpadded_block(self@, hash@));
        while data.len() % 8 != 0
            invariant
                b.len() <= data@.len() <= b.len() + 7,
                data@ =~= b + zeros((data@.len() - b.len()) as nat),
                data@.len() - b.len() <= pad_len(b.len()),
            decreases b.len() + 8 - data@.len(),
        {
            data.push(0u8);
            assert(data@ =~= b + zeros((data@.len() - b.len()) as nat));
        }
        assert(data@.len() - b.len() == pad_len(b.len()));
        Ok(data)
    }
}

/// Entries are equal when their paths are: the path is the key.
impl PartialEq for Entry {
    fn eq(&self, other: &Entry) -> (r: bool) {
        compare_bytes(self.path.as_slice(), other.path.as_slice()) == 0
    }
}

impl vstd::std_specs::cmp::PartialEqSpecImpl for Entry {
    open spec fn obeys_eq_spec() -> bool {
        true
    }

    open spec fn eq_spec(&self, other: &Entry) -> bool {
        self@.0 == other@.0
    }
}

} // verus!
