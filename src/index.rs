//! The ordered set of entries and the index file built from it.

use vstd::prelude::*;
use crate::bytes::{
    be32, compare_bytes, lemma_lex_irreflexive, lemma_lex_total, lemma_lex_transitive, lex_lt, push_all,
    push_be32,
};
use crate::entry::{flags_for, pack_spec, Entry, EntryModel, Stat};
use crate::error::IndexError;
use vstd::string::StringSliceAdditionalSpecFns;

verus! {

/// The format version written in the header.
pub const INDEX_VERSION: u32 = 2;

/// The length of the trailing digest.
pub const DIGEST_LEN: usize = 20;

/// The SHA-1 digest of a byte string.
pub uninterp spec fn sha1_of(data: Seq<u8>) -> Seq<u8>;

/// Relies on `sha1::Sha1::from`, `digest` and `Digest::bytes`: the SHA-1
/// digest of the data, 20 bytes long.
#[verifier::external_body]
fn sha1_digest(data: &[u8]) -> (r: Vec<u8>)
    ensures
        r@ == sha1_of(data@),
        r@.len() == 20,
{
    sha1::Sha1::from(data).digest().bytes().to_vec()
}

/// The four signature bytes "DIRC".
pub open spec fn signature() -> Seq<u8> {
    seq![68u8, 73u8, 82u8, 67u8]
}

/// The twelve header bytes for an index of `n` entries.
pub open spec fn header(n: nat) -> Seq<u8> {
    signature() + be32(2) + be32(n as u32)
}

/// Entries in strictly ascending path order; so no path twice.
pub open spec fn sorted_by_path(s: Seq<EntryModel>) -> bool {
    forall|i: int, j: int| 0 <= i < j < s.len() ==> lex_lt(#[trigger] s[i].0, #[trigger] s[j].0)
}

/// `after` holds `e` and every entry of `before` whose path differs from
/// that of `e`, and nothing else.
pub open spec fn replaced(before: Seq<EntryModel>, after: Seq<EntryModel>, e: EntryModel) -> bool {
    forall|x: EntryModel|
        #![trigger after.contains(x)]
        #![trigger before.contains(x)]
        after.contains(x) <==> (x == e || (before.contains(x) && x.0 != e.0))
}

/// The blocks of all entries, in order; nothing if one does not pack.
pub open spec fn packed_entries(s: Seq<EntryModel>) -> Option<Seq<u8>>
    decreases s.len(),
{
    if s.len() == 0 {
        Some(Seq::empty())
    } else {
        match (packed_entries(s.drop_last()), pack_spec(s.last())) {
            (Some(a), Some(b)) => Some(a + b),
            _ => None,
        }
    }
}

/// The index file without its digest: header, then every block.
pub open spec fn index_body(s: Seq<EntryModel>) -> Option<Seq<u8>> {
    match packed_entries(s) {
        Some(b) => Some(header(s.len()) + b),
        None => None,
    }
}

/// The whole index file: the body followed by the digest of the body.
pub open spec fn index_file(s: Seq<EntryModel>) -> Option<Seq<u8>> {
    match index_body(s) {
        Some(b) => Some(b + sha1_of(b)),
        None => None,
    }
}

/// What encoding an index of entries `s` gives: its file, or `Encode` when
/// the file cannot be formed.
pub open spec fn encode_result(s: Seq<EntryModel>, r: Result<Vec<u8>, IndexError>) -> bool {
    match r {
        Ok(v) => index_file(s) == Some(v@),
        Err(e) => index_file(s) is None && e == IndexError::Encode,
    }
}

/// Encoding the same entries twice gives the same outcome, byte for byte.
pub proof fn lemma_encode_deterministic(
    s: Seq<EntryModel>,
    r1: Result<Vec<u8>, IndexError>,
    r2: Result<Vec<u8>, IndexError>,
)
    requires
        encode_result(s, r1),
        encode_result(s, r2),
    ensures
        match (r1, r2) {
            (Ok(a), Ok(b)) => a@ == b@,
            (Err(a), Err(b)) => a == b,
            _ => false,
        },
{
}

/// The header's count field holds the number of entries, and the body
/// after the header is exactly one block per entry.
pub proof fn lemma_header_count(s: Seq<EntryModel>)
    requires
        s.len() <= u32::MAX,
    ensures
        index_body(s) matches Some(b) ==> b.len() >= 12 && b.subrange(8, 12) == be32(
            s.len() as u32,
        ) && (s.len() as u32) as nat == s.len() && b.subrange(12, b.len() as int)
            == packed_entries(s)->0,
{
    if let Some(b) = index_body(s) {
        assert(b.subrange(8, 12) =~= be32(s.len() as u32));
        assert(b.subrange(12, b.len() as int) =~= packed_entries(s)->0);
    }
}

/// The first entry of a sorted sequence comes before every other entry in it.
proof fn lemma_first_is_least(s: Seq<EntryModel>, x: EntryModel)
    requires
        sorted_by_path(s),
        s.contains(x),
        x != s[0],
    ensures
        lex_lt(s[0].0, x.0),
{
    let j = choose|j: int| 0 <= j < s.len() && s[j] == x;
    assert(j != 0);
}

/// Entries kept in path order are fixed by which entries there are: the
/// order in which they were added leaves no trace.
pub proof fn lemma_sorted_unique(s1: Seq<EntryModel>, s2: Seq<EntryModel>)
    requires
        sorted_by_path(s1),
        sorted_by_path(s2),
        forall|x: EntryModel| s1.contains(x) <==> s2.contains(x),
    ensures
        s1 == s2,
    decreases s1.len(),
{
    if s1.len() == 0 {
        if s2.len() > 0 {
            assert(s2.contains(s2[0]));
        }
        assert(s1 =~= s2);
    } else {
        assert(s1.contains(s1[0]));
        assert(s2.len() > 0);
        assert(s2.contains(s2[0]));
        if s1[0] != s2[0] {
            lemma_first_is_least(s1, s2[0]);
            lemma_first_is_least(s2, s1[0]);
            lemma_lex_total(s1[0].0, s2[0].0);
        }
        let t1 = s1.drop_first();
        let t2 = s2.drop_first();
        assert forall|x: EntryModel| t1.contains(x) <==> t2.contains(x) by {
            if t1.contains(x) {
                let j = choose|j: int| 0 <= j < t1.len() && t1[j] == x;
                assert(s1[j + 1] == x);
                assert(lex_lt(s1[0].0, s1[j + 1].0));
                lemma_lex_irreflexive(x.0);
                assert(s2.contains(x));
                let k = choose|k: int| 0 <= k < s2.len() && s2[k] == x;
                assert(k != 0);
                assert(t2[k - 1] == x);
            }
            if t2.contains(x) {
                let j = choose|j: int| 0 <= j < t2.len() && t2[j] == x;
                assert(s2[j + 1] == x);
                assert(lex_lt(s2[0].0, s2[j + 1].0));
                lemma_lex_irreflexive(x.0);
                assert(s1.contains(x));
                let k = choose|k: int| 0 <= k < s1.len() && s1[k] == x;
                assert(k != 0);
                assert(t1[k - 1] == x);
            }
        }
        assert(sorted_by_path(t1)) by {
            assert forall|i: int, j: int| 0 <= i < j < t1.len() implies lex_lt(
                #[trigger] t1[i].0,
                #[trigger] t1[j].0,
            ) by {
                assert(lex_lt(s1[i + 1].0, s1[j + 1].0));
            }
        }
        assert(sorted_by_path(t2)) by {
            assert forall|i: int, j: int| 0 <= i < j < t2.len() implies lex_lt(
                #[trigger] t2[i].0,
                #[trigger] t2[j].0,
            ) by {
                assert(lex_lt(s2[i + 1].0, s2[j + 1].0));
            }
        }
        lemma_sorted_unique(t1, t2);
        assert(s1 =~= seq![s1[0]] + t1);
        assert(s2 =~= seq![s2[0]] + t2);
    }
}

proof fn lemma_packed_prefix_fails(s: Seq<EntryModel>, k: int)
    requires
        0 <= k <= s.len(),
        packed_entries(s.take(k)) is None,
    ensures
        packed_entries(s) is None,
    decreases s.len() - k,
{
    if k < s.len() {
        assert(s.take(k + 1).drop_last() =~= s.take(k));
        lemma_packed_prefix_fails(s, k + 1);
    } else {
        assert(s.take(k) =~= s);
    }
}

/// How far the write of an index file has come.
#[derive(Clone, Copy, Debug, PartialEq, Eq, Structural)]
pub enum Phase {
    /// Nothing is under way.
    Ready,
    /// The file is being created.
    Opening,
    /// The new file is being locked.
    Locking,
    /// The bytes are being written.
    Writing,
    /// The file was written, or a write failed after it began.
    Finalized,
}

/// What came of the step that the caller last took.
#[derive(Clone, Copy, Debug, PartialEq, Eq, Structural)]
pub enum WriteEvent {
    /// The caller asks for the index to be written.
    Begin,
    /// The new file was created.
    Opened,
    /// The file was already there.
    AlreadyExists,
    /// The lock was taken.
    Locked,
    /// Another process holds the lock.
    LockHeld,
    /// All the bytes were written.
    Written,
    /// Reading or writing failed.
    IoFailed,
}

/// What the caller is to do next.
pub enum WriteAction {
    /// Create the target file; fail if it is already there.
    Open,
    /// Take the exclusive lock on the open file.
    Lock,
    /// Write these bytes to the file.
    Write(Vec<u8>),
    /// The index is written.
    Finish,
    /// Stop with this error.
    Fail(IndexError),
}

/// One step of the write: from `p`, on `ev`, the action `a` is due and the
/// phase becomes `q`; `file` is what the index encodes to.
pub open spec fn write_step_spec(
    p: Phase,
    ev: WriteEvent,
    file: Option<Seq<u8>>,
    a: WriteAction,
    q: Phase,
) -> bool {
    match (p, ev) {
        (Phase::Ready, WriteEvent::Begin) => a is Open && q == Phase::Opening,
        (Phase::Finalized, WriteEvent::Begin) => a == WriteAction::Fail(IndexError::Finalized)
            && q == p,
        (Phase::Opening, WriteEvent::Opened) => a is Lock && q == Phase::Locking,
        (Phase::Opening, WriteEvent::AlreadyExists) => a == WriteAction::Fail(
            IndexError::AlreadyExists,
        ) && q == Phase::Ready,
        (Phase::Locking, WriteEvent::Locked) => match file {
            Some(f) => (a matches WriteAction::Write(v) && v@ == f) && q == Phase::Writing,
            None => a == WriteAction::Fail(IndexError::Encode) && q == Phase::Finalized,
        },
        (Phase::Locking, WriteEvent::LockHeld) => a == WriteAction::Fail(IndexError::Lock) && q
            == Phase::Ready,
        (Phase::Writing, WriteEvent::Written) => a is Finish && q == Phase::Finalized,
        (Phase::Writing, WriteEvent::IoFailed) => a == WriteAction::Fail(IndexError::Io) && q
            == Phase::Finalized,
        (Phase::Opening, WriteEvent::IoFailed) | (Phase::Locking, WriteEvent::IoFailed) => a
            == WriteAction::Fail(IndexError::Io) && q == Phase::Ready,
        _ => a == WriteAction::Fail(IndexError::OutOfOrder) && q == p,
    }
}

/// A target that is already there stops the write before any byte is
/// handed out; bytes are handed out only right after the lock was taken.
pub proof fn lemma_no_write_over_existing(
    p: Phase,
    ev: WriteEvent,
    file: Option<Seq<u8>>,
    a: WriteAction,
    q: Phase,
)
    requires
        write_step_spec(p, ev, file, a, q),
    ensures
        ev == WriteEvent::AlreadyExists ==> !(a is Write),
        ev == WriteEvent::AlreadyExists && p == Phase::Opening ==> a == WriteAction::Fail(
            IndexError::AlreadyExists,
        ),
        a is Write ==> p == Phase::Locking && ev == WriteEvent::Locked,
{
}

/// The tracked files of a working tree, kept in path order, and the
/// file that the index is written to.
pub struct Index {
    entries: Vec<Entry>,
    target: String,
    phase: Phase,
}

impl View for Index {
    type V = Seq<EntryModel>;

    closed spec fn view(&self) -> Seq<EntryModel> {
        self.entries@.map_values(|e: Entry| e@)
    }
}

impl Index {
    /// The index is kept in ascending path order.
    pub closed spec fn wf(&self) -> bool {
        sorted_by_path(self@)
    }

    /// How far the write of the index file has come.
    pub closed spec fn phase_spec(&self) -> Phase {
        self.phase
    }

    /// The file that the index is to be written to.
    pub closed spec fn target_spec(&self) -> Seq<char> {
        self.target@
    }

    /// An empty index that will be written to `target`.
    pub fn new(target: String) -> (r: Index)
        ensures
            r.wf(),
            r@ == Seq::<EntryModel>::empty(),
            r.target_spec() == target@,
            r.phase_spec() == Phase::Ready,
    {
        let r = Index { entries: Vec::new(), target, phase: Phase::Ready };
        assert(r@ =~= Seq::<EntryModel>::empty());
        r
    }

    /// The target path.
    pub fn target(&self) -> (r: &String)
        ensures
            r@ == self.target_spec(),
    {
        &self.target
    }

    /// The number of entries.
    pub fn len(&self) -> (r: usize)
        ensures
            r == self@.len(),
    {
        self.entries.len()
    }

    /// Adds the file at `path`, replacing an entry of the same path.
    pub fn add(&mut self, path: &str, oid: &str, stat: Stat)
        requires
            old(self).wf(),
        ensures
            final(self).wf(),
            final(self).target_spec() == old(self).target_spec(),
            final(self).phase_spec() == old(self).phase_spec(),
            replaced(
                old(self)@,
                final(self)@,
                (path.spec_bytes(), stat, oid.spec_bytes(), flags_for(path.spec_bytes().len())),
            ),
    {
        let entry = Entry::new(path, stat, oid);
        let ghost key = entry@.0;
        let ghost em = entry@;
        let ghost s = self@;
        let mut i: usize = 0;
        while i < self.entries.len()
            invariant
                i <= self.entries@.len(),
                self@ == s,
                self.wf(),
                self.target_spec() == old(self).target_spec(),
                self.phase_spec() == old(self).phase_spec(),
                s == old(self)@,
                entry@.0 == key,
                entry@ == em,
                em == (path.spec_bytes(), stat, oid.spec_bytes(), flags_for(path.spec_bytes().len())),
                forall|j: int| 0 <= j < i ==> lex_lt(#[trigger] s[j].0, key),
            ensures
                i <= s.len(),
                self@ == s,
                self.target_spec() == old(self).target_spec(),
                self.phase_spec() == old(self).phase_spec(),
                i < s.len() ==> lex_lt(key, s[i as int].0),
                forall|j: int| 0 <= j < i ==> lex_lt(#[trigger] s[j].0, key),
            decreases self.entries@.len() - i,
        {
            let c = compare_bytes(self.entries[i].path(), entry.path());
            if c == 0 {
                self.entries.remove(i);
                self.entries.insert(i, entry);
                proof {
                    assert(self@ =~= s.update(i as int, em));
                    assert forall|a: int, b: int| 0 <= a < b < self@.len() implies lex_lt(
                        #[trigger] self@[a].0,
                        #[trigger] self@[b].0,
                    ) by {
                        assert(s[a].0 == self@[a].0 || a == i);
                        assert(s[b].0 == self@[b].0);
                    }
                    self.lemma_contains_after_replace(s, i as int, em);
                    assert(replaced(old(self)@, self@, em));
                }
                return;
            }
            if c > 0 {
                assert(self.entries@[i as int]@ == s[i as int]);
                break;
            }
            i = i + 1;
        }
        self.entries.insert(i, entry);
        proof {
            assert(self@ =~= s.insert(i as int, entry@));
            assert forall|a: int, b: int| 0 <= a < b < self@.len() implies lex_lt(
                #[trigger] self@[a].0,
                #[trigger] self@[b].0,
            ) by {
                if a < i && b == i {
                } else if a == i && b > i {
                    if b - 1 > i {
                        lemma_lex_transitive(key, s[i as int].0, s[b - 1].0);
                    }
                } else if a < i && b > i {
                    assert(s[a].0 == self@[a].0);
                    assert(s[b - 1].0 == self@[b].0);
                } else {
                }
            }
            assert forall|e: EntryModel| #[trigger] s.contains(e) implies e.0 != key by {
                let j = choose|j: int| 0 <= j < s.len() && s[j] == e;
                lemma_lex_irreflexive(key);
                if j >= i && j > i {
                    lemma_lex_transitive(key, s[i as int].0, s[j].0);
                }
            }
            assert forall|e: EntryModel|
                #![trigger self@.contains(e)]
                #![trigger s.contains(e)]
                self@.contains(e) <==> (e == entry@ || (s.contains(e) && e.0 != key)) by {
                if self@.contains(e) {
                    let j = choose|j: int| 0 <= j < self@.len() && self@[j] == e;
                    if j < i {
                        assert(s[j] == e);
                    } else if j > i {
                        assert(s[j - 1] == e);
                    }
                }
                if s.contains(e) {
                    let j = choose|j: int| 0 <= j < s.len() && s[j] == e;
                    if j < i {
                        assert(self@[j] == e);
                    } else {
                        assert(self@[j + 1] == e);
                    }
                }
                if e == entry@ {
                    assert(self@[i as int] == e);
                }
            }
        }
    }

    /// The file without its digest: the header, then each entry's block in
    /// path order. Fails with `Encode` when an entry's hash does not decode.
    pub fn encode_body(&self) -> (r: Result<Vec<u8>, IndexError>)
        ensures
            r matches Ok(v) ==> index_body(self@) == Some(v@),
            r is Err ==> index_body(self@) is None && r == Err::<Vec<u8>, IndexError>(
                IndexError::Encode,
            ),
    {
        let mut data: Vec<u8> = Vec::new();
        data.push(68u8);
        data.push(73u8);
        data.push(82u8);
        data.push(67u8);
        push_be32(&mut data, INDEX_VERSION);
        push_be32(&mut data, self.entries.len() as u32);
        let ghost h = data@;
        assert(h =~= header(self@.len()));
        let mut i: usize = 0;
        while i < self.entries.len()
            invariant
                i <= self.entries@.len(),
                h == header(self@.len()),
                packed_entries(self@.take(i as int)) matches Some(b) && data@ == h + b,
            decreases self.entries@.len() - i,
        {
            assert(self@.take(i + 1).drop_last() =~= self@.take(i as int));
            assert(self@.take(i + 1).last() == self.entries@[i as int]@);
            let block = match self.entries[i].pack() {
                Ok(b) => b,
                Err(e) => {
                    proof {
                        lemma_packed_prefix_fails(self@, i + 1);
                    }
                    return Err(e);
                },
            };
            push_all(&mut data, block.as_slice());
            i = i + 1;
            assert(data@ =~= h + packed_entries(self@.take(i as int))->0);
        }
        assert(self@.take(i as int) =~= self@);
        Ok(data)
    }

    /// The whole index file: the body followed by its 20-byte SHA-1 digest.
    pub fn encode(&self) -> (r: Result<Vec<u8>, IndexError>)
        ensures
            encode_result(self@, r),
            r matches Ok(v) ==> v@.len() >= 32 && v@.subrange(v@.len() - 20, v@.len() as int)
                == sha1_of(v@.subrange(0, v@.len() - 20)),
    {
        let mut data = self.encode_body()?;
        let ghost body = data@;
        let digest = sha1_digest(data.as_slice());
        push_all(&mut data, digest.as_slice());
        assert(data@.subrange(data@.len() - 20, data@.len() as int) =~= digest@);
        assert(data@.subrange(0, data@.len() - 20) =~= body);
        Ok(data)
    }

    /// How far the write of the index file has come.
    pub fn phase(&self) -> (r: Phase)
        ensures
            r == self.phase_spec(),
    {
        self.phase
    }

    /// Takes the write of the index file one step on: given what came of
    /// the last step, returns what to do next. Bytes are handed out only
    /// once the new file is open and locked.
    pub fn write_step(&mut self, event: WriteEvent) -> (a: WriteAction)
        requires
            old(self).wf(),
        ensures
            final(self).wf(),
            final(self)@ == old(self)@,
            final(self).target_spec() == old(self).target_spec(),
            write_step_spec(
                old(self).phase_spec(),
                event,
                index_file(old(self)@),
                a,
                final(self).phase_spec(),
            ),
    {
        match (self.phase, event) {
            (Phase::Ready, WriteEvent::Begin) => {
                self.phase = Phase::Opening;
                WriteAction::Open
            },
            (Phase::Finalized, WriteEvent::Begin) => WriteAction::Fail(IndexError::Finalized),
            (Phase::Opening, WriteEvent::Opened) => {
                self.phase = Phase::Locking;
                WriteAction::Lock
            },
            (Phase::Opening, WriteEvent::AlreadyExists) => {
                self.phase = Phase::Ready;
                WriteAction::Fail(IndexError::AlreadyExists)
            },
            (Phase::Locking, WriteEvent::Locked) => {
                match self.encode() {
                    Ok(v) => {
                        self.phase = Phase::Writing;
                        WriteAction::Write(v)
                    },
                    Err(e) => {
                        self.phase = Phase::Finalized;
                        WriteAction::Fail(e)
                    },
                }
            },
            (Phase::Locking, WriteEvent::LockHeld) => {
                self.phase = Phase::Ready;
                WriteAction::Fail(IndexError::Lock)
            },
            (Phase::Writing, WriteEvent::Written) => {
                self.phase = Phase::Finalized;
                WriteAction::Finish
            },
            (Phase::Writing, WriteEvent::IoFailed) => {
                self.phase = Phase::Finalized;
                WriteAction::Fail(IndexError::Io)
            },
            (Phase::Opening, WriteEvent::IoFailed) | (Phase::Locking, WriteEvent::IoFailed) => {
                self.phase = Phase::Ready;
                WriteAction::Fail(IndexError::Io)
            },
            _ => WriteAction::Fail(IndexError::OutOfOrder),
        }
    }

    /// Entries leave the index, and so enter the file, in ascending path order.
    pub proof fn lemma_path_order(&self)
        requires
            self.wf(),
        ensures
            forall|i: int, j: int| 0 <= i < j < self@.len() ==> lex_lt(#[trigger] self@[i].0, #[trigger] self@[j].0),
    {
    }

    /// Two indexes that hold the same entries, whatever order they were
    /// added in, give the same file.
    pub proof fn lemma_same_entries_same_file(&self, other: &Index)
        requires
            self.wf(),
            other.wf(),
            forall|x: EntryModel| self@.contains(x) <==> other@.contains(x),
        ensures
            self@ == other@,
            index_file(self@) == index_file(other@),
    {
        lemma_sorted_unique(self@, other@);
    }

    proof fn lemma_contains_after_replace(&self, s: Seq<EntryModel>, i: int, e: EntryModel)
        requires
            sorted_by_path(s),
            0 <= i < s.len(),
            s[i].0 == e.0,
            self@ == s.update(i, e),
        ensures
            replaced(s, self@, e),
    {
        assert forall|x: EntryModel|
            #![trigger self@.contains(x)]
            #![trigger s.contains(x)]
            self@.contains(x) <==> (x == e || (s.contains(x) && x.0 != e.0)) by {
            if self@.contains(x) {
                let j = choose|j: int| 0 <= j < self@.len() && self@[j] == x;
                if j != i {
                    assert(s[j] == x);
                    lemma_lex_irreflexive(e.0);
                    if j < i {
                        assert(lex_lt(s[j].0, s[i].0));
                    } else {
                        assert(lex_lt(s[i].0, s[j].0));
                    }
                }
            }
            if x == e {
                assert(self@[i] == x);
            }
            if s.contains(x) && x.0 != e.0 {
                let j = choose|j: int| 0 <= j < s.len() && s[j] == x;
                assert(j != i);
                assert(self@[j] == x);
            }
        }
    }
}

/// Whether `file` ends in the bytes of `digest`.
pub fn trailer_matches(file: &[u8], digest: &[u8]) -> (r: bool)
    ensures
        r == (file@.len() >= digest@.len() && file@.subrange(
            file@.len() - digest@.len(),
            file@.len() as int,
        ) == digest@),
{
    if file.len() < digest.len() {
        return false;
    }
    let split = file.len() - digest.len();
    let mut j: usize = 0;
    while j < digest.len()
        invariant
            split + digest.len() == file.len(),
            j <= digest@.len(),
            forall|k: int| 0 <= k < j ==> file@[split + k] == digest@[k],
        decreases digest@.len() - j,
    {
        if file[split + j] != digest[j] {
            assert(file@.subrange(split as int, file@.len() as int)[j as int] != digest@[j as int]);
            return false;
        }
        j = j + 1;
    }
    assert(file@.subrange(split as int, file@.len() as int) =~= digest@);
    true
}

/// Whether `file` ends in the SHA-1 digest of all the bytes before it.
pub fn check_trailer(file: &[u8]) -> (r: bool)
    ensures
        r == (file@.len() >= 20 && file@.subrange(file@.len() - 20, file@.len() as int) == sha1_of(
            file@.subrange(0, file@.len() - 20),
        )),
{
    if file.len() < DIGEST_LEN {
        return false;
    }
    let split = file.len() - DIGEST_LEN;
    let mut body: Vec<u8> = Vec::new();
    let mut i: usize = 0;
    while i < split
        invariant
            split == file@.len() - 20,
            i <= split,
            body@ == file@.subrange(0, i as int),
        decreases split - i,
    {
        body.push(file[i]);
        i = i + 1;
        assert(body@ =~= file@.subrange(0, i as int));
    }
    let digest = sha1_digest(body.as_slice());
    trailer_matches(file, digest.as_slice())
}

} // verus!
