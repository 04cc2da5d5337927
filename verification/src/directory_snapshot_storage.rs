//! Snapshots kept as the files of a directory.

use crate::directory_journal::{
    bytes_le, lemma_lex_le_total, lemma_lex_le_transitive, path_le, utc_timestamp,
};
use crate::snapshot_service::{snapshot_path, SnapshotStorage};
use vstd::prelude::*;
use vstd::string::StringExecFns;
use vstd::utf8::encode_utf8;

verus! {

/// The bytes of `".snap"`, the extension of a snapshot file.
pub open spec fn snapshot_extension() -> Seq<u8> {
    seq![0x2e, 0x73, 0x6e, 0x61, 0x70]
}

/// Whether `path` names a snapshot file: whether its bytes end in `".snap"`.
pub open spec fn is_snapshot_path(path: Seq<char>) -> bool {
    let bytes = encode_utf8(path);
    bytes.len() >= 5 && bytes.subrange(bytes.len() - 5, bytes.len() as int)
        == snapshot_extension()
}

/// Whether `path` names a snapshot file.
pub fn has_snapshot_extension(path: &str) -> (found: bool)
    ensures
        found == is_snapshot_path(path@),
{
    let bytes = path.as_bytes();
    let n: usize = bytes.len();
    if n < 5 {
        return false;
    }
    let found = bytes[n - 5] == 0x2e && bytes[n - 4] == 0x73 && bytes[n - 3] == 0x6e && bytes[n
        - 2] == 0x61 && bytes[n - 1] == 0x70;
    proof {
        let tail = bytes@.subrange(n - 5, n as int);
        assert(tail[0] == bytes@[n - 5]);
        assert(tail[1] == bytes@[n - 4]);
        assert(tail[2] == bytes@[n - 3]);
        assert(tail[3] == bytes@[n - 2]);
        assert(tail[4] == bytes@[n - 1]);
        if found {
            assert(tail =~= snapshot_extension());
        }
    }
    found
}

/// An entry of the snapshot directory as the caller has listed it.
pub struct SnapshotEntry {
    pub path: String,
    pub is_file: bool,
}

/// Whether `entry` is a snapshot: a file whose path names a snapshot file.
pub open spec fn is_snapshot(entry: SnapshotEntry) -> bool {
    entry.is_file && is_snapshot_path(entry.path@)
}

/// The path of the newest snapshot among `entries`: the greatest path of a
/// snapshot, and among equal paths the one that is listed first.
pub open spec fn newest_of(entries: Seq<SnapshotEntry>) -> Option<Seq<char>>
    decreases entries.len(),
{
    if entries.len() == 0 {
        None
    } else {
        let before = newest_of(entries.drop_last());
        let entry = entries.last();
        if is_snapshot(entry) && (before is None || !path_le(entry.path@, before->Some_0)) {
            Some(entry.path@)
        } else {
            before
        }
    }
}

/// The newest snapshot is a snapshot of the listing, no snapshot of the
/// listing has a greater path, and there is none only where the listing
/// holds no snapshot.
pub proof fn lemma_newest_of(entries: Seq<SnapshotEntry>)
    ensures
        match newest_of(entries) {
            Some(path) => {
                &&& exists|i: int|
                    0 <= i < entries.len() && is_snapshot(#[trigger] entries[i]) && entries[i].path@
                        == path
                &&& forall|i: int|
                    0 <= i < entries.len() && is_snapshot(#[trigger] entries[i]) ==> path_le(
                        entries[i].path@,
                        path,
                    )
            },
            None => forall|i: int| 0 <= i < entries.len() ==> !is_snapshot(#[trigger] entries[i]),
        },
    decreases entries.len(),
{
    if entries.len() > 0 {
        let front = entries.drop_last();
        let entry = entries.last();
        lemma_newest_of(front);
        let before = newest_of(front);
        match newest_of(entries) {
            Some(path) => {
                if is_snapshot(entry) && (before is None || !path_le(entry.path@, before->Some_0)) {
                    assert(entries[entries.len() - 1] == entry);
                    lemma_lex_le_total(encode_utf8(path), encode_utf8(path));
                    assert forall|i: int|
                        0 <= i < entries.len() && is_snapshot(#[trigger] entries[i]) implies path_le(
                        entries[i].path@,
                        path,
                    ) by {
                        if i < front.len() {
                            assert(entries[i] == front[i]);
                            let old_path = before->Some_0;
                            lemma_lex_le_total(encode_utf8(entry.path@), encode_utf8(old_path));
                            lemma_lex_le_transitive(
                                encode_utf8(entries[i].path@),
                                encode_utf8(old_path),
                                encode_utf8(path),
                            );
                        }
                    }
                } else {
                    let i = choose|i: int|
                        0 <= i < front.len() && is_snapshot(#[trigger] front[i]) && front[i].path@
                            == path;
                    assert(entries[i] == front[i]);
                    assert forall|i: int|
                        0 <= i < entries.len() && is_snapshot(#[trigger] entries[i]) implies path_le(
                        entries[i].path@,
                        path,
                    ) by {
                        if i < front.len() {
                            assert(entries[i] == front[i]);
                        }
                    }
                }
            },
            None => {
                assert forall|i: int| 0 <= i < entries.len() implies !is_snapshot(
                    #[trigger] entries[i],
                ) by {
                    if i < front.len() {
                        assert(entries[i] == front[i]);
                    }
                }
            },
        }
    }
}

/// The snapshots of one directory.
pub struct DirectorySnapshotStorage {
    path: String,
    entries: Vec<SnapshotEntry>,
}

impl DirectorySnapshotStorage {
    /// The entries of the directory, in the order of the listing, followed
    /// by the snapshots that were created since.
    pub closed spec fn listing(&self) -> Seq<SnapshotEntry> {
        self.entries@
    }

    /// The path of the directory.
    pub closed spec fn directory(&self) -> Seq<char> {
        self.path@
    }

    /// The storage in the directory `path`, which holds `entries`.
    pub fn new(path: &str, entries: Vec<SnapshotEntry>) -> (storage: Self)
        ensures
            storage.directory() == path@,
            storage.listing() == entries@,
    {
        Self { path: path.to_owned(), entries }
    }
}

impl SnapshotStorage for DirectorySnapshotStorage {
    open spec fn location(&self) -> Seq<char> {
        self.directory()
    }

    open spec fn newest(&self) -> Option<Seq<char>> {
        newest_of(self.listing())
    }

    /// Names the new snapshot after the current time and the tag, and adds
    /// it to the listing.
    fn create_snapshot(&mut self, name: &str) -> (path: String)
        ensures
            final(self).listing() == old(self).listing().push(
                SnapshotEntry { path, is_file: true },
            ),
    {
        let stamp = utc_timestamp();
        let path = self.path.clone().concat("/").concat(stamp.as_str()).concat("_").concat(
            name,
        ).concat(".snap");
        assert(path@ == snapshot_path(self.path@, stamp@, name@));
        self.entries.push(SnapshotEntry { path: path.clone(), is_file: true });
        path
    }

    fn open_last_snapshot(&self) -> (path: Option<String>) {
        let mut latest: Option<usize> = None;
        let mut i: usize = 0;
        proof {
            assert(self.entries@.take(0).len() == 0);
        }
        while i < self.entries.len()
            invariant
                i <= self.entries@.len(),
                match latest {
                    Some(at) => at < i && newest_of(self.entries@.take(i as int)) == Some(
                        self.entries@[at as int].path@,
                    ),
                    None => newest_of(self.entries@.take(i as int)) is None,
                },
            decreases self.entries@.len() - i,
        {
            proof {
                assert(self.entries@.take(i + 1).drop_last() =~= self.entries@.take(i as int));
                assert(self.entries@.take(i + 1).last() == self.entries@[i as int]);
            }
            let entry = &self.entries[i];
            if entry.is_file && has_snapshot_extension(entry.path.as_str()) {
                let newer = match latest {
                    Some(at) => !bytes_le(
                        entry.path.as_str().as_bytes(),
                        self.entries[at].path.as_str().as_bytes(),
                    ),
                    None => true,
                };
                if newer {
                    latest = Some(i);
                }
            }
            i += 1;
        }
        proof {
            assert(self.entries@.take(i as int) =~= self.entries@);
        }
        match latest {
            Some(at) => Some(self.entries[at].path.clone()),
            None => None,
        }
    }
}

} // verus!
