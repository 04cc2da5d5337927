//! A journal kept as a directory of files.
//!
//! Each file is a run of records, one per blob, and the files read in the
//! order of their paths. The types here do the bookkeeping of such a
//! directory and leave the file operations to the caller: a reader is given
//! the files it reads, and a writer lists what is to be done to the files as
//! [`JournalEffect`]s.

use crate::config::JournalStorageConfig;
use crate::errors::Error;
use crate::journal_service::{JournalReader, JournalWriter, ReadResult};
use crate::wire::{append_record, frames, lemma_frames_push, read_record, records, truncated};
use chrono::Utc;
use std::collections::VecDeque;
use vstd::prelude::*;
use vstd::string::StringExecFns;
use vstd::utf8::encode_utf8;

verus! {

/// Whether `a` comes before `b`, or is `b`, in the order of byte strings:
/// the first byte in which they differ decides, and a string comes before
/// every string it is a proper prefix of.
pub open spec fn lex_le(a: Seq<u8>, b: Seq<u8>) -> bool
    decreases a.len(),
{
    if a.len() == 0 {
        true
    } else if b.len() == 0 {
        false
    } else {
        a[0] < b[0] || (a[0] == b[0] && lex_le(a.skip(1), b.skip(1)))
    }
}

/// Of two byte strings, one comes before the other or is the other.
pub proof fn lemma_lex_le_total(a: Seq<u8>, b: Seq<u8>)
    ensures
        lex_le(a, b) || lex_le(b, a),
    decreases a.len(),
{
    if a.len() > 0 && b.len() > 0 {
        lemma_lex_le_total(a.skip(1), b.skip(1));
    }
}

/// What comes before something that comes before a third comes before the
/// third.
pub proof fn lemma_lex_le_transitive(a: Seq<u8>, b: Seq<u8>, c: Seq<u8>)
    requires
        lex_le(a, b),
        lex_le(b, c),
    ensures
        lex_le(a, c),
    decreases a.len(),
{
    if a.len() > 0 && b.len() > 0 && c.len() > 0 {
        if a[0] == b[0] && b[0] == c[0] {
            lemma_lex_le_transitive(a.skip(1), b.skip(1), c.skip(1));
        }
    }
}

/// Compares two byte strings.
pub fn bytes_le(a: &[u8], b: &[u8]) -> (le: bool)
    ensures
        le == lex_le(a@, b@),
{
    let mut i: usize = 0;
    proof {
        assert(a@.skip(0) =~= a@);
        assert(b@.skip(0) =~= b@);
    }
    while i < a.len() && i < b.len() && a[i] == b[i]
        invariant
            i <= a@.len(),
            i <= b@.len(),
            lex_le(a@, b@) == lex_le(a@.skip(i as int), b@.skip(i as int)),
        decreases a@.len() - i,
    {
        proof {
            let x = a@.skip(i as int);
            let y = b@.skip(i as int);
            assert(x[0] == a@[i as int] && y[0] == b@[i as int]);
            assert(x.skip(1) =~= a@.skip(i + 1));
            assert(y.skip(1) =~= b@.skip(i + 1));
        }
        i += 1;
    }
    proof {
        let x = a@.skip(i as int);
        let y = b@.skip(i as int);
        if i < a@.len() {
            assert(x[0] == a@[i as int]);
        }
        if i < b@.len() {
            assert(y[0] == b@[i as int]);
        }
    }
    if i == a.len() {
        true
    } else if i == b.len() {
        false
    } else {
        a[i] < b[i]
    }
}

/// The bytes of `".jnl"`, the extension of a journal file.
pub open spec fn journal_extension() -> Seq<u8> {
    seq![0x2e, 0x6a, 0x6e, 0x6c]
}

/// Whether `path` names a journal file: whether its bytes end in `".jnl"`.
pub open spec fn is_journal_path(path: Seq<char>) -> bool {
    let bytes = encode_utf8(path);
    bytes.len() >= 4 && bytes.subrange(bytes.len() - 4, bytes.len() as int)
        == journal_extension()
}

/// Whether the path `a` comes before the path `b`, or is `b`, in the order
/// of their bytes, which is the order of strings.
pub open spec fn path_le(a: Seq<char>, b: Seq<char>) -> bool {
    lex_le(encode_utf8(a), encode_utf8(b))
}

/// Whether `path` names a journal file.
pub fn has_journal_extension(path: &str) -> (found: bool)
    ensures
        found == is_journal_path(path@),
{
    let bytes = path.as_bytes();
    let n: usize = bytes.len();
    if n < 4 {
        return false;
    }
    let found = bytes[n - 4] == 0x2e && bytes[n - 3] == 0x6a && bytes[n - 2] == 0x6e && bytes[n
        - 1] == 0x6c;
    proof {
        let tail = bytes@.subrange(n - 4, n as int);
        assert(tail[0] == bytes@[n - 4]);
        assert(tail[1] == bytes@[n - 3]);
        assert(tail[2] == bytes@[n - 2]);
        assert(tail[3] == bytes@[n - 1]);
        if found {
            assert(tail =~= journal_extension());
        }
    }
    found
}

/// `chrono::Utc::now`, formatted by `chrono::DateTime::format` with `"%+"`
/// and turned into a string: the current time. Nothing is promised of it.
#[verifier::external_body]
pub(crate) fn utc_timestamp() -> String {
    Utc::now().format("%+").to_string()
}

/// Whether `path` stands for a file of `directory` with extension
/// `extension`: the directory, a slash, some name and the extension.
pub open spec fn is_file_of(path: Seq<char>, directory: Seq<char>, extension: Seq<char>) -> bool {
    exists|name: Seq<char>| path == directory + "/"@ + name + extension
}

/// What the caller of a directory journal has to do to the files.
pub enum JournalEffect {
    /// Create the file, which must not exist yet, and leave it empty.
    Create { path: String },
    /// Append `data` to the file and make the file durable.
    Append { path: String, data: Vec<u8> },
    /// Remove the file. That it is gone already is no failure.
    Remove { path: String },
}

/// What a [`JournalEffect`] says, as plain values.
pub enum JournalEffectView {
    Create { path: Seq<char> },
    Append { path: Seq<char>, data: Seq<u8> },
    Remove { path: Seq<char> },
}

impl View for JournalEffect {
    type V = JournalEffectView;

    open spec fn view(&self) -> JournalEffectView {
        match self {
            JournalEffect::Create { path } => JournalEffectView::Create { path: path@ },
            JournalEffect::Append { path, data } => JournalEffectView::Append {
                path: path@,
                data: data@,
            },
            JournalEffect::Remove { path } => JournalEffectView::Remove { path: path@ },
        }
    }
}

/// The effects of `effects` as plain values.
pub open spec fn effect_views(effects: Seq<JournalEffect>) -> Seq<JournalEffectView> {
    effects.map_values(|effect: JournalEffect| effect@)
}

/// The number of blobs in `files`, a list of paths with their blob counts.
pub open spec fn counted(files: Seq<(String, usize)>) -> nat
    decreases files.len(),
{
    if files.len() == 0 {
        0
    } else {
        counted(files.drop_last()) + files.last().1 as nat
    }
}

/// The number of files at the front of `files` that a disposal of up to
/// `budget` blobs removes: as many whole files as fit into the budget, one
/// after the other.
pub open spec fn disposable_files(files: Seq<(String, usize)>, budget: nat) -> nat
    decreases files.len(),
{
    if files.len() > 0 && budget >= files[0].1 {
        1 + disposable_files(files.skip(1), (budget - files[0].1) as nat)
    } else {
        0
    }
}

/// The blobs of a list of files are those of the first file and those of
/// the others.
pub proof fn lemma_counted_front(files: Seq<(String, usize)>)
    requires
        files.len() > 0,
    ensures
        counted(files) == files[0].1 as nat + counted(files.skip(1)),
    decreases files.len(),
{
    if files.len() == 1 {
        assert(files.drop_last().len() == 0);
        assert(files.skip(1).len() == 0);
        assert(counted(files.drop_last()) == 0);
    } else {
        lemma_counted_front(files.drop_last());
        assert(files.drop_last().skip(1) =~= files.skip(1).drop_last());
        assert(files.skip(1).last() == files.last());
    }
}

/// A file added at the end adds its blobs to the count.
pub proof fn lemma_counted_push(files: Seq<(String, usize)>, file: (String, usize))
    ensures
        counted(files.push(file)) == counted(files) + file.1 as nat,
{
    assert(files.push(file).drop_last() =~= files);
}

/// The files that a disposal removes hold no more blobs than the budget,
/// and no more than there are.
pub proof fn lemma_disposable_files(files: Seq<(String, usize)>, budget: nat)
    ensures
        disposable_files(files, budget) <= files.len(),
        counted(files.take(disposable_files(files, budget) as int)) <= budget,
        counted(files.take(disposable_files(files, budget) as int)) + counted(
            files.skip(disposable_files(files, budget) as int),
        ) == counted(files),
    decreases files.len(),
{
    let k = disposable_files(files, budget);
    if files.len() > 0 && budget >= files[0].1 {
        let rest = files.skip(1);
        let left = (budget - files[0].1) as nat;
        lemma_disposable_files(rest, left);
        let j = disposable_files(rest, left);
        assert(files.take(k as int).skip(1) =~= rest.take(j as int));
        assert(files.skip(k as int) =~= rest.skip(j as int));
        lemma_counted_front(files.take(k as int));
        lemma_counted_front(files);
    } else {
        assert(files.take(0).len() == 0);
        assert(files.skip(0) =~= files);
    }
}

/// The files of a journal that are closed, oldest first, each with the
/// number of blobs it holds.
pub struct DirectoryJournalBase {
    directory_path: String,
    previous_files: VecDeque<(String, usize)>,
    total_blob_count: usize,
    file_size_soft_limit: usize,
}

impl DirectoryJournalBase {
    /// The directory of the journal.
    pub closed spec fn directory(&self) -> Seq<char> {
        self.directory_path@
    }

    /// The closed files, oldest first.
    pub closed spec fn files(&self) -> Seq<(String, usize)> {
        self.previous_files@
    }

    /// The number of blobs in the closed files.
    pub closed spec fn total(&self) -> nat {
        self.total_blob_count as nat
    }

    /// The size from which on a file is closed once it is durable.
    pub closed spec fn soft_limit(&self) -> nat {
        self.file_size_soft_limit as nat
    }

    /// The total is the sum of the counts.
    pub open spec fn wf(&self) -> bool {
        self.total() == counted(self.files())
    }

    /// The bookkeeping of a journal in `directory_path` that has no closed
    /// file yet.
    pub fn new(directory_path: String, file_size_soft_limit: usize) -> (base: Self)
        ensures
            base.wf(),
            base.directory() == directory_path@,
            base.files().len() == 0,
            base.total() == 0,
            base.soft_limit() == file_size_soft_limit,
    {
        Self {
            directory_path,
            previous_files: VecDeque::new(),
            total_blob_count: 0,
            file_size_soft_limit,
        }
    }

    /// Records that the file `path`, which holds `blob_count` blobs, was
    /// closed.
    pub fn push_file(&mut self, path: String, blob_count: usize)
        requires
            old(self).wf(),
            old(self).total() + blob_count <= usize::MAX,
        ensures
            final(self).wf(),
            final(self).files() == old(self).files().push((path, blob_count)),
            final(self).total() == old(self).total() + blob_count,
            final(self).directory() == old(self).directory(),
            final(self).soft_limit() == old(self).soft_limit(),
    {
        proof {
            lemma_counted_push(self.previous_files@, (path, blob_count));
        }
        self.total_blob_count += blob_count;
        self.previous_files.push_back((path, blob_count));
    }

    /// Forgets the oldest files as long as no more than `blob_count` blobs
    /// go, and gives their paths, oldest first, for the caller to remove.
    pub fn dispose_oldest_blobs(&mut self, blob_count: usize) -> (removed: Vec<String>)
        requires
            old(self).wf(),
        ensures
            final(self).wf(),
            final(self).directory() == old(self).directory(),
            final(self).soft_limit() == old(self).soft_limit(),
            removed@.len() == disposable_files(old(self).files(), blob_count as nat),
            removed@.len() <= old(self).files().len(),
            final(self).files() == old(self).files().skip(removed@.len() as int),
            forall|i: int| 0 <= i < removed@.len() ==> removed@[i] == old(self).files()[i].0,
            final(self).total() == old(self).total() - counted(
                old(self).files().take(removed@.len() as int),
            ),
    {
        let ghost files = self.previous_files@;
        let mut removed: Vec<String> = Vec::new();
        let mut budget: usize = blob_count;
        proof {
            assert(files.take(0).len() == 0);
            assert(files.skip(0) =~= files);
        }
        while self.previous_files.len() > 0 && budget >= self.previous_files[0].1
            invariant
                removed@.len() <= files.len(),
                self.previous_files@ == files.skip(removed@.len() as int),
                self.total_blob_count == counted(self.previous_files@),
                self.total_blob_count + counted(files.take(removed@.len() as int)) == counted(
                    files,
                ),
                disposable_files(files, blob_count as nat) == removed@.len() + disposable_files(
                    self.previous_files@,
                    budget as nat,
                ),
                forall|i: int| 0 <= i < removed@.len() ==> removed@[i] == files[i].0,
                self.directory_path == old(self).directory_path,
                self.file_size_soft_limit == old(self).file_size_soft_limit,
            decreases self.previous_files@.len(),
        {
            let ghost n = removed@.len() as int;
            let ghost current = self.previous_files@;
            proof {
                lemma_counted_front(current);
            }
            let (path, file_blob_count) = self.previous_files.pop_front().unwrap();
            self.total_blob_count -= file_blob_count;
            budget -= file_blob_count;
            removed.push(path);
            proof {
                assert(current[0] == files[n]);
                assert(self.previous_files@ =~= current.skip(1));
                assert(self.previous_files@ =~= files.skip(n + 1));
                assert(files.take(n + 1).drop_last() =~= files.take(n));
                assert(files.take(n + 1).last() == files[n]);
            }
        }
        removed
    }
}

/// Appends to the newest file of a directory journal.
///
/// What is appended waits in a buffer until `persist` asks for it to be
/// written. A file that has reached the soft limit is closed by the
/// `persist` that makes it durable, never in the middle of an append, so
/// that a blob is never split over two files.
pub struct DirectoryJournalWriter {
    file_path: String,
    buffer: Vec<u8>,
    current_file_size: usize,
    current_file_blob_count: usize,
    base: DirectoryJournalBase,
    effects: Vec<JournalEffect>,
    blobs: Ghost<Seq<Seq<u8>>>,
    unflushed: Ghost<Seq<Seq<u8>>>,
}

/// The path of a new journal file in `directory_path`, named after the
/// current time.
pub fn open_new_file(directory_path: &str) -> (path: String)
    ensures
        is_file_of(path@, directory_path@, ".jnl"@),
{
    let stamp = utc_timestamp();
    let path = directory_path.to_owned().concat("/").concat(stamp.as_str()).concat(".jnl");
    assert(path@ == directory_path@ + "/"@ + stamp@ + ".jnl"@);
    path
}

impl DirectoryJournalWriter {
    /// The path of the file that is appended to.
    pub closed spec fn path(&self) -> Seq<char> {
        self.file_path@
    }

    /// The number of bytes appended to the current file.
    pub closed spec fn current_size(&self) -> nat {
        self.current_file_size as nat
    }

    /// The number of blobs appended to the current file.
    pub closed spec fn current_count(&self) -> nat {
        self.current_file_blob_count as nat
    }

    /// The current file as it is listed once it is closed: its path and
    /// the number of its blobs.
    pub closed spec fn current_file(&self) -> (String, usize) {
        (self.file_path, self.current_file_blob_count)
    }

    /// The closed files.
    pub closed spec fn base(&self) -> DirectoryJournalBase {
        self.base
    }

    /// The bytes that wait to be written to the current file.
    pub closed spec fn buffered(&self) -> Seq<u8> {
        self.buffer@
    }

    /// The blobs that were appended since the last `persist`.
    pub closed spec fn waiting(&self) -> Seq<Seq<u8>> {
        self.unflushed@
    }

    /// The effects that wait to be handed out, oldest first.
    pub closed spec fn listed(&self) -> Seq<JournalEffect> {
        self.effects@
    }

    /// What the effects that wait to be handed out say, oldest first.
    pub open spec fn effects(&self) -> Seq<JournalEffectView> {
        effect_views(self.listed())
    }

    /// All blobs of the journal, oldest first.
    pub closed spec fn all_blobs(&self) -> Seq<Seq<u8>> {
        self.blobs@
    }

    /// The counts add up to the blobs of the journal, the unflushed blobs
    /// are its newest ones and belong to the current file, and the buffer
    /// holds their records.
    pub open spec fn well_formed(&self) -> bool {
        &&& self.base().wf()
        &&& self.base().total() + self.current_count() <= usize::MAX
        &&& self.all_blobs().len() == self.base().total() + self.current_count()
        &&& self.waiting().len() <= self.current_count()
        &&& self.all_blobs().skip(self.all_blobs().len() - self.waiting().len())
            == self.waiting()
        &&& self.buffered() == frames(self.waiting())
    }

    /// Whether the counters have room for one more blob of `len` bytes.
    pub open spec fn has_room(&self, len: nat) -> bool {
        &&& self.current_size() + len + 4 <= usize::MAX
        &&& self.base().total() + self.current_count() + 1 <= usize::MAX
    }

    /// The number of blobs in the files that a disposal of up to
    /// `blob_count` blobs removes.
    pub open spec fn disposable_blobs(&self, blob_count: nat) -> nat {
        counted(
            self.base().files().take(disposable_files(self.base().files(), blob_count) as int),
        )
    }

    /// Whether `after` is what appending `blob` makes of this writer: the
    /// blob waits in the buffer and is counted to the current file, and
    /// the files stay as they are.
    pub open spec fn appended(&self, after: &Self, blob: Seq<u8>) -> bool {
        &&& after.all_blobs() == self.all_blobs().push(blob)
        &&& after.waiting() == self.waiting().push(blob)
        &&& after.current_size() == self.current_size() + blob.len() + 4
        &&& after.current_count() == self.current_count() + 1
        &&& after.path() == self.path()
        &&& after.base() == self.base()
        &&& after.effects() == self.effects()
    }

    /// Whether `after` is what `persist` makes of this writer: what waited
    /// in the buffer is to be appended to the current file, and where that
    /// file has reached the soft limit it is closed, which lists its path
    /// and the number of its blobs behind the files closed before, and a
    /// new one is begun.
    pub open spec fn persisted(&self, after: &Self) -> bool {
        &&& after.all_blobs() == self.all_blobs()
        &&& after.waiting().len() == 0
        &&& after.base().directory() == self.base().directory()
        &&& after.base().soft_limit() == self.base().soft_limit()
        &&& if self.current_size() >= self.base().soft_limit() {
            &&& self.current_file().0@ == self.path()
            &&& self.current_file().1 == self.current_count()
            &&& after.base().files() == self.base().files().push(self.current_file())
            &&& after.base().total() == self.base().total() + self.current_count()
            &&& after.current_size() == 0
            &&& after.current_count() == 0
            &&& is_file_of(after.path(), self.base().directory(), ".jnl"@)
            &&& after.effects() == self.effects().push(
                JournalEffectView::Append { path: self.path(), data: frames(self.waiting()) },
            ).push(JournalEffectView::Create { path: after.path() })
        } else {
            &&& after.base() == self.base()
            &&& after.current_size() == self.current_size()
            &&& after.current_count() == self.current_count()
            &&& after.path() == self.path()
            &&& after.effects() == self.effects().push(
                JournalEffectView::Append { path: self.path(), data: frames(self.waiting()) },
            )
        }
    }

    /// Whether `after` is what a disposal of up to `blob_count` blobs makes
    /// of this writer: the oldest closed files go as long as no more than
    /// `blob_count` blobs go with them, each of them is to be removed, and
    /// the current file stays.
    pub open spec fn disposed(&self, after: &Self, blob_count: nat) -> bool {
        let gone = disposable_files(self.base().files(), blob_count);
        &&& after.all_blobs() == self.all_blobs().skip(self.disposable_blobs(blob_count) as int)
        &&& after.path() == self.path()
        &&& after.current_size() == self.current_size()
        &&& after.current_count() == self.current_count()
        &&& after.waiting() == self.waiting()
        &&& after.base().directory() == self.base().directory()
        &&& after.base().soft_limit() == self.base().soft_limit()
        &&& after.base().files() == self.base().files().skip(gone as int)
        &&& after.effects() == self.effects() + Seq::new(
            gone,
            |i: int| JournalEffectView::Remove { path: self.base().files()[i].0@ },
        )
    }

    /// Whether `after` is what handing out the effects makes of this
    /// writer: no effect waits any more, and nothing else has changed.
    pub open spec fn emptied(&self, after: &Self) -> bool {
        &&& after.all_blobs() == self.all_blobs()
        &&& after.waiting() == self.waiting()
        &&& after.current_size() == self.current_size()
        &&& after.current_count() == self.current_count()
        &&& after.path() == self.path()
        &&& after.base() == self.base()
        &&& after.effects().len() == 0
    }

    /// A writer that continues the journal of `base`, which holds `blobs`,
    /// in a new file.
    fn new(base: DirectoryJournalBase, blobs: Ghost<Seq<Seq<u8>>>) -> (writer: Self)
        requires
            base.wf(),
            blobs@.len() == base.total(),
        ensures
            writer.well_formed(),
            writer.all_blobs() == blobs@,
            writer.waiting().len() == 0,
            writer.base() == base,
            writer.current_size() == 0,
            writer.current_count() == 0,
            is_file_of(writer.path(), base.directory(), ".jnl"@),
            writer.effects() == seq![JournalEffectView::Create { path: writer.path() }],
    {
        let file_path = open_new_file(base.directory_path.as_str());
        let mut effects: Vec<JournalEffect> = Vec::new();
        effects.push(JournalEffect::Create { path: file_path.clone() });
        let writer = Self {
            file_path,
            buffer: Vec::new(),
            current_file_size: 0,
            current_file_blob_count: 0,
            base,
            effects,
            blobs,
            unflushed: Ghost(Seq::empty()),
        };
        proof {
            assert(writer.all_blobs().skip(writer.all_blobs().len() as int) =~= Seq::<
                Seq<u8>,
            >::empty());
            assert(writer.effects() =~= seq![JournalEffectView::Create { path: writer.path() }]);
        }
        writer
    }

    /// The path of the file that is appended to.
    pub fn file_path(&self) -> (path: &String)
        ensures
            path@ == self.path(),
    {
        &self.file_path
    }

    /// The number of bytes appended to the current file.
    pub fn current_file_size(&self) -> (size: usize)
        ensures
            size == self.current_size(),
    {
        self.current_file_size
    }
}

impl JournalWriter for DirectoryJournalWriter {
    type Effect = JournalEffect;

    open spec fn wf(&self) -> bool {
        self.well_formed()
    }

    open spec fn blobs(&self) -> Seq<Seq<u8>> {
        self.all_blobs()
    }

    open spec fn unflushed(&self) -> Seq<Seq<u8>> {
        self.waiting()
    }

    open spec fn pending(&self) -> Seq<JournalEffect> {
        self.listed()
    }

    open spec fn accepts(&self, blob: Seq<u8>) -> bool {
        self.has_room(blob.len())
    }

    open spec fn appends(&self, after: &Self, blob: Seq<u8>) -> bool {
        self.appended(after, blob)
    }

    open spec fn persists(&self, after: &Self) -> bool {
        self.persisted(after)
    }

    open spec fn disposes(&self, after: &Self, blob_count: nat) -> bool {
        self.disposed(after, blob_count)
    }

    open spec fn hands_out(&self, after: &Self) -> bool {
        self.emptied(after)
    }

    open spec fn disposable(&self, blob_count: nat) -> nat {
        self.disposable_blobs(blob_count)
    }

    /// Puts the record of `blob` into the buffer and counts it. The file
    /// stays the same however large it gets.
    fn append_blob(&mut self, blob: &[u8]) -> (result: Result<(), Error>)
        ensures
            result is Err ==> result == Err::<(), Error>(Error::JournalFull) && *final(self)
                == *old(self),
            result is Ok ==> old(self).appended(final(self), blob@),
    {
        if blob.len() > usize::MAX - 4 {
            return Err(Error::JournalFull);
        }
        let size: usize = blob.len() + 4;
        if size > usize::MAX - self.current_file_size {
            return Err(Error::JournalFull);
        }
        if self.current_file_blob_count >= usize::MAX - self.base.total_blob_count {
            return Err(Error::JournalFull);
        }
        self.current_file_size += size;
        self.current_file_blob_count += 1;
        append_record(&mut self.buffer, blob);
        proof {
            let before = old(self).blobs@;
            let waiting = old(self).unflushed@;
            lemma_frames_push(waiting, blob@);
            self.blobs@ = before.push(blob@);
            self.unflushed@ = waiting.push(blob@);
            assert(before.push(blob@).skip(before.len() + 1 - (waiting.len() + 1)) =~= before.skip(
                before.len() - waiting.len(),
            ).push(blob@));
        }
        Ok(())
    }

    /// Asks for the buffer to be appended to the current file and the file
    /// to be made durable. Where the file has reached the soft limit, the
    /// file is closed and a new one is asked for.
    fn persist(&mut self)
        ensures
            old(self).persisted(final(self)),
    {
        let mut data: Vec<u8> = Vec::new();
        std::mem::swap(&mut self.buffer, &mut data);
        let ghost listed = self.effects@;
        self.effects.push(JournalEffect::Append { path: self.file_path.clone(), data });
        proof {
            self.unflushed@ = Seq::empty();
            assert(self.blobs@.skip(self.blobs@.len() as int) =~= Seq::<Seq<u8>>::empty());
            assert(effect_views(self.effects@) =~= effect_views(listed).push(
                JournalEffectView::Append {
                    path: old(self).path(),
                    data: frames(old(self).waiting()),
                },
            ));
        }
        if self.current_file_size >= self.base.file_size_soft_limit {
            let mut path = open_new_file(self.base.directory_path.as_str());
            let ghost listed = self.effects@;
            self.effects.push(JournalEffect::Create { path: path.clone() });
            std::mem::swap(&mut self.file_path, &mut path);
            self.base.push_file(path, self.current_file_blob_count);
            self.current_file_size = 0;
            self.current_file_blob_count = 0;
            proof {
                assert(effect_views(self.effects@) =~= effect_views(listed).push(
                    JournalEffectView::Create { path: self.file_path@ },
                ));
            }
        }
    }

    fn get_blob_count(&self) -> (count: usize)
        ensures
            count == self.base().total() + self.current_count(),
    {
        self.base.total_blob_count + self.current_file_blob_count
    }

    /// Forgets the oldest closed files as long as no more than `blob_count`
    /// blobs go, and asks for each of them to be removed. The current file
    /// always stays.
    fn dispose_oldest_blobs(&mut self, blob_count: usize)
        ensures
            old(self).disposed(final(self), blob_count as nat),
    {
        let ghost files = self.base.previous_files@;
        let ghost listed = self.effects@;
        proof {
            lemma_disposable_files(files, blob_count as nat);
        }
        let mut removed = self.base.dispose_oldest_blobs(blob_count);
        let ghost gone = counted(files.take(removed@.len() as int));
        proof {
            let before = self.blobs@;
            let waiting = self.unflushed@;
            self.blobs@ = before.skip(gone as int);
            assert(before.skip(gone as int).skip(before.len() - gone - waiting.len())
                =~= before.skip(before.len() - waiting.len()));
        }
        let ghost paths = removed@;
        let mut i: usize = 0;
        let n: usize = removed.len();
        let mut rest: VecDeque<String> = VecDeque::new();
        while i < n
            invariant
                n == paths.len(),
                i <= n,
                removed@ == paths.take(n - i),
                rest@ == paths.skip(n - i),
            decreases n - i,
        {
            let path = removed.pop().unwrap();
            rest.push_front(path);
            i += 1;
            proof {
                assert(removed@ =~= paths.take(n - i));
                assert(rest@ =~= paths.skip(n - i));
            }
        }
        proof {
            assert(rest@ =~= paths);
        }
        let mut j: usize = 0;
        while j < n
            invariant
                n == paths.len(),
                j <= n,
                rest@ == paths.skip(j as int),
                effect_views(self.effects@) == effect_views(listed) + Seq::new(
                    j as nat,
                    |i: int| JournalEffectView::Remove { path: paths[i]@ },
                ),
                self.file_path == old(self).file_path,
                self.buffer == old(self).buffer,
                self.current_file_size == old(self).current_file_size,
                self.current_file_blob_count == old(self).current_file_blob_count,
                self.unflushed == old(self).unflushed,
                self.blobs@ == old(self).blobs@.skip(gone as int),
                self.base.directory_path@ == old(self).base.directory_path@,
                self.base.file_size_soft_limit == old(self).base.file_size_soft_limit,
                self.base.previous_files@ == files.skip(n as int),
                self.base.total_blob_count == old(self).base.total_blob_count - gone,
                self.base.wf(),
            decreases n - j,
        {
            let path = rest.pop_front().unwrap();
            let ghost shown = effect_views(self.effects@);
            self.effects.push(JournalEffect::Remove { path });
            j += 1;
            proof {
                assert(rest@ =~= paths.skip(j as int));
                assert(effect_views(self.effects@) =~= shown.push(
                    JournalEffectView::Remove { path: paths[j - 1]@ },
                ));
                assert(effect_views(self.effects@) =~= effect_views(listed) + Seq::new(
                    j as nat,
                    |i: int| JournalEffectView::Remove { path: paths[i]@ },
                ));
            }
        }
        proof {
            assert(Seq::new(n as nat, |i: int| JournalEffectView::Remove { path: paths[i]@ })
                =~= Seq::new(
                n as nat,
                |i: int| JournalEffectView::Remove { path: files[i].0@ },
            ));
        }
    }

    fn take_effects(&mut self) -> (effects: Vec<JournalEffect>)
        ensures
            effect_views(effects@) == old(self).effects(),
    {
        let mut effects: Vec<JournalEffect> = Vec::new();
        std::mem::swap(&mut self.effects, &mut effects);
        effects
    }

    proof fn lemma_disposable(&self, blob_count: nat) {
        lemma_disposable_files(self.base().files(), blob_count);
        lemma_disposable_files(self.base.previous_files@, blob_count);
    }
}

/// A file of the journal directory as the caller has read it.
pub struct JournalFile {
    pub path: String,
    pub data: Vec<u8>,
}

/// The files of `files` whose paths name journal files, in the same order.
pub open spec fn journal_files(files: Seq<JournalFile>) -> Seq<JournalFile>
    decreases files.len(),
{
    if files.len() == 0 {
        Seq::empty()
    } else if is_journal_path(files.last().path@) {
        journal_files(files.drop_last()).push(files.last())
    } else {
        journal_files(files.drop_last())
    }
}

/// Whether the paths of `files` ascend.
pub open spec fn paths_ascending(files: Seq<JournalFile>) -> bool {
    forall|i: int, j: int|
        0 <= i <= j < files.len() ==> path_le((#[trigger] files[i]).path@, (#[trigger] files[j]).path@)
}

/// The number of bytes in `files`.
pub open spec fn unread(files: Seq<JournalFile>) -> nat
    decreases files.len(),
{
    if files.len() == 0 {
        0
    } else {
        files[0].data@.len() + unread(files.skip(1))
    }
}

/// The blobs that a reader at position `offset` of the first of `files`
/// still finds: the whole records up to the end of the last file or to the
/// first record that is cut short.
pub open spec fn pending_of(files: Seq<JournalFile>, offset: nat) -> Seq<Seq<u8>>
    decreases files.len(),
{
    if files.len() == 0 {
        Seq::empty()
    } else {
        let rest = files[0].data@.skip(offset as int);
        if truncated(rest) {
            records(rest)
        } else {
            records(rest) + pending_of(files.skip(1), 0)
        }
    }
}

/// The files that a reader lists as closed once it has read `files` to
/// their end, where it stands at position `offset` of the first of them and
/// has read `count` blobs from it: every file with the number of its blobs.
pub open spec fn closing(files: Seq<JournalFile>, offset: nat, count: nat) -> Seq<(String, usize)>
    decreases files.len(),
{
    if files.len() == 0 {
        Seq::empty()
    } else {
        seq![
            (
                files[0].path,
                (count + records(files[0].data@.skip(offset as int)).len()) as usize,
            ),
        ] + closing(files.skip(1), 0, 0)
    }
}

/// Whether a reader at position `offset` of the first of `files` comes to a
/// record that is cut short.
pub open spec fn broken_of(files: Seq<JournalFile>, offset: nat) -> bool
    decreases files.len(),
{
    if files.len() == 0 {
        false
    } else {
        truncated(files[0].data@.skip(offset as int)) || broken_of(files.skip(1), 0)
    }
}

/// A file added at the end adds its bytes.
proof fn lemma_unread_push(files: Seq<JournalFile>, file: JournalFile)
    ensures
        unread(files.push(file)) == unread(files) + file.data@.len(),
    decreases files.len(),
{
    let all = files.push(file);
    if files.len() == 0 {
        assert(all.skip(1).len() == 0);
        assert(unread(all.skip(1)) == 0);
    } else {
        assert(all.skip(1) =~= files.skip(1).push(file));
        lemma_unread_push(files.skip(1), file);
    }
}

/// A file added anywhere adds its bytes.
proof fn lemma_unread_insert(files: Seq<JournalFile>, at: int, file: JournalFile)
    requires
        0 <= at <= files.len(),
    ensures
        unread(files.insert(at, file)) == unread(files) + file.data@.len(),
    decreases files.len(),
{
    let all = files.insert(at, file);
    if at == 0 {
        assert(all.skip(1) =~= files);
    } else {
        assert(all[0] == files[0]);
        assert(all.skip(1) =~= files.skip(1).insert(at - 1, file));
        lemma_unread_insert(files.skip(1), at - 1, file);
    }
}

/// No files make the empty multiset.
proof fn lemma_empty_multiset(files: Seq<JournalFile>)
    requires
        files.len() == 0,
    ensures
        files.to_multiset() == vstd::multiset::Multiset::<JournalFile>::empty(),
{
    broadcast use vstd::seq_lib::group_to_multiset_ensures;

    vstd::multiset::lemma_multiset_empty_len(files.to_multiset());
    assert(files.to_multiset() =~= vstd::multiset::Multiset::<JournalFile>::empty());
}

/// A file added anywhere adds itself to the multiset of the files.
proof fn lemma_insert_multiset(files: Seq<JournalFile>, at: int, file: JournalFile)
    requires
        0 <= at <= files.len(),
    ensures
        files.insert(at, file).to_multiset() == files.to_multiset().insert(file),
{
    broadcast use vstd::seq_lib::group_to_multiset_ensures;

    let all = files.insert(at, file);
    assert(all.remove(at) =~= files);
    assert(all[at] == file);
    vstd::seq_lib::to_multiset_remove(all, at);
    assert(all.contains(file));
    assert(all.to_multiset().count(file) > 0);
    assert(all.to_multiset() =~= files.to_multiset().insert(file));
}

/// Reads a directory journal that the caller has loaded.
pub struct DirectoryJournalReader {
    file_paths: VecDeque<JournalFile>,
    offset: usize,
    current_file_blob_count: usize,
    base: DirectoryJournalBase,
    consumed: Ghost<Seq<Seq<u8>>>,
}

impl DirectoryJournalReader {
    /// The files that are not read to their end, first the one that is
    /// being read.
    pub closed spec fn files(&self) -> Seq<JournalFile> {
        self.file_paths@
    }

    /// The position in the file that is being read.
    pub closed spec fn position(&self) -> nat {
        self.offset as nat
    }

    /// The number of blobs read from the file that is being read.
    pub closed spec fn current_count(&self) -> nat {
        self.current_file_blob_count as nat
    }

    /// The files that were read to their end.
    pub closed spec fn base(&self) -> DirectoryJournalBase {
        self.base
    }

    /// The blobs that were read so far.
    pub closed spec fn read_so_far(&self) -> Seq<Seq<u8>> {
        self.consumed@
    }

    /// The files that the writer starts out with once every file was read
    /// to its end: those that were read already and those that are still
    /// to be read, each with the number of its blobs.
    pub open spec fn closed_at_end(&self) -> Seq<(String, usize)> {
        self.base().files() + closing(self.files(), self.position(), self.current_count())
    }

    /// The position lies in the file that is being read, the counts add up
    /// to the blobs read so far, and they have room for the blobs to come.
    pub open spec fn well_formed(&self) -> bool {
        &&& self.base().wf()
        &&& self.files().len() == 0 ==> self.position() == 0 && self.current_count() == 0
        &&& self.files().len() > 0 ==> self.position() <= self.files()[0].data@.len()
        &&& self.read_so_far().len() == self.base().total() + self.current_count()
        &&& self.base().total() + self.current_count() + unread(self.files()) - self.position()
            <= usize::MAX
    }

    /// A reader of the journal files among `files`, in the order of their
    /// paths. Fails where the journal files hold more bytes than can be
    /// counted.
    pub fn new(config: &JournalStorageConfig, files: Vec<JournalFile>) -> (result: Result<
        Self,
        Error,
    >)
        ensures
            match result {
                Ok(reader) => {
                    &&& reader.well_formed()
                    &&& unread(journal_files(files@)) <= usize::MAX
                    &&& paths_ascending(reader.files())
                    &&& reader.files().to_multiset() == journal_files(files@).to_multiset()
                    &&& reader.position() == 0
                    &&& reader.current_count() == 0
                    &&& reader.read_so_far().len() == 0
                    &&& reader.base().files().len() == 0
                    &&& reader.closed_at_end() == closing(reader.files(), 0, 0)
                    &&& reader.base().directory() == config.path@
                    &&& reader.base().soft_limit() == config.file_size_soft_limit
                },
                Err(e) => e == Error::JournalFull && unread(journal_files(files@)) > usize::MAX,
            },
    {
        let mut input = files;
        let mut sorted: VecDeque<JournalFile> = VecDeque::new();
        let mut total: usize = 0;
        proof {
            lemma_empty_multiset(sorted@);
            assert(sorted@.to_multiset().add(journal_files(input@).to_multiset())
                =~= journal_files(files@).to_multiset());
        }
        while input.len() > 0
            invariant
                paths_ascending(sorted@),
                total == unread(sorted@),
                unread(sorted@) + unread(journal_files(input@)) == unread(journal_files(files@)),
                sorted@.to_multiset().add(journal_files(input@).to_multiset()) == journal_files(
                    files@,
                ).to_multiset(),
            decreases input@.len(),
        {
            broadcast use vstd::seq_lib::group_to_multiset_ensures;

            let ghost before = input@;
            let ghost chosen = journal_files(before.drop_last());
            let file = input.pop().unwrap();
            assert(input@ =~= before.drop_last());
            assert(file == before.last());
            if has_journal_extension(file.path.as_str()) {
                proof {
                    lemma_unread_push(chosen, file);
                }
                if file.data.len() > usize::MAX - total {
                    return Err(Error::JournalFull);
                }
                total += file.data.len();
                let mut at: usize = 0;
                while at < sorted.len() && bytes_le(
                    sorted[at].path.as_str().as_bytes(),
                    file.path.as_str().as_bytes(),
                )
                    invariant
                        at <= sorted@.len(),
                        forall|i: int|
                            0 <= i < at ==> path_le((#[trigger] sorted@[i]).path@, file.path@),
                    decreases sorted@.len() - at,
                {
                    at += 1;
                }
                let ghost earlier = sorted@;
                proof {
                    lemma_unread_insert(earlier, at as int, file);
                    lemma_insert_multiset(earlier, at as int, file);
                    if at < earlier.len() {
                        lemma_lex_le_total(
                            encode_utf8(earlier[at as int].path@),
                            encode_utf8(file.path@),
                        );
                    }
                    let later = earlier.insert(at as int, file);
                    assert forall|i: int, j: int| 0 <= i <= j < later.len() implies path_le(
                        (#[trigger] later[i]).path@,
                        (#[trigger] later[j]).path@,
                    ) by {
                        let a = encode_utf8(later[i].path@);
                        let b = encode_utf8(later[j].path@);
                        if i == j {
                            lemma_lex_le_total(a, a);
                        } else if j < at {
                            assert(later[i] == earlier[i] && later[j] == earlier[j]);
                        } else if j == at {
                            assert(later[i] == earlier[i]);
                        } else if i < at {
                            assert(later[i] == earlier[i] && later[j] == earlier[j - 1]);
                        } else if i == at {
                            assert(later[j] == earlier[j - 1]);
                            assert(path_le(earlier[at as int].path@, earlier[j - 1].path@));
                            lemma_lex_le_transitive(
                                a,
                                encode_utf8(earlier[at as int].path@),
                                b,
                            );
                        } else {
                            assert(later[i] == earlier[i - 1] && later[j] == earlier[j - 1]);
                        }
                    }
                    assert(chosen.push(file).to_multiset() =~= chosen.to_multiset().insert(file));
                }
                sorted.insert(at, file);
            }
        }
        assert(journal_files(input@).len() == 0);
        let reader = Self {
            file_paths: sorted,
            offset: 0,
            current_file_blob_count: 0,
            base: DirectoryJournalBase::new(config.path.clone(), config.file_size_soft_limit),
            consumed: Ghost(Seq::empty()),
        };
        proof {
            lemma_empty_multiset(journal_files(input@));
            assert(reader.file_paths@.to_multiset() =~= journal_files(files@).to_multiset());
            assert(reader.closed_at_end() =~= closing(reader.files(), 0, 0));
        }
        Ok(reader)
    }
}

impl JournalReader for DirectoryJournalReader {
    type Writer = DirectoryJournalWriter;

    open spec fn wf(&self) -> bool {
        self.well_formed()
    }

    open spec fn consumed(&self) -> Seq<Seq<u8>> {
        self.read_so_far()
    }

    open spec fn pending(&self) -> Seq<Seq<u8>> {
        pending_of(self.files(), self.position())
    }

    open spec fn broken(&self) -> bool {
        broken_of(self.files(), self.position())
    }

    /// Reads the next record, going on to the next file wherever a file is
    /// at its end. At the end of the last file, every file that was read is
    /// listed as closed, with the number of its blobs, and the writer starts
    /// a new file. A file that stops inside a record fails the read with
    /// `UnexpectedEof`, whatever files follow it.
    fn read_blob(self) -> (result: Result<ReadResult<Self, DirectoryJournalWriter>, Error>)
        ensures
            result matches Ok(ReadResult::End(writer)) ==> {
                &&& writer.waiting().len() == 0
                &&& writer.current_size() == 0
                &&& writer.current_count() == 0
                &&& writer.base().directory() == self.base().directory()
                &&& writer.base().soft_limit() == self.base().soft_limit()
                &&& writer.base().total() == self.read_so_far().len()
                &&& writer.base().files() == self.closed_at_end()
                &&& is_file_of(writer.path(), self.base().directory(), ".jnl"@)
                &&& writer.effects() == seq![JournalEffectView::Create { path: writer.path() }]
            },
            result matches Ok(ReadResult::Blob(_, reader)) ==> {
                &&& reader.base().directory() == self.base().directory()
                &&& reader.base().soft_limit() == self.base().soft_limit()
                &&& reader.closed_at_end() == self.closed_at_end()
            },
    {
        let mut reader = self;
        loop
            invariant
                reader.well_formed(),
                reader.consumed@ == self.consumed@,
                pending_of(reader.file_paths@, reader.offset as nat) == pending_of(
                    self.file_paths@,
                    self.offset as nat,
                ),
                broken_of(reader.file_paths@, reader.offset as nat) == broken_of(
                    self.file_paths@,
                    self.offset as nat,
                ),
                reader.base.directory_path@ == self.base.directory_path@,
                reader.base.file_size_soft_limit == self.base.file_size_soft_limit,
                reader.closed_at_end() == self.closed_at_end(),
            decreases reader.file_paths@.len(),
        {
            if reader.file_paths.len() == 0 {
                proof {
                    assert(reader.closed_at_end() =~= reader.base.previous_files@);
                }
                let writer = DirectoryJournalWriter::new(reader.base, reader.consumed);
                return Ok(ReadResult::End(writer));
            }
            let ghost files = reader.file_paths@;
            let ghost old_offset = reader.offset;
            let ghost rest = files[0].data@.skip(reader.offset as int);
            let step = read_record(reader.file_paths[0].data.as_slice(), reader.offset);
            match step {
                Err(e) => {
                    return Err(e);
                },
                Ok(Some((blob, next))) => {
                    proof {
                        let size = (next - reader.offset) as int;
                        assert(rest.skip(size) =~= files[0].data@.skip(next as int));
                        assert(pending_of(files, reader.offset as nat) =~= seq![blob@]
                            + pending_of(files, next as nat));
                        assert(pending_of(files, reader.offset as nat).skip(1) =~= pending_of(
                            files,
                            next as nat,
                        ));
                        reader.consumed@ = reader.consumed@.push(blob@);
                    }
                    let ghost before = reader.closed_at_end();
                    reader.offset = next;
                    reader.current_file_blob_count += 1;
                    proof {
                        let size = (next - old_offset) as int;
                        assert(records(rest) =~= seq![blob@] + records(rest.skip(size)));
                        assert(reader.closed_at_end() =~= before);
                    }
                    return Ok(ReadResult::Blob(blob, reader));
                },
                Ok(None) => {
                    let file = reader.file_paths.pop_front().unwrap();
                    proof {
                        assert(reader.file_paths@ =~= files.skip(1));
                        assert(records(rest).len() == 0);
                        assert(pending_of(files, reader.offset as nat) =~= pending_of(
                            files.skip(1),
                            0,
                        ));
                    }
                    let ghost before = reader.base.previous_files@ + closing(
                        files,
                        reader.offset as nat,
                        reader.current_file_blob_count as nat,
                    );
                    reader.base.push_file(file.path, reader.current_file_blob_count);
                    reader.current_file_blob_count = 0;
                    reader.offset = 0;
                    proof {
                        assert(reader.closed_at_end() =~= before);
                    }
                },
            }
        }
    }
}

} // verus!
