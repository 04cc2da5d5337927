use ray::config::JournalStorageConfig;
use ray::directory_journal::{
    bytes_le, has_journal_extension, open_new_file, DirectoryJournalBase, DirectoryJournalReader,
    DirectoryJournalWriter, JournalEffect, JournalFile,
};
use ray::directory_snapshot_storage::{
    has_snapshot_extension, DirectorySnapshotStorage, SnapshotEntry,
};
use ray::errors::Error;
use ray::journal_service::{JournalReader, JournalWriter, ReadResult};
use ray::snapshot_service::SnapshotStorage;
use ray::wire::append_record;

fn config(limit: usize) -> JournalStorageConfig {
    JournalStorageConfig { path: "journal".to_string(), file_size_soft_limit: limit }
}

fn file(path: &str, blobs: &[&[u8]]) -> JournalFile {
    let mut data = Vec::new();
    for blob in blobs {
        append_record(&mut data, blob);
    }
    JournalFile { path: path.to_string(), data }
}

fn read_all(reader: DirectoryJournalReader) -> Result<(Vec<Vec<u8>>, DirectoryJournalWriter), Error> {
    let mut blobs = Vec::new();
    let mut reader = reader;
    loop {
        match reader.read_blob()? {
            ReadResult::Blob(blob, next) => {
                blobs.push(blob);
                reader = next;
            }
            ReadResult::End(writer) => return Ok((blobs, writer)),
        }
    }
}

fn writer_for(limit: usize) -> DirectoryJournalWriter {
    let reader = DirectoryJournalReader::new(&config(limit), Vec::new()).unwrap();
    let (_, mut writer) = read_all(reader).unwrap();
    writer.take_effects();
    writer
}

#[test]
fn byte_order_of_paths() {
    assert!(bytes_le(b"", b""));
    assert!(bytes_le(b"", b"a"));
    assert!(!bytes_le(b"a", b""));
    assert!(bytes_le(b"abc", b"abd"));
    assert!(!bytes_le(b"abd", b"abc"));
    assert!(bytes_le(b"ab", b"abc"));
    assert!(!bytes_le(b"abc", b"ab"));
    assert!(bytes_le(b"same", b"same"));
    assert!(bytes_le(&[0x7f], &[0x80]));
}

#[test]
fn journal_extension_is_recognised() {
    assert!(has_journal_extension("journal/2020-01-01T00:00:00+00:00.jnl"));
    assert!(has_journal_extension(".jnl"));
    assert!(!has_journal_extension("jnl"));
    assert!(!has_journal_extension("a.jnl.tmp"));
    assert!(!has_journal_extension("a.snap"));
    assert!(!has_journal_extension(""));
}

#[test]
fn snapshot_extension_is_recognised() {
    assert!(has_snapshot_extension("snapshots/2020-01-01T00:00:00+00:00_100.snap"));
    assert!(has_snapshot_extension(".snap"));
    assert!(!has_snapshot_extension("snap"));
    assert!(!has_snapshot_extension("a.jnl"));
}

#[test]
fn new_journal_file_is_named_after_directory_and_time() {
    let path = open_new_file("journal");
    assert!(path.starts_with("journal/"));
    assert!(path.ends_with(".jnl"));
    assert!(path.len() > "journal/.jnl".len());
    assert!(has_journal_extension(&path));
}

#[test]
fn reader_of_empty_directory_ends_at_once() {
    let reader = DirectoryJournalReader::new(&config(100), Vec::new()).unwrap();
    let (blobs, mut writer) = read_all(reader).unwrap();
    assert!(blobs.is_empty());
    assert_eq!(writer.get_blob_count(), 0);
    let effects = writer.take_effects();
    assert_eq!(effects.len(), 1);
    match &effects[0] {
        JournalEffect::Create { path } => assert_eq!(path, writer.file_path()),
        _ => panic!("a new file is created first"),
    }
}

#[test]
fn reader_yields_blobs_in_path_order() {
    let files = vec![
        file("journal/c.jnl", &[b"five"]),
        file("journal/a.jnl", &[b"one", b"two"]),
        file("journal/ignored.txt", &[b"never"]),
        file("journal/b.jnl", &[b"three", b"four"]),
    ];
    let reader = DirectoryJournalReader::new(&config(100), files).unwrap();
    let (blobs, writer) = read_all(reader).unwrap();
    let expected: Vec<Vec<u8>> =
        vec![b"one".to_vec(), b"two".to_vec(), b"three".to_vec(), b"four".to_vec(), b"five".to_vec()];
    assert_eq!(blobs, expected);
    assert_eq!(writer.get_blob_count(), 5);
}

#[test]
fn reader_passes_over_empty_files() {
    let files = vec![
        file("journal/a.jnl", &[]),
        file("journal/b.jnl", &[b"x"]),
        file("journal/c.jnl", &[]),
    ];
    let reader = DirectoryJournalReader::new(&config(100), files).unwrap();
    let (blobs, writer) = read_all(reader).unwrap();
    assert_eq!(blobs, vec![b"x".to_vec()]);
    assert_eq!(writer.get_blob_count(), 1);
}

#[test]
fn reader_fails_on_a_tail_cut_inside_a_blob() {
    let mut last = file("journal/b.jnl", &[b"whole", b"broken"]);
    last.data.truncate(last.data.len() - 2);
    let files = vec![file("journal/a.jnl", &[b"first"]), last];
    let reader = DirectoryJournalReader::new(&config(100), files).unwrap();
    let mut reader = reader;
    let mut seen = Vec::new();
    let failure = loop {
        match reader.read_blob() {
            Ok(ReadResult::Blob(blob, next)) => {
                seen.push(blob);
                reader = next;
            }
            Ok(ReadResult::End(_)) => panic!("a cut journal must not read as if it ended"),
            Err(e) => break e,
        }
    };
    assert_eq!(failure, Error::UnexpectedEof);
    assert_eq!(seen, vec![b"first".to_vec(), b"whole".to_vec()]);
}

#[test]
fn reader_fails_on_a_tail_cut_inside_a_length() {
    let mut only = file("journal/a.jnl", &[b"whole"]);
    only.data.extend_from_slice(&[1, 0]);
    let reader = DirectoryJournalReader::new(&config(100), vec![only]).unwrap();
    assert_eq!(read_all(reader).err(), Some(Error::UnexpectedEof));
}

#[test]
fn reader_fails_on_a_cut_file_in_the_middle() {
    let mut first = file("journal/a.jnl", &[b"whole"]);
    first.data.push(9);
    let files = vec![first, file("journal/b.jnl", &[b"later"])];
    let reader = DirectoryJournalReader::new(&config(100), files).unwrap();
    assert_eq!(read_all(reader).err(), Some(Error::UnexpectedEof));
}

#[test]
fn append_buffers_until_persist() {
    let mut writer = writer_for(1000);
    let path = writer.file_path().clone();
    writer.append_blob(b"abc").unwrap();
    writer.append_blob(b"de").unwrap();
    assert_eq!(writer.get_blob_count(), 2);
    assert_eq!(writer.current_file_size(), 3 + 4 + 2 + 4);
    assert!(writer.take_effects().is_empty());
    writer.persist();
    let effects = writer.take_effects();
    assert_eq!(effects.len(), 1);
    match &effects[0] {
        JournalEffect::Append { path: to, data } => {
            assert_eq!(to, &path);
            assert_eq!(data, &vec![3, 0, 0, 0, b'a', b'b', b'c', 2, 0, 0, 0, b'd', b'e']);
        }
        _ => panic!("the buffer is appended"),
    }
    assert_eq!(writer.file_path(), &path);
}

#[test]
fn persist_rotates_once_the_soft_limit_is_reached() {
    let mut writer = writer_for(10);
    let first = writer.file_path().clone();
    writer.append_blob(b"12345").unwrap();
    writer.persist();
    assert_eq!(writer.file_path(), &first);
    assert_eq!(writer.take_effects().len(), 1);
    writer.append_blob(b"6").unwrap();
    assert_eq!(writer.current_file_size(), 14);
    writer.persist();
    assert_ne!(writer.file_path(), &first);
    assert_eq!(writer.current_file_size(), 0);
    assert_eq!(writer.get_blob_count(), 2);
    let effects = writer.take_effects();
    assert_eq!(effects.len(), 2);
    assert!(matches!(&effects[0], JournalEffect::Append { path, .. } if path == &first));
    assert!(matches!(&effects[1], JournalEffect::Create { path } if path == writer.file_path()));
}

#[test]
fn large_blob_stays_in_one_file() {
    let mut writer = writer_for(16);
    let path = writer.file_path().clone();
    writer.append_blob(&[1u8; 10]).unwrap();
    writer.append_blob(&[2u8; 1000]).unwrap();
    assert_eq!(writer.file_path(), &path);
    writer.persist();
    let effects = writer.take_effects();
    match &effects[0] {
        JournalEffect::Append { path: to, data } => {
            assert_eq!(to, &path);
            assert_eq!(data.len(), 14 + 1004);
        }
        _ => panic!("the buffer is appended"),
    }
    assert_ne!(writer.file_path(), &path);
}

#[test]
fn zero_soft_limit_rotates_at_every_persist() {
    let mut writer = writer_for(0);
    let mut seen = vec![writer.file_path().clone()];
    for round in 0..3 {
        writer.append_blob(&[round as u8]).unwrap();
        writer.persist();
        let effects = writer.take_effects();
        assert_eq!(effects.len(), 2);
        assert!(!seen.contains(writer.file_path()));
        seen.push(writer.file_path().clone());
    }
    writer.persist();
    assert_eq!(writer.take_effects().len(), 2);
    assert_eq!(writer.get_blob_count(), 3);
}

#[test]
fn base_disposes_whole_files_within_the_budget() {
    let mut base = DirectoryJournalBase::new("journal".to_string(), 100);
    base.push_file("a".to_string(), 3);
    base.push_file("b".to_string(), 2);
    base.push_file("c".to_string(), 4);
    assert_eq!(base.dispose_oldest_blobs(2), Vec::<String>::new());
    assert_eq!(base.dispose_oldest_blobs(4), vec!["a".to_string()]);
    assert_eq!(base.dispose_oldest_blobs(6), vec!["b".to_string(), "c".to_string()]);
    assert_eq!(base.dispose_oldest_blobs(100), Vec::<String>::new());
}

#[test]
fn base_disposes_files_without_blobs() {
    let mut base = DirectoryJournalBase::new("journal".to_string(), 100);
    base.push_file("empty".to_string(), 0);
    base.push_file("full".to_string(), 5);
    assert_eq!(base.dispose_oldest_blobs(0), vec!["empty".to_string()]);
    assert_eq!(base.dispose_oldest_blobs(4), Vec::<String>::new());
}

#[test]
fn writer_disposes_closed_files_and_keeps_the_current_one() {
    let files = vec![
        file("journal/a.jnl", &[b"1", b"2"]),
        file("journal/b.jnl", &[b"3", b"4", b"5"]),
    ];
    let reader = DirectoryJournalReader::new(&config(1000), files).unwrap();
    let (_, mut writer) = read_all(reader).unwrap();
    writer.take_effects();
    writer.append_blob(b"6").unwrap();
    assert_eq!(writer.get_blob_count(), 6);
    writer.dispose_oldest_blobs(1);
    assert_eq!(writer.get_blob_count(), 6);
    assert!(writer.take_effects().is_empty());
    writer.dispose_oldest_blobs(4);
    assert_eq!(writer.get_blob_count(), 4);
    let effects = writer.take_effects();
    assert_eq!(effects.len(), 1);
    assert!(matches!(&effects[0], JournalEffect::Remove { path } if path == "journal/a.jnl"));
    writer.dispose_oldest_blobs(100);
    assert_eq!(writer.get_blob_count(), 1);
    let effects = writer.take_effects();
    assert!(matches!(&effects[0], JournalEffect::Remove { path } if path == "journal/b.jnl"));
    writer.dispose_oldest_blobs(100);
    assert_eq!(writer.get_blob_count(), 1);
    assert!(writer.take_effects().is_empty());
}

#[test]
fn newest_snapshot_has_the_greatest_path() {
    let entries = vec![
        SnapshotEntry { path: "s/2020-01-02_200.snap".to_string(), is_file: true },
        SnapshotEntry { path: "s/2020-01-03_300.snap".to_string(), is_file: true },
        SnapshotEntry { path: "s/2020-01-01_100.snap".to_string(), is_file: true },
        SnapshotEntry { path: "s/2020-01-09_900.snap".to_string(), is_file: false },
        SnapshotEntry { path: "s/2020-01-08_800.tmp".to_string(), is_file: true },
    ];
    let storage = DirectorySnapshotStorage::new("s", entries);
    assert_eq!(storage.open_last_snapshot(), Some("s/2020-01-03_300.snap".to_string()));
}

#[test]
fn no_snapshot_in_a_directory_without_snapshots() {
    let storage = DirectorySnapshotStorage::new("s", Vec::new());
    assert_eq!(storage.open_last_snapshot(), None);
    let entries = vec![SnapshotEntry { path: "s/readme".to_string(), is_file: true }];
    let storage = DirectorySnapshotStorage::new("s", entries);
    assert_eq!(storage.open_last_snapshot(), None);
}

#[test]
fn created_snapshot_is_named_after_time_and_tag() {
    let mut storage = DirectorySnapshotStorage::new("snapshots", Vec::new());
    let path = storage.create_snapshot("42");
    assert!(path.starts_with("snapshots/"));
    assert!(path.ends_with("_42.snap"));
    assert_eq!(storage.open_last_snapshot(), Some(path));
}
