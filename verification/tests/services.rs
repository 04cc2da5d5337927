use ray::config::{
    Config, JournalServiceConfig, JournalStorageConfig, LogLevel, LoggingConfig, LoggingTarget,
    MachineServiceConfig, MetricsConfig, PsmConfig, RpcConfig, SnapshotServiceConfig,
    SnapshotStorageConfig,
};
use ray::directory_journal::{DirectoryJournalReader, JournalEffect, JournalFile};
use ray::directory_snapshot_storage::{DirectorySnapshotStorage, SnapshotEntry};
use ray::errors::Error;
use ray::journal_service::{
    BatchResult, JournalServiceBase, JournalServiceRequest, JournalServiceRestorer,
};
use ray::machine_service::{Machine, MachineService, MachineServiceRequest};
use ray::proto::SetRequest;
use ray::server::{run_psm, Psm};
use ray::snapshot_service::{
    read_snapshot, write_snapshot, MutationProposal, SnapshotOrder, SnapshotService,
    SnapshotStorage,
};
use ray::storage_machine::StorageMachine;
use ray::util::{reversed, Traced};
use ray::wire::append_record;
use std::collections::{BTreeMap, VecDeque};

type Service = Psm<DirectoryJournalReader, DirectorySnapshotStorage, StorageMachine, u32>;

/// The files that the effects of the services have left.
struct Disk {
    journal: BTreeMap<String, Vec<u8>>,
    snapshots: BTreeMap<String, Vec<u8>>,
    soft_limit: usize,
}

impl Disk {
    fn new() -> Self {
        Disk::with_soft_limit(64)
    }

    fn with_soft_limit(soft_limit: usize) -> Self {
        Disk { journal: BTreeMap::new(), snapshots: BTreeMap::new(), soft_limit }
    }

    /// The epochs of the blobs in the journal files, file by file.
    fn epochs(&self) -> Vec<Vec<u64>> {
        let mut files = Vec::new();
        for data in self.journal.values() {
            let mut epochs = Vec::new();
            let mut pos = 0;
            while let Some((blob, next)) = ray::wire::read_record(data, pos).unwrap() {
                let mut epoch = [0u8; 8];
                epoch.copy_from_slice(&blob[..8]);
                epochs.push(u64::from_le_bytes(epoch));
                pos = next;
            }
            files.push(epochs);
        }
        files
    }

    fn carry_out(&mut self, effects: Vec<JournalEffect>) {
        for effect in effects {
            match effect {
                JournalEffect::Create { path } => {
                    assert!(self.journal.insert(path, Vec::new()).is_none());
                }
                JournalEffect::Append { path, data } => {
                    self.journal.get_mut(&path).unwrap().extend_from_slice(&data);
                }
                JournalEffect::Remove { path } => {
                    self.journal.remove(&path);
                }
            }
        }
    }

    fn write(&mut self, order: SnapshotOrder) {
        assert!(self.snapshots.insert(order.path, order.data).is_none());
    }

    fn start(&self, config: &PsmConfig) -> Result<Service, Error> {
        let files = self
            .journal
            .iter()
            .map(|(path, data)| JournalFile { path: path.clone(), data: data.clone() })
            .collect();
        let storage_config = JournalStorageConfig {
            path: "journal".to_string(),
            file_size_soft_limit: self.soft_limit,
        };
        let reader = DirectoryJournalReader::new(&storage_config, files)?;
        let entries = self
            .snapshots
            .keys()
            .map(|path| SnapshotEntry { path: path.clone(), is_file: true })
            .collect();
        let storage = DirectorySnapshotStorage::new("snapshots", entries);
        let snapshot = storage.open_last_snapshot().map(|path| self.snapshots[&path].clone());
        run_psm(reader, storage, snapshot, config)
    }
}

fn psm_config(batch_size: usize, snapshot_interval: u64) -> PsmConfig {
    PsmConfig {
        machine_service: MachineServiceConfig::default(),
        journal_service: JournalServiceConfig { request_queue_size: 10, batch_size },
        snapshot_service: SnapshotServiceConfig { snapshot_interval, batch_size: 1000 },
    }
}

fn set(key: &str, value: &str) -> SetRequest {
    SetRequest { key: key.as_bytes().to_vec(), value: value.as_bytes().to_vec() }
}

fn batch(requests: Vec<SetRequest>) -> BatchResult<SetRequest, u32> {
    let notifiers = (0..requests.len() as u32).collect();
    BatchResult {
        mutations: requests.into_iter().map(Traced::new).collect(),
        notifiers,
        min_epoch: None,
    }
}

fn copies(proposals: &[MutationProposal<SetRequest>]) -> Vec<MutationProposal<SetRequest>> {
    proposals
        .iter()
        .map(|p| MutationProposal { mutation: p.mutation.clone(), epoch: p.epoch })
        .collect()
}

/// Passes proposals on to the machine and to the snapshot service, and a
/// snapshot, if one was taken, back to the journal.
fn distribute(service: &mut Service, disk: &mut Disk, proposals: Vec<MutationProposal<SetRequest>>) {
    for proposal in copies(&proposals) {
        let replies = service.machine_service.serve(MachineServiceRequest::Proposal {
            mutation: proposal.mutation,
            epoch: proposal.epoch,
        });
        assert!(replies.is_empty());
    }
    if proposals.is_empty() {
        return;
    }
    if let Some(order) = service.snapshot_service.serve(proposals).unwrap() {
        let min_epoch = order.min_epoch;
        disk.write(order);
        let watermark = JournalServiceBase::min_epoch_batch::<SetRequest, u32>(min_epoch);
        let outcome = service.journal_service.serve(watermark).unwrap();
        assert!(outcome.proposals.is_empty());
        disk.carry_out(outcome.effects);
    }
}

fn write_all(service: &mut Service, disk: &mut Disk, requests: Vec<SetRequest>) -> u64 {
    let outcome = service.journal_service.serve(batch(requests)).unwrap();
    disk.carry_out(outcome.effects);
    let persisted = outcome.persisted_epoch;
    distribute(service, disk, outcome.proposals);
    persisted
}

fn recover(disk: &mut Disk, config: &PsmConfig) -> Service {
    let mut service = disk.start(config).unwrap();
    let replay = std::mem::take(&mut service.replay);
    distribute(&mut service, disk, replay);
    service
}

fn get(service: &mut Service, key: &str, min_epoch: u64) -> Option<Vec<u8>> {
    let mut replies = service.machine_service.serve(MachineServiceRequest::Query {
        query: Traced::new(key.as_bytes().to_vec()),
        min_epoch,
        result: 0,
    });
    assert!(replies.len() <= 1);
    replies.pop().map(|reply| reply.status)
}

#[test]
fn write_then_read_and_again_after_restart() {
    let mut disk = Disk::new();
    let config = psm_config(10, 1000);
    let mut service = recover(&mut disk, &config);
    let persisted = write_all(&mut service, &mut disk, vec![set("hello", "world")]);
    assert_eq!(persisted, 1);
    assert_eq!(get(&mut service, "hello", persisted), Some(b"world".to_vec()));
    let mut service = recover(&mut disk, &config);
    assert_eq!(service.journal_service.persisted_epoch(), 1);
    assert_eq!(get(&mut service, "hello", 1), Some(b"world".to_vec()));
}

#[test]
fn absent_key_reads_as_no_bytes() {
    let mut disk = Disk::new();
    let mut service = recover(&mut disk, &psm_config(10, 1000));
    assert_eq!(get(&mut service, "nothing", 0), Some(Vec::new()));
}

#[test]
fn read_your_writes_across_clients() {
    let mut disk = Disk::new();
    let mut service = recover(&mut disk, &psm_config(10, 1000));
    let persisted = write_all(&mut service, &mut disk, vec![set("k", "v1")]);
    assert_eq!(get(&mut service, "k", persisted), Some(b"v1".to_vec()));
    let persisted = write_all(&mut service, &mut disk, vec![set("k", "v2")]);
    assert_eq!(persisted, 2);
    assert_eq!(get(&mut service, "k", persisted), Some(b"v2".to_vec()));
}

#[test]
fn batch_persisted_before_a_crash_is_replayed() {
    let mut disk = Disk::new();
    let config = psm_config(3, 1000);
    let mut service = recover(&mut disk, &config);
    let requests = vec![set("a", "1"), set("b", "2"), set("c", "3")];
    let outcome = service.journal_service.serve(batch(requests)).unwrap();
    assert_eq!(outcome.persisted_epoch, 3);
    assert_eq!(outcome.notifiers, vec![0, 1, 2]);
    disk.carry_out(outcome.effects);
    // the process dies before the proposals reach the machine
    drop(service);
    let service = disk.start(&config).unwrap();
    let epochs: Vec<u64> = service.replay.iter().map(|p| p.epoch).collect();
    assert_eq!(epochs, vec![1, 2, 3]);
    assert_eq!(service.replay[0].mutation.payload.key, b"a".to_vec());
    assert_eq!(service.replay[2].mutation.payload.value, b"3".to_vec());
    assert_eq!(service.machine_service.epoch(), 0);
    let mut service = recover(&mut disk, &config);
    assert_eq!(service.machine_service.epoch(), 3);
    assert_eq!(get(&mut service, "a", 3), Some(b"1".to_vec()));
    assert_eq!(get(&mut service, "b", 3), Some(b"2".to_vec()));
    assert_eq!(get(&mut service, "c", 3), Some(b"3".to_vec()));
}

#[test]
fn serve_assigns_consecutive_epochs() {
    let mut disk = Disk::new();
    let mut service = recover(&mut disk, &psm_config(10, 1000));
    let first = service.journal_service.serve(batch(vec![set("a", "1"), set("b", "2")])).unwrap();
    let epochs: Vec<u64> = first.proposals.iter().map(|p| p.epoch).collect();
    assert_eq!(epochs, vec![1, 2]);
    let second = service.journal_service.serve(batch(vec![set("a", "1")])).unwrap();
    assert_eq!(second.proposals[0].epoch, 3);
    assert_eq!(second.persisted_epoch, 3);
    assert_eq!(service.journal_service.persisted_epoch(), 3);
}

#[test]
fn serve_writes_length_epoch_and_payload() {
    let mut disk = Disk::new();
    let mut service = recover(&mut disk, &psm_config(10, 1000));
    let outcome = service.journal_service.serve(batch(vec![set("k", "v")])).unwrap();
    let appended: Vec<&Vec<u8>> = outcome
        .effects
        .iter()
        .filter_map(|effect| match effect {
            JournalEffect::Append { data, .. } => Some(data),
            _ => None,
        })
        .collect();
    assert_eq!(appended.len(), 1);
    assert_eq!(
        appended[0],
        &vec![14, 0, 0, 0, 1, 0, 0, 0, 0, 0, 0, 0, 0x0a, 1, b'k', 0x12, 1, b'v']
    );
}

#[test]
fn batch_without_mutations_persists_nothing() {
    let mut disk = Disk::new();
    let mut service = recover(&mut disk, &psm_config(10, 1000));
    let first = service.journal_service.serve(batch(Vec::new())).unwrap();
    // the file that the writer starts with
    assert_eq!(first.effects.len(), 1);
    assert!(matches!(first.effects[0], JournalEffect::Create { .. }));
    let outcome = service.journal_service.serve(batch(Vec::new())).unwrap();
    assert!(outcome.effects.is_empty());
    assert!(outcome.proposals.is_empty());
    assert_eq!(outcome.persisted_epoch, 0);
}

#[test]
fn snapshots_advance_the_watermark_and_truncate_the_journal() {
    // every record takes 28 bytes, so that a file is closed after 50 of them
    let mut disk = Disk::with_soft_limit(50 * 28);
    let config = psm_config(10, 100);
    let mut service = recover(&mut disk, &config);
    for i in 0..250 {
        let key = format!("key-{:03}", i);
        write_all(&mut service, &mut disk, vec![set(&key, "value")]);
        if i == 149 {
            // after the first snapshot the files up to epoch 100 are gone
            assert_eq!(disk.epochs(), vec![(101..=150).collect::<Vec<u64>>(), vec![]]);
        }
    }
    assert_eq!(disk.snapshots.len(), 2);
    let taken_at: Vec<u64> = disk
        .snapshots
        .values()
        .map(|data| read_snapshot::<StorageMachine>(data).unwrap().1)
        .collect();
    assert_eq!(taken_at, vec![100, 200]);
    assert!(disk.snapshots.keys().next().unwrap().ends_with("_100.snap"));
    assert!(disk.snapshots.keys().last().unwrap().ends_with("_200.snap"));
    // after the second snapshot only the file of the epochs 201 to 250 and
    // the new, empty one are left
    assert_eq!(disk.epochs(), vec![(201..=250).collect::<Vec<u64>>(), vec![]]);
    drop(service);
    let service = disk.start(&config).unwrap();
    assert_eq!(service.machine_service.epoch(), 200);
    assert_eq!(service.snapshot_service.epoch(), 200);
    assert_eq!(service.journal_service.persisted_epoch(), 250);
    let epochs: Vec<u64> = service.replay.iter().map(|p| p.epoch).collect();
    assert_eq!(epochs, (201..=250).collect::<Vec<u64>>());
    let mut service = recover(&mut disk, &config);
    assert_eq!(get(&mut service, "key-000", 250), Some(b"value".to_vec()));
    assert_eq!(get(&mut service, "key-249", 250), Some(b"value".to_vec()));
}

#[test]
fn current_file_outlives_a_snapshot_that_covers_it() {
    let mut disk = Disk::with_soft_limit(3 * 28);
    let config = psm_config(10, 4);
    let mut service = recover(&mut disk, &config);
    for i in 0..5 {
        write_all(&mut service, &mut disk, vec![set(&format!("key-{:03}", i), "value")]);
    }
    // the snapshot at epoch 4 lets the closed file go and keeps the file that
    // is written to, although its only blob is one the snapshot covers
    assert_eq!(disk.epochs(), vec![vec![4, 5]]);
    let service = disk.start(&config).unwrap();
    let epochs: Vec<u64> = service.replay.iter().map(|p| p.epoch).collect();
    assert_eq!(epochs, vec![5]);
}

#[test]
fn journal_keeps_every_epoch_from_the_watermark_on() {
    let mut disk = Disk::new();
    let config = psm_config(10, 1000);
    let mut service = recover(&mut disk, &config);
    for i in 0..40 {
        write_all(&mut service, &mut disk, vec![set(&format!("k{}", i), "some value")]);
    }
    let files_before = disk.journal.len();
    assert!(files_before > 3);
    let watermark = JournalServiceBase::min_epoch_batch::<SetRequest, u32>(21);
    let outcome = service.journal_service.serve(watermark).unwrap();
    disk.carry_out(outcome.effects);
    assert!(disk.journal.len() < files_before);
    let restorer_files: Vec<JournalFile> = disk
        .journal
        .iter()
        .map(|(path, data)| JournalFile { path: path.clone(), data: data.clone() })
        .collect();
    let storage_config =
        JournalStorageConfig { path: "journal".to_string(), file_size_soft_limit: 64 };
    let reader = DirectoryJournalReader::new(&storage_config, restorer_files).unwrap();
    let restorer = JournalServiceRestorer::<_, StorageMachine>::new(reader, 10, 20);
    let (restored, replay) = restorer.restore().unwrap();
    assert_eq!(restored.persisted_epoch(), 40);
    let epochs: Vec<u64> = replay.iter().map(|p| p.epoch).collect();
    assert_eq!(epochs, (21..=40).collect::<Vec<u64>>());
}

#[test]
fn deferred_query_is_answered_by_the_proposal_it_waits_for() {
    let mut machine: MachineService<StorageMachine, &str> =
        MachineService::new(StorageMachine::initial(), 0);
    let reply = machine.handle_query(b"k".to_vec(), 1, "waiting");
    assert!(reply.is_none());
    assert_eq!(machine.deferred_count(), 1);
    let replies = machine.handle_proposal(set("k", "v"), 1);
    assert_eq!(replies.len(), 1);
    assert_eq!(replies[0].result, "waiting");
    assert_eq!(replies[0].status, b"v".to_vec());
    assert_eq!(machine.deferred_count(), 0);
}

#[test]
fn query_for_a_far_epoch_stays_pending() {
    let mut machine: MachineService<StorageMachine, u32> =
        MachineService::new(StorageMachine::initial(), 0);
    assert!(machine.handle_query(b"k".to_vec(), 1_000_000, 7).is_none());
    for epoch in 1..=50 {
        let replies = machine.handle_proposal(set("k", "v"), epoch);
        assert!(replies.is_empty());
    }
    assert_eq!(machine.deferred_count(), 1);
    assert_eq!(machine.epoch(), 50);
}

#[test]
fn deferred_queries_are_answered_in_the_order_of_their_epochs() {
    let mut machine: MachineService<StorageMachine, u32> =
        MachineService::new(StorageMachine::initial(), 0);
    assert!(machine.handle_query(b"k".to_vec(), 3, 30).is_none());
    assert!(machine.handle_query(b"k".to_vec(), 1, 10).is_none());
    assert!(machine.handle_query(b"k".to_vec(), 2, 20).is_none());
    assert!(machine.handle_query(b"k".to_vec(), 1, 11).is_none());
    let replies = machine.handle_proposal(set("k", "a"), 1);
    let tickets: Vec<u32> = replies.iter().map(|r| r.result).collect();
    assert_eq!(tickets, vec![10, 11]);
    assert!(replies.iter().all(|r| r.status == b"a".to_vec()));
    let replies = machine.handle_proposal(set("x", "b"), 2);
    assert_eq!(replies.len(), 1);
    assert_eq!(replies[0].result, 20);
    assert_eq!(replies[0].status, b"a".to_vec());
    let replies = machine.handle_proposal(set("k", "c"), 3);
    assert_eq!(replies[0].result, 30);
    assert_eq!(replies[0].status, b"c".to_vec());
}

#[test]
fn query_at_the_current_epoch_is_answered_at_once() {
    let mut machine: MachineService<StorageMachine, u32> =
        MachineService::new(StorageMachine::initial(), 5);
    let reply = machine.handle_query(b"k".to_vec(), 5, 1).unwrap();
    assert_eq!(reply.result, 1);
    assert_eq!(reply.status, Vec::<u8>::new());
    assert!(machine.handle_query(b"k".to_vec(), 6, 2).is_none());
}

#[test]
fn machine_epoch_counts_the_proposals() {
    let mut machine: MachineService<StorageMachine, u32> =
        MachineService::new(StorageMachine::initial(), 0);
    for epoch in 1..=17 {
        machine.handle_proposal(set("k", "v"), epoch);
        assert_eq!(machine.epoch(), epoch);
    }
}

#[test]
fn request_batch_takes_the_first_and_as_many_as_fit() {
    let request = |i: u32| JournalServiceRequest { mutation: Traced::new(set("k", "v")), notify: i };
    let base = JournalServiceBase::new(3);
    let mut queue: VecDeque<_> = (1..6).map(request).collect();
    let batch = base.process_request_batch(request(0), &mut queue);
    assert_eq!(batch.notifiers, vec![0, 1, 2]);
    assert_eq!(batch.mutations.len(), 3);
    assert!(batch.min_epoch.is_none());
    assert_eq!(queue.len(), 3);
    assert_eq!(queue[0].notify, 3);
}

#[test]
fn request_batch_takes_what_is_there() {
    let request = |i: u32| JournalServiceRequest { mutation: Traced::new(set("k", "v")), notify: i };
    let base = JournalServiceBase::new(100);
    let mut queue: VecDeque<_> = (1..3).map(request).collect();
    let batch = base.process_request_batch(request(0), &mut queue);
    assert_eq!(batch.notifiers, vec![0, 1, 2]);
    assert!(queue.is_empty());
}

#[test]
fn request_batch_of_size_zero_still_takes_the_first() {
    let request = |i: u32| JournalServiceRequest { mutation: Traced::new(set("k", "v")), notify: i };
    let base = JournalServiceBase::new(0);
    let mut queue: VecDeque<_> = (1..3).map(request).collect();
    let batch = base.process_request_batch(request(0), &mut queue);
    assert_eq!(batch.notifiers, vec![0]);
    assert_eq!(queue.len(), 2);
    assert!(!base.wants_more(0));
    assert!(JournalServiceBase::new(2).wants_more(1));
    assert!(!JournalServiceBase::new(2).wants_more(2));
}

#[test]
fn blob_is_epoch_then_payload() {
    let mut blob = vec![0x2a, 0, 0, 0, 0, 0, 0, 1];
    blob.extend_from_slice(&set("k", "v").encode());
    let (mutation, epoch) =
        JournalServiceRestorer::<DirectoryJournalReader, StorageMachine>::decode_blob(blob).unwrap();
    assert_eq!(epoch, 0x0100_0000_0000_002a);
    assert_eq!(mutation.key, b"k".to_vec());
    assert_eq!(mutation.value, b"v".to_vec());
}

#[test]
fn blob_shorter_than_an_epoch_is_too_short() {
    type Restorer = JournalServiceRestorer<DirectoryJournalReader, StorageMachine>;
    assert_eq!(
        Restorer::decode_blob(vec![1, 0, 0, 0, 0, 0, 0]).err(),
        Some(Error::BlobTooShort { len: 7 })
    );
    assert_eq!(Restorer::decode_blob(Vec::new()).err(), Some(Error::BlobTooShort { len: 0 }));
}

#[test]
fn blob_of_the_empty_mutation_is_its_epoch() {
    type Restorer = JournalServiceRestorer<DirectoryJournalReader, StorageMachine>;
    let (mutation, epoch) = Restorer::decode_blob(vec![3, 0, 0, 0, 0, 0, 0, 0]).unwrap();
    assert_eq!(epoch, 3);
    assert!(mutation.key.is_empty());
    assert!(mutation.value.is_empty());
}

#[test]
fn empty_mutation_survives_a_restart() {
    let mut disk = Disk::new();
    let config = psm_config(10, 1000);
    let mut service = recover(&mut disk, &config);
    write_all(&mut service, &mut disk, vec![set("", ""), set("k", "v")]);
    let service = disk.start(&config).unwrap();
    let epochs: Vec<u64> = service.replay.iter().map(|p| p.epoch).collect();
    assert_eq!(epochs, vec![1, 2]);
    assert!(service.replay[0].mutation.payload.key.is_empty());
}

#[test]
fn traced_copy_keeps_the_identifier() {
    let traced = Traced::new(set("k", "v"));
    let copy = traced.clone();
    assert_eq!(copy.id, traced.id);
    assert_eq!(copy.payload.key, traced.payload.key);
}

#[test]
fn blob_with_broken_payload_does_not_decode() {
    type Restorer = JournalServiceRestorer<DirectoryJournalReader, StorageMachine>;
    let blob = vec![1, 0, 0, 0, 0, 0, 0, 0, 0x0a, 9, b'x'];
    assert_eq!(Restorer::decode_blob(blob).err(), Some(Error::MutationDecode));
}

#[test]
fn blob_epochs_have_to_follow() {
    type Restorer = JournalServiceRestorer<DirectoryJournalReader, StorageMachine>;
    assert_eq!(Restorer::validate_blob_epoch(6, 100, Some(5)), Ok(()));
    assert_eq!(
        Restorer::validate_blob_epoch(7, 100, Some(5)),
        Err(Error::MissingMutations { after: 5, got: 7 })
    );
    assert_eq!(
        Restorer::validate_blob_epoch(5, 100, Some(5)),
        Err(Error::MissingMutations { after: 5, got: 5 })
    );
    assert_eq!(
        Restorer::validate_blob_epoch(0, 0, Some(u64::MAX)),
        Err(Error::MissingMutations { after: u64::MAX, got: 0 })
    );
}

#[test]
fn first_blob_may_not_leave_a_gap_behind_the_snapshot() {
    type Restorer = JournalServiceRestorer<DirectoryJournalReader, StorageMachine>;
    assert_eq!(Restorer::validate_blob_epoch(101, 100, None), Ok(()));
    assert_eq!(Restorer::validate_blob_epoch(1, 100, None), Ok(()));
    assert_eq!(Restorer::validate_blob_epoch(1, 0, None), Ok(()));
    assert_eq!(
        Restorer::validate_blob_epoch(102, 100, None),
        Err(Error::MissingMutations { after: 100, got: 102 })
    );
    assert_eq!(
        Restorer::validate_blob_epoch(2, 0, None),
        Err(Error::MissingMutations { after: 0, got: 2 })
    );
    assert_eq!(Restorer::validate_blob_epoch(u64::MAX, u64::MAX, None), Ok(()));
}

fn journal_with_epochs(epochs: &[u64]) -> Vec<JournalFile> {
    let mut data = Vec::new();
    for epoch in epochs {
        let mut blob = epoch.to_le_bytes().to_vec();
        blob.extend_from_slice(&set("k", "v").encode());
        append_record(&mut data, &blob);
    }
    vec![JournalFile { path: "journal/a.jnl".to_string(), data }]
}

fn restore(
    files: Vec<JournalFile>,
    snapshot_epoch: u64,
) -> Result<(u64, Vec<u64>), Error> {
    let storage_config =
        JournalStorageConfig { path: "journal".to_string(), file_size_soft_limit: 64 };
    let reader = DirectoryJournalReader::new(&storage_config, files).unwrap();
    let restorer = JournalServiceRestorer::<_, StorageMachine>::new(reader, 10, snapshot_epoch);
    let (service, replay) = restorer.restore()?;
    Ok((service.persisted_epoch(), replay.iter().map(|p| p.epoch).collect()))
}

#[test]
fn restore_replays_what_is_later_than_the_snapshot() {
    assert_eq!(restore(journal_with_epochs(&[1, 2, 3, 4]), 0), Ok((4, vec![1, 2, 3, 4])));
    assert_eq!(restore(journal_with_epochs(&[1, 2, 3, 4]), 2), Ok((4, vec![3, 4])));
    assert_eq!(restore(journal_with_epochs(&[1, 2, 3, 4]), 4), Ok((4, vec![])));
    assert_eq!(restore(journal_with_epochs(&[3, 4, 5]), 2), Ok((5, vec![3, 4, 5])));
    assert_eq!(restore(Vec::new(), 0), Ok((0, vec![])));
}

#[test]
fn restore_fails_on_a_gap() {
    assert_eq!(
        restore(journal_with_epochs(&[1, 2, 4]), 0),
        Err(Error::MissingMutations { after: 2, got: 4 })
    );
    assert_eq!(
        restore(journal_with_epochs(&[4, 5]), 2),
        Err(Error::MissingMutations { after: 2, got: 4 })
    );
}

#[test]
fn restore_fails_where_the_journal_ends_before_the_snapshot() {
    assert_eq!(
        restore(journal_with_epochs(&[1, 2, 3]), 5),
        Err(Error::JournalBehindSnapshot { snapshot_epoch: 5, last_epoch: 3 })
    );
    assert_eq!(
        restore(Vec::new(), 5),
        Err(Error::JournalBehindSnapshot { snapshot_epoch: 5, last_epoch: 0 })
    );
}

#[test]
fn restore_fails_on_a_corrupt_tail() {
    let mut files = journal_with_epochs(&[1, 2, 3]);
    let len = files[0].data.len();
    files[0].data.truncate(len - 3);
    assert_eq!(restore(files, 0), Err(Error::UnexpectedEof));
}

#[test]
fn startup_refuses_a_journal_with_a_corrupt_tail() {
    let mut disk = Disk::new();
    let config = psm_config(10, 1000);
    let mut service = recover(&mut disk, &config);
    write_all(&mut service, &mut disk, vec![set("a", "1"), set("b", "2")]);
    let last = disk.journal.values_mut().find(|data| !data.is_empty()).unwrap();
    last.pop();
    assert_eq!(disk.start(&config).err(), Some(Error::UnexpectedEof));
}

#[test]
fn snapshot_is_epoch_then_dump() {
    let mut machine = StorageMachine::initial();
    machine.apply_mutation(set("k", "v"));
    let data = write_snapshot(&machine, 0x0102).unwrap();
    assert_eq!(data, vec![2, 1, 0, 0, 0, 0, 0, 0, 6, 0, 0, 0, 0x0a, 1, b'k', 0x12, 1, b'v']);
    let (loaded, epoch) = read_snapshot::<StorageMachine>(&data).unwrap();
    assert_eq!(epoch, 0x0102);
    assert_eq!(loaded.query_state(b"k".to_vec()), b"v".to_vec());
}

#[test]
fn snapshot_without_room_for_an_epoch_is_too_short() {
    assert_eq!(
        read_snapshot::<StorageMachine>(&[1, 2, 3]).err(),
        Some(Error::SnapshotTooShort { len: 3 })
    );
}

#[test]
fn snapshot_with_a_broken_dump_does_not_load() {
    let data = vec![1, 0, 0, 0, 0, 0, 0, 0, 9, 0, 0, 0, 1];
    assert_eq!(read_snapshot::<StorageMachine>(&data).err(), Some(Error::UnexpectedEof));
    let data = vec![1, 0, 0, 0, 0, 0, 0, 0, 2, 0, 0, 0, 0x0a, 7];
    assert_eq!(read_snapshot::<StorageMachine>(&data).err(), Some(Error::MutationDecode));
}

#[test]
fn machine_survives_its_dump() {
    let mut machine = StorageMachine::initial();
    for i in 0..300u32 {
        machine.apply_mutation(SetRequest {
            key: i.to_be_bytes().to_vec(),
            value: vec![i as u8; (i % 7) as usize],
        });
    }
    machine.apply_mutation(set("", "empty key"));
    machine.apply_mutation(set("empty value", ""));
    let dump = machine.write_snapshot().unwrap();
    let loaded = StorageMachine::from_snapshot(&dump).unwrap();
    assert_eq!(loaded.len(), machine.len());
    for i in 0..300u32 {
        assert_eq!(
            loaded.query_state(i.to_be_bytes().to_vec()),
            vec![i as u8; (i % 7) as usize]
        );
    }
    assert_eq!(loaded.query_state(Vec::new()), b"empty key".to_vec());
    assert_eq!(loaded.len(), 302);
}

#[test]
fn empty_value_is_a_value() {
    let mut machine = StorageMachine::initial();
    machine.apply_mutation(set("k", "v"));
    machine.apply_mutation(set("k", ""));
    assert_eq!(machine.len(), 1);
    assert_eq!(machine.query_state(b"k".to_vec()), Vec::<u8>::new());
    machine.apply_mutation(set("other", ""));
    assert_eq!(machine.len(), 2);
    let loaded = StorageMachine::from_snapshot(&machine.write_snapshot().unwrap()).unwrap();
    assert_eq!(loaded.len(), 2);
}

#[test]
fn setting_twice_reads_the_same_under_two_epochs() {
    let mut disk = Disk::new();
    let mut service = recover(&mut disk, &psm_config(10, 1000));
    let first = write_all(&mut service, &mut disk, vec![set("k", "v")]);
    let once = get(&mut service, "k", first);
    let second = write_all(&mut service, &mut disk, vec![set("k", "v")]);
    assert_eq!((first, second), (1, 2));
    assert_eq!(get(&mut service, "k", second), once);
}

#[test]
fn machine_overwrites_and_duplicates() {
    let mut machine = StorageMachine::initial();
    machine.apply_mutation(set("a", "1"));
    machine.apply_mutation(set("b", "2"));
    machine.apply_mutation(set("a", "3"));
    assert_eq!(machine.len(), 2);
    assert_eq!(machine.query_state(b"a".to_vec()), b"3".to_vec());
    let copy = machine.duplicate();
    machine.apply_mutation(set("a", "4"));
    assert_eq!(copy.query_state(b"a".to_vec()), b"3".to_vec());
    assert_eq!(machine.query_state(b"a".to_vec()), b"4".to_vec());
    assert_eq!(StorageMachine::default().len(), 0);
}

#[test]
fn interval_of_one_snapshots_every_mutation() {
    let storage = DirectorySnapshotStorage::new("snapshots", Vec::new());
    let mut service = SnapshotService::new(storage, StorageMachine::initial(), 0, 1, 10);
    for epoch in 1..=5u64 {
        let proposals = vec![MutationProposal { mutation: Traced::new(set("k", "v")), epoch }];
        let order = service.serve(proposals).unwrap().unwrap();
        assert_eq!(order.min_epoch, epoch + 1);
        assert_eq!(&order.data[..8], &epoch.to_le_bytes());
        assert!(order.path.ends_with(&format!("_{}.snap", epoch)));
    }
}

#[test]
fn snapshot_waits_for_the_interval() {
    let storage = DirectorySnapshotStorage::new("snapshots", Vec::new());
    let mut service = SnapshotService::new(storage, StorageMachine::initial(), 10, 3, 10);
    let proposal = |epoch: u64| MutationProposal { mutation: Traced::new(set("k", "v")), epoch };
    assert!(service.serve(vec![proposal(11), proposal(12)]).unwrap().is_none());
    assert!(service.serve(Vec::new()).unwrap().is_none());
    let order = service.serve(vec![proposal(13), proposal(14)]).unwrap().unwrap();
    assert_eq!(order.min_epoch, 15);
    assert_eq!(service.epoch(), 14);
    assert!(service.serve(vec![proposal(15), proposal(16)]).unwrap().is_none());
    assert!(service.serve(vec![proposal(17)]).unwrap().is_some());
    assert!(service.wants_more(9));
    assert!(!service.wants_more(10));
}

#[test]
fn snapshot_at_the_last_epoch_fails() {
    let storage = DirectorySnapshotStorage::new("snapshots", Vec::new());
    let mut service =
        SnapshotService::new(storage, StorageMachine::initial(), u64::MAX, 0, 10);
    assert_eq!(service.make_snapshot().err(), Some(Error::EpochExhausted));
}

#[test]
fn journal_at_the_last_epoch_takes_no_mutation() {
    let files = journal_with_epochs(&[u64::MAX]);
    let storage_config =
        JournalStorageConfig { path: "journal".to_string(), file_size_soft_limit: 64 };
    let reader = DirectoryJournalReader::new(&storage_config, files).unwrap();
    let restorer = JournalServiceRestorer::<_, StorageMachine>::new(reader, 10, u64::MAX);
    let (mut service, _) = restorer.restore().unwrap();
    assert_eq!(service.serve(batch(vec![set("k", "v")])).err(), Some(Error::EpochExhausted));
    assert_eq!(service.persisted_epoch(), u64::MAX);
}

#[test]
fn traced_keeps_payload_and_identifier() {
    let traced = Traced::new(5u32);
    let id = traced.id;
    let mapped = traced.map(|n| n + 1);
    assert_eq!(mapped.id, id);
    assert_eq!(mapped.payload, 6);
    let other = Traced::with_id(id, "x");
    assert_eq!(other.id, id);
    assert_eq!(other.into_payload(), "x");
    assert_ne!(Traced::new(0u8).id, Traced::new(0u8).id);
}

#[test]
fn reversed_turns_the_order() {
    assert_eq!(reversed(vec![1, 2, 3]), vec![3, 2, 1]);
    assert_eq!(reversed(Vec::<u8>::new()), Vec::<u8>::new());
}

#[test]
fn defaults_of_the_configuration() {
    let config = Config::default();
    assert_eq!(config.rpc.threads, 0);
    assert_eq!(config.rpc.address, "127.0.0.1");
    assert_eq!(config.rpc.port, 39172);
    assert_eq!(config.psm.machine_service.request_queue_size, 10000);
    assert_eq!(config.psm.machine_service.mutation_queue_size, 10000);
    assert_eq!(config.psm.journal_service.request_queue_size, 10000);
    assert_eq!(config.psm.journal_service.batch_size, 100);
    assert_eq!(config.psm.snapshot_service.snapshot_interval, 10000);
    assert_eq!(config.psm.snapshot_service.batch_size, 100_000);
    assert_eq!(config.journal_storage.path, "./journal");
    assert_eq!(config.journal_storage.file_size_soft_limit, 100_000_000);
    assert_eq!(config.snapshot_storage.path, "./snapshots");
    assert_eq!(config.logging.buffer_size, 1_000_000);
    assert_eq!(config.logging.modules, vec!["ray".to_string(), "panic".to_string()]);
    assert_eq!(config.logging.targets.len(), 1);
    assert!(matches!(config.logging.targets[0].target, LoggingTarget::Stderr));
    assert_eq!(config.logging.targets[0].level, LogLevel::Info);
    assert!(config.metrics.enable);
    assert_eq!(config.metrics.address, "127.0.0.1");
    assert_eq!(config.metrics.port, 40000);
}

#[test]
fn defaults_of_the_parts_of_the_configuration() {
    assert_eq!(RpcConfig::default().port, 39172);
    assert_eq!(PsmConfig::default().journal_service.batch_size, 100);
    assert_eq!(JournalStorageConfig::default().path, "./journal");
    assert_eq!(SnapshotStorageConfig::default().path, "./snapshots");
    assert_eq!(LoggingConfig::default().buffer_size, 1_000_000);
    assert_eq!(MetricsConfig::default().port, 40000);
}

#[test]
fn zero_threads_stand_for_one_per_processor() {
    let mut rpc = RpcConfig::default();
    assert_eq!(rpc.worker_threads(8), 8);
    rpc.threads = 3;
    assert_eq!(rpc.worker_threads(8), 3);
}

#[test]
fn later_query_sees_what_an_earlier_one_saw() {
    let mut machine: MachineService<StorageMachine, u32> =
        MachineService::new(StorageMachine::initial(), 0);
    machine.handle_proposal(set("a", "1"), 1);
    let earlier = machine.handle_query(b"a".to_vec(), 1, 0).unwrap().status;
    machine.handle_proposal(set("b", "2"), 2);
    let later_a = machine.handle_query(b"a".to_vec(), 1, 0).unwrap().status;
    let later_b = machine.handle_query(b"b".to_vec(), 2, 0).unwrap().status;
    assert_eq!(earlier, b"1".to_vec());
    assert_eq!(later_a, earlier);
    assert_eq!(later_b, b"2".to_vec());
}

#[test]
fn snapshot_service_counts_the_proposals() {
    let storage = DirectorySnapshotStorage::new("snapshots", Vec::new());
    let mut service = SnapshotService::new(storage, StorageMachine::initial(), 7, 1000, 10);
    let proposals = (8..=12u64)
        .map(|epoch| MutationProposal { mutation: Traced::new(set("k", "v")), epoch })
        .collect();
    service.apply_mutation_batch(proposals);
    assert_eq!(service.epoch(), 12);
}

#[test]
fn journal_that_was_emptied_behind_a_snapshot_does_not_start() {
    let mut disk = Disk::new();
    let mut config = psm_config(10, 1);
    config.snapshot_service.snapshot_interval = 1;
    let storage_config =
        JournalStorageConfig { path: "journal".to_string(), file_size_soft_limit: 0 };
    let reader = DirectoryJournalReader::new(&storage_config, Vec::new()).unwrap();
    let storage = DirectorySnapshotStorage::new("snapshots", Vec::new());
    let mut service: Service = run_psm(reader, storage, None, &config).unwrap();
    write_all(&mut service, &mut disk, vec![set("k", "v")]);
    assert_eq!(disk.snapshots.len(), 1);
    assert!(disk.journal.values().all(|data| data.is_empty()));
    assert_eq!(
        disk.start(&config).err(),
        Some(Error::JournalBehindSnapshot { snapshot_epoch: 1, last_epoch: 0 })
    );
}
