//! Bringing the persistent state machine up.
//!
//! The machine is loaded from the newest snapshot, the journal is read back
//! and checked against it, and what the journal holds beyond the snapshot
//! is handed out for replay. The three services start from there.

use crate::config::PsmConfig;
use crate::errors::Error;
use crate::journal_service::{
    after_snapshot, last_epoch_of, lemma_after_snapshot, lemma_replay, proposal_views, replay,
    JournalReader, JournalService, JournalServiceRestorer,
};
use crate::machine_service::{Machine, MachineService};
use crate::snapshot_service::{
    follow_on, read_snapshot, snapshot_dump, snapshot_epoch, MutationProposal, SnapshotService,
    SnapshotStorage,
};
use vstd::prelude::*;

verus! {

/// The three services of a persistent state machine, ready to serve once
/// the proposals of `replay` were passed, in order, to the machine service
/// and to the snapshot service.
pub struct Psm<R: JournalReader, S: SnapshotStorage, M: Machine, Q> {
    pub journal_service: JournalService<R::Writer, M>,
    pub machine_service: MachineService<M, Q>,
    pub snapshot_service: SnapshotService<S, M>,
    pub replay: Vec<MutationProposal<M::Mutation>>,
}

/// The state and the epoch that recovery starts from: those of the
/// snapshot, or the initial state and epoch zero where there is none.
pub open spec fn starting_point<M: Machine>(snapshot: Option<Vec<u8>>) -> Option<(M::State, u64)> {
    match snapshot {
        Some(data) => if data@.len() < 8 {
            None
        } else {
            match M::dump_state(snapshot_dump(data@)) {
                Some(state) => Some((state, snapshot_epoch(data@))),
                None => None,
            }
        },
        None => Some((M::initial_state(), 0)),
    }
}

/// Recovers the persistent state machine.
///
/// `snapshot` is the content of the newest snapshot of `storage`, if there
/// is one, and `journal_reader` reads the journal from its start. The
/// machine service and the snapshot service start in the state and at the
/// epoch of the snapshot, the journal service at the last epoch of the
/// journal, and the proposals to replay carry the epochs in between.
///
/// Fails where the snapshot does not load, where the journal is cut short,
/// where a blob of it does not decode or does not follow, and where it
/// ends before the epoch of the snapshot.
pub fn run_psm<M: Machine, R: JournalReader, S: SnapshotStorage, Q>(
    journal_reader: R,
    storage: S,
    snapshot: Option<Vec<u8>>,
    config: &PsmConfig,
) -> (result: Result<Psm<R, S, M, Q>, Error>)
    requires
        journal_reader.wf(),
        journal_reader.consumed().len() == 0,
    ensures
        match starting_point::<M>(snapshot) {
            None => result is Err,
            Some((state, epoch)) => match replay::<M>(journal_reader.pending(), epoch) {
                Err(e) => result matches Err(err) && err == e,
                Ok(entries) => if journal_reader.broken() {
                    result matches Err(err) && err == Error::UnexpectedEof
                } else if last_epoch_of(entries) < epoch {
                    result matches Err(err) && err == (Error::JournalBehindSnapshot {
                        snapshot_epoch: epoch,
                        last_epoch: last_epoch_of(entries),
                    })
                } else {
                    &&& result matches Ok(psm)
                    &&& psm.machine_service.wf()
                    &&& psm.machine_service.state() == state
                    &&& psm.machine_service.applied_epoch() == epoch
                    &&& psm.machine_service.deferred().len() == 0
                    &&& psm.snapshot_service.wf()
                    &&& psm.snapshot_service.state() == state
                    &&& psm.snapshot_service.applied_epoch() == epoch
                    &&& psm.snapshot_service.last_snapshot() == epoch
                    &&& psm.snapshot_service.interval() == config.snapshot_service.snapshot_interval
                    &&& psm.snapshot_service.limit() == config.snapshot_service.batch_size
                    &&& psm.snapshot_service.storage() == storage
                    &&& psm.journal_service.wf()
                    &&& psm.journal_service.journal() == journal_reader.pending()
                    &&& psm.journal_service.batching().limit() == config.journal_service.batch_size
                    &&& psm.journal_service.epoch() == last_epoch_of(entries)
                    &&& psm.journal_service.epoch() == epoch + psm.replay@.len()
                    &&& proposal_views(psm.replay@) == after_snapshot(entries, epoch)
                    &&& follow_on(psm.replay@, epoch)
                },
            },
        },
{
    let (machine, epoch) = match snapshot {
        Some(data) => match read_snapshot::<M>(data.as_slice()) {
            Ok(loaded) => loaded,
            Err(e) => {
                return Err(e);
            },
        },
        None => (M::initial(), 0),
    };
    let restorer = JournalServiceRestorer::<R, M>::new(
        journal_reader,
        config.journal_service.batch_size,
        epoch,
    );
    let (journal_service, proposals) = match restorer.restore() {
        Ok(restored) => restored,
        Err(e) => {
            return Err(e);
        },
    };
    proof {
        let entries = replay::<M>(journal_reader.pending(), epoch)->Ok_0;
        let blobs = journal_reader.pending();
        lemma_replay::<M>(blobs, epoch);
        assert forall|i: int| 0 <= i < entries.len() implies (#[trigger] entries[i]).1
            == entries[0].1 + i by {
            assert(blobs[i].len() >= 8);
        }
        lemma_after_snapshot(entries, epoch);
        let later = after_snapshot(entries, epoch);
        assert forall|i: int| 0 <= i < proposals@.len() implies (#[trigger] proposals@[i]).epoch
            == epoch + 1 + i by {
            assert(proposal_views(proposals@)[i] == later[i]);
        }
    }
    let snapshot_machine = machine.duplicate();
    let snapshot_service = SnapshotService::new(
        storage,
        snapshot_machine,
        epoch,
        config.snapshot_service.snapshot_interval,
        config.snapshot_service.batch_size,
    );
    let machine_service = MachineService::new(machine, epoch);
    Ok(Psm { journal_service, machine_service, snapshot_service, replay: proposals })
}

} // verus!
