//! Snapshots: full dumps of the machine that bound recovery and the journal.
//!
//! The snapshot service keeps a machine of its own, applies the same
//! proposals as the machine service, and dumps its machine whenever enough
//! mutations have come in since the last dump. Each snapshot tells the
//! journal which epochs it no longer has to keep.

use crate::errors::Error;
use crate::machine_service::{apply_all, Machine};
use crate::util::Traced;
use crate::wire::{append_bytes, le_bytes, le_value, read_u64_le, u64_le};
use vstd::prelude::*;

verus! {

/// The path of the snapshot file of `directory` that is named after the
/// time `stamp` and tagged `tag`.
pub open spec fn snapshot_path(directory: Seq<char>, stamp: Seq<char>, tag: Seq<char>) -> Seq<
    char,
> {
    directory + "/"@ + stamp + "_"@ + tag + ".snap"@
}

/// Where snapshots are kept.
///
/// A storage knows which files it holds and names the files that are to be
/// added; reading and writing them is left to the caller.
pub trait SnapshotStorage {
    /// The directory of the storage.
    spec fn location(&self) -> Seq<char>;

    /// The path of the newest snapshot of the storage, if it holds one.
    spec fn newest(&self) -> Option<Seq<char>>;

    /// The path under which a new snapshot tagged `name` is to be written.
    /// The file must not exist yet.
    fn create_snapshot(&mut self, name: &str) -> (path: String)
        ensures
            final(self).location() == old(self).location(),
            exists|stamp: Seq<char>|
                path@ == #[trigger] snapshot_path(old(self).location(), stamp, name@),
    ;

    /// The path of the snapshot to load: the newest one.
    fn open_last_snapshot(&self) -> (path: Option<String>)
        ensures
            match path {
                Some(p) => self.newest() == Some(p@),
                None => self.newest() is None,
            },
    ;
}

/// A mutation together with the epoch it was journaled under.
#[derive(Debug)]
pub struct MutationProposal<U> {
    pub mutation: Traced<U>,
    pub epoch: u64,
}

/// The bytes of a snapshot: the epoch in eight bytes, least significant
/// first, and the dump of the machine.
pub open spec fn snapshot_of(epoch: u64, dump: Seq<u8>) -> Seq<u8> {
    le_bytes(epoch as nat, 8) + dump
}

/// The epoch at the head of the snapshot `data`.
pub open spec fn snapshot_epoch(data: Seq<u8>) -> u64 {
    le_value(data.subrange(0, 8)) as u64
}

/// The dump inside the snapshot `data`.
pub open spec fn snapshot_dump(data: Seq<u8>) -> Seq<u8> {
    data.skip(8)
}

/// Takes a snapshot apart into the machine it dumps and the epoch it was
/// taken at. Fails with `SnapshotTooShort` where `data` has no room for an
/// epoch, and with the failure of the machine where the dump does not load.
pub fn read_snapshot<M: Machine>(data: &[u8]) -> (result: Result<(M, u64), Error>)
    ensures
        match result {
            Ok((machine, epoch)) => {
                &&& machine.inv()
                &&& data@.len() >= 8
                &&& epoch == snapshot_epoch(data@)
                &&& M::dump_state(snapshot_dump(data@)) == Some(machine.state())
            },
            Err(e) => if data@.len() < 8 {
                e == Error::SnapshotTooShort { len: data@.len() as usize }
            } else {
                M::dump_state(snapshot_dump(data@)) is None
            },
        },
{
    if data.len() < 8 {
        return Err(Error::SnapshotTooShort { len: data.len() });
    }
    let epoch: u64 = read_u64_le(data);
    let dump = vstd::slice::slice_subrange(data, 8, data.len());
    proof {
        assert(dump@ =~= snapshot_dump(data@));
    }
    match M::from_snapshot(dump) {
        Ok(machine) => Ok((machine, epoch)),
        Err(e) => Err(e),
    }
}

/// The snapshot of `machine` at `epoch`: the epoch, followed by a dump of
/// the machine. Fails where the machine cannot be dumped.
pub fn write_snapshot<M: Machine>(machine: &M, epoch: u64) -> (result: Result<Vec<u8>, Error>)
    requires
        machine.inv(),
    ensures
        match result {
            Ok(data) => exists|dump: Seq<u8>|
                M::is_dump_of(dump, machine.state()) && data@ == #[trigger] snapshot_of(
                    epoch,
                    dump,
                ),
            Err(_) => !M::dumpable(machine.state()),
        },
{
    let mut data = u64_le(epoch);
    let dump = match machine.write_snapshot() {
        Ok(dump) => dump,
        Err(e) => {
            return Err(e);
        },
    };
    append_bytes(&mut data, dump.as_slice());
    assert(data@ == snapshot_of(epoch, dump@));
    Ok(data)
}

/// A snapshot for the caller to write: the file at `path` is to be created
/// with `data` and made durable, and only after that may `min_epoch` be
/// passed on to the journal as the first epoch it still has to keep.
pub struct SnapshotOrder {
    pub path: String,
    pub data: Vec<u8>,
    pub min_epoch: u64,
}

/// The views of the mutations of `proposals`, in order.
pub open spec fn proposed<U: View>(proposals: Seq<MutationProposal<U>>) -> Seq<U::V> {
    proposals.map_values(|p: MutationProposal<U>| p.mutation.payload@)
}

/// Whether the epochs of `proposals` are the ones right after `epoch`, in
/// order.
pub open spec fn follow_on<U>(proposals: Seq<MutationProposal<U>>, epoch: u64) -> bool {
    forall|i: int| 0 <= i < proposals.len() ==> (#[trigger] proposals[i]).epoch == epoch + 1 + i
}

/// Whether a snapshot is due at `epoch` where the last one was taken at
/// `last_snapshot_epoch`: whether at least `snapshot_interval` mutations
/// came in since.
pub open spec fn snapshot_due(epoch: u64, last_snapshot_epoch: u64, snapshot_interval: u64) -> bool {
    epoch - last_snapshot_epoch >= snapshot_interval
}

/// A machine of its own, the epoch it has reached, and the epoch of the
/// last snapshot.
pub struct SnapshotService<S: SnapshotStorage, M: Machine> {
    storage: S,
    machine: M,
    epoch: u64,
    snapshot_interval: u64,
    batch_size: usize,
    last_snapshot_epoch: u64,
}

impl<S: SnapshotStorage, M: Machine> SnapshotService<S, M> {
    /// The storage that snapshots go to.
    pub closed spec fn storage(&self) -> S {
        self.storage
    }

    /// The state of the machine.
    pub closed spec fn state(&self) -> M::State {
        self.machine.state()
    }

    /// The epoch of the last mutation that was applied.
    pub closed spec fn applied_epoch(&self) -> u64 {
        self.epoch
    }

    /// The epoch of the last snapshot.
    pub closed spec fn last_snapshot(&self) -> u64 {
        self.last_snapshot_epoch
    }

    /// The number of mutations after which a snapshot is due.
    pub closed spec fn interval(&self) -> u64 {
        self.snapshot_interval
    }

    /// The largest number of proposals that are applied in one go.
    pub closed spec fn limit(&self) -> nat {
        self.batch_size as nat
    }

    /// The machine of the service.
    pub closed spec fn machine(&self) -> M {
        self.machine
    }

    /// The machine is in order, and the last snapshot was taken no later
    /// than the current epoch.
    pub open spec fn wf(&self) -> bool {
        &&& self.machine().inv()
        &&& self.last_snapshot() <= self.applied_epoch()
    }

    /// A service for `machine`, which holds every mutation up to `epoch` and
    /// was loaded from a snapshot of that epoch or is new.
    pub fn new(storage: S, machine: M, epoch: u64, snapshot_interval: u64, batch_size: usize) -> (service:
        Self)
        requires
            machine.inv(),
        ensures
            service.wf(),
            service.storage() == storage,
            service.state() == machine.state(),
            service.applied_epoch() == epoch,
            service.last_snapshot() == epoch,
            service.interval() == snapshot_interval,
            service.limit() == batch_size,
    {
        Self { storage, machine, epoch, snapshot_interval, batch_size, last_snapshot_epoch: epoch }
    }

    /// The epoch of the last mutation that was applied.
    pub fn epoch(&self) -> (epoch: u64)
        ensures
            epoch == self.applied_epoch(),
    {
        self.epoch
    }

    /// Whether a batch that holds `received` proposals takes one more.
    pub fn wants_more(&self, received: usize) -> (more: bool)
        ensures
            more == (received < self.limit()),
    {
        received < self.batch_size
    }

    /// Applies the mutations of `proposals`, whose epochs have to be the
    /// ones right after the current epoch, in order.
    pub fn apply_mutation_batch(&mut self, proposals: Vec<MutationProposal<M::Mutation>>)
        requires
            old(self).wf(),
            follow_on(proposals@, old(self).applied_epoch()),
        ensures
            final(self).wf(),
            final(self).state() == apply_all::<M>(old(self).state(), proposed(proposals@)),
            final(self).applied_epoch() == old(self).applied_epoch() + proposals@.len(),
            final(self).last_snapshot() == old(self).last_snapshot(),
            final(self).interval() == old(self).interval(),
            final(self).limit() == old(self).limit(),
            final(self).storage() == old(self).storage(),
    {
        let ghost all = proposals@;
        let n: usize = proposals.len();
        let mut stack = crate::util::reversed(proposals);
        let mut done: usize = 0;
        proof {
            assert(proposed(all).take(0) =~= Seq::<<M::Mutation as View>::V>::empty());
        }
        while stack.len() > 0
            invariant
                n == all.len(),
                self.machine.inv(),
                done + stack@.len() == n,
                forall|i: int| 0 <= i < stack@.len() ==> #[trigger] stack@[i] == all[n - 1 - i],
                follow_on(all, old(self).epoch),
                self.epoch == old(self).epoch + done,
                self.machine.state() == apply_all::<M>(
                    old(self).machine.state(),
                    proposed(all).take(done as int),
                ),
                self.last_snapshot_epoch == old(self).last_snapshot_epoch,
                self.last_snapshot_epoch <= old(self).epoch,
                self.snapshot_interval == old(self).snapshot_interval,
                self.batch_size == old(self).batch_size,
                self.storage == old(self).storage,
            decreases stack@.len(),
        {
            let proposal = stack.pop().unwrap();
            proof {
                assert(proposal == all[done as int]);
                assert(proposal.epoch == old(self).epoch + 1 + done);
                assert(proposed(all).take(done + 1).drop_last() =~= proposed(all).take(
                    done as int,
                ));
                assert(proposed(all).take(done + 1).last() == proposal.mutation.payload@);
            }
            self.machine.apply_mutation(proposal.mutation.into_payload());
            self.epoch += 1;
            done += 1;
        }
        proof {
            assert(proposed(all).take(n as int) =~= proposed(all));
        }
    }

    /// Dumps the machine into a new snapshot and lets the journal go of
    /// every epoch up to the current one. Fails where no epoch is left that
    /// the journal could be told to keep.
    pub fn make_snapshot(&mut self) -> (result: Result<SnapshotOrder, Error>)
        requires
            old(self).wf(),
        ensures
            final(self).wf(),
            final(self).state() == old(self).state(),
            final(self).applied_epoch() == old(self).applied_epoch(),
            final(self).interval() == old(self).interval(),
            final(self).limit() == old(self).limit(),
            final(self).storage().location() == old(self).storage().location(),
            match result {
                Ok(order) => {
                    &&& old(self).applied_epoch() < u64::MAX
                    &&& final(self).last_snapshot() == old(self).applied_epoch()
                    &&& order.min_epoch == old(self).applied_epoch() + 1
                    &&& exists|dump: Seq<u8>|
                        M::is_dump_of(dump, old(self).state()) && order.data@
                            == #[trigger] snapshot_of(old(self).applied_epoch(), dump)
                    &&& exists|stamp: Seq<char>, tag: String|
                        vstd::string::to_string_from_display_ensures::<u64>(
                            &old(self).applied_epoch(),
                            tag,
                        ) && order.path@ == #[trigger] snapshot_path(
                            old(self).storage().location(),
                            stamp,
                            tag@,
                        )
                },
                Err(e) => {
                    &&& final(self).last_snapshot() == old(self).last_snapshot()
                    &&& final(self).storage() == old(self).storage()
                    &&& if old(self).applied_epoch() == u64::MAX {
                        e == Error::EpochExhausted
                    } else {
                        !M::dumpable(old(self).state())
                    }
                },
            },
    {
        if self.epoch == u64::MAX {
            return Err(Error::EpochExhausted);
        }
        let data = match write_snapshot(&self.machine, self.epoch) {
            Ok(data) => data,
            Err(e) => {
                return Err(e);
            },
        };
        let tag = crate::util::decimal(self.epoch);
        let ghost location = self.storage.location();
        let path = self.storage.create_snapshot(tag.as_str());
        self.last_snapshot_epoch = self.epoch;
        proof {
            let stamp = choose|stamp: Seq<char>| path@ == snapshot_path(location, stamp, tag@);
            assert(path@ == snapshot_path(location, stamp, tag@));
            let dump = choose|dump: Seq<u8>|
                M::is_dump_of(dump, self.machine.state()) && data@ == #[trigger] snapshot_of(
                    self.epoch,
                    dump,
                );
            assert(data@ == snapshot_of(self.epoch, dump));
        }
        Ok(SnapshotOrder { path, data, min_epoch: self.epoch + 1 })
    }

    /// Whether `after` and `result` are what serving `proposals` makes of
    /// this service: the mutations are applied, and where at least as many
    /// mutations as the interval says came in since the last snapshot, a
    /// snapshot of the new state is taken at the new epoch and the journal
    /// is let go of every epoch up to it. The snapshot fails where no epoch
    /// is left behind it or the state cannot be dumped.
    pub open spec fn served(
        &self,
        after: &Self,
        proposals: Seq<MutationProposal<M::Mutation>>,
        result: Result<Option<SnapshotOrder>, Error>,
    ) -> bool {
        let due = snapshot_due(after.applied_epoch(), self.last_snapshot(), self.interval());
        &&& after.state() == apply_all::<M>(self.state(), proposed(proposals))
        &&& after.applied_epoch() == self.applied_epoch() + proposals.len()
        &&& after.interval() == self.interval()
        &&& after.limit() == self.limit()
        &&& after.storage().location() == self.storage().location()
        &&& match result {
            Ok(Some(order)) => {
                &&& due
                &&& after.last_snapshot() == after.applied_epoch()
                &&& order.min_epoch == after.applied_epoch() + 1
                &&& exists|dump: Seq<u8>|
                    M::is_dump_of(dump, after.state()) && order.data@ == #[trigger] snapshot_of(
                        after.applied_epoch(),
                        dump,
                    )
                &&& exists|stamp: Seq<char>, tag: String|
                    vstd::string::to_string_from_display_ensures::<u64>(
                        &after.applied_epoch(),
                        tag,
                    ) && order.path@ == #[trigger] snapshot_path(
                        self.storage().location(),
                        stamp,
                        tag@,
                    )
            },
            Ok(None) => !due && after.last_snapshot() == self.last_snapshot(),
            Err(e) => {
                &&& due
                &&& after.last_snapshot() == self.last_snapshot()
                &&& if after.applied_epoch() == u64::MAX {
                    e == Error::EpochExhausted
                } else {
                    !M::dumpable(after.state())
                }
            },
        }
    }

    /// Applies a batch of proposals, whose epochs have to be the ones right
    /// after the current epoch, and takes a snapshot where one is due.
    pub fn serve(&mut self, proposals: Vec<MutationProposal<M::Mutation>>) -> (result: Result<
        Option<SnapshotOrder>,
        Error,
    >)
        requires
            old(self).wf(),
            follow_on(proposals@, old(self).applied_epoch()),
        ensures
            final(self).wf(),
            old(self).served(final(self), proposals@, result),
    {
        self.apply_mutation_batch(proposals);
        if self.epoch - self.last_snapshot_epoch >= self.snapshot_interval {
            match self.make_snapshot() {
                Ok(order) => Ok(Some(order)),
                Err(e) => Err(e),
            }
        } else {
            Ok(None)
        }
    }
}

} // verus!
