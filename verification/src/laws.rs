//! What holds of the persistent state machine as a whole.
//!
//! Each law relates several operations of the services. They are stated
//! over the same spec functions as the contracts of the operations and
//! proved from them.

use crate::directory_journal::{
    broken_of, effect_views, pending_of, DirectoryJournalWriter, JournalEffect,
    JournalEffectView, JournalFile,
};
use crate::errors::Error;
use crate::journal_service::{
    after_snapshot, blob_epoch, blob_of, blob_payload, decoded, last_epoch_of,
    is_trace, lemma_after_snapshot, lemma_blob_of, lemma_replay, replay, takes_blob,
    writer_served,
    JournalService, JournalWriter,
};
use crate::machine_service::{
    apply_all, lemma_due_count_parts, Machine, MachineService, QueryReply,
};
use crate::proto::SetRequestView;
use crate::snapshot_service::{
    snapshot_dump, snapshot_epoch, snapshot_of, MutationProposal, SnapshotOrder, SnapshotService,
    SnapshotStorage,
};
use crate::storage_machine::StorageMachine;
use crate::wire::{
    frames, le_bytes, lemma_le_bytes_len, lemma_le_bytes_of_value, lemma_le_limits,
    lemma_le_value_of_bytes, lemma_records_of_frames,
};
use vstd::prelude::*;

verus! {

/// A query that asks for an epoch which a proposal has brought the machine
/// to is answered at once, from a state that holds the mutation of that
/// proposal.
pub proof fn law_query_sees_applied_mutation<M: Machine, R>(
    before: MachineService<M, R>,
    applied: MachineService<M, R>,
    after: MachineService<M, R>,
    mutation: <M::Mutation as View>::V,
    epoch: u64,
    replies: Seq<QueryReply<M, R>>,
    query: M::Query,
    min_epoch: u64,
    result: R,
    reply: Option<QueryReply<M, R>>,
)
    requires
        before.proposal_handled(&applied, mutation, epoch, replies),
        applied.query_handled(&after, query, min_epoch, result, reply),
        min_epoch <= epoch,
    ensures
        reply matches Some(r) && r.result == result && r.status@ == M::answer(
            M::apply(before.state(), mutation),
            query@,
        ),
{
}

/// A query that waits for an epoch is answered by the proposal that brings
/// the machine to that epoch, from the state that holds the mutation of
/// that proposal.
pub proof fn law_deferred_query_is_answered<M: Machine, R>(
    before: MachineService<M, R>,
    after: MachineService<M, R>,
    mutation: <M::Mutation as View>::V,
    epoch: u64,
    replies: Seq<QueryReply<M, R>>,
    at: int,
)
    requires
        before.wf(),
        before.proposal_handled(&after, mutation, epoch, replies),
        0 <= at < before.deferred().len(),
        before.deferred()[at].min_epoch <= epoch,
    ensures
        at < replies.len(),
        replies[at].result == before.deferred()[at].result,
        replies[at].status@ == M::answer(
            M::apply(before.state(), mutation),
            before.deferred()[at].query@,
        ),
{
    lemma_due_count_parts(before.deferred(), epoch);
}

/// A query that waits for an epoch later than that of a proposal goes on
/// waiting when the proposal is applied, and is not answered by it.
pub proof fn law_future_query_stays_pending<M: Machine, R>(
    before: MachineService<M, R>,
    after: MachineService<M, R>,
    mutation: <M::Mutation as View>::V,
    epoch: u64,
    replies: Seq<QueryReply<M, R>>,
    at: int,
)
    requires
        before.wf(),
        before.proposal_handled(&after, mutation, epoch, replies),
        0 <= at < before.deferred().len(),
        before.deferred()[at].min_epoch > epoch,
    ensures
        at >= replies.len(),
        at - replies.len() < after.deferred().len(),
        after.deferred()[at - replies.len()] == before.deferred()[at],
{
    lemma_due_count_parts(before.deferred(), epoch);
}

/// A machine service that has handled a run of proposals is at the epoch
/// it started from plus the number of the proposals, in the state that
/// their mutations make of the state it started from.
pub proof fn law_epoch_counts_proposals<M: Machine, R>(
    states: Seq<MachineService<M, R>>,
    mutations: Seq<<M::Mutation as View>::V>,
    replies: Seq<Seq<QueryReply<M, R>>>,
)
    requires
        states.len() == mutations.len() + 1,
        replies.len() == mutations.len(),
        forall|i: int|
            0 <= i < mutations.len() ==> (#[trigger] states[i]).applied_epoch() < u64::MAX
                && states[i].proposal_handled(
                &states[i + 1],
                mutations[i],
                (states[i].applied_epoch() + 1) as u64,
                replies[i],
            ),
    ensures
        states.last().applied_epoch() == states[0].applied_epoch() + mutations.len(),
        states.last().state() == apply_all::<M>(states[0].state(), mutations),
    decreases mutations.len(),
{
    if mutations.len() > 0 {
        let n = mutations.len() as int;
        let front = states.drop_last();
        assert forall|i: int| 0 <= i < n - 1 implies (#[trigger] front[i]).applied_epoch()
            < u64::MAX && front[i].proposal_handled(
            &front[i + 1],
            mutations.drop_last()[i],
            (front[i].applied_epoch() + 1) as u64,
            replies.drop_last()[i],
        ) by {
            assert(front[i] == states[i]);
            assert(front[i + 1] == states[i + 1]);
        }
        law_epoch_counts_proposals(front, mutations.drop_last(), replies.drop_last());
        assert(front.last() == states[n - 1]);
        assert(front[0] == states[0]);
        assert(states.last() == states[n]);
    }
}

/// The state after a longer run of mutations is what the later mutations
/// make of the state after the shorter run: whoever reads later reads a
/// state that holds everything an earlier reader has seen.
pub proof fn law_later_state_extends_earlier<M: Machine>(
    state: M::State,
    mutations: Seq<<M::Mutation as View>::V>,
    earlier: int,
    later: int,
)
    requires
        0 <= earlier <= later <= mutations.len(),
    ensures
        apply_all::<M>(state, mutations.take(later)) == apply_all::<M>(
            apply_all::<M>(state, mutations.take(earlier)),
            mutations.subrange(earlier, later),
        ),
    decreases later - earlier,
{
    if earlier == later {
        assert(mutations.subrange(earlier, later).len() == 0);
    } else {
        law_later_state_extends_earlier::<M>(state, mutations, earlier, later - 1);
        assert(mutations.take(later).drop_last() =~= mutations.take(later - 1));
        assert(mutations.subrange(earlier, later).drop_last() =~= mutations.subrange(
            earlier,
            later - 1,
        ));
        assert(mutations.take(later).last() == mutations.subrange(earlier, later).last());
    }
}

/// A blob gives back the mutation and the epoch it was made of.
pub proof fn law_blob_round_trip<M: Machine>(mutation: M::Mutation, epoch: u64)
    ensures
        decoded::<M>(blob_of(epoch, M::encoding(mutation@))) == Ok::<
            (<M::Mutation as View>::V, u64),
            Error,
        >((mutation@, epoch)),
{
    lemma_blob_of(epoch, M::encoding(mutation@));
    M::lemma_mutation_round_trip(mutation);
}

/// A blob is made of its epoch and its payload and of nothing else.
pub proof fn law_blob_is_its_parts(blob: Seq<u8>)
    requires
        blob.len() >= 8,
    ensures
        blob_of(blob_epoch(blob), blob_payload(blob)) == blob,
{
    let head = blob.subrange(0, 8);
    lemma_le_bytes_of_value(head);
    lemma_le_limits();
    assert(blob_of(blob_epoch(blob), blob_payload(blob)) =~= blob);
}

/// The blobs that journaling `mutations` under the epochs from
/// `first_epoch` on leaves.
pub open spec fn journal_of<M: Machine>(mutations: Seq<M::Mutation>, first_epoch: u64) -> Seq<
    Seq<u8>,
> {
    Seq::new(
        mutations.len(),
        |i: int| blob_of((first_epoch + i) as u64, M::encoding(mutations[i]@)),
    )
}

/// The mutations of `mutations` with the epochs from `first_epoch` on.
pub open spec fn entries_of<M: Machine>(mutations: Seq<M::Mutation>, first_epoch: u64) -> Seq<
    (<M::Mutation as View>::V, u64),
> {
    Seq::new(mutations.len(), |i: int| (mutations[i]@, (first_epoch + i) as u64))
}

/// What was journaled replays as it was journaled: every mutation comes
/// back, in order and under its epoch, as long as the journal leaves no gap
/// behind the snapshot.
pub proof fn law_journal_replays<M: Machine>(
    mutations: Seq<M::Mutation>,
    first_epoch: u64,
    snapshot_epoch: u64,
)
    requires
        first_epoch + mutations.len() <= u64::MAX + 1,
        mutations.len() > 0 ==> first_epoch <= snapshot_epoch + 1,
    ensures
        replay::<M>(journal_of::<M>(mutations, first_epoch), snapshot_epoch) == Ok::<
            Seq<(<M::Mutation as View>::V, u64)>,
            Error,
        >(entries_of::<M>(mutations, first_epoch)),
    decreases mutations.len(),
{
    let blobs = journal_of::<M>(mutations, first_epoch);
    let entries = entries_of::<M>(mutations, first_epoch);
    if mutations.len() == 0 {
        assert(entries =~= Seq::empty());
    } else {
        let front = mutations.drop_last();
        law_journal_replays::<M>(front, first_epoch, snapshot_epoch);
        assert(blobs.drop_last() =~= journal_of::<M>(front, first_epoch));
        assert(entries.drop_last() =~= entries_of::<M>(front, first_epoch));
        let n = mutations.len() - 1;
        assert(mutations[n] == mutations.last());
        law_blob_round_trip::<M>(mutations.last(), (first_epoch + n) as u64);
        assert(entries =~= entries_of::<M>(front, first_epoch).push(
            (mutations.last()@, (first_epoch + n) as u64),
        ));
    }
}

/// The views of `mutations`, in order.
pub open spec fn views_of<M: Machine>(mutations: Seq<M::Mutation>) -> Seq<
    <M::Mutation as View>::V,
> {
    mutations.map_values(|mutation: M::Mutation| mutation@)
}

/// The mutations of `entries`, without their epochs.
pub open spec fn mutations_of<V>(entries: Seq<(V, u64)>) -> Seq<V> {
    entries.map_values(|entry: (V, u64)| entry.0)
}

/// Recovery brings back every mutation that was journaled.
///
/// Let `mutations` be all mutations since the first epoch, let the
/// snapshot hold the first `snapshot` of them, and let the journal hold the
/// blobs from the epoch `first_kept` on, which is no later than right after
/// the snapshot. Then the journal replays, it ends with the epoch of the
/// last mutation, and what is replayed makes of the state of the snapshot
/// the state that all mutations make of the initial state. This holds as
/// long as the journal holds a blob.
pub proof fn law_recovery_restores_every_mutation<M: Machine>(
    mutations: Seq<M::Mutation>,
    first_kept: u64,
    snapshot: u64,
)
    requires
        mutations.len() <= u64::MAX,
        1 <= first_kept <= snapshot + 1,
        snapshot <= mutations.len(),
        first_kept <= mutations.len(),
    ensures
        ({
            let kept = mutations.skip(first_kept - 1);
            let entries = entries_of::<M>(kept, first_kept);
            let replayed = after_snapshot(entries, snapshot);
            let snapshot_state = apply_all::<M>(
                M::initial_state(),
                views_of::<M>(mutations).take(snapshot as int),
            );
            &&& replay::<M>(journal_of::<M>(kept, first_kept), snapshot) == Ok::<
                Seq<(<M::Mutation as View>::V, u64)>,
                Error,
            >(entries)
            &&& last_epoch_of(entries) == mutations.len()
            &&& replayed.len() == mutations.len() - snapshot
            &&& apply_all::<M>(snapshot_state, mutations_of(replayed)) == apply_all::<M>(
                M::initial_state(),
                views_of::<M>(mutations),
            )
        }),
{
    let n = mutations.len() as int;
    let kept = mutations.skip(first_kept - 1);
    let entries = entries_of::<M>(kept, first_kept);
    let replayed = after_snapshot(entries, snapshot);
    let views = views_of::<M>(mutations);
    law_journal_replays::<M>(kept, first_kept, snapshot);
    assert(entries[entries.len() - 1].1 == n);
    lemma_after_snapshot(entries, snapshot);
    assert(mutations_of(replayed) =~= views.subrange(snapshot as int, n)) by {
        assert forall|i: int| 0 <= i < replayed.len() implies mutations_of(replayed)[i]
            == views.subrange(snapshot as int, n)[i] by {
            assert(replayed[i] == entries[entries.len() - replayed.len() + i]);
        }
    }
    law_later_state_extends_earlier::<M>(M::initial_state(), views, snapshot as int, n);
    assert(views.take(n) =~= views);
}

/// The epochs of a journal that was recovered are consecutive, begin no
/// later than right after the snapshot and end no earlier than the
/// snapshot, and what is replayed are the epochs right after the snapshot
/// up to the last one. Where the journal begins with the first epoch, its
/// epochs are one, two and so on up to the last epoch.
pub proof fn law_recovered_epochs<M: Machine>(blobs: Seq<Seq<u8>>, snapshot: u64)
    requires
        replay::<M>(blobs, snapshot) is Ok,
        last_epoch_of(replay::<M>(blobs, snapshot)->Ok_0) >= snapshot,
    ensures
        ({
            let entries = replay::<M>(blobs, snapshot)->Ok_0;
            let replayed = after_snapshot(entries, snapshot);
            &&& entries.len() == blobs.len()
            &&& forall|i: int|
                0 <= i < entries.len() ==> (#[trigger] entries[i]).1 == entries[0].1 + i
            &&& entries.len() > 0 ==> entries[0].1 <= snapshot + 1
            &&& entries.len() > 0 && entries[0].1 == 1 ==> forall|i: int|
                0 <= i < entries.len() ==> (#[trigger] entries[i]).1 == i + 1
            &&& replayed.len() == last_epoch_of(entries) - snapshot
            &&& forall|i: int|
                0 <= i < replayed.len() ==> (#[trigger] replayed[i]).1 == snapshot + 1 + i
        }),
{
    let entries = replay::<M>(blobs, snapshot)->Ok_0;
    lemma_replay::<M>(blobs, snapshot);
    assert forall|i: int| 0 <= i < entries.len() implies (#[trigger] entries[i]).1 == entries[0].1
        + i by {
        assert(blobs[i].len() >= 8);
    }
    lemma_after_snapshot(entries, snapshot);
}

/// A truncation for a snapshot only removes blobs of epochs before
/// `min_epoch`, and keeps every blob from `min_epoch` on.
pub proof fn law_disposal_spares_later_epochs<W: JournalWriter, M: Machine>(
    service: JournalService<W, M>,
    min_epoch: u64,
)
    requires
        service.wf(),
        min_epoch <= service.epoch() + 1,
    ensures
        ({
            let journal = service.journal();
            let gone = service.writer().disposable(
                JournalService::<W, M>::excess(journal.len(), service.epoch(), min_epoch),
            );
            &&& gone <= journal.len()
            &&& forall|i: int| 0 <= i < gone ==> blob_epoch(#[trigger] journal[i]) < min_epoch
            &&& forall|i: int|
                0 <= i < journal.len() && blob_epoch(#[trigger] journal[i]) >= min_epoch ==> i
                    >= gone
        }),
{
    let journal = service.journal();
    let excess = JournalService::<W, M>::excess(journal.len(), service.epoch(), min_epoch);
    service.writer().lemma_disposable(excess);
    let gone = service.writer().disposable(excess);
    assert forall|i: int| 0 <= i < gone implies blob_epoch(#[trigger] journal[i]) < min_epoch by {
        assert(journal[i].len() >= 8);
    }
}

/// A snapshot gives back the epoch it was taken at and loads as the state
/// it was taken of.
pub proof fn law_snapshot_round_trip<M: Machine>(state: M::State, epoch: u64, dump: Seq<u8>)
    requires
        M::is_dump_of(dump, state),
    ensures
        snapshot_of(epoch, dump).len() >= 8,
        snapshot_epoch(snapshot_of(epoch, dump)) == epoch,
        M::dump_state(snapshot_dump(snapshot_of(epoch, dump))) == Some(state),
{
    let data = snapshot_of(epoch, dump);
    lemma_le_bytes_len(epoch as nat, 8);
    lemma_le_limits();
    lemma_le_value_of_bytes(epoch as nat, 8);
    assert(data.subrange(0, 8) =~= le_bytes(epoch as nat, 8));
    assert(data.skip(8) =~= dump);
    M::lemma_snapshot_round_trip(dump, state);
}

/// The blobs of `parts`, which holds the blobs of one file after those of
/// another.
pub open spec fn all_of(parts: Seq<Seq<Seq<u8>>>) -> Seq<Seq<u8>>
    decreases parts.len(),
{
    if parts.len() == 0 {
        Seq::empty()
    } else {
        parts[0] + all_of(parts.skip(1))
    }
}

/// Files that hold the records of blobs read back as those blobs, file
/// after file, and the reader does not fail.
pub proof fn law_files_read_back(files: Seq<JournalFile>, parts: Seq<Seq<Seq<u8>>>)
    requires
        files.len() == parts.len(),
        forall|j: int| 0 <= j < files.len() ==> (#[trigger] files[j]).data@ == frames(parts[j]),
        forall|j: int, i: int|
            0 <= j < parts.len() && 0 <= i < parts[j].len() ==> (#[trigger] parts[j][i]).len()
                < 0x1_0000_0000,
    ensures
        pending_of(files, 0) == all_of(parts),
        !broken_of(files, 0),
    decreases files.len(),
{
    if files.len() > 0 {
        let rest = files.skip(1);
        let later = parts.skip(1);
        assert forall|j: int| 0 <= j < rest.len() implies (#[trigger] rest[j]).data@ == frames(
            later[j],
        ) by {
            assert(rest[j] == files[j + 1]);
            assert(later[j] == parts[j + 1]);
        }
        assert forall|j: int, i: int|
            0 <= j < later.len() && 0 <= i < later[j].len() implies (#[trigger] later[j][i]).len()
            < 0x1_0000_0000 by {
            assert(later[j] == parts[j + 1]);
            assert(parts[j + 1][i].len() < 0x1_0000_0000);
        }
        law_files_read_back(rest, later);
        assert forall|i: int| 0 <= i < parts[0].len() implies (#[trigger] parts[0][i]).len()
            < 0x1_0000_0000 by {}
        lemma_records_of_frames(parts[0]);
        assert(files[0].data@.skip(0) =~= files[0].data@);
    }
}

/// Blobs that are appended one after the other wait in their order, and
/// nothing else moves.
proof fn lemma_appended_chain(states: Seq<DirectoryJournalWriter>, blobs: Seq<Seq<u8>>, k: int)
    requires
        states.len() == blobs.len() + 1,
        forall|i: int|
            0 <= i < blobs.len() ==> (#[trigger] states[i]).appended(&states[i + 1], blobs[i]),
        0 <= k <= blobs.len(),
    ensures
        states[k].waiting() == states[0].waiting() + blobs.take(k),
        states[k].all_blobs() == states[0].all_blobs() + blobs.take(k),
        states[k].path() == states[0].path(),
        states[k].base() == states[0].base(),
        states[k].effects() == states[0].effects(),
    decreases k,
{
    if k == 0 {
        assert(states[0].waiting() + blobs.take(0) =~= states[0].waiting());
        assert(states[0].all_blobs() + blobs.take(0) =~= states[0].all_blobs());
    } else {
        lemma_appended_chain(states, blobs, k - 1);
        assert(states[k - 1].appended(&states[k], blobs[k - 1]));
        assert(blobs.take(k) =~= blobs.take(k - 1).push(blobs[k - 1]));
        assert(states[k].waiting() =~= states[0].waiting() + blobs.take(k));
        assert(states[k].all_blobs() =~= states[0].all_blobs() + blobs.take(k));
    }
}

/// What a served batch leaves to be done to the files begins with what was
/// left before and goes on with the records of exactly the blobs of the
/// batch, in their order, to be appended to the file that was current: the
/// caller who carries the effects out before it acknowledges has made the
/// whole batch durable.
pub proof fn law_served_batch_reaches_the_file(
    before: DirectoryJournalWriter,
    after: DirectoryJournalWriter,
    blobs: Seq<Seq<u8>>,
    effects: Seq<JournalEffect>,
)
    requires
        before.waiting().len() == 0,
        blobs.len() > 0,
        writer_served(before, after, None, blobs, effects),
    ensures
        after.all_blobs() == before.all_blobs() + blobs,
        after.waiting().len() == 0,
        after.effects().len() == 0,
        before.effects().len() < effect_views(effects).len() <= before.effects().len() + 2,
        effect_views(effects).take(before.effects().len() as int) == before.effects(),
        effect_views(effects)[before.effects().len() as int] == (JournalEffectView::Append {
            path: before.path(),
            data: frames(blobs),
        }),
        effect_views(effects).len() == before.effects().len() + 2 ==> effect_views(
            effects,
        ).last() == (JournalEffectView::Create { path: after.path() }),
{
    let (states, flushed) = choose|states: Seq<DirectoryJournalWriter>, flushed: DirectoryJournalWriter| #[trigger]
        is_trace(before, after, None, blobs, effects, states, flushed);
    let n = blobs.len() as int;
    assert forall|i: int| 0 <= i < blobs.len() implies (#[trigger] states[i]).appended(
        &states[i + 1],
        blobs[i],
    ) by {
        assert(takes_blob(states, blobs, i));
    }
    lemma_appended_chain(states, blobs, n);
    assert(blobs.take(n) =~= blobs);
    let full = states[n];
    assert(states.last() == full);
    assert(full.waiting() =~= blobs);
    assert(full.persisted(&flushed));
    assert(flushed.emptied(&after));
    let listed = effect_views(effects);
    assert(listed == flushed.effects());
    let known = before.effects().len() as int;
    assert(listed.take(known) =~= before.effects());
}

/// An append never closes a file: however large the blob and however full
/// the file, the blob goes to the current file.
pub proof fn law_append_keeps_the_file(
    before: DirectoryJournalWriter,
    after: DirectoryJournalWriter,
    blob: Seq<u8>,
)
    requires
        before.appended(&after, blob),
    ensures
        after.path() == before.path(),
        after.base().files() == before.base().files(),
        after.current_count() == before.current_count() + 1,
        after.effects() == before.effects(),
{
}

/// With a soft limit of zero, every `persist` closes the current file and
/// begins a new one.
pub proof fn law_zero_limit_rotates_always(
    before: DirectoryJournalWriter,
    after: DirectoryJournalWriter,
)
    requires
        before.base().soft_limit() == 0,
        before.persisted(&after),
    ensures
        after.base().files() == before.base().files().push(before.current_file()),
        after.base().files().last().0@ == before.path(),
        after.base().files().last().1 == before.current_count(),
        after.current_size() == 0,
        after.current_count() == 0,
        after.effects().len() == before.effects().len() + 2,
        after.effects().last() == (JournalEffectView::Create { path: after.path() }),
{
}

/// A file is closed by `persist` where it has reached the soft limit, and
/// nowhere else. The file that is closed is listed last among the closed
/// files, under the path that was written to and with the number of its
/// blobs, and the journal holds as many blobs as before.
pub proof fn law_rotation_at_the_soft_limit(
    before: DirectoryJournalWriter,
    after: DirectoryJournalWriter,
)
    requires
        before.persisted(&after),
    ensures
        before.current_size() >= before.base().soft_limit() <==> after.base().files().len()
            == before.base().files().len() + 1,
        before.current_size() < before.base().soft_limit() ==> after.path() == before.path()
            && after.base().files() == before.base().files(),
        before.current_size() >= before.base().soft_limit() ==> after.base().files().last().0@
            == before.path() && after.base().files().last().1 == before.current_count()
            && after.current_count() == 0 && after.current_size() == 0,
        after.base().total() + after.current_count() == before.base().total()
            + before.current_count(),
{
}

/// With an interval of one, every batch that brings a mutation is followed
/// by a snapshot at the epoch of its last mutation, so that with batches of
/// one mutation each, every mutation is. The snapshot only fails where no
/// epoch is left behind it or the state cannot be dumped.
pub proof fn law_interval_one_snapshots_always<S: SnapshotStorage, M: Machine>(
    before: SnapshotService<S, M>,
    after: SnapshotService<S, M>,
    proposals: Seq<MutationProposal<M::Mutation>>,
    result: Result<Option<SnapshotOrder>, Error>,
)
    requires
        before.wf(),
        before.interval() == 1,
        proposals.len() >= 1,
        before.served(&after, proposals, result),
    ensures
        !(result matches Ok(None)),
        result matches Ok(Some(order)) ==> order.min_epoch == before.applied_epoch()
            + proposals.len() + 1 && after.last_snapshot() == after.applied_epoch(),
        result is Err ==> after.applied_epoch() == u64::MAX || !M::dumpable(after.state()),
{
}

/// Reading a key right after a value was stored under it gives that
/// value.
pub proof fn law_get_after_set(state: Map<Seq<u8>, Seq<u8>>, key: Seq<u8>, value: Seq<u8>)
    ensures
        StorageMachine::answer(StorageMachine::apply(state, SetRequestView { key, value }), key)
            == value,
{
}

/// Storing under one key leaves what is read under every other key as it
/// was.
pub proof fn law_set_leaves_other_keys(
    state: Map<Seq<u8>, Seq<u8>>,
    key: Seq<u8>,
    value: Seq<u8>,
    other: Seq<u8>,
)
    requires
        other != key,
    ensures
        StorageMachine::answer(StorageMachine::apply(state, SetRequestView { key, value }), other)
            == StorageMachine::answer(state, other),
{
}

/// Storing the same value under the same key a second time changes
/// nothing.
pub proof fn law_set_twice_is_set_once(state: Map<Seq<u8>, Seq<u8>>, request: SetRequestView)
    ensures
        StorageMachine::apply(StorageMachine::apply(state, request), request)
            == StorageMachine::apply(state, request),
{
    assert(state.insert(request.key, request.value).insert(request.key, request.value)
        =~= state.insert(request.key, request.value));
}

/// An empty value is stored like any other: the key is there afterwards.
pub proof fn law_empty_value_is_stored(state: Map<Seq<u8>, Seq<u8>>, key: Seq<u8>)
    ensures
        StorageMachine::apply(state, SetRequestView { key, value: Seq::empty() }).dom().contains(
            key,
        ),
        StorageMachine::apply(state, SetRequestView { key, value: Seq::empty() })[key]
            == Seq::<u8>::empty(),
{
}

} // verus!
