//! The journal: where mutations become durable under consecutive epochs.

use crate::errors::Error;
use crate::machine_service::Machine;
use crate::snapshot_service::MutationProposal;
use crate::util::Traced;
use crate::wire::{
    append_bytes, le_bytes, le_value, lemma_le_bytes_len, lemma_le_limits,
    lemma_le_value_of_bytes, read_u64_le, u64_le,
};
use std::collections::VecDeque;
use std::marker::PhantomData;
use vstd::prelude::*;

verus! {

/// What a journal reader finds next: a blob and the reader to go on with, or
/// the end of the journal and the writer that continues it.
pub enum ReadResult<R, W> {
    Blob(Vec<u8>, R),
    End(W),
}

/// A journal that is read from its oldest blob to its end.
///
/// Reading consumes the reader: each blob comes with the reader for the
/// next one, and the end of the journal comes with the writer that appends
/// to it. A journal that stops in the middle of a blob is never read as if
/// it ended there: the reader fails once it gets to that place.
pub trait JournalReader: Sized {
    /// The writer that takes over at the end of the journal.
    type Writer: JournalWriter;

    /// Whether the reader is in a state that its own operations lead to.
    spec fn wf(&self) -> bool;

    /// The blobs that were read so far, oldest first.
    spec fn consumed(&self) -> Seq<Seq<u8>>;

    /// The blobs that are still to come before the journal ends or fails.
    spec fn pending(&self) -> Seq<Seq<u8>>;

    /// Whether reading fails once the pending blobs were read.
    spec fn broken(&self) -> bool;

    /// Reads the next blob.
    fn read_blob(self) -> (result: Result<ReadResult<Self, Self::Writer>, Error>)
        requires
            self.wf(),
        ensures
            match result {
                Ok(ReadResult::Blob(blob, reader)) => {
                    &&& self.pending().len() > 0
                    &&& blob@ == self.pending()[0]
                    &&& reader.wf()
                    &&& reader.pending() == self.pending().skip(1)
                    &&& reader.broken() == self.broken()
                    &&& reader.consumed() == self.consumed().push(blob@)
                },
                Ok(ReadResult::End(writer)) => {
                    &&& self.pending().len() == 0
                    &&& !self.broken()
                    &&& writer.wf()
                    &&& writer.blobs() == self.consumed()
                    &&& writer.unflushed().len() == 0
                },
                Err(e) => self.pending().len() == 0 && self.broken() && e == Error::UnexpectedEof,
            },
    ;
}

/// A journal that is appended to and truncated from its old end.
///
/// Appended blobs are durable once `persist` was called and the effects it
/// left were carried out. Disposal only ever removes whole files, so it may
/// remove fewer blobs than it was allowed to.
pub trait JournalWriter: Sized {
    /// What the caller has to carry out on the storage.
    type Effect;

    /// Whether the writer is in a state that its own operations lead to.
    spec fn wf(&self) -> bool;

    /// The blobs that the journal holds, oldest first.
    spec fn blobs(&self) -> Seq<Seq<u8>>;

    /// The blobs that were appended since the last `persist`, oldest
    /// first.
    spec fn unflushed(&self) -> Seq<Seq<u8>>;

    /// The effects that wait to be handed out, oldest first.
    spec fn pending(&self) -> Seq<Self::Effect>;

    /// Whether the writer has room for `blob`.
    spec fn accepts(&self, blob: Seq<u8>) -> bool;

    /// Whether `after` is what appending `blob` makes of this writer.
    spec fn appends(&self, after: &Self, blob: Seq<u8>) -> bool;

    /// Whether `after` is what `persist` makes of this writer.
    spec fn persists(&self, after: &Self) -> bool;

    /// Whether `after` is what a disposal of up to `blob_count` blobs makes
    /// of this writer.
    spec fn disposes(&self, after: &Self, blob_count: nat) -> bool;

    /// Whether `after` is what handing out the effects makes of this
    /// writer.
    spec fn hands_out(&self, after: &Self) -> bool;

    /// The number of blobs that a disposal of up to `blob_count` blobs
    /// removes.
    spec fn disposable(&self, blob_count: nat) -> nat;

    /// Appends `blob`, which has to be shorter than `2^32` bytes. Fails, and
    /// leaves the journal as it is, where the writer has no room for it.
    fn append_blob(&mut self, blob: &[u8]) -> (result: Result<(), Error>)
        requires
            old(self).wf(),
            blob@.len() < 0x1_0000_0000,
        ensures
            final(self).wf(),
            result is Ok <==> old(self).accepts(blob@),
            result matches Err(e) ==> e == Error::JournalFull,
            result is Ok ==> old(self).appends(final(self), blob@),
            result is Err ==> *final(self) == *old(self),
            final(self).blobs() == if result is Ok {
                old(self).blobs().push(blob@)
            } else {
                old(self).blobs()
            },
            final(self).unflushed() == if result is Ok {
                old(self).unflushed().push(blob@)
            } else {
                old(self).unflushed()
            },
    ;

    /// Asks for everything that was appended to be made durable.
    fn persist(&mut self)
        requires
            old(self).wf(),
        ensures
            final(self).wf(),
            final(self).blobs() == old(self).blobs(),
            final(self).unflushed().len() == 0,
            old(self).persists(final(self)),
    ;

    /// The number of blobs that the journal holds.
    fn get_blob_count(&self) -> (count: usize)
        requires
            self.wf(),
        ensures
            count == self.blobs().len(),
    ;

    /// Removes the oldest blobs, whole files at a time, as long as no more
    /// than `blob_count` blobs go.
    fn dispose_oldest_blobs(&mut self, blob_count: usize)
        requires
            old(self).wf(),
        ensures
            final(self).wf(),
            final(self).blobs() == old(self).blobs().skip(
                old(self).disposable(blob_count as nat) as int,
            ),
            final(self).unflushed() == old(self).unflushed(),
            old(self).disposes(final(self), blob_count as nat),
    ;

    /// Hands out, in the order in which they are to be carried out, the
    /// effects that the operations since the last call have left.
    fn take_effects(&mut self) -> (effects: Vec<Self::Effect>)
        requires
            old(self).wf(),
        ensures
            final(self).wf(),
            final(self).blobs() == old(self).blobs(),
            final(self).unflushed() == old(self).unflushed(),
            effects@ == old(self).pending(),
            final(self).pending().len() == 0,
            old(self).hands_out(final(self)),
    ;

    /// A disposal removes no more blobs than it was allowed to and no more
    /// than there are.
    proof fn lemma_disposable(&self, blob_count: nat)
        requires
            self.wf(),
        ensures
            self.disposable(blob_count) <= blob_count,
            self.disposable(blob_count) <= self.blobs().len(),
    ;
}

/// The blob that stands for `payload` under `epoch`: the epoch in eight
/// bytes, least significant first, and the payload.
pub open spec fn blob_of(epoch: u64, payload: Seq<u8>) -> Seq<u8> {
    le_bytes(epoch as nat, 8) + payload
}

/// The epoch at the head of `blob`.
pub open spec fn blob_epoch(blob: Seq<u8>) -> u64 {
    le_value(blob.subrange(0, 8)) as u64
}

/// The payload of `blob`.
pub open spec fn blob_payload(blob: Seq<u8>) -> Seq<u8> {
    blob.skip(8)
}

/// The mutation and the epoch that `blob` stands for. A blob holds an
/// epoch, followed by a payload that may be empty.
pub open spec fn decoded<M: Machine>(blob: Seq<u8>) -> Result<
    (<M::Mutation as View>::V, u64),
    Error,
> {
    if blob.len() < 8 {
        Err(Error::BlobTooShort { len: blob.len() as usize })
    } else {
        match M::decoding(blob_payload(blob)) {
            Some(mutation) => Ok((mutation, blob_epoch(blob))),
            None => Err(Error::MutationDecode),
        }
    }
}

/// Whether `epoch` may follow: right after `last_epoch` where a blob came
/// before, and otherwise no later than right after the snapshot.
pub open spec fn validated(epoch: u64, snapshot_epoch: u64, last_epoch: Option<u64>) -> Result<
    (),
    Error,
> {
    match last_epoch {
        Some(last) => if last + 1 != epoch {
            Err(Error::MissingMutations { after: last, got: epoch })
        } else {
            Ok(())
        },
        None => if epoch > snapshot_epoch + 1 {
            Err(Error::MissingMutations { after: snapshot_epoch, got: epoch })
        } else {
            Ok(())
        },
    }
}

/// The epoch of the last of `entries`, if there is one.
pub open spec fn last_of<V>(entries: Seq<(V, u64)>) -> Option<u64> {
    if entries.len() == 0 {
        None
    } else {
        Some(entries.last().1)
    }
}

/// The mutations and epochs that `blobs` stand for, or what is wrong with
/// the first blob that does not decode or does not follow.
pub open spec fn replay<M: Machine>(blobs: Seq<Seq<u8>>, snapshot_epoch: u64) -> Result<
    Seq<(<M::Mutation as View>::V, u64)>,
    Error,
>
    decreases blobs.len(),
{
    if blobs.len() == 0 {
        Ok(Seq::empty())
    } else {
        match replay::<M>(blobs.drop_last(), snapshot_epoch) {
            Err(e) => Err(e),
            Ok(entries) => match decoded::<M>(blobs.last()) {
                Err(e) => Err(e),
                Ok((mutation, epoch)) => match validated(epoch, snapshot_epoch, last_of(entries)) {
                    Err(e) => Err(e),
                    Ok(()) => Ok(entries.push((mutation, epoch))),
                },
            },
        }
    }
}

/// The entries of `entries` whose epoch is later than `snapshot_epoch`.
pub open spec fn after_snapshot<V>(entries: Seq<(V, u64)>, snapshot_epoch: u64) -> Seq<(V, u64)>
    decreases entries.len(),
{
    if entries.len() == 0 {
        Seq::empty()
    } else if entries.last().1 > snapshot_epoch {
        after_snapshot(entries.drop_last(), snapshot_epoch).push(entries.last())
    } else {
        after_snapshot(entries.drop_last(), snapshot_epoch)
    }
}

/// The epoch that the journal is at after `entries`: the last epoch, or
/// zero for an empty journal.
pub open spec fn last_epoch_of<V>(entries: Seq<(V, u64)>) -> u64 {
    match last_of(entries) {
        Some(epoch) => epoch,
        None => 0,
    }
}

/// What the proposals of `proposals` say, as plain values.
pub open spec fn proposal_views<U: View>(proposals: Seq<MutationProposal<U>>) -> Seq<(U::V, u64)> {
    proposals.map_values(|p: MutationProposal<U>| (p.mutation.payload@, p.epoch))
}

/// Whether the epochs of `blobs` are consecutive and end with `last`.
pub open spec fn contiguous(blobs: Seq<Seq<u8>>, last: u64) -> bool {
    forall|i: int|
        0 <= i < blobs.len() ==> {
            &&& (#[trigger] blobs[i]).len() >= 8
            &&& blob_epoch(blobs[i]) + (blobs.len() - 1 - i) == last
        }
}

/// Blobs that replay are as many as their entries, each entry carries the
/// epoch of its blob, and the epochs are consecutive.
pub proof fn lemma_replay<M: Machine>(blobs: Seq<Seq<u8>>, snapshot_epoch: u64)
    requires
        replay::<M>(blobs, snapshot_epoch) is Ok,
    ensures
        replay::<M>(blobs, snapshot_epoch)->Ok_0.len() == blobs.len(),
        forall|i: int|
            0 <= i < blobs.len() ==> {
                &&& (#[trigger] blobs[i]).len() >= 8
                &&& decoded::<M>(blobs[i]) == Ok::<(<M::Mutation as View>::V, u64), Error>(
                    replay::<M>(blobs, snapshot_epoch)->Ok_0[i],
                )
                &&& replay::<M>(blobs, snapshot_epoch)->Ok_0[i].1 == replay::<M>(
                    blobs,
                    snapshot_epoch,
                )->Ok_0[0].1 + i
            },
        blobs.len() > 0 ==> replay::<M>(blobs, snapshot_epoch)->Ok_0[0].1 <= snapshot_epoch + 1,
        contiguous(blobs, last_epoch_of(replay::<M>(blobs, snapshot_epoch)->Ok_0)),
        forall|k: int|
            0 <= k <= blobs.len() ==> #[trigger] replay::<M>(blobs.take(k), snapshot_epoch)
                == Ok::<Seq<(<M::Mutation as View>::V, u64)>, Error>(
                replay::<M>(blobs, snapshot_epoch)->Ok_0.take(k),
            ),
    decreases blobs.len(),
{
    let entries = replay::<M>(blobs, snapshot_epoch)->Ok_0;
    if blobs.len() > 0 {
        let front = blobs.drop_last();
        lemma_replay::<M>(front, snapshot_epoch);
        let before = replay::<M>(front, snapshot_epoch)->Ok_0;
        assert(entries == before.push(entries.last()));
        assert forall|i: int| 0 <= i < blobs.len() implies {
            &&& (#[trigger] blobs[i]).len() >= 8
            &&& decoded::<M>(blobs[i]) == Ok::<(<M::Mutation as View>::V, u64), Error>(entries[i])
            &&& entries[i].1 == entries[0].1 + i
        } by {
            if i < front.len() {
                assert(blobs[i] == front[i]);
                assert(entries[i] == before[i]);
            }
        }
        assert forall|i: int| 0 <= i < blobs.len() implies {
            &&& (#[trigger] blobs[i]).len() >= 8
            &&& blob_epoch(blobs[i]) + (blobs.len() - 1 - i) == last_epoch_of(entries)
        } by {
            assert(decoded::<M>(blobs[i]) == Ok::<(<M::Mutation as View>::V, u64), Error>(
                entries[i],
            ));
        }
        assert forall|k: int| 0 <= k <= blobs.len() implies #[trigger] replay::<M>(
            blobs.take(k),
            snapshot_epoch,
        ) == Ok::<Seq<(<M::Mutation as View>::V, u64)>, Error>(entries.take(k)) by {
            if k == blobs.len() {
                assert(blobs.take(k) =~= blobs);
                assert(entries.take(k) =~= entries);
            } else {
                assert(blobs.take(k) =~= front.take(k));
                assert(entries.take(k) =~= before.take(k));
            }
        }
    } else {
        assert forall|k: int| 0 <= k <= blobs.len() implies #[trigger] replay::<M>(
            blobs.take(k),
            snapshot_epoch,
        ) == Ok::<Seq<(<M::Mutation as View>::V, u64)>, Error>(entries.take(k)) by {
            assert(blobs.take(k) =~= blobs);
            assert(entries.take(k) =~= entries);
        }
    }
}

/// Whether the writer `states[i]` takes the blob `blobs[i]`, which is
/// shorter than `2^32` bytes, and appending it makes `states[i + 1]` of the
/// writer.
pub open spec fn takes_blob<W: JournalWriter>(states: Seq<W>, blobs: Seq<Seq<u8>>, i: int) -> bool {
    &&& blobs[i].len() < 0x1_0000_0000
    &&& states[i].accepts(blobs[i])
    &&& states[i].appends(&states[i + 1], blobs[i])
}

/// Whether `states` and `flushed` are the way of a writer from `before` to
/// `after` through one batch: truncated first where `surplus` blobs are to
/// go, one blob of `blobs`, all shorter than `2^32` bytes, taken and
/// appended after the other, everything persisted where there is a blob,
/// and the effects, which are `effects`, handed out at the end.
pub open spec fn is_trace<W: JournalWriter>(
    before: W,
    after: W,
    surplus: Option<nat>,
    blobs: Seq<Seq<u8>>,
    effects: Seq<W::Effect>,
    states: Seq<W>,
    flushed: W,
) -> bool {
    &&& states.len() == blobs.len() + 1
    &&& match surplus {
        Some(blob_count) => before.disposes(&states[0], blob_count),
        None => states[0] == before,
    }
    &&& forall|i: int| 0 <= i < blobs.len() ==> #[trigger] takes_blob(states, blobs, i)
    &&& if blobs.len() > 0 {
        states.last().persists(&flushed)
    } else {
        flushed == states.last()
    }
    &&& effects == flushed.pending()
    &&& flushed.hands_out(&after)
}

/// Whether `states` are the way of a writer from `before` to `after`
/// through the first `k` blobs of a batch: truncated first where `surplus`
/// blobs are to go, and each of the `k` blobs, all shorter than `2^32`
/// bytes, taken and appended after the other. Nothing is persisted and no
/// effect handed out.
pub open spec fn is_partial_trace<W: JournalWriter>(
    before: W,
    after: W,
    surplus: Option<nat>,
    blobs: Seq<Seq<u8>>,
    states: Seq<W>,
    k: int,
) -> bool {
    &&& 0 <= k <= blobs.len()
    &&& states.len() == k + 1
    &&& match surplus {
        Some(blob_count) => before.disposes(&states[0], blob_count),
        None => states[0] == before,
    }
    &&& forall|i: int| 0 <= i < k ==> #[trigger] takes_blob(states, blobs, i)
    &&& after == states[k]
}

/// A way through the first blobs of a batch goes on by one blob where the
/// writer takes the next one.
pub proof fn lemma_partial_trace_goes_on<W: JournalWriter>(
    before: W,
    reached: W,
    next: W,
    surplus: Option<nat>,
    blobs: Seq<Seq<u8>>,
    states: Seq<W>,
    k: int,
)
    requires
        is_partial_trace(before, reached, surplus, blobs, states, k),
        k < blobs.len(),
        blobs[k].len() < 0x1_0000_0000,
        reached.accepts(blobs[k]),
        reached.appends(&next, blobs[k]),
    ensures
        is_partial_trace(before, next, surplus, blobs, states.push(next), k + 1),
{
    let longer = states.push(next);
    assert(longer[0] == states[0]);
    assert forall|i: int| 0 <= i < k + 1 implies #[trigger] takes_blob(longer, blobs, i) by {
        assert(longer[i] == states[i]);
        if i < k {
            assert(longer[i + 1] == states[i + 1]);
            assert(takes_blob(states, blobs, i));
        }
    }
}

/// A way through all blobs of a batch that ends with everything persisted
/// and the effects handed out is the way of a served batch.
pub proof fn lemma_partial_trace_ends<W: JournalWriter>(
    before: W,
    reached: W,
    flushed: W,
    after: W,
    surplus: Option<nat>,
    blobs: Seq<Seq<u8>>,
    effects: Seq<W::Effect>,
    states: Seq<W>,
)
    requires
        is_partial_trace(before, reached, surplus, blobs, states, blobs.len() as int),
        if blobs.len() > 0 {
            reached.persists(&flushed)
        } else {
            flushed == reached
        },
        effects == flushed.pending(),
        flushed.hands_out(&after),
    ensures
        writer_served(before, after, surplus, blobs, effects),
{
    assert(states.last() == reached);
    assert(is_trace(before, after, surplus, blobs, effects, states, flushed));
}

/// Whether a batch ends at its blob `k` because the writer has no room for
/// it: the blobs before it were taken and appended, which leaves the writer
/// `after`, and that writer refuses the blob.
pub open spec fn refused_at<W: JournalWriter>(
    before: W,
    after: W,
    surplus: Option<nat>,
    blobs: Seq<Seq<u8>>,
    states: Seq<W>,
    k: int,
) -> bool {
    &&& is_partial_trace(before, after, surplus, blobs, states, k)
    &&& k < blobs.len()
    &&& !after.accepts(blobs[k])
}

/// Whether a batch ends at its blob `k` because that blob takes `2^32`
/// bytes or more: the blobs before it were taken and appended, which leaves
/// the writer `after`.
pub open spec fn too_large_at<W: JournalWriter>(
    before: W,
    after: W,
    surplus: Option<nat>,
    blobs: Seq<Seq<u8>>,
    states: Seq<W>,
    k: int,
) -> bool {
    &&& is_partial_trace(before, after, surplus, blobs, states, k)
    &&& k < blobs.len()
    &&& blobs[k].len() >= 0x1_0000_0000
}

/// Whether serving a batch makes `after` of the writer `before` and leaves
/// `effects`: the writer is truncated where `surplus` blobs are to go, the
/// blobs of `blobs` are appended in order and persisted together, and the
/// effects of all of this are handed out.
pub open spec fn writer_served<W: JournalWriter>(
    before: W,
    after: W,
    surplus: Option<nat>,
    blobs: Seq<Seq<u8>>,
    effects: Seq<W::Effect>,
) -> bool {
    exists|states: Seq<W>, flushed: W| #[trigger]
        is_trace(before, after, surplus, blobs, effects, states, flushed)
}

/// A mutation that waits to be journaled. `N` is whatever the caller needs
/// in order to tell whoever asked that the mutation is durable; the service
/// hands it back after the batch was persisted and never looks into it.
pub struct JournalServiceRequest<U, N> {
    pub mutation: Traced<U>,
    pub notify: N,
}

/// What the journal service serves in one go: a new lower bound of the
/// epochs to keep, or mutations to journal together with what notifies
/// their senders.
pub struct BatchResult<U, N> {
    pub mutations: Vec<Traced<U>>,
    pub notifiers: Vec<N>,
    pub min_epoch: Option<u64>,
}

/// How the journal service forms its batches.
pub struct JournalServiceBase {
    batch_size: usize,
}

/// The number of requests that go into a batch together with the first
/// one, where `waiting` more are at hand: as many as are there, as long as
/// the batch stays within `batch_size`. The first request always goes in.
pub open spec fn batch_extra(waiting: nat, batch_size: nat) -> nat {
    if batch_size == 0 {
        0
    } else if waiting < batch_size - 1 {
        waiting
    } else {
        (batch_size - 1) as nat
    }
}

impl JournalServiceBase {
    /// The largest number of mutations in a batch, but for the first one,
    /// which is always taken.
    pub closed spec fn limit(&self) -> nat {
        self.batch_size as nat
    }

    /// Batches of up to `batch_size` mutations.
    pub fn new(batch_size: usize) -> (base: Self)
        ensures
            base.limit() == batch_size,
    {
        Self { batch_size }
    }

    /// Whether a batch that holds `processed` requests takes one more.
    pub fn wants_more(&self, processed: usize) -> (more: bool)
        ensures
            more == (processed < self.limit()),
    {
        processed < self.batch_size
    }

    /// The batch that stands for a new lower bound of the epochs to keep.
    pub fn min_epoch_batch<U, N>(min_epoch: u64) -> (batch: BatchResult<U, N>)
        ensures
            batch.mutations@.len() == 0,
            batch.notifiers@.len() == 0,
            batch.min_epoch == Some(min_epoch),
    {
        BatchResult { mutations: Vec::new(), notifiers: Vec::new(), min_epoch: Some(min_epoch) }
    }

    /// Forms a batch of `first` and of the requests at the front of `queue`,
    /// as many as the batch size allows, and takes them off the queue.
    pub fn process_request_batch<U, N>(
        &self,
        first: JournalServiceRequest<U, N>,
        queue: &mut VecDeque<JournalServiceRequest<U, N>>,
    ) -> (batch: BatchResult<U, N>)
        ensures
            batch.min_epoch is None,
            batch.mutations@.len() == 1 + batch_extra(old(queue)@.len(), self.limit()),
            batch.notifiers@.len() == batch.mutations@.len(),
            batch.mutations@[0] == first.mutation,
            batch.notifiers@[0] == first.notify,
            forall|i: int|
                1 <= i < batch.mutations@.len() ==> (#[trigger] batch.mutations@[i]) == old(
                    queue,
                )@[i - 1].mutation,
            forall|i: int|
                1 <= i < batch.mutations@.len() ==> (#[trigger] batch.notifiers@[i]) == old(
                    queue,
                )@[i - 1].notify,
            final(queue)@ == old(queue)@.skip(batch.mutations@.len() - 1),
    {
        let mut mutations: Vec<Traced<U>> = Vec::new();
        let mut notifiers: Vec<N> = Vec::new();
        mutations.push(first.mutation);
        notifiers.push(first.notify);
        let mut processed: usize = 1;
        proof {
            assert(queue@.skip(0) =~= queue@);
        }
        while self.wants_more(processed) && queue.len() > 0
            invariant
                processed == mutations@.len(),
                processed == notifiers@.len(),
                1 <= processed <= 1 + old(queue)@.len(),
                processed <= 1 + batch_extra(old(queue)@.len(), self.limit()),
                queue@ == old(queue)@.skip(processed - 1),
                mutations@[0] == first.mutation,
                notifiers@[0] == first.notify,
                forall|i: int|
                    1 <= i < processed ==> (#[trigger] mutations@[i]) == old(queue)@[i
                        - 1].mutation,
                forall|i: int|
                    1 <= i < processed ==> (#[trigger] notifiers@[i]) == old(queue)@[i
                        - 1].notify,
            decreases queue@.len(),
        {
            let request = queue.pop_front().unwrap();
            assert(request == old(queue)@[processed - 1]);
            mutations.push(request.mutation);
            notifiers.push(request.notify);
            assert(queue@ =~= old(queue)@.skip(processed as int));
            processed += 1;
        }
        BatchResult { mutations, notifiers, min_epoch: None }
    }
}

/// Reads a journal back and checks it against the snapshot that the
/// machine was loaded from.
pub struct JournalServiceRestorer<R: JournalReader, M: Machine> {
    reader: R,
    snapshot_epoch: u64,
    base: JournalServiceBase,
    machine: PhantomData<M>,
}

/// Journals mutations under consecutive epochs.
pub struct JournalService<W: JournalWriter, M: Machine> {
    writer: W,
    persisted_epoch: u64,
    base: JournalServiceBase,
    machine: PhantomData<M>,
}

/// What the caller has to do after a batch was served, in this order: carry
/// out the effects on the storage, publish the persisted epoch, notify the
/// senders, and pass the proposals on to the machine and to the snapshot
/// service.
pub struct ServeOutcome<U, N, E> {
    pub effects: Vec<E>,
    pub persisted_epoch: u64,
    pub notifiers: Vec<N>,
    pub proposals: Vec<MutationProposal<U>>,
}

/// Pairs the mutations with consecutive epochs, starting right after
/// `persisted_epoch`.
fn into_proposals<U>(mutations: Vec<Traced<U>>, persisted_epoch: u64) -> (proposals: Vec<
    MutationProposal<U>,
>)
    requires
        persisted_epoch + mutations@.len() <= u64::MAX,
    ensures
        proposals@.len() == mutations@.len(),
        forall|i: int|
            0 <= i < proposals@.len() ==> {
                &&& (#[trigger] proposals@[i]).mutation == mutations@[i]
                &&& proposals@[i].epoch == persisted_epoch + 1 + i
            },
{
    let n: usize = mutations.len();
    let mut stack = crate::util::reversed(mutations);
    let mut proposals: Vec<MutationProposal<U>> = Vec::new();
    let mut epoch: u64 = persisted_epoch;
    while stack.len() > 0
        invariant
            proposals@.len() + stack@.len() == n,
            n == mutations@.len(),
            persisted_epoch + n <= u64::MAX,
            epoch == persisted_epoch + proposals@.len(),
            forall|i: int| 0 <= i < stack@.len() ==> #[trigger] stack@[i] == mutations@[n - 1 - i],
            forall|i: int|
                0 <= i < proposals@.len() ==> {
                    &&& (#[trigger] proposals@[i]).mutation == mutations@[i]
                    &&& proposals@[i].epoch == persisted_epoch + 1 + i
                },
        decreases stack@.len(),
    {
        let ghost top = stack@.len() - 1;
        let mutation = stack.pop().unwrap();
        assert(mutation == mutations@[n - 1 - top]);
        epoch += 1;
        proposals.push(MutationProposal { mutation, epoch });
    }
    proposals
}

impl<R: JournalReader, M: Machine> JournalServiceRestorer<R, M> {
    /// The reader that the journal is read with.
    pub closed spec fn reader(&self) -> R {
        self.reader
    }

    /// The epoch of the snapshot that the machine was loaded from.
    pub closed spec fn snapshot(&self) -> u64 {
        self.snapshot_epoch
    }

    /// The batching of the service to come.
    pub closed spec fn batching(&self) -> JournalServiceBase {
        self.base
    }

    /// A restorer that reads the journal with `reader`, which has not been
    /// read from yet, for a machine that was loaded from the snapshot of
    /// `snapshot_epoch`.
    pub fn new(reader: R, batch_size: usize, snapshot_epoch: u64) -> (restorer: Self)
        ensures
            restorer.reader() == reader,
            restorer.snapshot() == snapshot_epoch,
            restorer.batching().limit() == batch_size,
    {
        Self {
            reader,
            snapshot_epoch,
            base: JournalServiceBase::new(batch_size),
            machine: PhantomData,
        }
    }

    /// Takes a blob apart into its mutation and its epoch.
    pub fn decode_blob(blob: Vec<u8>) -> (result: Result<(M::Mutation, u64), Error>)
        ensures
            match result {
                Ok((mutation, epoch)) => decoded::<M>(blob@) == Ok::<
                    (<M::Mutation as View>::V, u64),
                    Error,
                >((mutation@, epoch)),
                Err(e) => decoded::<M>(blob@) == Err::<(<M::Mutation as View>::V, u64), Error>(e),
            },
    {
        if blob.len() < 8 {
            return Err(Error::BlobTooShort { len: blob.len() });
        }
        let epoch: u64 = read_u64_le(blob.as_slice());
        let payload = vstd::slice::slice_subrange(blob.as_slice(), 8, blob.len());
        proof {
            assert(payload@ =~= blob_payload(blob@));
        }
        match M::decode_mutation(payload) {
            Some(mutation) => Ok((mutation, epoch)),
            None => Err(Error::MutationDecode),
        }
    }

    /// Checks that `epoch` follows: right after `last_epoch` where a blob
    /// came before, and otherwise no later than right after the snapshot.
    pub fn validate_blob_epoch(epoch: u64, snapshot_epoch: u64, last_epoch: Option<u64>) -> (result:
        Result<(), Error>)
        ensures
            result == validated(epoch, snapshot_epoch, last_epoch),
    {
        match last_epoch {
            Some(last) => {
                if last == u64::MAX || last + 1 != epoch {
                    return Err(Error::MissingMutations { after: last, got: epoch });
                }
            },
            None => {
                if epoch > snapshot_epoch && epoch - snapshot_epoch > 1 {
                    return Err(Error::MissingMutations { after: snapshot_epoch, got: epoch });
                }
            },
        }
        Ok(())
    }

    /// Reads the journal to its end and checks it: every blob has to decode
    /// and to carry the epoch right after that of the blob before, the first
    /// blob may not leave a gap behind the snapshot, and the journal has to
    /// reach the epoch of the snapshot.
    ///
    /// Gives the service that continues the journal at the last epoch, and
    /// the mutations later than the snapshot, in order, for the machine and
    /// the snapshot service to apply. Fails with what is wrong with the
    /// first blob that is not in order, or with `UnexpectedEof` where all
    /// blobs are in order and the journal is cut short behind them.
    pub fn restore(self) -> (result: Result<
        (JournalService<R::Writer, M>, Vec<MutationProposal<M::Mutation>>),
        Error,
    >)
        requires
            self.reader().wf(),
            self.reader().consumed().len() == 0,
        ensures
            match replay::<M>(self.reader().pending(), self.snapshot()) {
                Err(e) => result matches Err(err) && err == e,
                Ok(entries) => if self.reader().broken() {
                    result matches Err(err) && err == Error::UnexpectedEof
                } else if last_epoch_of(entries) < self.snapshot() {
                    result matches Err(err) && err == (Error::JournalBehindSnapshot {
                        snapshot_epoch: self.snapshot(),
                        last_epoch: last_epoch_of(entries),
                    })
                } else {
                    &&& result matches Ok((service, proposals))
                    &&& service.wf()
                    &&& service.epoch() == last_epoch_of(entries)
                    &&& service.journal() == self.reader().pending()
                    &&& service.batching() == self.batching()
                    &&& proposal_views(proposals@) == after_snapshot(entries, self.snapshot())
                },
            },
    {
        let ghost blobs = self.reader.pending();
        let ghost broken = self.reader.broken();
        let snapshot_epoch = self.snapshot_epoch;
        let base = self.base;
        let mut reader = self.reader;
        let mut last_epoch: Option<u64> = None;
        let mut proposals: Vec<MutationProposal<M::Mutation>> = Vec::new();
        let ghost mut entries: Seq<(<M::Mutation as View>::V, u64)> = Seq::empty();
        let ghost mut done: int = 0;
        proof {
            assert(blobs.take(0) =~= Seq::<Seq<u8>>::empty());
            assert(blobs.skip(0) =~= blobs);
            assert(proposal_views(proposals@) =~= after_snapshot(entries, snapshot_epoch));
        }
        loop
            invariant
                blobs == self.reader.pending(),
                broken == self.reader.broken(),
                reader.wf(),
                reader.broken() == broken,
                0 <= done <= blobs.len(),
                reader.pending() == blobs.skip(done),
                reader.consumed() == blobs.take(done),
                replay::<M>(blobs.take(done), snapshot_epoch) == Ok::<
                    Seq<(<M::Mutation as View>::V, u64)>,
                    Error,
                >(entries),
                last_epoch == last_of(entries),
                proposal_views(proposals@) == after_snapshot(entries, snapshot_epoch),
                snapshot_epoch == self.snapshot_epoch,
                base == self.base,
            decreases blobs.len() - done,
        {
            match reader.read_blob() {
                Err(e) => {
                    proof {
                        assert(blobs.skip(done).len() == 0);
                        assert(blobs.take(done) =~= blobs);
                    }
                    return Err(e);
                },
                Ok(ReadResult::End(writer)) => {
                    proof {
                        assert(blobs.skip(done).len() == 0);
                        assert(blobs.take(done) =~= blobs);
                        lemma_replay::<M>(blobs, snapshot_epoch);
                    }
                    let last: u64 = match last_epoch {
                        Some(epoch) => epoch,
                        None => 0,
                    };
                    if last < snapshot_epoch {
                        return Err(
                            Error::JournalBehindSnapshot { snapshot_epoch, last_epoch: last },
                        );
                    }
                    let service = JournalService {
                        writer,
                        persisted_epoch: last,
                        base,
                        machine: PhantomData,
                    };
                    return Ok((service, proposals));
                },
                Ok(ReadResult::Blob(data, next)) => {
                    let ghost blob = data@;
                    proof {
                        assert(blob == blobs[done]);
                        assert(blobs.take(done + 1).drop_last() =~= blobs.take(done));
                        assert(blobs.take(done + 1).last() == blob);
                        assert(blobs.skip(done).skip(1) =~= blobs.skip(done + 1));
                        assert(blobs.take(done).push(blob) =~= blobs.take(done + 1));
                    }
                    let (mutation, epoch) = match Self::decode_blob(data) {
                        Ok(pair) => pair,
                        Err(e) => {
                            proof {
                                lemma_replay_fails::<M>(blobs, snapshot_epoch, done + 1);
                            }
                            return Err(e);
                        },
                    };
                    match Self::validate_blob_epoch(epoch, snapshot_epoch, last_epoch) {
                        Ok(()) => {},
                        Err(e) => {
                            proof {
                                lemma_replay_fails::<M>(blobs, snapshot_epoch, done + 1);
                            }
                            return Err(e);
                        },
                    }
                    let ghost shown = proposal_views(proposals@);
                    if epoch > snapshot_epoch {
                        let traced = Traced::new(mutation);
                        proposals.push(MutationProposal { mutation: traced, epoch });
                        proof {
                            assert(proposal_views(proposals@) =~= shown.push((mutation@, epoch)));
                        }
                    }
                    proof {
                        let longer = entries.push((mutation@, epoch));
                        assert(longer.drop_last() =~= entries);
                        entries = longer;
                        done = done + 1;
                    }
                    last_epoch = Some(epoch);
                    reader = next;
                },
            }
        }
    }
}

/// Once a front part of the blobs fails to replay, all of them fail with
/// the same error.
pub proof fn lemma_replay_fails<M: Machine>(blobs: Seq<Seq<u8>>, snapshot_epoch: u64, k: int)
    requires
        0 <= k <= blobs.len(),
        replay::<M>(blobs.take(k), snapshot_epoch) is Err,
    ensures
        replay::<M>(blobs, snapshot_epoch) == replay::<M>(blobs.take(k), snapshot_epoch),
    decreases blobs.len() - k,
{
    if k == blobs.len() {
        assert(blobs.take(k) =~= blobs);
    } else {
        assert(blobs.take(k + 1).drop_last() =~= blobs.take(k));
        lemma_replay_fails::<M>(blobs, snapshot_epoch, k + 1);
    }
}

impl<W: JournalWriter, M: Machine> JournalService<W, M> {
    /// The writer of the journal.
    pub closed spec fn writer(&self) -> W {
        self.writer
    }

    /// The blobs that the journal holds, oldest first.
    pub closed spec fn journal(&self) -> Seq<Seq<u8>> {
        self.writer.blobs()
    }

    /// The epoch of the last mutation that was journaled.
    pub closed spec fn epoch(&self) -> u64 {
        self.persisted_epoch
    }

    /// How batches are formed.
    pub closed spec fn batching(&self) -> JournalServiceBase {
        self.base
    }

    /// The journal holds consecutive epochs that end with the persisted
    /// one, and every blob of it was persisted.
    pub open spec fn wf(&self) -> bool {
        &&& self.writer().wf()
        &&& self.writer().unflushed().len() == 0
        &&& contiguous(self.journal(), self.epoch())
    }

    /// The epoch of the last mutation that was journaled.
    pub fn persisted_epoch(&self) -> (epoch: u64)
        ensures
            epoch == self.epoch(),
    {
        self.persisted_epoch
    }

    /// How batches are formed.
    pub fn base(&self) -> (base: &JournalServiceBase)
        ensures
            *base == self.batching(),
    {
        &self.base
    }

    /// The number of blobs that are to go where the journal holds `held`
    /// blobs, the last journaled epoch is `persisted_epoch`, and every epoch
    /// from `min_epoch` on is to stay.
    pub open spec fn excess(held: nat, persisted_epoch: u64, min_epoch: u64) -> nat {
        if held > persisted_epoch + 1 - min_epoch {
            (held - (persisted_epoch + 1 - min_epoch)) as nat
        } else {
            0
        }
    }

    /// Appends the blob of `mutation` under `epoch` to the journal, once,
    /// and persists nothing. Succeeds where the blob takes less than `2^32`
    /// bytes and the writer has room for it. Otherwise the writer stays as
    /// it is, and the failure is `BlobTooLarge` for a blob of `2^32` bytes
    /// or more and `JournalFull` for one that the writer refuses.
    fn write_mutation(&mut self, mutation: &M::Mutation, epoch: u64) -> (result: Result<(), Error>)
        requires
            old(self).writer().wf(),
        ensures
            final(self).writer().wf(),
            final(self).epoch() == old(self).epoch(),
            final(self).batching() == old(self).batching(),
            blob_of(epoch, M::encoding(mutation@)).len() == 8 + M::encoding(mutation@).len(),
            result is Ok <==> M::encoding(mutation@).len() + 8 < 0x1_0000_0000 && old(
                self,
            ).writer().accepts(blob_of(epoch, M::encoding(mutation@))),
            match result {
                Ok(()) => {
                    &&& final(self).journal() == old(self).journal().push(
                        blob_of(epoch, M::encoding(mutation@)),
                    )
                    &&& old(self).writer().appends(
                        &final(self).writer(),
                        blob_of(epoch, M::encoding(mutation@)),
                    )
                },
                Err(e) => {
                    &&& final(self).writer() == old(self).writer()
                    &&& if M::encoding(mutation@).len() + 8 >= 0x1_0000_0000 {
                        e matches Error::BlobTooLarge { len } && len == M::encoding(
                            mutation@,
                        ).len()
                    } else {
                        e == Error::JournalFull
                    }
                },
            },
    {
        proof {
            lemma_blob_of(epoch, M::encoding(mutation@));
        }
        let payload = M::encode_mutation(mutation);
        if payload.len() > 0xffff_ffff - 8 {
            return Err(Error::BlobTooLarge { len: payload.len() });
        }
        let mut blob = u64_le(epoch);
        append_bytes(&mut blob, payload.as_slice());
        proof {
            lemma_le_bytes_len(epoch as nat, 8);
        }
        self.writer.append_blob(blob.as_slice())
    }

    /// Truncates the journal for a snapshot that covers every epoch before
    /// `min_epoch`, which may be no later than right after the persisted
    /// epoch: the blobs of earlier epochs go as far as whole files can be
    /// removed, and every blob from `min_epoch` on stays.
    pub fn handle_new_min_epoch(&mut self, min_epoch: u64)
        requires
            old(self).wf(),
            min_epoch <= old(self).epoch() + 1,
        ensures
            final(self).wf(),
            final(self).epoch() == old(self).epoch(),
            final(self).batching() == old(self).batching(),
            final(self).journal() == old(self).journal().skip(
                old(self).writer().disposable(
                    Self::excess(old(self).journal().len(), old(self).epoch(), min_epoch),
                ) as int,
            ),
            match Self::surplus(old(self), Some(min_epoch)) {
                Some(surplus) => old(self).writer().disposes(&final(self).writer(), surplus),
                None => final(self).writer() == old(self).writer(),
            },
    {
        let ghost blobs = self.writer.blobs();
        let actual_len: usize = self.writer.get_blob_count();
        let surplus: usize = if min_epoch == 0 {
            if self.persisted_epoch == u64::MAX || actual_len as u64 <= self.persisted_epoch + 1 {
                0
            } else {
                (actual_len as u64 - (self.persisted_epoch + 1)) as usize
            }
        } else {
            let desired: u64 = self.persisted_epoch - (min_epoch - 1);
            if actual_len as u64 <= desired {
                0
            } else {
                (actual_len as u64 - desired) as usize
            }
        };
        proof {
            assert(surplus == Self::excess(blobs.len(), self.persisted_epoch, min_epoch));
            self.writer.lemma_disposable(surplus as nat);
        }
        if surplus > 0 {
            self.writer.dispose_oldest_blobs(surplus);
        } else {
            proof {
                assert(blobs.skip(0) =~= blobs);
            }
        }
        proof {
            let gone = old(self).writer.disposable(surplus as nat) as int;
            let kept = self.writer.blobs();
            assert(kept == blobs.skip(gone));
            assert forall|i: int| 0 <= i < kept.len() implies {
                &&& (#[trigger] kept[i]).len() >= 8
                &&& blob_epoch(kept[i]) + (kept.len() - 1 - i) == self.persisted_epoch
            } by {
                assert(kept[i] == blobs[i + gone]);
            }
        }
    }

    /// Serves one batch.
    ///
    /// A new lower bound of the epochs to keep, which may be no later than
    /// right after the persisted epoch, truncates the journal. The
    /// mutations of the batch get the epochs right after the persisted one,
    /// in their order, are appended to the journal and persisted together,
    /// and the persisted epoch moves on to the last of them. A batch without
    /// mutations persists nothing and always succeeds.
    ///
    /// The batch fails with `EpochExhausted` where it holds more mutations
    /// than there are epochs left, which is found before anything is
    /// appended; with `BlobTooLarge` at the first blob of `2^32` bytes or
    /// more; and with `JournalFull` at the first blob that the writer has
    /// no room for. In every other case it succeeds. After a failure
    /// nothing was persisted, the blobs before the failing one are appended,
    /// and the service is of no further use.
    pub fn serve<N>(&mut self, batch: BatchResult<M::Mutation, N>) -> (result: Result<
        ServeOutcome<M::Mutation, N, W::Effect>,
        Error,
    >)
        requires
            old(self).wf(),
            batch.min_epoch matches Some(min_epoch) ==> min_epoch <= old(self).epoch() + 1,
        ensures
            final(self).writer().wf(),
            final(self).batching() == old(self).batching(),
            old(self).epoch() + batch.mutations@.len() > u64::MAX ==> (result matches Err(e) && e
                == Error::EpochExhausted),
            (exists|i: int|
                0 <= i < batch.mutations@.len() && M::encoding(
                    (#[trigger] batch.mutations@[i]).payload@,
                ).len() + 8 >= 0x1_0000_0000) ==> result is Err,
            batch.mutations@.len() == 0 ==> result is Ok,
            match result {
                Ok(outcome) => {
                    &&& final(self).wf()
                    &&& final(self).writer().pending().len() == 0
                    &&& final(self).epoch() == old(self).epoch() + batch.mutations@.len()
                    &&& outcome.persisted_epoch == final(self).epoch()
                    &&& outcome.notifiers == batch.notifiers
                    &&& outcome.proposals@.len() == batch.mutations@.len()
                    &&& forall|i: int|
                        0 <= i < batch.mutations@.len() ==> {
                            &&& (#[trigger] outcome.proposals@[i]).mutation == batch.mutations@[i]
                            &&& outcome.proposals@[i].epoch == old(self).epoch() + 1 + i
                        }
                    &&& final(self).journal() == Self::truncated_journal(
                        old(self),
                        batch.min_epoch,
                    ) + Self::added(batch.mutations@, old(self).epoch())
                    &&& writer_served(
                        old(self).writer(),
                        final(self).writer(),
                        Self::surplus(old(self), batch.min_epoch),
                        Self::added(batch.mutations@, old(self).epoch()),
                        outcome.effects@,
                    )
                },
                Err(e) => {
                    &&& final(self).epoch() == old(self).epoch()
                    &&& e == Error::EpochExhausted || e == Error::JournalFull
                        || e is BlobTooLarge
                    &&& e == Error::EpochExhausted ==> {
                        &&& old(self).epoch() + batch.mutations@.len() > u64::MAX
                        &&& is_partial_trace(
                            old(self).writer(),
                            final(self).writer(),
                            Self::surplus(old(self), batch.min_epoch),
                            Self::added(batch.mutations@, old(self).epoch()),
                            seq![final(self).writer()],
                            0,
                        )
                    }
                    &&& e == Error::JournalFull ==> exists|states: Seq<W>, k: int| #[trigger]
                        refused_at(
                            old(self).writer(),
                            final(self).writer(),
                            Self::surplus(old(self), batch.min_epoch),
                            Self::added(batch.mutations@, old(self).epoch()),
                            states,
                            k,
                        )
                    &&& e matches Error::BlobTooLarge { len } ==> exists|states: Seq<W>, k: int|
                        {
                            &&& #[trigger] too_large_at(
                                old(self).writer(),
                                final(self).writer(),
                                Self::surplus(old(self), batch.min_epoch),
                                Self::added(batch.mutations@, old(self).epoch()),
                                states,
                                k,
                            )
                            &&& len == M::encoding(batch.mutations@[k].payload@).len()
                        }
                    &&& e is BlobTooLarge ==> exists|i: int|
                        0 <= i < batch.mutations@.len() && M::encoding(
                            (#[trigger] batch.mutations@[i]).payload@,
                        ).len() + 8 >= 0x1_0000_0000
                },
            },
    {
        let BatchResult { mutations, notifiers, min_epoch } = batch;
        match min_epoch {
            Some(min_epoch) => {
                self.handle_new_min_epoch(min_epoch);
            },
            None => {},
        }
        let ghost before = old(self).writer;
        let ghost surplus = Self::surplus(old(self), min_epoch);
        let ghost start = self.writer.blobs();
        let ghost first = self.persisted_epoch;
        let ghost added = Self::added(mutations@, first);
        let ghost mut states: Seq<W> = seq![self.writer];
        proof {
            assert(is_partial_trace(before, self.writer, surplus, added, states, 0));
            assert(added.take(0) =~= Seq::<Seq<u8>>::empty());
            assert(self.writer.blobs() =~= start + added.take(0));
        }
        let n: usize = mutations.len();
        if n == 0 {
            let ghost reached = self.writer;
            let effects = self.writer.take_effects();
            proof {
                assert(self.writer.blobs() =~= start + added);
                lemma_partial_trace_ends(
                    before,
                    reached,
                    reached,
                    self.writer,
                    surplus,
                    added,
                    effects@,
                    states,
                );
            }
            return Ok(
                ServeOutcome {
                    effects,
                    persisted_epoch: self.persisted_epoch,
                    notifiers,
                    proposals: Vec::new(),
                },
            );
        }
        if n as u64 > u64::MAX - self.persisted_epoch {
            return Err(Error::EpochExhausted);
        }
        let mut i: usize = 0;
        while i < n
            invariant
                i <= n,
                n == mutations@.len(),
                n == added.len(),
                mutations == batch.mutations,
                before == old(self).writer(),
                surplus == Self::surplus(old(self), batch.min_epoch),
                added == Self::added(batch.mutations@, old(self).epoch()),
                first == old(self).epoch(),
                first + n <= u64::MAX,
                self.writer.wf(),
                self.persisted_epoch == first,
                self.base == old(self).base,
                self.writer.blobs() == start + added.take(i as int),
                is_partial_trace(before, self.writer, surplus, added, states, i as int),
                forall|k: int|
                    0 <= k < n ==> #[trigger] added[k] == blob_of(
                        (first + 1 + k) as u64,
                        M::encoding(mutations@[k].payload@),
                    ),
            decreases n - i,
        {
            let epoch: u64 = self.persisted_epoch + 1 + i as u64;
            let ghost reached = self.writer;
            let ghost blob = added[i as int];
            match self.write_mutation(&mutations[i].payload, epoch) {
                Ok(()) => {},
                Err(e) => {
                    proof {
                        assert(self.writer() == reached);
                        if e is BlobTooLarge {
                            assert(too_large_at(
                                before,
                                self.writer(),
                                surplus,
                                added,
                                states,
                                i as int,
                            ));
                        } else {
                            assert(refused_at(
                                before,
                                self.writer(),
                                surplus,
                                added,
                                states,
                                i as int,
                            ));
                        }
                    }
                    return Err(e);
                },
            }
            proof {
                lemma_partial_trace_goes_on(
                    before,
                    reached,
                    self.writer,
                    surplus,
                    added,
                    states,
                    i as int,
                );
                states = states.push(self.writer);
                assert(added.take(i + 1) =~= added.take(i as int).push(blob));
            }
            i += 1;
        }
        proof {
            assert(added.take(n as int) =~= added);
        }
        let ghost reached = self.writer;
        self.writer.persist();
        let ghost flushed = self.writer;
        let proposals = into_proposals(mutations, self.persisted_epoch);
        self.persisted_epoch += n as u64;
        let effects = self.writer.take_effects();
        proof {
            assert forall|k: int| 0 <= k < n implies M::encoding(
                (#[trigger] batch.mutations@[k]).payload@,
            ).len() + 8 < 0x1_0000_0000 by {
                assert(takes_blob(states, added, k));
                lemma_blob_of((first + 1 + k) as u64, M::encoding(mutations@[k].payload@));
            }
            let held = self.writer.blobs();
            assert(held == start + added);
            assert forall|j: int| 0 <= j < held.len() implies {
                &&& (#[trigger] held[j]).len() >= 8
                &&& blob_epoch(held[j]) + (held.len() - 1 - j) == self.persisted_epoch
            } by {
                if j < start.len() {
                    assert(held[j] == start[j]);
                } else {
                    let k = j - start.len();
                    assert(held[j] == added[k]);
                    lemma_blob_of((first + 1 + k) as u64, M::encoding(mutations@[k].payload@));
                }
            }
            lemma_partial_trace_ends(
                before,
                reached,
                flushed,
                self.writer,
                surplus,
                added,
                effects@,
                states,
            );
        }
        Ok(ServeOutcome { effects, persisted_epoch: self.persisted_epoch, notifiers, proposals })
    }

    /// The number of blobs that a batch with the lower bound `min_epoch`
    /// asks the writer of `service` to dispose of, if it asks for any.
    pub open spec fn surplus(service: &Self, min_epoch: Option<u64>) -> Option<nat> {
        match min_epoch {
            Some(min_epoch) => {
                let excess = Self::excess(service.journal().len(), service.epoch(), min_epoch);
                if excess > 0 {
                    Some(excess)
                } else {
                    None
                }
            },
            None => None,
        }
    }

    /// The blobs that journaling `mutations` under the epochs right after
    /// `persisted_epoch` adds.
    pub open spec fn added(mutations: Seq<Traced<M::Mutation>>, persisted_epoch: u64) -> Seq<
        Seq<u8>,
    > {
        Seq::new(
            mutations.len(),
            |i: int|
                blob_of((persisted_epoch + 1 + i) as u64, M::encoding(mutations[i].payload@)),
        )
    }

    /// The journal of `service` after it was truncated for `min_epoch`, or
    /// as it is where no lower bound is given.
    pub open spec fn truncated_journal(service: &Self, min_epoch: Option<u64>) -> Seq<Seq<u8>> {
        match min_epoch {
            Some(min_epoch) => service.journal().skip(
                service.writer().disposable(
                    Self::excess(service.journal().len(), service.epoch(), min_epoch),
                ) as int,
            ),
            None => service.journal(),
        }
    }
}

/// A blob gives back the epoch and the payload it was made of.
pub proof fn lemma_blob_of(epoch: u64, payload: Seq<u8>)
    ensures
        blob_of(epoch, payload).len() == 8 + payload.len(),
        blob_epoch(blob_of(epoch, payload)) == epoch,
        blob_payload(blob_of(epoch, payload)) == payload,
{
    let blob = blob_of(epoch, payload);
    lemma_le_bytes_len(epoch as nat, 8);
    lemma_le_limits();
    lemma_le_value_of_bytes(epoch as nat, 8);
    assert(blob.subrange(0, 8) =~= le_bytes(epoch as nat, 8));
    assert(blob.skip(8) =~= payload);
}

/// Where the epochs of `entries` are consecutive and leave no gap behind
/// `snapshot_epoch`, the entries later than the snapshot are the last ones
/// of `entries`, and their epochs are the ones right after the snapshot.
pub proof fn lemma_after_snapshot<V>(entries: Seq<(V, u64)>, snapshot_epoch: u64)
    requires
        forall|i: int| 0 <= i < entries.len() ==> (#[trigger] entries[i]).1 == entries[0].1 + i,
        entries.len() > 0 ==> entries[0].1 <= snapshot_epoch + 1,
    ensures
        after_snapshot(entries, snapshot_epoch).len() == if last_epoch_of(entries)
            > snapshot_epoch {
            last_epoch_of(entries) - snapshot_epoch
        } else {
            0
        },
        after_snapshot(entries, snapshot_epoch).len() <= entries.len(),
        forall|i: int|
            0 <= i < after_snapshot(entries, snapshot_epoch).len() ==> {
                &&& (#[trigger] after_snapshot(entries, snapshot_epoch)[i]).1 == snapshot_epoch + 1
                    + i
                &&& after_snapshot(entries, snapshot_epoch)[i] == entries[entries.len()
                    - after_snapshot(entries, snapshot_epoch).len() + i]
            },
    decreases entries.len(),
{
    if entries.len() > 0 {
        let front = entries.drop_last();
        assert forall|i: int| 0 <= i < front.len() implies (#[trigger] front[i]).1 == front[0].1
            + i by {
            assert(front[i] == entries[i]);
            assert(front[0] == entries[0]);
        }
        if front.len() > 0 {
            assert(front[0] == entries[0]);
            assert(front[front.len() - 1] == entries[front.len() - 1]);
        }
        lemma_after_snapshot(front, snapshot_epoch);
        let later = after_snapshot(entries, snapshot_epoch);
        let before = after_snapshot(front, snapshot_epoch);
        assert(entries[entries.len() - 1] == entries.last());
        assert forall|i: int| 0 <= i < later.len() implies {
            &&& (#[trigger] later[i]).1 == snapshot_epoch + 1 + i
            &&& later[i] == entries[entries.len() - later.len() + i]
        } by {
            if i < before.len() {
                assert(later[i] == before[i]);
                assert(front[front.len() - before.len() + i] == entries[front.len()
                    - before.len() + i]);
            }
        }
    }
}

} // verus!
