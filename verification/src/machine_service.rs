//! The pluggable state machine and the service that serves it.
//!
//! The machine service owns one copy of the machine. It applies proposals in
//! epoch order and answers each query from a state that holds every mutation
//! up to the epoch the query asks for: at once where the machine is already
//! there, and otherwise as soon as the proposal of that epoch was applied.

use crate::errors::Error;
use crate::util::Traced;
use std::collections::VecDeque;
use vstd::prelude::*;

verus! {

/// A deterministic state machine that the services keep persistent.
///
/// Besides applying mutations and answering queries, a machine says how its
/// mutations travel as bytes and how its whole state is dumped and loaded.
/// The two lemmas are what an implementation has to prove of its formats.
pub trait Machine: Sized {
    /// A change of the state.
    type Mutation: View;

    /// A question about the state.
    type Query: View;

    /// The answer to a query.
    type Status: View;

    /// The mathematical state that a machine stands for.
    type State;

    /// Whether the machine is in a state that its own operations lead to.
    spec fn inv(&self) -> bool;

    /// The state this machine is in.
    spec fn state(&self) -> Self::State;

    /// The state before any mutation.
    spec fn initial_state() -> Self::State;

    /// The state that `mutation` makes of `state`.
    spec fn apply(state: Self::State, mutation: <Self::Mutation as View>::V) -> Self::State;

    /// The answer that `state` gives to `query`.
    spec fn answer(state: Self::State, query: <Self::Query as View>::V) -> <Self::Status as View>::V;

    /// The bytes that stand for `mutation`.
    spec fn encoding(mutation: <Self::Mutation as View>::V) -> Seq<u8>;

    /// The mutation that `payload` stands for, if it stands for one.
    spec fn decoding(payload: Seq<u8>) -> Option<<Self::Mutation as View>::V>;

    /// Whether `state` can be dumped.
    spec fn dumpable(state: Self::State) -> bool;

    /// Whether `dump` is one of the dumps of `state`. A state may have many:
    /// the order inside a dump is left to the machine.
    spec fn is_dump_of(dump: Seq<u8>, state: Self::State) -> bool;

    /// The state that `dump` loads as, if it loads.
    spec fn dump_state(dump: Seq<u8>) -> Option<Self::State>;

    /// A machine in the initial state.
    fn initial() -> (machine: Self)
        ensures
            machine.inv(),
            machine.state() == Self::initial_state(),
    ;

    /// An independent machine in the same state.
    fn duplicate(&self) -> (copy: Self)
        requires
            self.inv(),
        ensures
            copy.inv(),
            copy.state() == self.state(),
    ;

    /// Applies `mutation`.
    fn apply_mutation(&mut self, mutation: Self::Mutation)
        requires
            old(self).inv(),
        ensures
            final(self).inv(),
            final(self).state() == Self::apply(old(self).state(), mutation@),
    ;

    /// Answers `query` from the current state.
    fn query_state(&self, query: Self::Query) -> (status: Self::Status)
        requires
            self.inv(),
        ensures
            status@ == Self::answer(self.state(), query@),
    ;

    /// Encodes `mutation`.
    fn encode_mutation(mutation: &Self::Mutation) -> (payload: Vec<u8>)
        ensures
            payload@ == Self::encoding(mutation@),
    ;

    /// Decodes `payload`, or gives `None` where it stands for no mutation.
    fn decode_mutation(payload: &[u8]) -> (mutation: Option<Self::Mutation>)
        ensures
            match mutation {
                Some(m) => Self::decoding(payload@) == Some(m@),
                None => Self::decoding(payload@) is None,
            },
    ;

    /// Dumps the whole state, or fails where the state cannot be dumped.
    fn write_snapshot(&self) -> (result: Result<Vec<u8>, Error>)
        requires
            self.inv(),
        ensures
            match result {
                Ok(dump) => Self::is_dump_of(dump@, self.state()),
                Err(_) => !Self::dumpable(self.state()),
            },
    ;

    /// Loads a machine from `dump`, or fails where `dump` loads as nothing.
    fn from_snapshot(dump: &[u8]) -> (result: Result<Self, Error>)
        ensures
            match result {
                Ok(machine) => machine.inv() && Self::dump_state(dump@) == Some(machine.state()),
                Err(_) => Self::dump_state(dump@) is None,
            },
    ;

    /// An encoded mutation decodes as itself.
    proof fn lemma_mutation_round_trip(mutation: Self::Mutation)
        ensures
            Self::decoding(Self::encoding(mutation@)) == Some(mutation@),
    ;

    /// A dump of a state loads as that state.
    proof fn lemma_snapshot_round_trip(dump: Seq<u8>, state: Self::State)
        requires
            Self::is_dump_of(dump, state),
        ensures
            Self::dump_state(dump) == Some(state),
    ;
}

/// The state that the mutations of `mutations`, applied in order, make of
/// `state`.
pub open spec fn apply_all<M: Machine>(
    state: M::State,
    mutations: Seq<<M::Mutation as View>::V>,
) -> M::State
    decreases mutations.len(),
{
    if mutations.len() == 0 {
        state
    } else {
        M::apply(apply_all::<M>(state, mutations.drop_last()), mutations.last())
    }
}

/// What the machine service is asked to do. `R` is whatever the caller needs
/// in order to deliver the answer to a query; the service hands it back
/// together with the answer and never looks into it.
pub enum MachineServiceRequest<M: Machine, R> {
    /// Answer `query` from a state that holds every mutation up to
    /// `min_epoch`.
    Query { query: Traced<M::Query>, min_epoch: u64, result: R },
    /// Apply `mutation`, which was journaled under `epoch`.
    Proposal { mutation: Traced<M::Mutation>, epoch: u64 },
}

/// A query that waits for the machine to reach `min_epoch`.
pub struct QueryPqItem<M: Machine, R> {
    pub query: M::Query,
    pub min_epoch: u64,
    pub result: R,
}

/// The answer to a query, with what the caller needs to deliver it.
pub struct QueryReply<M: Machine, R> {
    pub result: R,
    pub status: M::Status,
}

/// The number of items at the front of `queue` that ask for no more than
/// `epoch`.
pub open spec fn due_count<M: Machine, R>(queue: Seq<QueryPqItem<M, R>>, epoch: u64) -> nat
    decreases queue.len(),
{
    if queue.len() > 0 && queue[0].min_epoch <= epoch {
        1 + due_count(queue.skip(1), epoch)
    } else {
        0
    }
}

/// Whether `queue` is in ascending order of `min_epoch`.
pub open spec fn ascending<M: Machine, R>(queue: Seq<QueryPqItem<M, R>>) -> bool {
    forall|i: int, j: int|
        0 <= i <= j < queue.len() ==> (#[trigger] queue[i]).min_epoch <= (
        #[trigger] queue[j]).min_epoch
}

/// `due_count` is the one position that parts the items asking for at most
/// `epoch` from the others.
pub proof fn lemma_due_count<M: Machine, R>(queue: Seq<QueryPqItem<M, R>>, epoch: u64, k: nat)
    requires
        k <= queue.len(),
        forall|i: int| 0 <= i < k ==> (#[trigger] queue[i]).min_epoch <= epoch,
        k < queue.len() ==> queue[k as int].min_epoch > epoch,
    ensures
        due_count(queue, epoch) == k,
    decreases k,
{
    if k > 0 {
        let rest = queue.skip(1);
        assert forall|i: int| 0 <= i < k - 1 implies (#[trigger] rest[i]).min_epoch <= epoch by {
            assert(rest[i] == queue[i + 1]);
        }
        if k - 1 < rest.len() {
            assert(rest[k - 1] == queue[k as int]);
        }
        lemma_due_count(rest, epoch, (k - 1) as nat);
    }
}

/// In an ascending queue, everything before `due_count` asks for at most
/// `epoch` and everything from there on asks for more.
pub proof fn lemma_due_count_parts<M: Machine, R>(queue: Seq<QueryPqItem<M, R>>, epoch: u64)
    requires
        ascending(queue),
    ensures
        due_count(queue, epoch) <= queue.len(),
        forall|i: int|
            0 <= i < due_count(queue, epoch) ==> (#[trigger] queue[i]).min_epoch <= epoch,
        forall|i: int|
            due_count(queue, epoch) <= i < queue.len() ==> (#[trigger] queue[i]).min_epoch
                > epoch,
    decreases queue.len(),
{
    if queue.len() > 0 && queue[0].min_epoch <= epoch {
        let rest = queue.skip(1);
        assert forall|i: int, j: int| 0 <= i <= j < rest.len() implies (#[trigger] rest[i]).min_epoch
            <= (#[trigger] rest[j]).min_epoch by {
            assert(rest[i] == queue[i + 1]);
            assert(rest[j] == queue[j + 1]);
        }
        lemma_due_count_parts(rest, epoch);
        let k = due_count(queue, epoch);
        assert forall|i: int| 0 <= i < k implies (#[trigger] queue[i]).min_epoch <= epoch by {
            if i > 0 {
                assert(queue[i] == rest[i - 1]);
            }
        }
        assert forall|i: int| k <= i < queue.len() implies (#[trigger] queue[i]).min_epoch
            > epoch by {
            assert(queue[i] == rest[i - 1]);
        }
    } else if queue.len() > 0 {
        assert forall|i: int| 0 <= i < queue.len() implies (#[trigger] queue[i]).min_epoch
            > epoch by {
            assert(queue[0].min_epoch <= queue[i].min_epoch);
        }
    }
}

/// The machine, the epoch it has reached, and the queries that wait for a
/// later epoch, in ascending order of the epoch they wait for.
pub struct MachineService<M: Machine, R> {
    machine: M,
    epoch: u64,
    query_queue: VecDeque<QueryPqItem<M, R>>,
}

impl<M: Machine, R> MachineService<M, R> {
    /// The state of the machine.
    pub closed spec fn state(&self) -> M::State {
        self.machine.state()
    }

    /// The epoch of the last mutation that was applied.
    pub closed spec fn applied_epoch(&self) -> u64 {
        self.epoch
    }

    /// The queries that wait, first the one that waits for the earliest
    /// epoch.
    pub closed spec fn deferred(&self) -> Seq<QueryPqItem<M, R>> {
        self.query_queue@
    }

    /// The machine of the service.
    pub closed spec fn machine(&self) -> M {
        self.machine
    }

    /// The machine is in order, the waiting queries are in ascending order,
    /// and each of them waits for an epoch that the machine has not reached.
    pub open spec fn wf(&self) -> bool {
        &&& self.machine().inv()
        &&& ascending(self.deferred())
        &&& forall|i: int|
            0 <= i < self.deferred().len() ==> (#[trigger] self.deferred()[i]).min_epoch
                > self.applied_epoch()
    }

    /// A service for `machine`, which holds every mutation up to `epoch`.
    pub fn new(machine: M, epoch: u64) -> (service: Self)
        requires
            machine.inv(),
        ensures
            service.wf(),
            service.state() == machine.state(),
            service.applied_epoch() == epoch,
            service.deferred() == Seq::<QueryPqItem<M, R>>::empty(),
    {
        Self { machine, epoch, query_queue: VecDeque::new() }
    }

    /// The epoch of the last mutation that was applied.
    pub fn epoch(&self) -> (epoch: u64)
        ensures
            epoch == self.applied_epoch(),
    {
        self.epoch
    }

    /// The number of queries that wait.
    pub fn deferred_count(&self) -> (count: usize)
        ensures
            count == self.deferred().len(),
    {
        self.query_queue.len()
    }

    /// Whether `after` and `replies` are what applying `mutation` under
    /// `epoch` makes of this service: the machine moves on by `mutation`, the
    /// queries that waited for at most `epoch` leave the queue in their
    /// order, each answered from the new state, and the others stay.
    pub open spec fn proposal_handled(
        &self,
        after: &Self,
        mutation: <M::Mutation as View>::V,
        epoch: u64,
        replies: Seq<QueryReply<M, R>>,
    ) -> bool {
        let due = due_count(self.deferred(), epoch);
        &&& after.state() == M::apply(self.state(), mutation)
        &&& after.applied_epoch() == epoch
        &&& due <= self.deferred().len()
        &&& after.deferred() == self.deferred().skip(due as int)
        &&& replies.len() == due
        &&& forall|i: int|
            0 <= i < due ==> {
                &&& (#[trigger] replies[i]).result == self.deferred()[i].result
                &&& replies[i].status@ == M::answer(after.state(), self.deferred()[i].query@)
            }
    }

    /// Whether `after` and `reply` are what the query makes of this service:
    /// it is answered from the current state where the machine has reached
    /// `min_epoch`, and otherwise it joins the queue behind every query that
    /// waits for at most `min_epoch`.
    pub open spec fn query_handled(
        &self,
        after: &Self,
        query: M::Query,
        min_epoch: u64,
        result: R,
        reply: Option<QueryReply<M, R>>,
    ) -> bool {
        &&& after.state() == self.state()
        &&& after.applied_epoch() == self.applied_epoch()
        &&& if self.applied_epoch() >= min_epoch {
            &&& after.deferred() == self.deferred()
            &&& reply matches Some(r)
            &&& r.result == result
            &&& r.status@ == M::answer(self.state(), query@)
        } else {
            &&& reply is None
            &&& after.deferred() == self.deferred().insert(
                due_count(self.deferred(), min_epoch) as int,
                QueryPqItem { query, min_epoch, result },
            )
        }
    }

    /// Applies the mutation journaled under `epoch`, which has to be the
    /// epoch right after the current one, and answers the queries that
    /// waited for it.
    pub fn handle_proposal(&mut self, mutation: M::Mutation, epoch: u64) -> (replies: Vec<
        QueryReply<M, R>,
    >)
        requires
            old(self).wf(),
            epoch == old(self).applied_epoch() + 1,
        ensures
            final(self).wf(),
            old(self).proposal_handled(final(self), mutation@, epoch, replies@),
    {
        let ghost queue = self.query_queue@;
        let ghost before = self.machine.state();
        self.machine.apply_mutation(mutation);
        self.epoch = epoch;
        let mut replies: Vec<QueryReply<M, R>> = Vec::new();
        while self.query_queue.len() > 0 && self.query_queue[0].min_epoch <= self.epoch
            invariant
                self.machine.inv(),
                ascending(queue),
                self.epoch == epoch,
                self.machine.state() == M::apply(before, mutation@),
                replies@.len() <= queue.len(),
                self.query_queue@ == queue.skip(replies@.len() as int),
                forall|i: int|
                    0 <= i < replies@.len() ==> (#[trigger] queue[i]).min_epoch <= epoch,
                forall|i: int|
                    0 <= i < replies@.len() ==> {
                        &&& (#[trigger] replies@[i]).result == queue[i].result
                        &&& replies@[i].status@ == M::answer(
                            self.machine.state(),
                            queue[i].query@,
                        )
                    },
            decreases self.query_queue@.len(),
        {
            let ghost n = replies@.len() as int;
            let item = self.query_queue.pop_front().unwrap();
            assert(item == queue[n]);
            let status = self.machine.query_state(item.query);
            replies.push(QueryReply { result: item.result, status });
            assert(self.query_queue@ =~= queue.skip(n + 1));
        }
        proof {
            let n = replies@.len();
            if n < queue.len() {
                assert(self.query_queue@[0] == queue[n as int]);
            }
            lemma_due_count(queue, epoch, n);
            assert forall|i: int, j: int| 0 <= i <= j < self.query_queue@.len() implies (
            #[trigger] self.query_queue@[i]).min_epoch <= (
            #[trigger] self.query_queue@[j]).min_epoch by {
                assert(self.query_queue@[i] == queue[i + n]);
                assert(self.query_queue@[j] == queue[j + n]);
            }
            assert forall|i: int| 0 <= i < self.query_queue@.len() implies (
            #[trigger] self.query_queue@[i]).min_epoch > epoch by {
                assert(self.query_queue@[i] == queue[i + n]);
                assert(queue[n as int].min_epoch <= queue[i + n].min_epoch);
            }
        }
        replies
    }

    /// Answers the query at once where the machine has reached `min_epoch`,
    /// and otherwise lets it wait.
    pub fn handle_query(&mut self, query: M::Query, min_epoch: u64, result: R) -> (reply: Option<
        QueryReply<M, R>,
    >)
        requires
            old(self).wf(),
        ensures
            final(self).wf(),
            old(self).query_handled(final(self), query, min_epoch, result, reply),
    {
        if self.epoch >= min_epoch {
            let status = self.machine.query_state(query);
            return Some(QueryReply { result, status });
        }
        let ghost queue = self.query_queue@;
        let mut at: usize = 0;
        while at < self.query_queue.len() && self.query_queue[at].min_epoch <= min_epoch
            invariant
                self.query_queue@ == queue,
                at <= queue.len(),
                forall|i: int| 0 <= i < at ==> (#[trigger] queue[i]).min_epoch <= min_epoch,
            decreases queue.len() - at,
        {
            at += 1;
        }
        proof {
            lemma_due_count(queue, min_epoch, at as nat);
        }
        let item = QueryPqItem { query, min_epoch, result };
        self.query_queue.insert(at, item);
        proof {
            let after = self.query_queue@;
            assert forall|i: int, j: int| 0 <= i <= j < after.len() implies (
            #[trigger] after[i]).min_epoch <= (#[trigger] after[j]).min_epoch by {
                if i < at && j > at {
                    assert(after[i] == queue[i]);
                    assert(after[j] == queue[j - 1]);
                } else if i < at && j < at {
                    assert(after[i] == queue[i]);
                    assert(after[j] == queue[j]);
                } else if i > at {
                    assert(after[i] == queue[i - 1]);
                    assert(after[j] == queue[j - 1]);
                    assert(queue[at as int].min_epoch <= queue[i - 1].min_epoch);
                } else if i == at && j > at {
                    assert(after[j] == queue[j - 1]);
                    assert(queue[at as int].min_epoch <= queue[j - 1].min_epoch);
                } else if j == at && i < at {
                    assert(after[i] == queue[i]);
                }
            }
            assert forall|i: int| 0 <= i < after.len() implies (#[trigger] after[i]).min_epoch
                > self.epoch by {
                if i < at {
                    assert(after[i] == queue[i]);
                } else if i > at {
                    assert(after[i] == queue[i - 1]);
                }
            }
        }
        None
    }

    /// Serves one request: a proposal is applied, a query answered or set
    /// aside. The replies are those that are now due, in the order in which
    /// they are to be delivered.
    pub fn serve(&mut self, request: MachineServiceRequest<M, R>) -> (replies: Vec<
        QueryReply<M, R>,
    >)
        requires
            old(self).wf(),
            request matches MachineServiceRequest::Proposal { epoch, .. } ==> epoch == old(
                self,
            ).applied_epoch() + 1,
        ensures
            final(self).wf(),
            match request {
                MachineServiceRequest::Proposal { mutation, epoch } => old(self).proposal_handled(
                    final(self),
                    mutation.payload@,
                    epoch,
                    replies@,
                ),
                MachineServiceRequest::Query { query, min_epoch, result } => {
                    &&& replies@.len() <= 1
                    &&& old(self).query_handled(
                        final(self),
                        query.payload,
                        min_epoch,
                        result,
                        if replies@.len() == 1 {
                            Some(replies@[0])
                        } else {
                            None
                        },
                    )
                },
            },
    {
        match request {
            MachineServiceRequest::Proposal { mutation, epoch } => {
                self.handle_proposal(mutation.into_payload(), epoch)
            },
            MachineServiceRequest::Query { query, min_epoch, result } => {
                let mut replies: Vec<QueryReply<M, R>> = Vec::new();
                match self.handle_query(query.into_payload(), min_epoch, result) {
                    Some(reply) => {
                        replies.push(reply);
                    },
                    None => {},
                }
                replies
            },
        }
    }
}

} // verus!
