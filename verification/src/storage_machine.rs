//! The key-value machine.
//!
//! The machine maps keys to values, both plain bytes. A mutation stores a
//! value under a key, whatever was stored there before, and a query looks a
//! key up. A dump is one record for every key, each holding the mutation
//! that stores the key's value, so that loading a dump is applying its
//! records.

use crate::errors::Error;
use crate::machine_service::Machine;
use crate::proto::{lemma_set_round_trip, set_decoding, set_encoding, SetRequest, SetRequestView};
use crate::wire::{
    append_record, copy_range, frames, lemma_frames_push, lemma_records_of_frames, read_record,
    records, truncated,
};
use vstd::prelude::*;

verus! {

/// The keys and values of `entries`, as plain values.
pub open spec fn entry_views(entries: Seq<(Vec<u8>, Vec<u8>)>) -> Seq<(Seq<u8>, Seq<u8>)> {
    entries.map_values(|entry: (Vec<u8>, Vec<u8>)| (entry.0@, entry.1@))
}

/// The map that storing the entries of `entries`, one after the other,
/// makes of the empty map.
pub open spec fn map_of(entries: Seq<(Seq<u8>, Seq<u8>)>) -> Map<Seq<u8>, Seq<u8>>
    decreases entries.len(),
{
    if entries.len() == 0 {
        Map::empty()
    } else {
        map_of(entries.drop_last()).insert(entries.last().0, entries.last().1)
    }
}

/// Whether no key occurs twice in `entries`.
pub open spec fn distinct_keys(entries: Seq<(Seq<u8>, Seq<u8>)>) -> bool {
    forall|i: int, j: int|
        0 <= i < j < entries.len() ==> (#[trigger] entries[i]).0 != (#[trigger] entries[j]).0
}

/// The payloads of the mutations that store the entries of `entries`.
pub open spec fn entry_payloads(entries: Seq<(Seq<u8>, Seq<u8>)>) -> Seq<Seq<u8>> {
    entries.map_values(
        |entry: (Seq<u8>, Seq<u8>)| set_encoding(SetRequestView { key: entry.0, value: entry.1 }),
    )
}

/// The map that applying the mutations of `payloads`, one after the other,
/// makes of the empty map, if every payload stands for a mutation.
pub open spec fn load(payloads: Seq<Seq<u8>>) -> Option<Map<Seq<u8>, Seq<u8>>>
    decreases payloads.len(),
{
    if payloads.len() == 0 {
        Some(Map::empty())
    } else {
        match load(payloads.drop_last()) {
            Some(map) => match set_decoding(payloads.last()) {
                Some(request) => Some(map.insert(request.key, request.value)),
                None => None,
            },
            None => None,
        }
    }
}

/// Whether `key` is the key of one of `entries`.
pub open spec fn has_key(entries: Seq<(Seq<u8>, Seq<u8>)>, key: Seq<u8>) -> bool {
    exists|i: int| 0 <= i < entries.len() && (#[trigger] entries[i]).0 == key
}

/// A key is in the map of `entries` where it is the key of an entry, and
/// where no key occurs twice, each entry's key maps to that entry's value.
pub proof fn lemma_map_of(entries: Seq<(Seq<u8>, Seq<u8>)>)
    ensures
        forall|key: Seq<u8>| #[trigger]
            map_of(entries).dom().contains(key) <==> has_key(entries, key),
        distinct_keys(entries) ==> forall|i: int|
            0 <= i < entries.len() ==> map_of(entries)[(#[trigger] entries[i]).0] == entries[i].1,
    decreases entries.len(),
{
    if entries.len() > 0 {
        let front = entries.drop_last();
        let last = entries.last();
        lemma_map_of(front);
        assert forall|key: Seq<u8>| #[trigger]
            map_of(entries).dom().contains(key) implies has_key(entries, key) by {
            if key == last.0 {
                assert(entries[entries.len() - 1].0 == key);
            } else {
                assert(map_of(front).dom().contains(key));
                assert(has_key(front, key));
                let i = choose|i: int| 0 <= i < front.len() && (#[trigger] front[i]).0 == key;
                assert(entries[i] == front[i]);
            }
        }
        assert forall|key: Seq<u8>| has_key(entries, key) implies #[trigger] map_of(
            entries,
        ).dom().contains(key) by {
            let i = choose|i: int| 0 <= i < entries.len() && (#[trigger] entries[i]).0 == key;
            if i < front.len() {
                assert(front[i] == entries[i]);
                assert(has_key(front, key));
                assert(map_of(front).dom().contains(key));
            }
        }
        if distinct_keys(entries) {
            assert forall|i: int, j: int| 0 <= i < j < front.len() implies (#[trigger] front[i]).0
                != (#[trigger] front[j]).0 by {
                assert(front[i] == entries[i] && front[j] == entries[j]);
            }
            assert forall|i: int| 0 <= i < entries.len() implies map_of(entries)[(
            #[trigger] entries[i]).0] == entries[i].1 by {
                if i < front.len() {
                    assert(front[i] == entries[i]);
                    assert(entries[i].0 != entries[entries.len() - 1].0);
                }
            }
        }
    }
}

/// Storing a value under a key that is there already changes the map as
/// replacing the entry does.
pub proof fn lemma_map_of_update(
    entries: Seq<(Seq<u8>, Seq<u8>)>,
    at: int,
    value: Seq<u8>,
)
    requires
        0 <= at < entries.len(),
        distinct_keys(entries),
    ensures
        distinct_keys(entries.update(at, (entries[at].0, value))),
        map_of(entries.update(at, (entries[at].0, value))) == map_of(entries).insert(
            entries[at].0,
            value,
        ),
    decreases entries.len(),
{
    let key = entries[at].0;
    let changed = entries.update(at, (key, value));
    assert forall|i: int, j: int| 0 <= i < j < changed.len() implies (#[trigger] changed[i]).0 != (
    #[trigger] changed[j]).0 by {
        assert(changed[i].0 == entries[i].0);
        assert(changed[j].0 == entries[j].0);
    }
    let front = entries.drop_last();
    if at == entries.len() - 1 {
        assert(changed.drop_last() =~= front);
        assert(map_of(changed) =~= map_of(entries).insert(key, value));
    } else {
        assert forall|i: int, j: int| 0 <= i < j < front.len() implies (#[trigger] front[i]).0 != (
        #[trigger] front[j]).0 by {
            assert(front[i] == entries[i] && front[j] == entries[j]);
        }
        lemma_map_of_update(front, at, value);
        assert(front[at] == entries[at]);
        assert(changed.drop_last() =~= front.update(at, (key, value)));
        assert(changed.last() == entries.last());
        assert(entries[at].0 != entries[entries.len() - 1].0);
        assert(map_of(changed) =~= map_of(entries).insert(key, value));
    }
}

/// The payloads of entries load as the map of the entries.
pub proof fn lemma_load_payloads(entries: Seq<(Seq<u8>, Seq<u8>)>)
    requires
        forall|i: int|
            0 <= i < entries.len() ==> (#[trigger] entries[i]).0.len() <= u64::MAX
                && entries[i].1.len() <= u64::MAX,
    ensures
        load(entry_payloads(entries)) == Some(map_of(entries)),
    decreases entries.len(),
{
    if entries.len() > 0 {
        let front = entries.drop_last();
        let last = entries.last();
        assert forall|i: int| 0 <= i < front.len() implies (#[trigger] front[i]).0.len()
            <= u64::MAX && front[i].1.len() <= u64::MAX by {
            assert(front[i] == entries[i]);
        }
        lemma_load_payloads(front);
        assert(entry_payloads(entries).drop_last() =~= entry_payloads(front));
        assert(entries[entries.len() - 1] == last);
        lemma_set_round_trip(SetRequestView { key: last.0, value: last.1 });
    }
}

/// Once a front part of the payloads fails to load, all of them fail.
pub proof fn lemma_load_fails(payloads: Seq<Seq<u8>>, k: int)
    requires
        0 <= k <= payloads.len(),
        load(payloads.take(k)) is None,
    ensures
        load(payloads) is None,
    decreases payloads.len() - k,
{
    if k == payloads.len() {
        assert(payloads.take(k) =~= payloads);
    } else {
        assert(payloads.take(k + 1).drop_last() =~= payloads.take(k));
        lemma_load_fails(payloads, k + 1);
    }
}

/// Whether two byte strings are the same.
pub fn bytes_eq(a: &[u8], b: &[u8]) -> (same: bool)
    ensures
        same == (a@ == b@),
{
    if a.len() != b.len() {
        return false;
    }
    let mut i: usize = 0;
    while i < a.len()
        invariant
            a@.len() == b@.len(),
            i <= a@.len(),
            forall|k: int| 0 <= k < i ==> a@[k] == b@[k],
        decreases a@.len() - i,
    {
        if a[i] != b[i] {
            return false;
        }
        i += 1;
    }
    assert(a@ =~= b@);
    true
}

/// Keys and the values stored under them.
#[derive(Clone)]
pub struct StorageMachine {
    map: Vec<(Vec<u8>, Vec<u8>)>,
}

impl StorageMachine {
    /// The entries of the machine, in the order in which their keys were
    /// first stored.
    pub closed spec fn entries(&self) -> Seq<(Seq<u8>, Seq<u8>)> {
        entry_views(self.map@)
    }

    /// The position of `key` among the entries, if it is there.
    fn find(&self, key: &[u8]) -> (found: Option<usize>)
        ensures
            match found {
                Some(at) => at < self.entries().len() && self.entries()[at as int].0 == key@,
                None => forall|i: int|
                    0 <= i < self.entries().len() ==> (#[trigger] self.entries()[i]).0 != key@,
            },
    {
        let mut i: usize = 0;
        while i < self.map.len()
            invariant
                i <= self.map@.len(),
                forall|k: int| 0 <= k < i ==> (#[trigger] self.entries()[k]).0 != key@,
            decreases self.map@.len() - i,
        {
            if bytes_eq(self.map[i].0.as_slice(), key) {
                return Some(i);
            }
            i += 1;
        }
        None
    }

    /// The number of keys.
    pub fn len(&self) -> (count: usize)
        ensures
            count == self.entries().len(),
    {
        self.map.len()
    }
}

impl Default for StorageMachine {
    fn default() -> (machine: Self)
        ensures
            machine.inv(),
            machine.state() == Map::<Seq<u8>, Seq<u8>>::empty(),
    {
        let machine = Self { map: Vec::new() };
        assert(machine.entries() =~= Seq::empty());
        machine
    }
}

impl Machine for StorageMachine {
    type Mutation = SetRequest;

    type Query = Vec<u8>;

    type Status = Vec<u8>;

    type State = Map<Seq<u8>, Seq<u8>>;

    open spec fn inv(&self) -> bool {
        distinct_keys(self.entries())
    }

    open spec fn state(&self) -> Map<Seq<u8>, Seq<u8>> {
        map_of(self.entries())
    }

    open spec fn initial_state() -> Map<Seq<u8>, Seq<u8>> {
        Map::empty()
    }

    /// The value is stored under the key. A key that is not there is
    /// added, also where the value is empty.
    open spec fn apply(state: Map<Seq<u8>, Seq<u8>>, mutation: SetRequestView) -> Map<
        Seq<u8>,
        Seq<u8>,
    > {
        state.insert(mutation.key, mutation.value)
    }

    /// The value stored under the key, or no bytes where the key is not
    /// there.
    open spec fn answer(state: Map<Seq<u8>, Seq<u8>>, query: Seq<u8>) -> Seq<u8> {
        if state.dom().contains(query) {
            state[query]
        } else {
            Seq::empty()
        }
    }

    open spec fn encoding(mutation: SetRequestView) -> Seq<u8> {
        set_encoding(mutation)
    }

    open spec fn decoding(payload: Seq<u8>) -> Option<SetRequestView> {
        set_decoding(payload)
    }

    /// A state can be dumped where the mutation that stores a key's value
    /// fits into a record, for every key.
    open spec fn dumpable(state: Map<Seq<u8>, Seq<u8>>) -> bool {
        forall|key: Seq<u8>|
            state.dom().contains(key) ==> (#[trigger] set_encoding(
                SetRequestView { key, value: state[key] },
            )).len() < 0x1_0000_0000
    }

    /// A dump holds one record for every key, in some order.
    open spec fn is_dump_of(dump: Seq<u8>, state: Map<Seq<u8>, Seq<u8>>) -> bool {
        exists|entries: Seq<(Seq<u8>, Seq<u8>)>|
            {
                &&& distinct_keys(entries)
                &&& map_of(entries) == state
                &&& forall|i: int|
                    0 <= i < entries.len() ==> (#[trigger] entries[i]).0.len() <= u64::MAX
                        && entries[i].1.len() <= u64::MAX
                &&& forall|i: int|
                    0 <= i < entries.len() ==> (#[trigger] entry_payloads(entries)[i]).len()
                        < 0x1_0000_0000
                &&& dump == #[trigger] frames(entry_payloads(entries))
            }
    }

    /// A dump loads where it is made of whole records that each stand for
    /// a mutation.
    open spec fn dump_state(dump: Seq<u8>) -> Option<Map<Seq<u8>, Seq<u8>>> {
        if truncated(dump) {
            None
        } else {
            load(records(dump))
        }
    }

    fn initial() -> (machine: Self) {
        StorageMachine::default()
    }

    fn duplicate(&self) -> (copy: Self) {
        let mut map: Vec<(Vec<u8>, Vec<u8>)> = Vec::new();
        let mut i: usize = 0;
        while i < self.map.len()
            invariant
                i <= self.map@.len(),
                entry_views(map@) == self.entries().take(i as int),
            decreases self.map@.len() - i,
        {
            let key = copy_range(self.map[i].0.as_slice(), 0, self.map[i].0.len());
            let value = copy_range(self.map[i].1.as_slice(), 0, self.map[i].1.len());
            proof {
                assert(key@ =~= self.map@[i as int].0@);
                assert(value@ =~= self.map@[i as int].1@);
            }
            let ghost copied = map@;
            map.push((key, value));
            i += 1;
            proof {
                assert(entry_views(map@) =~= entry_views(copied).push((key@, value@)));
                assert(self.entries()[i - 1] == (key@, value@));
                assert(self.entries().take(i as int) =~= self.entries().take(i - 1).push(
                    (key@, value@),
                ));
            }
        }
        assert(entry_views(map@) =~= self.entries());
        Self { map }
    }

    fn apply_mutation(&mut self, mutation: SetRequest) {
        let ghost before = self.entries();
        match self.find(mutation.key.as_slice()) {
            Some(at) => {
                proof {
                    lemma_map_of_update(before, at as int, mutation.value@);
                }
                self.map.set(at, (mutation.key, mutation.value));
                assert(self.entries() =~= before.update(
                    at as int,
                    (before[at as int].0, mutation.value@),
                ));
            },
            None => {
                self.map.push((mutation.key, mutation.value));
                proof {
                    let after = self.entries();
                    assert(after =~= before.push((mutation.key@, mutation.value@)));
                    assert(after.drop_last() =~= before);
                    assert forall|i: int, j: int| 0 <= i < j < after.len() implies (
                    #[trigger] after[i]).0 != (#[trigger] after[j]).0 by {
                        assert(after[i] == before[i]);
                        if j < before.len() {
                            assert(after[j] == before[j]);
                        }
                    }
                }
            },
        }
    }

    fn query_state(&self, query: Vec<u8>) -> (status: Vec<u8>) {
        proof {
            lemma_map_of(self.entries());
        }
        match self.find(query.as_slice()) {
            Some(at) => {
                let value = copy_range(self.map[at].1.as_slice(), 0, self.map[at].1.len());
                assert(value@ =~= self.entries()[at as int].1);
                value
            },
            None => Vec::new(),
        }
    }

    fn encode_mutation(mutation: &SetRequest) -> (payload: Vec<u8>) {
        mutation.encode()
    }

    fn decode_mutation(payload: &[u8]) -> (mutation: Option<SetRequest>) {
        match SetRequest::decode(payload) {
            Ok(request) => Some(request),
            Err(_) => None,
        }
    }

    /// Writes one record for every key, in the order in which the keys
    /// were first stored. Fails with `BlobTooLarge` at the first entry
    /// whose mutation does not fit into a record.
    fn write_snapshot(&self) -> (result: Result<Vec<u8>, Error>)
        ensures
            match result {
                Ok(dump) => dump@ == frames(entry_payloads(self.entries())),
                Err(e) => e is BlobTooLarge,
            },
    {
        let mut dump: Vec<u8> = Vec::new();
        let mut i: usize = 0;
        let ghost entries = self.entries();
        let ghost payloads = entry_payloads(entries);
        proof {
            lemma_map_of(entries);
            assert(payloads.take(0) =~= Seq::<Seq<u8>>::empty());
        }
        while i < self.map.len()
            invariant
                i <= self.map@.len(),
                entries == self.entries(),
                payloads == entry_payloads(entries),
                dump@ == frames(payloads.take(i as int)),
                forall|k: int| 0 <= k < i ==> (#[trigger] payloads[k]).len() < 0x1_0000_0000,
                distinct_keys(entries),
                forall|k: int|
                    0 <= k < entries.len() ==> map_of(entries)[(#[trigger] entries[k]).0]
                        == entries[k].1,
                forall|key: Seq<u8>| #[trigger]
                    map_of(entries).dom().contains(key) <==> has_key(entries, key),
            decreases self.map@.len() - i,
        {
            let payload = SetRequest::encode_pair(&self.map[i].0, &self.map[i].1);
            proof {
                assert(entries[i as int] == (self.map@[i as int].0@, self.map@[i as int].1@));
                assert(payload@ == payloads[i as int]);
            }
            if payload.len() > 0xffff_ffff {
                proof {
                    let key = entries[i as int].0;
                    assert(has_key(entries, key));
                    assert(map_of(entries).dom().contains(key));
                    assert(map_of(entries)[key] == entries[i as int].1);
                }
                return Err(Error::BlobTooLarge { len: payload.len() });
            }
            append_record(&mut dump, payload.as_slice());
            proof {
                lemma_frames_push(payloads.take(i as int), payload@);
                assert(payloads.take(i as int).push(payload@) =~= payloads.take(i + 1));
            }
            i += 1;
        }
        proof {
            assert(payloads.take(i as int) =~= payloads);
            assert forall|k: int| 0 <= k < entries.len() implies (#[trigger] entries[k]).0.len()
                <= u64::MAX && entries[k].1.len() <= u64::MAX by {
                assert(entries[k] == (self.map@[k].0@, self.map@[k].1@));
                assert(self.map@[k].0.len() <= usize::MAX);
                assert(self.map@[k].1.len() <= usize::MAX);
            }
        }
        Ok(dump)
    }

    /// Applies the records of `dump`, one after the other, to an empty
    /// machine. Fails with `UnexpectedEof` where the dump stops inside a
    /// record and with `MutationDecode` at the first record that stands for
    /// no mutation.
    fn from_snapshot(dump: &[u8]) -> (result: Result<Self, Error>)
        ensures
            result matches Err(e) ==> e == Error::UnexpectedEof || e == Error::MutationDecode,
    {
        let mut machine = StorageMachine::default();
        let mut pos: usize = 0;
        let ghost mut done: Seq<Seq<u8>> = Seq::empty();
        proof {
            assert(dump@.skip(0) =~= dump@);
        }
        loop
            invariant
                pos <= dump@.len(),
                machine.inv(),
                load(done) == Some(machine.state()),
                records(dump@) == done + records(dump@.skip(pos as int)),
                truncated(dump@) == truncated(dump@.skip(pos as int)),
            decreases dump@.len() - pos,
        {
            let ghost rest = dump@.skip(pos as int);
            match read_record(dump, pos) {
                Err(e) => {
                    return Err(e);
                },
                Ok(None) => {
                    proof {
                        assert(records(rest) =~= Seq::<Seq<u8>>::empty());
                        assert(records(dump@) =~= done);
                    }
                    return Ok(machine);
                },
                Ok(Some((payload, next))) => {
                    proof {
                        assert(rest.skip(next - pos) =~= dump@.skip(next as int));
                        assert(records(dump@) =~= done.push(payload@) + records(
                            dump@.skip(next as int),
                        ));
                        assert(done.push(payload@).drop_last() =~= done);
                    }
                    match SetRequest::decode(payload.as_slice()) {
                        Ok(request) => {
                            machine.apply_mutation(request);
                        },
                        Err(e) => {
                            proof {
                                let all = records(dump@);
                                let failed = done.push(payload@);
                                assert(all.take(failed.len() as int) =~= failed);
                                lemma_load_fails(all, failed.len() as int);
                            }
                            return Err(e);
                        },
                    }
                    proof {
                        done = done.push(payload@);
                    }
                    pos = next;
                },
            }
        }
    }

    proof fn lemma_mutation_round_trip(mutation: SetRequest) {
        assert(mutation.key.len() <= usize::MAX);
        assert(mutation.value.len() <= usize::MAX);
        lemma_set_round_trip(mutation@);
    }

    proof fn lemma_snapshot_round_trip(dump: Seq<u8>, state: Map<Seq<u8>, Seq<u8>>) {
        let entries = choose|entries: Seq<(Seq<u8>, Seq<u8>)>|
            {
                &&& distinct_keys(entries)
                &&& map_of(entries) == state
                &&& forall|i: int|
                    0 <= i < entries.len() ==> (#[trigger] entries[i]).0.len() <= u64::MAX
                        && entries[i].1.len() <= u64::MAX
                &&& forall|i: int|
                    0 <= i < entries.len() ==> (#[trigger] entry_payloads(entries)[i]).len()
                        < 0x1_0000_0000
                &&& dump == #[trigger] frames(entry_payloads(entries))
            };
        lemma_records_of_frames(entry_payloads(entries));
        lemma_load_payloads(entries);
    }
}

} // verus!
