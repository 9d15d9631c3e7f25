//! An in-memory image of the enforcement table: a bounded mapping from key
//! bytes to one byte, zero for a denial and anything else for a permission.
//! It lets the decisions of the packet path be evaluated, and a round of
//! synchronisation be carried out, without the privileged table.

use vstd::prelude::*;
use crate::batch::{TableWrite, WriteBatch};
use crate::fast_path::{
    packet_key, packet_key_bytes, value_action, verdict, PacketAction, RelationKey,
};

verus! {

/// Why the table refused a write.
#[derive(Clone, Copy, Debug, PartialEq, Eq, Structural)]
pub enum TableWriteFailure {
    /// The key is new and the table already holds as many entries as it can.
    TableFull,
}

/// A table's contents: key bytes to value.
pub type TableMap = Map<Seq<u8>, u8>;

/// The writes as pairs of key bytes and value.
pub open spec fn write_pairs(writes: Seq<TableWrite>) -> Seq<(Seq<u8>, u8)> {
    Seq::new(writes.len(), |i: int| (writes[i].key@, writes[i].value))
}

/// The table after the writes have been carried out in order, each one
/// adding its key or replacing the value under it. No key is ever removed.
pub open spec fn apply_writes(table: TableMap, writes: Seq<(Seq<u8>, u8)>) -> TableMap
    decreases writes.len(),
{
    if writes.len() == 0 {
        table
    } else {
        apply_writes(table, writes.drop_last()).insert(writes.last().0, writes.last().1)
    }
}

/// Whether a table of at most `capacity` entries takes a write under `key`:
/// it does where the key is there already or there is room for one more.
pub open spec fn accepts(table: TableMap, capacity: nat, key: Seq<u8>) -> bool {
    table.contains_key(key) || table.dom().len() < capacity
}

/// The table after the writes have been tried in order on a table of at most
/// `capacity` entries: a write that the table does not take is passed over and
/// the next one tried.
pub open spec fn apply_bounded(
    table: TableMap,
    capacity: nat,
    writes: Seq<(Seq<u8>, u8)>,
) -> TableMap
    decreases writes.len(),
{
    if writes.len() == 0 {
        table
    } else {
        let before = apply_bounded(table, capacity, writes.drop_last());
        if accepts(before, capacity, writes.last().0) {
            before.insert(writes.last().0, writes.last().1)
        } else {
            before
        }
    }
}

/// Those of the writes, in order, that a table of at most `capacity` entries
/// does not take when they are tried one after another.
pub open spec fn rejected_writes(
    table: TableMap,
    capacity: nat,
    writes: Seq<(Seq<u8>, u8)>,
) -> Seq<(Seq<u8>, u8)>
    decreases writes.len(),
{
    if writes.len() == 0 {
        Seq::empty()
    } else {
        let before = apply_bounded(table, capacity, writes.drop_last());
        let earlier = rejected_writes(table, capacity, writes.drop_last());
        if accepts(before, capacity, writes.last().0) {
            earlier
        } else {
            earlier.push(writes.last())
        }
    }
}

/// What the packet path does with a packet whose key bytes are `key`: it
/// passes on a value other than zero, and is dropped on zero or on a miss.
pub open spec fn table_action(table: TableMap, key: Seq<u8>) -> PacketAction {
    value_action(
        if table.contains_key(key) {
            Some(table[key])
        } else {
            None
        },
    )
}

/// What the packet path does with a packet: one too short to hold a key
/// passes, any other goes by the table's entry for its key.
pub open spec fn packet_action(table: TableMap, data: Seq<u8>) -> PacketAction {
    match packet_key_bytes(data) {
        Some(key) => table_action(table, key),
        None => PacketAction::Pass,
    }
}

/// No two writes have the same key bytes.
pub open spec fn distinct_slots(writes: Seq<(Seq<u8>, u8)>) -> bool {
    forall|i: int, j: int|
        0 <= i < j < writes.len() ==> (#[trigger] writes[i]).0 != (#[trigger] writes[j]).0
}

/// After the writes the table holds a key exactly if it held the key before
/// or the key was written, and holds under a key that was not written what it
/// held before.
pub proof fn lemma_apply_writes_domain(table: TableMap, writes: Seq<(Seq<u8>, u8)>, key: Seq<u8>)
    ensures
        apply_writes(table, writes).contains_key(key) <==> (table.contains_key(key)
            || exists|i: int| 0 <= i < writes.len() && (#[trigger] writes[i]).0 == key),
        (forall|i: int| 0 <= i < writes.len() ==> (#[trigger] writes[i]).0 != key)
            ==> apply_writes(table, writes)[key] == table[key],
    decreases writes.len(),
{
    if writes.len() > 0 {
        let front = writes.drop_last();
        lemma_apply_writes_domain(table, front, key);
        let after = apply_writes(table, writes);
        if after.contains_key(key) && !table.contains_key(key) {
            if key == writes.last().0 {
                assert(writes[writes.len() - 1].0 == key);
            } else {
                let i = choose|i: int| 0 <= i < front.len() && (#[trigger] front[i]).0 == key;
                assert(writes[i].0 == key);
            }
        }
        if exists|i: int| 0 <= i < writes.len() && (#[trigger] writes[i]).0 == key {
            let i = choose|i: int| 0 <= i < writes.len() && (#[trigger] writes[i]).0 == key;
            if i < writes.len() - 1 {
                assert(front[i].0 == key);
            }
        }
        if forall|i: int| 0 <= i < writes.len() ==> (#[trigger] writes[i]).0 != key {
            assert(writes[writes.len() - 1].0 != key);
            assert forall|i: int| 0 <= i < front.len() implies (#[trigger] front[i]).0 != key by {
                assert(writes[i].0 != key);
            }
        }
    }
}

/// A write decides the value under its key wherever every later write under
/// the same key has the same value.
pub proof fn lemma_last_write_stands(table: TableMap, writes: Seq<(Seq<u8>, u8)>, i: int)
    requires
        0 <= i < writes.len(),
        forall|j: int|
            i < j < writes.len() && (#[trigger] writes[j]).0 == writes[i].0 ==> writes[j].1
                == writes[i].1,
    ensures
        apply_writes(table, writes).contains_key(writes[i].0),
        apply_writes(table, writes)[writes[i].0] == writes[i].1,
    decreases writes.len(),
{
    let front = writes.drop_last();
    if i < writes.len() - 1 {
        assert(front[i] == writes[i]);
        assert forall|j: int|
            i < j < front.len() && (#[trigger] front[j]).0 == front[i].0 implies front[j].1
            == front[i].1 by {
            assert(writes[j].0 == writes[i].0);
        }
        lemma_last_write_stands(table, front, i);
        assert(writes[writes.len() - 1] == writes.last());
    }
}

/// Where the table takes every write, trying them in order leaves what
/// carrying them out leaves.
pub proof fn lemma_nothing_rejected(table: TableMap, capacity: nat, writes: Seq<(Seq<u8>, u8)>)
    requires
        rejected_writes(table, capacity, writes).len() == 0,
    ensures
        apply_bounded(table, capacity, writes) == apply_writes(table, writes),
    decreases writes.len(),
{
    if writes.len() > 0 {
        let front = writes.drop_last();
        let before = apply_bounded(table, capacity, front);
        if !accepts(before, capacity, writes.last().0) {
            assert(rejected_writes(table, capacity, writes).len() > 0);
        }
        lemma_nothing_rejected(table, capacity, front);
    }
}

/// Trying writes on a bounded table never lets it grow past its bound.
pub proof fn lemma_apply_bounded_len(table: TableMap, capacity: nat, writes: Seq<(Seq<u8>, u8)>)
    requires
        table.dom().finite(),
        table.dom().len() <= capacity,
    ensures
        apply_bounded(table, capacity, writes).dom().finite(),
        apply_bounded(table, capacity, writes).dom().len() <= capacity,
    decreases writes.len(),
{
    if writes.len() > 0 {
        lemma_apply_bounded_len(table, capacity, writes.drop_last());
    }
}

/// Trying writes on a bounded table removes no key, and changes nothing under
/// a key that is not written: an entry stays until it is written again.
pub proof fn lemma_apply_bounded_keeps(
    table: TableMap,
    capacity: nat,
    writes: Seq<(Seq<u8>, u8)>,
    key: Seq<u8>,
)
    ensures
        table.contains_key(key) ==> apply_bounded(table, capacity, writes).contains_key(key),
        (forall|i: int| 0 <= i < writes.len() ==> (#[trigger] writes[i]).0 != key) ==> (
        apply_bounded(table, capacity, writes).contains_key(key) == table.contains_key(key)
            && apply_bounded(table, capacity, writes)[key] == table[key]),
    decreases writes.len(),
{
    if writes.len() > 0 {
        let front = writes.drop_last();
        lemma_apply_bounded_keeps(table, capacity, front, key);
        if forall|i: int| 0 <= i < writes.len() ==> (#[trigger] writes[i]).0 != key {
            assert(writes[writes.len() - 1].0 != key);
            assert forall|i: int| 0 <= i < front.len() implies (#[trigger] front[i]).0 != key by {
                assert(writes[i].0 != key);
            }
        }
    }
}

/// Where no two writes share a key, an empty table holds after them as many
/// entries as there were writes.
proof fn lemma_slots_len(writes: Seq<(Seq<u8>, u8)>)
    requires
        distinct_slots(writes),
    ensures
        apply_writes(Map::empty(), writes).dom().finite(),
        apply_writes(Map::empty(), writes).dom().len() == writes.len(),
    decreases writes.len(),
{
    if writes.len() > 0 {
        let front = writes.drop_last();
        assert forall|i: int, j: int| 0 <= i < j < front.len() implies (#[trigger] front[i]).0
            != (#[trigger] front[j]).0 by {
            assert(writes[i].0 != writes[j].0);
        }
        lemma_slots_len(front);
        lemma_apply_writes_domain(Map::empty(), front, writes.last().0);
        if apply_writes(Map::empty(), front).contains_key(writes.last().0) {
            let i = choose|i: int|
                0 <= i < front.len() && (#[trigger] front[i]).0 == writes.last().0;
            assert(writes[i].0 != writes[writes.len() - 1].0);
        }
    }
}

/// Replacing a write by one under the same key changes the table as carrying
/// out the new write does.
proof fn lemma_replace_slot(writes: Seq<(Seq<u8>, u8)>, i: int, write: (Seq<u8>, u8))
    requires
        distinct_slots(writes),
        0 <= i < writes.len(),
        writes[i].0 == write.0,
    ensures
        distinct_slots(writes.update(i, write)),
        apply_writes(Map::empty(), writes.update(i, write)) == apply_writes(
            Map::empty(),
            writes,
        ).insert(write.0, write.1),
    decreases writes.len(),
{
    let replaced = writes.update(i, write);
    let front = writes.drop_last();
    assert forall|a: int, b: int| 0 <= a < b < replaced.len() implies (#[trigger] replaced[a]).0
        != (#[trigger] replaced[b]).0 by {
        assert(writes[a].0 != writes[b].0);
    }
    if i == writes.len() - 1 {
        assert(replaced.drop_last() =~= front);
        assert(apply_writes(Map::empty(), replaced) =~= apply_writes(Map::empty(), writes).insert(
            write.0,
            write.1,
        ));
    } else {
        assert(replaced.drop_last() =~= front.update(i, write));
        assert forall|a: int, b: int| 0 <= a < b < front.len() implies (#[trigger] front[a]).0
            != (#[trigger] front[b]).0 by {
            assert(writes[a].0 != writes[b].0);
        }
        lemma_replace_slot(front, i, write);
        assert(writes[i].0 != writes[writes.len() - 1].0);
        assert(apply_writes(Map::empty(), replaced) =~= apply_writes(Map::empty(), writes).insert(
            write.0,
            write.1,
        ));
    }
}

/// The in-memory image of the enforcement table.
pub struct FastPathTable {
    slots: Vec<TableWrite>,
    max_entries: usize,
}

impl View for FastPathTable {
    type V = TableMap;

    closed spec fn view(&self) -> TableMap {
        apply_writes(Map::empty(), write_pairs(self.slots@))
    }
}

/// Where the entry under `key` stands among `slots`.
fn find_slot(slots: &Vec<TableWrite>, key: &RelationKey) -> (found: Option<usize>)
    ensures
        match found {
            Some(i) => i < slots@.len() && slots@[i as int].key@ == key@,
            None => forall|j: int| 0 <= j < slots@.len() ==> (#[trigger] slots@[j]).key@ != key@,
        },
{
    let mut i: usize = 0;
    while i < slots.len()
        invariant
            i <= slots@.len(),
            forall|j: int| 0 <= j < i ==> (#[trigger] slots@[j]).key@ != key@,
        decreases slots@.len() - i,
    {
        if slots[i].key.same_bytes(key) {
            return Some(i);
        }
        i += 1;
    }
    None
}

impl FastPathTable {
    #[verifier::type_invariant]
    spec fn well_formed(&self) -> bool {
        distinct_slots(write_pairs(self.slots@)) && self.slots@.len() <= self.max_entries
    }

    /// The largest number of entries that the table holds.
    pub closed spec fn capacity(&self) -> nat {
        self.max_entries as nat
    }

    /// An empty table that holds at most `max_entries` entries.
    pub fn with_max_entries(max_entries: usize) -> (table: FastPathTable)
        ensures
            table@ == Map::<Seq<u8>, u8>::empty(),
            table.capacity() == max_entries,
    {
        let table = FastPathTable { slots: Vec::new(), max_entries };
        assert(write_pairs(table.slots@) =~= Seq::empty());
        table
    }

    /// The number of entries that the table can hold.
    pub fn max_entries(&self) -> (max_entries: usize)
        ensures
            max_entries == self.capacity(),
    {
        self.max_entries
    }

    /// The number of entries in the table.
    pub fn len(&self) -> (count: usize)
        ensures
            self@.dom().finite(),
            count == self@.dom().len(),
            count <= self.capacity(),
    {
        proof {
            use_type_invariant(self);
            lemma_slots_len(write_pairs(self.slots@));
        }
        self.slots.len()
    }

    /// The value under `key`, if the table has an entry for it.
    pub fn get(&self, key: &RelationKey) -> (value: Option<u8>)
        ensures
            value == if self@.contains_key(key@) {
                Some(self@[key@])
            } else {
                None
            },
    {
        proof {
            use_type_invariant(self);
            lemma_apply_writes_domain(Map::empty(), write_pairs(self.slots@), key@);
        }
        match find_slot(&self.slots, key) {
            Some(i) => {
                proof {
                    let pairs = write_pairs(self.slots@);
                    assert(pairs[i as int].0 == key@);
                    lemma_last_write_stands(Map::empty(), pairs, i as int);
                }
                Some(self.slots[i].value)
            },
            None => {
                proof {
                    let pairs = write_pairs(self.slots@);
                    assert forall|j: int| 0 <= j < pairs.len() implies (#[trigger] pairs[j]).0
                        != key@ by {
                        assert(self.slots@[j].key@ != key@);
                    }
                }
                None
            },
        }
    }

    /// Writes `value` under `key`. The write is refused, and the table left as
    /// it is, where the key is new and the table is full.
    pub fn set(&mut self, key: &RelationKey, value: u8) -> (outcome: Result<(), TableWriteFailure>)
        ensures
            final(self).capacity() == old(self).capacity(),
            outcome is Ok <==> accepts(old(self)@, old(self).capacity(), key@),
            outcome is Ok ==> final(self)@ == old(self)@.insert(key@, value),
            outcome is Err ==> final(self)@ == old(self)@,
            outcome is Err ==> outcome == Err::<(), TableWriteFailure>(
                TableWriteFailure::TableFull,
            ),
    {
        proof {
            use_type_invariant(&*self);
            lemma_slots_len(write_pairs(self.slots@));
            lemma_apply_writes_domain(Map::empty(), write_pairs(self.slots@), key@);
        }
        let ghost before = write_pairs(self.slots@);
        let write = TableWrite { key: *key, value };
        match find_slot(&self.slots, key) {
            Some(i) => {
                proof {
                    assert(before[i as int].0 == key@);
                    lemma_replace_slot(before, i as int, (key@, value));
                }
                let mut slots: Vec<TableWrite> = Vec::new();
                core::mem::swap(&mut self.slots, &mut slots);
                slots[i] = write;
                assert(write_pairs(slots@) =~= before.update(i as int, (key@, value)));
                self.slots = slots;
                Ok(())
            },
            None => {
                proof {
                    assert forall|j: int| 0 <= j < before.len() implies (#[trigger] before[j]).0
                        != key@ by {
                        assert(self.slots@[j].key@ != key@);
                    }
                }
                if self.slots.len() < self.max_entries {
                    let mut slots: Vec<TableWrite> = Vec::new();
                    core::mem::swap(&mut self.slots, &mut slots);
                    slots.push(write);
                    assert(write_pairs(slots@) =~= before.push((key@, value)));
                    assert(before.push((key@, value)).drop_last() =~= before);
                    self.slots = slots;
                    Ok(())
                } else {
                    Err(TableWriteFailure::TableFull)
                }
            },
        }
    }

    /// Tries the writes in order. One that the table refuses is passed over
    /// and the next one tried; those refused are returned, in order.
    pub fn write_batch(&mut self, writes: Vec<TableWrite>) -> (failed: Vec<TableWrite>)
        ensures
            final(self).capacity() == old(self).capacity(),
            final(self)@ == apply_bounded(old(self)@, old(self).capacity(), write_pairs(writes@)),
            write_pairs(failed@) == rejected_writes(
                old(self)@,
                old(self).capacity(),
                write_pairs(writes@),
            ),
            failed@.len() == 0 ==> final(self)@ == apply_writes(old(self)@, write_pairs(writes@)),
    {
        let ghost pairs = write_pairs(writes@);
        let mut batch = WriteBatch::new(writes);
        assert(pairs.subrange(0, 0) =~= Seq::empty());
        assert(write_pairs(batch.failed()) =~= Seq::empty());
        loop
            invariant
                batch.writes() == writes@,
                pairs == write_pairs(writes@),
                batch.answered() <= writes@.len(),
                self.capacity() == old(self).capacity(),
                self@ == apply_bounded(
                    old(self)@,
                    old(self).capacity(),
                    pairs.subrange(0, batch.answered() as int),
                ),
                write_pairs(batch.failed()) == rejected_writes(
                    old(self)@,
                    old(self).capacity(),
                    pairs.subrange(0, batch.answered() as int),
                ),
            ensures
                batch.complete(),
            decreases writes@.len() - batch.answered(),
        {
            let ghost tried = batch.answered() as int;
            let ghost earlier = write_pairs(batch.failed());
            match batch.pending() {
                Some(write) => {
                    assert(pairs.subrange(0, tried + 1).drop_last() =~= pairs.subrange(0, tried));
                    assert(pairs.subrange(0, tried + 1).last() == (write.key@, write.value));
                    let written = self.set(&write.key, write.value).is_ok();
                    batch.record(written);
                    assert(!written ==> write_pairs(batch.failed()) =~= earlier.push(
                        (write.key@, write.value),
                    ));
                },
                None => {
                    break;
                },
            }
        }
        assert(pairs.subrange(0, batch.answered() as int) =~= pairs);
        let failed = batch.finish();
        proof {
            if failed@.len() == 0 {
                lemma_nothing_rejected(old(self)@, old(self).capacity(), pairs);
            }
        }
        failed
    }

    /// What the packet path does with a packet, were this the table it
    /// consulted: a packet too short to hold a key passes; any other passes
    /// only where the table holds a value other than zero for its key.
    pub fn filter_packet(&self, data: &[u8]) -> (action: PacketAction)
        ensures
            action == packet_action(self@, data@),
    {
        match packet_key(data) {
            Some(key) => verdict(self.get(&key)),
            None => PacketAction::Pass,
        }
    }
}

} // verus!
