//! The synchroniser: the projection of the store's rules into the key space of
//! the enforcement table, one round of resynchronisation, and the agreement
//! between the store's decisions and the table's.

use vstd::prelude::*;
use vstd::utf8::*;
use crate::batch::TableWrite;
use crate::codec::{combined_byte, fixed8, lemma_decode_inverts_encode_bytes};
use crate::fast_path::{fast_path_key, make_fast_path_key, packet_key_bytes, PacketAction};
use crate::rules::{decision, rule_map, PolicySnapshot, RelationEntry, RuleKey};
use crate::store::PolicyEngine;
use crate::table::{
    apply_bounded, apply_writes, lemma_apply_bounded_keeps, packet_action, rejected_writes,
    table_action, write_pairs, FastPathTable, TableMap,
};

verus! {

/// Why a round of resynchronisation had no snapshot to apply.
#[derive(Clone, Copy, Debug, PartialEq, Eq, Structural)]
pub enum SourceError {
    /// The snapshot source could not be read.
    SourceUnavailable,
    /// The snapshot document was malformed or incomplete.
    ParseError,
}

/// The table value that stands for a decision: 1 for a permission, 0 for a
/// denial.
pub open spec fn allow_value(allow: bool) -> u8 {
    if allow {
        1
    } else {
        0
    }
}

/// The writes that carry the rules into the table, one for each rule and in
/// the rules' order.
pub open spec fn projection(entries: Seq<RelationEntry>) -> Seq<(Seq<u8>, u8)> {
    Seq::new(
        entries.len(),
        |i: int| (fast_path_key(entries[i].key()), allow_value(entries[i].allow)),
    )
}

/// An identifier that its eight key bytes give back: at most eight bytes
/// long, and not ending in a zero byte.
pub open spec fn exact_identifier(identifier: Seq<char>) -> bool {
    let bytes = encode_utf8(identifier);
    bytes.len() <= 8 && (bytes.len() > 0 ==> bytes.last() != 0)
}

/// A rule key that its table key gives back: both identifiers exact, the
/// relation within the upper four bits and the action within the lower four.
pub open spec fn exact_key(key: RuleKey) -> bool {
    &&& exact_identifier(key.sender)
    &&& exact_identifier(key.target)
    &&& key.relation & 0x0F == 0
    &&& key.action & 0xF0 == 0
}

/// Projects rules into the table's key space: for each rule one write, under
/// the rule's table key, of 1 where the rule allows and 0 where it denies.
pub fn project(rules: &Vec<RelationEntry>) -> (writes: Vec<TableWrite>)
    ensures
        write_pairs(writes@) == projection(rules@),
        writes@.len() == rules@.len(),
{
    let mut writes: Vec<TableWrite> = Vec::new();
    let mut i: usize = 0;
    while i < rules.len()
        invariant
            i <= rules@.len(),
            writes@.len() == i,
            forall|j: int|
                0 <= j < i ==> (#[trigger] writes@[j]).key@ == fast_path_key(rules@[j].key())
                    && writes@[j].value == allow_value(rules@[j].allow),
        decreases rules@.len() - i,
    {
        let rule = &rules[i];
        let key = make_fast_path_key(
            rule.sender.as_str(),
            rule.target.as_str(),
            rule.relation,
            rule.action,
        );
        let value: u8 = if rule.allow {
            1
        } else {
            0
        };
        writes.push(TableWrite { key, value });
        i += 1;
    }
    assert(write_pairs(writes@) =~= projection(rules@));
    writes
}

/// One round of resynchronisation, given what came of reading the snapshot
/// source. A snapshot is loaded into the store and the store's rules are
/// projected into the batch of writes to carry out. Without a snapshot the
/// store stays as it is and the error is handed back: there is nothing to
/// write, so the table keeps what it has.
pub fn resync(engine: &mut PolicyEngine, source: Result<PolicySnapshot, SourceError>) -> (batch:
    Result<Vec<TableWrite>, SourceError>)
    ensures
        match source {
            Ok(snapshot) => {
                &&& batch is Ok
                &&& final(engine)@.rules == rule_map(snapshot.entries@)
                &&& final(engine)@.version == if snapshot.version > old(engine)@.version {
                    snapshot.version
                } else {
                    old(engine)@.version
                }
                &&& write_pairs(batch->Ok_0@) == projection(final(engine).entries())
            },
            Err(error) => batch == Err::<Vec<TableWrite>, SourceError>(error) && *final(engine)
                == *old(engine),
        },
{
    match source {
        Ok(snapshot) => {
            engine.load_snapshot(&snapshot);
            let rules = engine.snapshot_view();
            Ok(project(&rules))
        },
        Err(error) => Err(error),
    }
}

/// Carries the store's rules into the table: every rule is written, in the
/// store's order, and a write that the table refuses does not stop the ones
/// after it. Entries of the table that no rule of the store writes stay as
/// they are. The refused writes are returned.
pub fn synchronize(engine: &PolicyEngine, table: &mut FastPathTable) -> (failed: Vec<TableWrite>)
    ensures
        final(table).capacity() == old(table).capacity(),
        final(table)@ == apply_bounded(
            old(table)@,
            old(table).capacity(),
            projection(engine.entries()),
        ),
        write_pairs(failed@) == rejected_writes(
            old(table)@,
            old(table).capacity(),
            projection(engine.entries()),
        ),
        failed@.len() == 0 ==> final(table)@ == apply_writes(
            old(table)@,
            projection(engine.entries()),
        ),
{
    let rules = engine.snapshot_view();
    let writes = project(&rules);
    table.write_batch(writes)
}

/// Two exact identifiers with the same eight key bytes are the same.
pub proof fn lemma_exact_identifier_unique(a: Seq<char>, b: Seq<char>)
    requires
        exact_identifier(a),
        exact_identifier(b),
        fixed8(encode_utf8(a)) == fixed8(encode_utf8(b)),
    ensures
        a == b,
{
    let x = encode_utf8(a);
    let y = encode_utf8(b);
    if x.len() < y.len() {
        assert(fixed8(x)[y.len() - 1] == 0u8);
        assert(fixed8(y)[y.len() - 1] == y.last());
    }
    if y.len() < x.len() {
        assert(fixed8(y)[x.len() - 1] == 0u8);
        assert(fixed8(x)[x.len() - 1] == x.last());
    }
    assert forall|i: int| 0 <= i < x.len() implies x[i] == y[i] by {
        assert(fixed8(x)[i] == x[i]);
        assert(fixed8(y)[i] == y[i]);
    }
    assert(x =~= y);
    encode_utf8_decode_utf8(a);
    encode_utf8_decode_utf8(b);
}

/// Two exact rule keys with the same table key are the same: on exact keys
/// the table tells apart whatever the store tells apart.
pub proof fn lemma_exact_key_unique(a: RuleKey, b: RuleKey)
    requires
        exact_key(a),
        exact_key(b),
        fast_path_key(a) == fast_path_key(b),
    ensures
        a == b,
{
    let ka = fast_path_key(a);
    let kb = fast_path_key(b);
    let sa = fixed8(encode_utf8(a.sender));
    let sb = fixed8(encode_utf8(b.sender));
    let ta = fixed8(encode_utf8(a.target));
    let tb = fixed8(encode_utf8(b.target));
    assert forall|i: int| 0 <= i < 8 implies sa[i] == sb[i] by {
        assert(ka[i] == sa[i]);
        assert(kb[i] == sb[i]);
    }
    assert(sa =~= sb);
    assert forall|i: int| 0 <= i < 8 implies ta[i] == tb[i] by {
        assert(ka[8 + i] == ta[i]);
        assert(kb[8 + i] == tb[i]);
    }
    assert(ta =~= tb);
    assert(ka[16] == combined_byte(a.relation, a.action));
    assert(kb[16] == combined_byte(b.relation, b.action));
    lemma_exact_identifier_unique(a.sender, b.sender);
    lemma_exact_identifier_unique(a.target, b.target);
    lemma_decode_inverts_encode_bytes(a.relation, a.action);
    lemma_decode_inverts_encode_bytes(b.relation, b.action);
}

/// After the rules have been written, the table holds for an exact key what
/// the rules say of it: the value of the rule's decision where there is a
/// rule, and where there is none whatever it held before. All rule keys are
/// taken to be exact.
pub proof fn lemma_table_follows_rules(table: TableMap, entries: Seq<RelationEntry>, query: RuleKey)
    requires
        exact_key(query),
        forall|i: int| 0 <= i < entries.len() ==> exact_key((#[trigger] entries[i]).key()),
    ensures
        rule_map(entries).contains_key(query) ==> apply_writes(
            table,
            projection(entries),
        ).contains_key(fast_path_key(query)) && apply_writes(
            table,
            projection(entries),
        )[fast_path_key(query)] == allow_value(rule_map(entries)[query]),
        !rule_map(entries).contains_key(query) ==> apply_writes(
            table,
            projection(entries),
        ).contains_key(fast_path_key(query)) == table.contains_key(fast_path_key(query))
            && apply_writes(table, projection(entries))[fast_path_key(query)]
            == table[fast_path_key(query)],
    decreases entries.len(),
{
    if entries.len() > 0 {
        let front = entries.drop_last();
        let last = entries.last();
        assert(projection(entries).drop_last() =~= projection(front));
        assert(projection(entries).last() == (fast_path_key(last.key()), allow_value(last.allow)));
        assert forall|i: int| 0 <= i < front.len() implies exact_key(
            (#[trigger] front[i]).key(),
        ) by {
            assert(front[i] == entries[i]);
        }
        lemma_table_follows_rules(table, front, query);
        assert(exact_key(entries[entries.len() - 1].key()));
        if query != last.key() {
            if fast_path_key(query) == fast_path_key(last.key()) {
                lemma_exact_key_unique(query, last.key());
            }
        }
    }
}

/// Written into an empty table, the rules make the packet path decide as the
/// store does: a packet with the table key of an exact rule key passes exactly
/// where the store allows that key. All rule keys are taken to be exact.
pub proof fn lemma_table_agrees_with_store(entries: Seq<RelationEntry>, query: RuleKey)
    requires
        exact_key(query),
        forall|i: int| 0 <= i < entries.len() ==> exact_key((#[trigger] entries[i]).key()),
    ensures
        table_action(
            apply_writes(Map::empty(), projection(entries)),
            fast_path_key(query),
        ) == if decision(rule_map(entries), query) {
            PacketAction::Pass
        } else {
            PacketAction::Drop
        },
{
    lemma_table_follows_rules(Map::empty(), entries, query);
}

/// A packet that begins with the table key of a rule key is looked up under
/// that table key, whatever follows.
pub proof fn lemma_packet_carries_key(key: RuleKey, payload: Seq<u8>)
    ensures
        packet_key_bytes(fast_path_key(key) + payload) == Some(fast_path_key(key)),
{
    let head = fast_path_key(key);
    assert(head.len() == 18);
    assert((head + payload).subrange(0, 17).push(0u8) =~= head);
}

/// With the rules written into an empty table, a packet that begins with the
/// table key of an exact rule key passes exactly where the store allows that
/// key. All rule keys are taken to be exact.
pub proof fn lemma_packet_path_agrees_with_store(
    entries: Seq<RelationEntry>,
    query: RuleKey,
    payload: Seq<u8>,
)
    requires
        exact_key(query),
        forall|i: int| 0 <= i < entries.len() ==> exact_key((#[trigger] entries[i]).key()),
    ensures
        packet_action(
            apply_writes(Map::empty(), projection(entries)),
            fast_path_key(query) + payload,
        ) == if decision(rule_map(entries), query) {
            PacketAction::Pass
        } else {
            PacketAction::Drop
        },
{
    lemma_packet_carries_key(query, payload);
    lemma_table_agrees_with_store(entries, query);
}

/// Writing rules removes nothing: an entry whose key no rule writes is in the
/// table afterwards as it was before, so a rule that has left the store keeps
/// deciding on the packet path until its key is written again.
pub proof fn lemma_stale_entries_stay(
    table: TableMap,
    capacity: nat,
    entries: Seq<RelationEntry>,
    key: Seq<u8>,
)
    requires
        forall|i: int|
            0 <= i < entries.len() ==> fast_path_key((#[trigger] entries[i]).key()) != key,
    ensures
        apply_bounded(table, capacity, projection(entries)).contains_key(key)
            == table.contains_key(key),
        apply_bounded(table, capacity, projection(entries))[key] == table[key],
        table_action(apply_bounded(table, capacity, projection(entries)), key) == table_action(
            table,
            key,
        ),
{
    let writes = projection(entries);
    assert forall|i: int| 0 <= i < writes.len() implies (#[trigger] writes[i]).0 != key by {
        assert(fast_path_key(entries[i].key()) != key);
    }
    lemma_apply_bounded_keeps(table, capacity, writes, key);
}

} // verus!
