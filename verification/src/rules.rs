//! Rules, snapshots of rules, and the mapping that a sequence of rules stands
//! for.

use vstd::prelude::*;

verus! {

/// One authoritative rule: whether `sender` may ask `target`, to which it
/// stands in `relation`, for `action`.
#[derive(Clone, Debug)]
pub struct RelationEntry {
    pub sender: String,
    pub target: String,
    pub relation: u8,
    pub action: u8,
    pub allow: bool,
}

/// A complete, versioned rule set as it comes from a trusted source. The
/// signature is carried along and not examined.
#[derive(Clone, Debug)]
pub struct PolicySnapshot {
    pub version: u64,
    pub timestamp: u64,
    pub entries: Vec<RelationEntry>,
    pub signature: Vec<u8>,
}

/// What a rule is looked up by.
pub struct RuleKey {
    pub sender: Seq<char>,
    pub target: Seq<char>,
    pub relation: u8,
    pub action: u8,
}

impl RelationEntry {
    /// The key under which the rule is stored.
    pub open spec fn key(&self) -> RuleKey {
        RuleKey {
            sender: self.sender@,
            target: self.target@,
            relation: self.relation,
            action: self.action,
        }
    }
}

/// The mapping that results from entering the rules one after another into an
/// empty mapping: where two rules have the same key, the later one stands.
pub open spec fn rule_map(entries: Seq<RelationEntry>) -> Map<RuleKey, bool>
    decreases entries.len(),
{
    if entries.len() == 0 {
        Map::empty()
    } else {
        rule_map(entries.drop_last()).insert(entries.last().key(), entries.last().allow)
    }
}

/// The decision for `key` under `rules`: allowed only where a rule for exactly
/// this key exists and says so.
pub open spec fn decision(rules: Map<RuleKey, bool>, key: RuleKey) -> bool {
    rules.contains_key(key) && rules[key]
}

/// No two rules of the sequence have the same key.
pub open spec fn distinct_keys(entries: Seq<RelationEntry>) -> bool {
    forall|i: int, j: int|
        0 <= i < j < entries.len() ==> (#[trigger] entries[i]).key()
            != (#[trigger] entries[j]).key()
}

/// A key is in the mapping exactly when some rule of the sequence has it, and
/// the mapping is finite.
pub proof fn lemma_rule_map_domain(entries: Seq<RelationEntry>)
    ensures
        rule_map(entries).dom().finite(),
        forall|k: RuleKey|
            rule_map(entries).contains_key(k) <==> exists|i: int|
                0 <= i < entries.len() && (#[trigger] entries[i]).key() == k,
    decreases entries.len(),
{
    if entries.len() > 0 {
        let front = entries.drop_last();
        lemma_rule_map_domain(front);
        assert forall|k: RuleKey|
            rule_map(entries).contains_key(k) <==> exists|i: int|
                0 <= i < entries.len() && (#[trigger] entries[i]).key() == k by {
            if rule_map(entries).contains_key(k) {
                if k == entries.last().key() {
                    assert(entries[entries.len() - 1].key() == k);
                } else {
                    let i = choose|i: int| 0 <= i < front.len() && (#[trigger] front[i]).key() == k;
                    assert(entries[i].key() == k);
                }
            }
            if exists|i: int| 0 <= i < entries.len() && (#[trigger] entries[i]).key() == k {
                let i = choose|i: int| 0 <= i < entries.len() && (#[trigger] entries[i]).key() == k;
                if i < entries.len() - 1 {
                    assert(front[i].key() == k);
                }
            }
        }
    }
}

/// A rule decides its key wherever every later rule with the same key agrees
/// with it.
pub proof fn lemma_loaded_rule_decides(entries: Seq<RelationEntry>, i: int)
    requires
        0 <= i < entries.len(),
        forall|j: int|
            i < j < entries.len() && (#[trigger] entries[j]).key() == entries[i].key()
                ==> entries[j].allow == entries[i].allow,
    ensures
        rule_map(entries).contains_key(entries[i].key()),
        rule_map(entries)[entries[i].key()] == entries[i].allow,
        decision(rule_map(entries), entries[i].key()) == entries[i].allow,
    decreases entries.len(),
{
    let front = entries.drop_last();
    if i < entries.len() - 1 {
        assert(front[i] == entries[i]);
        assert forall|j: int| i < j < front.len() && (#[trigger] front[j]).key() == front[i].key()
            implies front[j].allow == front[i].allow by {
            assert(entries[j].key() == entries[i].key());
        }
        lemma_loaded_rule_decides(front, i);
        assert(entries[entries.len() - 1] == entries.last());
    }
}

/// A key that no rule of the sequence has is denied.
pub proof fn lemma_absent_rule_denies(entries: Seq<RelationEntry>, key: RuleKey)
    requires
        forall|i: int| 0 <= i < entries.len() ==> (#[trigger] entries[i]).key() != key,
    ensures
        !rule_map(entries).contains_key(key),
        !decision(rule_map(entries), key),
{
    lemma_rule_map_domain(entries);
}

/// Where no two rules share a key, the mapping has as many keys as there are
/// rules.
pub proof fn lemma_rule_map_len(entries: Seq<RelationEntry>)
    requires
        distinct_keys(entries),
    ensures
        rule_map(entries).dom().finite(),
        rule_map(entries).dom().len() == entries.len(),
    decreases entries.len(),
{
    lemma_rule_map_domain(entries);
    if entries.len() > 0 {
        let front = entries.drop_last();
        assert forall|i: int, j: int| 0 <= i < j < front.len() implies (#[trigger] front[i]).key()
            != (#[trigger] front[j]).key() by {
            assert(entries[i].key() != entries[j].key());
        }
        lemma_rule_map_len(front);
        lemma_rule_map_domain(front);
        if rule_map(front).contains_key(entries.last().key()) {
            let i = choose|i: int|
                0 <= i < front.len() && (#[trigger] front[i]).key() == entries.last().key();
            assert(entries[i].key() != entries[entries.len() - 1].key());
        }
    }
}

} // verus!
