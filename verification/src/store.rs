//! The policy store: the authoritative mapping from (sender, target,
//! relation, action) to a decision, with the version of the rule set it holds.

use vstd::prelude::*;
use crate::codec::{Action, Relation};
use crate::rules::{
    decision, distinct_keys, lemma_absent_rule_denies, lemma_loaded_rule_decides,
    lemma_rule_map_len, rule_map, PolicySnapshot, RelationEntry, RuleKey,
};

verus! {

/// What a store holds: its rules as a mapping, and its version.
pub struct PolicyState {
    pub rules: Map<RuleKey, bool>,
    pub version: u64,
}

/// The authoritative rule store. It starts empty at version 0, is replaced as
/// a whole by each snapshot, and answers every query for which it holds no
/// rule with a denial.
///
/// Loading takes the store exclusively, so a reader sees the rules of one
/// snapshot or of the next, never some of each. To share a store between
/// threads, put it behind a reader/writer lock.
pub struct PolicyEngine {
    rules: Vec<RelationEntry>,
    version: u64,
}

impl View for PolicyEngine {
    type V = PolicyState;

    open spec fn view(&self) -> PolicyState {
        PolicyState { rules: rule_map(self.entries()), version: self.installed_version() }
    }
}

/// Replacing a rule by one with the same key changes the mapping as entering
/// the new rule does.
proof fn lemma_replace_rule(entries: Seq<RelationEntry>, i: int, entry: RelationEntry)
    requires
        distinct_keys(entries),
        0 <= i < entries.len(),
        entries[i].key() == entry.key(),
    ensures
        distinct_keys(entries.update(i, entry)),
        rule_map(entries.update(i, entry)) == rule_map(entries).insert(entry.key(), entry.allow),
    decreases entries.len(),
{
    let replaced = entries.update(i, entry);
    let front = entries.drop_last();
    assert forall|a: int, b: int| 0 <= a < b < replaced.len() implies (#[trigger] replaced[a]).key()
        != (#[trigger] replaced[b]).key() by {
        assert(entries[a].key() != entries[b].key());
    }
    if i == entries.len() - 1 {
        assert(replaced.drop_last() =~= front);
        assert(rule_map(replaced) =~= rule_map(entries).insert(entry.key(), entry.allow));
    } else {
        assert(replaced.drop_last() =~= front.update(i, entry));
        assert forall|a: int, b: int| 0 <= a < b < front.len() implies (#[trigger] front[a]).key()
            != (#[trigger] front[b]).key() by {
            assert(entries[a].key() != entries[b].key());
        }
        lemma_replace_rule(front, i, entry);
        assert(entries[i].key() != entries[entries.len() - 1].key());
        assert(rule_map(replaced) =~= rule_map(entries).insert(entry.key(), entry.allow));
    }
}

/// Where the rule with the given key stands among `rules`.
fn find_rule(
    rules: &Vec<RelationEntry>,
    sender: &String,
    target: &String,
    relation: u8,
    action: u8,
) -> (found: Option<usize>)
    ensures
        match found {
            Some(i) => i < rules@.len() && rules@[i as int].key() == (RuleKey {
                sender: sender@,
                target: target@,
                relation,
                action,
            }),
            None => forall|j: int|
                0 <= j < rules@.len() ==> (#[trigger] rules@[j]).key() != (RuleKey {
                    sender: sender@,
                    target: target@,
                    relation,
                    action,
                }),
        },
{
    let mut i: usize = 0;
    while i < rules.len()
        invariant
            i <= rules@.len(),
            forall|j: int|
                0 <= j < i ==> (#[trigger] rules@[j]).key() != (RuleKey {
                    sender: sender@,
                    target: target@,
                    relation,
                    action,
                }),
        decreases rules@.len() - i,
    {
        let rule = &rules[i];
        if rule.relation == relation && rule.action == action && rule.sender == *sender
            && rule.target == *target {
            return Some(i);
        }
        i += 1;
    }
    None
}

/// Enters a rule: in the place of the rule with the same key, or at the end.
fn upsert(rules: &mut Vec<RelationEntry>, entry: RelationEntry)
    requires
        distinct_keys(old(rules)@),
    ensures
        distinct_keys(final(rules)@),
        rule_map(final(rules)@) == rule_map(old(rules)@).insert(entry.key(), entry.allow),
{
    match find_rule(rules, &entry.sender, &entry.target, entry.relation, entry.action) {
        Some(i) => {
            proof {
                lemma_replace_rule(rules@, i as int, entry);
            }
            rules[i] = entry;
        },
        None => {
            rules.push(entry);
            assert(rules@.drop_last() =~= old(rules)@);
        },
    }
}

/// A copy of a rule.
fn copy_entry(entry: &RelationEntry) -> (copy: RelationEntry)
    ensures
        copy == *entry,
{
    RelationEntry {
        sender: entry.sender.clone(),
        target: entry.target.clone(),
        relation: entry.relation,
        action: entry.action,
        allow: entry.allow,
    }
}

impl PolicyEngine {
    #[verifier::type_invariant]
    spec fn well_formed(&self) -> bool {
        distinct_keys(self.rules@)
    }

    /// The stored rules, one for each key, in the order in which their keys
    /// first came in.
    pub closed spec fn entries(&self) -> Seq<RelationEntry> {
        self.rules@
    }

    /// The version of the newest snapshot that the store has seen.
    pub closed spec fn installed_version(&self) -> u64 {
        self.version
    }

    /// An empty store at version 0.
    pub fn new() -> (engine: PolicyEngine)
        ensures
            engine@.rules == Map::<RuleKey, bool>::empty(),
            engine@.version == 0,
            engine.entries().len() == 0,
    {
        PolicyEngine { rules: Vec::new(), version: 0 }
    }

    /// Replaces the whole rule set by the snapshot's entries, entered in order,
    /// so that of two entries with the same key the later stands. The version
    /// moves only upwards: to the snapshot's where that is higher, else not at
    /// all. The entries are taken over in either case.
    pub fn load_snapshot(&mut self, snapshot: &PolicySnapshot)
        ensures
            final(self)@.rules == rule_map(snapshot.entries@),
            final(self)@.version == if snapshot.version > old(self)@.version {
                snapshot.version
            } else {
                old(self)@.version
            },
            distinct_keys(final(self).entries()),
    {
        let mut rules: Vec<RelationEntry> = Vec::new();
        let mut i: usize = 0;
        while i < snapshot.entries.len()
            invariant
                i <= snapshot.entries@.len(),
                distinct_keys(rules@),
                rule_map(rules@) == rule_map(snapshot.entries@.subrange(0, i as int)),
            decreases snapshot.entries@.len() - i,
        {
            let entry = copy_entry(&snapshot.entries[i]);
            upsert(&mut rules, entry);
            assert(snapshot.entries@.subrange(0, i + 1).drop_last() =~= snapshot.entries@.subrange(
                0,
                i as int,
            ));
            i += 1;
        }
        assert(snapshot.entries@.subrange(0, i as int) =~= snapshot.entries@);
        self.rules = rules;
        if snapshot.version > self.version {
            self.version = snapshot.version;
        }
    }

    /// Enters one rule and leaves the others and the version as they are. A
    /// rule already stored under the same key is replaced.
    pub fn insert(&mut self, sender: &str, target: &str, relation: u8, action: u8, allow: bool)
        ensures
            final(self)@.rules == old(self)@.rules.insert(
                RuleKey { sender: sender@, target: target@, relation, action },
                allow,
            ),
            final(self)@.version == old(self)@.version,
            distinct_keys(final(self).entries()),
    {
        proof {
            use_type_invariant(&*self);
        }
        let entry = RelationEntry {
            sender: sender.to_owned(),
            target: target.to_owned(),
            relation,
            action,
            allow,
        };
        let mut rules: Vec<RelationEntry> = Vec::new();
        core::mem::swap(&mut self.rules, &mut rules);
        upsert(&mut rules, entry);
        self.rules = rules;
    }

    /// The decision for exactly this sender, target, relation and action.
    /// Where the store holds no rule for them, the answer is a denial.
    pub fn check(&self, sender: &str, target: &str, relation: u8, action: u8) -> (allow: bool)
        ensures
            allow == decision(
                self@.rules,
                RuleKey { sender: sender@, target: target@, relation, action },
            ),
            !self@.rules.contains_key(
                RuleKey { sender: sender@, target: target@, relation, action },
            ) ==> !allow,
    {
        proof {
            use_type_invariant(self);
        }
        let sender = sender.to_owned();
        let target = target.to_owned();
        match find_rule(&self.rules, &sender, &target, relation, action) {
            Some(i) => {
                proof {
                    lemma_loaded_rule_decides(self.rules@, i as int);
                }
                self.rules[i].allow
            },
            None => {
                proof {
                    lemma_absent_rule_denies(
                        self.rules@,
                        RuleKey { sender: sender@, target: target@, relation, action },
                    );
                }
                false
            },
        }
    }

    /// The decision for a sender, a target and two tags of the vocabulary: what
    /// `check` answers for the tags' bytes.
    pub fn decide(&self, sender: &str, target: &str, relation: Relation, action: Action) -> (allow:
        bool)
        ensures
            allow == decision(
                self@.rules,
                RuleKey {
                    sender: sender@,
                    target: target@,
                    relation: relation.raw_value(),
                    action: action.raw_value(),
                },
            ),
    {
        self.check(sender, target, relation.raw(), action.raw())
    }

    /// The version of the newest snapshot that the store has seen: 0 before
    /// the first.
    pub fn version(&self) -> (version: u64)
        ensures
            version == self@.version,
    {
        self.version
    }

    /// How many rules the store holds.
    pub fn len(&self) -> (count: usize)
        ensures
            count == self.entries().len(),
            count == self@.rules.dom().len(),
    {
        proof {
            use_type_invariant(self);
            lemma_rule_map_len(self.rules@);
        }
        self.rules.len()
    }

    /// The stored rules at this moment, one for each key, as copies.
    pub fn snapshot_view(&self) -> (rules: Vec<RelationEntry>)
        ensures
            rules@ == self.entries(),
            rule_map(rules@) == self@.rules,
            distinct_keys(rules@),
            rules@.len() == self@.rules.dom().len(),
    {
        proof {
            use_type_invariant(self);
            lemma_rule_map_len(self.rules@);
        }
        let mut rules: Vec<RelationEntry> = Vec::new();
        let mut i: usize = 0;
        while i < self.rules.len()
            invariant
                i <= self.rules@.len(),
                rules@ == self.rules@.subrange(0, i as int),
            decreases self.rules@.len() - i,
        {
            let entry = copy_entry(&self.rules[i]);
            rules.push(entry);
            assert(rules@ =~= self.rules@.subrange(0, i + 1));
            i += 1;
        }
        assert(rules@ =~= self.rules@);
        rules
    }
}

} // verus!
