use policy_engine::{Action, PolicyEngine, PolicySnapshot, Relation, RelationEntry};

fn entry(sender: &str, target: &str, relation: Relation, action: Action, allow: bool) -> RelationEntry {
    RelationEntry {
        sender: sender.to_string(),
        target: target.to_string(),
        relation: relation.raw(),
        action: action.raw(),
        allow,
    }
}

fn snapshot(version: u64, entries: Vec<RelationEntry>) -> PolicySnapshot {
    PolicySnapshot { version, timestamp: 1_700_000_000, entries, signature: vec![0xDE, 0xAD] }
}

fn two_rule_store() -> PolicyEngine {
    let mut engine = PolicyEngine::new();
    engine.load_snapshot(&snapshot(
        1,
        vec![
            entry("RN-01", "HQ-01", Relation::FromParentHQ, Action::Telemetry, true),
            entry("RN-01", "HQ-01", Relation::FromParentHQ, Action::Reboot, false),
        ],
    ));
    engine
}

#[test]
fn new_store_is_empty_at_version_zero() {
    let engine = PolicyEngine::new();
    assert_eq!(engine.version(), 0);
    assert_eq!(engine.len(), 0);
    assert!(engine.snapshot_view().is_empty());
    assert!(!engine.check("RN-01", "HQ-01", 0x10, 0x04));
    assert!(!engine.check("", "", 0, 0));
}

#[test]
fn loaded_rules_decide() {
    let engine = two_rule_store();
    assert!(engine.check("RN-01", "HQ-01", Relation::FromParentHQ.raw(), Action::Telemetry.raw()));
    assert!(!engine.check("RN-01", "HQ-01", Relation::FromParentHQ.raw(), Action::Reboot.raw()));
    assert_eq!(engine.version(), 1);
    assert_eq!(engine.len(), 2);
}

#[test]
fn unknown_sender_is_denied_after_load() {
    let engine = two_rule_store();
    assert!(!engine.check("RN-99", "HQ-01", Relation::FromParentHQ.raw(), Action::Telemetry.raw()));
}

#[test]
fn relation_outside_vocabulary_is_denied_after_load() {
    let engine = two_rule_store();
    assert!(!engine.check("RN-01", "HQ-01", 0xFF, Action::Telemetry.raw()));
}

#[test]
fn lower_version_leaves_version() {
    let mut engine = PolicyEngine::new();
    engine.load_snapshot(&snapshot(5, vec![]));
    assert_eq!(engine.version(), 5);
    engine.load_snapshot(&snapshot(3, vec![]));
    assert_eq!(engine.version(), 5);
}

#[test]
fn higher_version_moves_version() {
    let mut engine = PolicyEngine::new();
    engine.load_snapshot(&snapshot(1, vec![]));
    assert_eq!(engine.version(), 1);
    engine.load_snapshot(&snapshot(2, vec![]));
    assert_eq!(engine.version(), 2);
    engine.load_snapshot(&snapshot(u64::MAX, vec![]));
    assert_eq!(engine.version(), u64::MAX);
}

#[test]
fn equal_version_leaves_version() {
    let mut engine = PolicyEngine::new();
    engine.load_snapshot(&snapshot(7, vec![]));
    engine.load_snapshot(&snapshot(7, vec![]));
    assert_eq!(engine.version(), 7);
    engine.load_snapshot(&snapshot(0, vec![]));
    assert_eq!(engine.version(), 7);
}

#[test]
fn every_part_of_the_key_must_match() {
    let engine = two_rule_store();
    let r = Relation::FromParentHQ.raw();
    let a = Action::Telemetry.raw();
    assert!(engine.check("RN-01", "HQ-01", r, a));
    assert!(!engine.check("RN-02", "HQ-01", r, a));
    assert!(!engine.check("RN-01", "HQ-02", r, a));
    assert!(!engine.check("RN-01", "HQ-01", Relation::FromSiblingRN.raw(), a));
    assert!(!engine.check("RN-01", "HQ-01", r, Action::SetConfig.raw()));
    assert!(!engine.check("HQ-01", "RN-01", r, a));
    assert!(!engine.check("RN-01 ", "HQ-01", r, a));
    assert!(!engine.check("rn-01", "HQ-01", r, a));
}

#[test]
fn every_loaded_entry_is_answered_with_its_own_decision() {
    let entries = vec![
        entry("RN-01", "HQ-01", Relation::FromParentHQ, Action::Telemetry, true),
        entry("RN-01", "HQ-01", Relation::FromParentHQ, Action::Reboot, false),
        entry("RN-02", "RN-01", Relation::FromSiblingRN, Action::StatusUpdate, true),
        entry("CC-01", "HQ-01", Relation::FromCC, Action::SetConfig, true),
        entry("CC-01", "HQ-01", Relation::FromCC, Action::Reboot, false),
    ];
    let mut engine = PolicyEngine::new();
    engine.load_snapshot(&snapshot(1, entries.clone()));
    for e in &entries {
        assert_eq!(engine.check(&e.sender, &e.target, e.relation, e.action), e.allow);
    }
    assert_eq!(engine.len(), 5);
}

#[test]
fn later_entry_with_the_same_key_stands() {
    let mut engine = PolicyEngine::new();
    engine.load_snapshot(&snapshot(
        1,
        vec![
            entry("RN-01", "HQ-01", Relation::FromParentHQ, Action::Telemetry, true),
            entry("RN-02", "HQ-01", Relation::FromParentHQ, Action::Telemetry, true),
            entry("RN-01", "HQ-01", Relation::FromParentHQ, Action::Telemetry, false),
        ],
    ));
    assert!(!engine.check("RN-01", "HQ-01", Relation::FromParentHQ.raw(), Action::Telemetry.raw()));
    assert!(engine.check("RN-02", "HQ-01", Relation::FromParentHQ.raw(), Action::Telemetry.raw()));
    assert_eq!(engine.len(), 2);
}

#[test]
fn load_replaces_the_whole_rule_set() {
    let mut engine = two_rule_store();
    engine.load_snapshot(&snapshot(
        2,
        vec![entry("RN-05", "HQ-01", Relation::FromParentHQ, Action::StatusUpdate, true)],
    ));
    assert!(engine.check("RN-05", "HQ-01", Relation::FromParentHQ.raw(), Action::StatusUpdate.raw()));
    assert!(!engine.check("RN-01", "HQ-01", Relation::FromParentHQ.raw(), Action::Telemetry.raw()));
    assert_eq!(engine.len(), 1);
    assert_eq!(engine.version(), 2);
}

#[test]
fn stale_snapshot_still_replaces_the_rules() {
    let mut engine = PolicyEngine::new();
    engine.load_snapshot(&snapshot(
        5,
        vec![entry("RN-01", "HQ-01", Relation::FromParentHQ, Action::Telemetry, true)],
    ));
    engine.load_snapshot(&snapshot(
        3,
        vec![entry("RN-02", "HQ-01", Relation::FromParentHQ, Action::Telemetry, true)],
    ));
    assert_eq!(engine.version(), 5);
    assert!(!engine.check("RN-01", "HQ-01", Relation::FromParentHQ.raw(), Action::Telemetry.raw()));
    assert!(engine.check("RN-02", "HQ-01", Relation::FromParentHQ.raw(), Action::Telemetry.raw()));
}

#[test]
fn empty_snapshot_empties_the_store() {
    let mut engine = two_rule_store();
    engine.load_snapshot(&snapshot(2, vec![]));
    assert_eq!(engine.len(), 0);
    assert!(!engine.check("RN-01", "HQ-01", Relation::FromParentHQ.raw(), Action::Telemetry.raw()));
}

#[test]
fn insert_replaces_the_rule_under_the_same_key() {
    let mut engine = two_rule_store();
    engine.insert("RN-01", "HQ-01", Relation::FromParentHQ.raw(), Action::Reboot.raw(), true);
    assert!(engine.check("RN-01", "HQ-01", Relation::FromParentHQ.raw(), Action::Reboot.raw()));
    assert!(engine.check("RN-01", "HQ-01", Relation::FromParentHQ.raw(), Action::Telemetry.raw()));
    assert_eq!(engine.len(), 2);
    assert_eq!(engine.version(), 1);
}

#[test]
fn snapshot_view_lists_each_rule_once() {
    let mut engine = two_rule_store();
    engine.insert("RN-01", "HQ-01", Relation::FromParentHQ.raw(), Action::Reboot.raw(), true);
    engine.insert("RN-03", "HQ-01", Relation::FromParentHQ.raw(), Action::Telemetry.raw(), false);
    let mut rules: Vec<(String, String, u8, u8, bool)> = engine
        .snapshot_view()
        .into_iter()
        .map(|e| (e.sender, e.target, e.relation, e.action, e.allow))
        .collect();
    rules.sort();
    assert_eq!(
        rules,
        vec![
            ("RN-01".to_string(), "HQ-01".to_string(), 0x10, 0x01, true),
            ("RN-01".to_string(), "HQ-01".to_string(), 0x10, 0x04, true),
            ("RN-03".to_string(), "HQ-01".to_string(), 0x10, 0x04, false),
        ]
    );
}

#[test]
fn snapshot_view_is_a_copy() {
    let mut engine = two_rule_store();
    let before = engine.snapshot_view();
    engine.load_snapshot(&snapshot(2, vec![]));
    assert_eq!(before.len(), 2);
    assert_eq!(engine.snapshot_view().len(), 0);
}

#[test]
fn decide_answers_as_check_does() {
    let engine = two_rule_store();
    assert!(engine.decide("RN-01", "HQ-01", Relation::FromParentHQ, Action::Telemetry));
    assert!(!engine.decide("RN-01", "HQ-01", Relation::FromParentHQ, Action::Reboot));
    assert!(!engine.decide("RN-99", "HQ-01", Relation::FromParentHQ, Action::Telemetry));
    assert!(!engine.decide("RN-01", "HQ-01", Relation::FromCC, Action::Telemetry));
    for relation in [Relation::FromParentHQ, Relation::FromSiblingRN, Relation::FromCC] {
        for action in [Action::Reboot, Action::SetConfig, Action::StatusUpdate, Action::Telemetry] {
            assert_eq!(
                engine.decide("RN-01", "HQ-01", relation, action),
                engine.check("RN-01", "HQ-01", relation.raw(), action.raw())
            );
        }
    }
}

#[test]
fn identifiers_longer_than_a_key_are_told_apart_by_the_store() {
    let mut engine = PolicyEngine::new();
    engine.insert("REGIONAL-NODE-01", "HQ-01", 0x10, 0x04, true);
    assert!(engine.check("REGIONAL-NODE-01", "HQ-01", 0x10, 0x04));
    assert!(!engine.check("REGIONAL-NODE-02", "HQ-01", 0x10, 0x04));
    assert!(!engine.check("REGIONAL", "HQ-01", 0x10, 0x04));
}

#[test]
fn signature_and_timestamp_do_not_matter_to_the_store() {
    let entries = vec![entry("RN-01", "HQ-01", Relation::FromParentHQ, Action::Telemetry, true)];
    let mut a = PolicyEngine::new();
    a.load_snapshot(&PolicySnapshot {
        version: 1,
        timestamp: 0,
        entries: entries.clone(),
        signature: vec![],
    });
    let mut b = PolicyEngine::new();
    b.load_snapshot(&PolicySnapshot {
        version: 1,
        timestamp: u64::MAX,
        entries,
        signature: vec![1, 2, 3],
    });
    assert_eq!(a.version(), b.version());
    assert_eq!(
        a.check("RN-01", "HQ-01", 0x10, 0x04),
        b.check("RN-01", "HQ-01", 0x10, 0x04)
    );
}
