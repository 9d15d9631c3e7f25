use policy_engine::{
    decode_combined, encode_action_relation, encode_combined, identifier_to_fixed8, Action,
    Relation,
};

const RELATIONS: [Relation; 3] = [Relation::FromParentHQ, Relation::FromSiblingRN, Relation::FromCC];
const ACTIONS: [Action; 4] =
    [Action::Reboot, Action::SetConfig, Action::StatusUpdate, Action::Telemetry];

#[test]
fn relation_bytes_are_the_documented_ones() {
    assert_eq!(Relation::FromParentHQ.raw(), 0x10);
    assert_eq!(Relation::FromSiblingRN.raw(), 0x20);
    assert_eq!(Relation::FromCC.raw(), 0x30);
}

#[test]
fn action_bytes_are_the_documented_ones() {
    assert_eq!(Action::Reboot.raw(), 0x01);
    assert_eq!(Action::SetConfig.raw(), 0x02);
    assert_eq!(Action::StatusUpdate.raw(), 0x03);
    assert_eq!(Action::Telemetry.raw(), 0x04);
}

#[test]
fn relation_from_raw_accepts_the_vocabulary_only() {
    assert_eq!(Relation::from_raw(0x10), Some(Relation::FromParentHQ));
    assert_eq!(Relation::from_raw(0x20), Some(Relation::FromSiblingRN));
    assert_eq!(Relation::from_raw(0x30), Some(Relation::FromCC));
    assert_eq!(Relation::from_raw(0x00), None);
    assert_eq!(Relation::from_raw(0x11), None);
    assert_eq!(Relation::from_raw(0x40), None);
    assert_eq!(Relation::from_raw(0xFF), None);
}

#[test]
fn action_from_raw_accepts_the_vocabulary_only() {
    assert_eq!(Action::from_raw(0x01), Some(Action::Reboot));
    assert_eq!(Action::from_raw(0x02), Some(Action::SetConfig));
    assert_eq!(Action::from_raw(0x03), Some(Action::StatusUpdate));
    assert_eq!(Action::from_raw(0x04), Some(Action::Telemetry));
    assert_eq!(Action::from_raw(0x00), None);
    assert_eq!(Action::from_raw(0x05), None);
    assert_eq!(Action::from_raw(0x14), None);
}

#[test]
fn from_raw_inverts_raw_for_every_tag() {
    for relation in RELATIONS {
        assert_eq!(Relation::from_raw(relation.raw()), Some(relation));
    }
    for action in ACTIONS {
        assert_eq!(Action::from_raw(action.raw()), Some(action));
    }
}

#[test]
fn encode_action_relation_gives_the_expected_bytes() {
    assert_eq!(encode_action_relation(Action::Telemetry, Relation::FromParentHQ), 0x14);
    assert_eq!(encode_action_relation(Action::Reboot, Relation::FromParentHQ), 0x11);
    assert_eq!(encode_action_relation(Action::SetConfig, Relation::FromSiblingRN), 0x22);
    assert_eq!(encode_action_relation(Action::StatusUpdate, Relation::FromCC), 0x33);
}

#[test]
fn encode_combined_masks_each_half() {
    assert_eq!(encode_combined(0x10, 0x04), 0x14);
    assert_eq!(encode_combined(0x1F, 0xF4), 0x14);
    assert_eq!(encode_combined(0xFF, 0xFF), 0xFF);
    assert_eq!(encode_combined(0x00, 0x00), 0x00);
    assert_eq!(encode_combined(0x0F, 0xF0), 0x00);
}

#[test]
fn decode_combined_splits_in_place() {
    assert_eq!(decode_combined(0x14), (0x10, 0x04));
    assert_eq!(decode_combined(0x00), (0x00, 0x00));
    assert_eq!(decode_combined(0xFF), (0xF0, 0x0F));
    assert_eq!(decode_combined(0x30), (0x30, 0x00));
}

#[test]
fn decode_inverts_encode_for_every_pair_of_tags() {
    for relation in RELATIONS {
        for action in ACTIONS {
            let byte = encode_action_relation(action, relation);
            assert_eq!(decode_combined(byte), (relation.raw(), action.raw()));
            let (r, a) = decode_combined(byte);
            assert_eq!(Relation::from_raw(r), Some(relation));
            assert_eq!(Action::from_raw(a), Some(action));
        }
    }
}

#[test]
fn encode_inverts_decode_for_every_byte() {
    for byte in 0..=255u8 {
        let (r, a) = decode_combined(byte);
        assert_eq!(encode_combined(r, a), byte);
        assert_eq!(r & 0x0F, 0);
        assert_eq!(a & 0xF0, 0);
    }
}

#[test]
fn no_two_pairs_of_tags_share_a_byte() {
    let mut seen: Vec<u8> = Vec::new();
    for relation in RELATIONS {
        for action in ACTIONS {
            let byte = encode_action_relation(action, relation);
            assert!(!seen.contains(&byte));
            seen.push(byte);
        }
    }
    assert_eq!(seen.len(), 12);
}

#[test]
fn short_identifier_is_padded_with_zero_bytes() {
    assert_eq!(identifier_to_fixed8("RN-01"), [b'R', b'N', b'-', b'0', b'1', 0, 0, 0]);
    assert_eq!(identifier_to_fixed8("a"), [b'a', 0, 0, 0, 0, 0, 0, 0]);
}

#[test]
fn empty_identifier_is_all_zero() {
    assert_eq!(identifier_to_fixed8(""), [0u8; 8]);
}

#[test]
fn identifier_of_eight_bytes_is_kept_whole() {
    assert_eq!(identifier_to_fixed8("ABCDEFGH"), *b"ABCDEFGH");
}

#[test]
fn long_identifier_is_cut_after_eight_bytes() {
    assert_eq!(identifier_to_fixed8("REGIONAL-NODE-01"), *b"REGIONAL");
    assert_eq!(identifier_to_fixed8("ABCDEFGHI"), *b"ABCDEFGH");
}

#[test]
fn identifier_is_reduced_by_its_utf8_bytes() {
    // each of the two letters takes two bytes
    assert_eq!(identifier_to_fixed8("\u{e9}\u{e8}"), [0xC3, 0xA9, 0xC3, 0xA8, 0, 0, 0, 0]);
    // the cut may fall inside a letter
    assert_eq!(
        identifier_to_fixed8("abcdefg\u{e9}"),
        [b'a', b'b', b'c', b'd', b'e', b'f', b'g', 0xC3]
    );
}

#[test]
fn identifier_reduction_is_repeatable() {
    let first = identifier_to_fixed8("HQ-01");
    let second = identifier_to_fixed8("HQ-01");
    assert_eq!(first, second);
    let owned = String::from("HQ-01");
    assert_eq!(identifier_to_fixed8(&owned), first);
}

#[test]
fn identifiers_sharing_eight_bytes_collide() {
    assert_eq!(identifier_to_fixed8("REGIONAL-NODE-01"), identifier_to_fixed8("REGIONAL-NODE-02"));
    assert_ne!(identifier_to_fixed8("RN-01"), identifier_to_fixed8("RN-02"));
}
