//! The enforcement table's key and the decision taken for a packet.
//!
//! A key is eighteen bytes: eight for the sender, eight for the target, the
//! combined byte, and one byte of padding. The layout is what the control
//! plane and the packet path agree on, byte for byte.

use vstd::prelude::*;
use vstd::string::*;
use vstd::utf8::*;
use crate::codec::{combined_byte, encode_combined, fixed8, identifier_to_fixed8};
use crate::rules::RuleKey;

verus! {

/// The width of a key in bytes.
pub const KEY_LEN: usize = 18;

/// The key of the enforcement table.
#[derive(Clone, Copy, Debug)]
pub struct RelationKey {
    pub sender: [u8; 8],
    pub target: [u8; 8],
    /// The relation in the upper four bits, the action in the lower four.
    pub action_relation: u8,
    pub padding: u8,
}

/// What the packet path does with a packet.
#[derive(Clone, Copy, Debug, PartialEq, Eq, Structural)]
pub enum PacketAction {
    Pass,
    Drop,
}

/// The eighteen bytes of a key, in the order in which they lie in the table.
pub open spec fn key_bytes(
    sender: Seq<u8>,
    target: Seq<u8>,
    action_relation: u8,
    padding: u8,
) -> Seq<u8> {
    sender + target + seq![action_relation, padding]
}

impl View for RelationKey {
    type V = Seq<u8>;

    open spec fn view(&self) -> Seq<u8> {
        key_bytes(self.sender@, self.target@, self.action_relation, self.padding)
    }
}

/// The key bytes under which a rule's decision is written to the table.
pub open spec fn fast_path_key(key: RuleKey) -> Seq<u8> {
    key_bytes(
        fixed8(encode_utf8(key.sender)),
        fixed8(encode_utf8(key.target)),
        combined_byte(key.relation, key.action),
        0,
    )
}

/// The key bytes that the packet path reads from the head of a packet: the
/// first seventeen bytes and a zero byte of padding. A packet of fewer than
/// eighteen bytes has none.
pub open spec fn packet_key_bytes(data: Seq<u8>) -> Option<Seq<u8>> {
    if data.len() < KEY_LEN {
        None
    } else {
        Some(data.subrange(0, 17).push(0u8))
    }
}

/// The decision for a table value: a packet passes on a value other than
/// zero, and is dropped on zero or where the table has no entry.
pub open spec fn value_action(value: Option<u8>) -> PacketAction {
    if value is Some && value->Some_0 != 0 {
        PacketAction::Pass
    } else {
        PacketAction::Drop
    }
}

impl RelationKey {
    /// The key's bytes as they lie in the table.
    pub fn to_bytes(&self) -> (bytes: [u8; 18])
        ensures
            bytes@ == self@,
    {
        let mut bytes: [u8; 18] = [0u8; 18];
        let mut i: usize = 0;
        while i < 8
            invariant
                i <= 8,
                forall|j: int| 0 <= j < i ==> bytes@[j] == self.sender@[j],
                forall|j: int| 0 <= j < i ==> bytes@[8 + j] == self.target@[j],
            decreases 8 - i,
        {
            bytes[i] = self.sender[i];
            bytes[8 + i] = self.target[i];
            i += 1;
        }
        bytes[16] = self.action_relation;
        bytes[17] = self.padding;
        assert(bytes@ =~= self@);
        bytes
    }

    /// Whether two keys have the same bytes.
    pub fn same_bytes(&self, other: &RelationKey) -> (same: bool)
        ensures
            same == (self@ == other@),
    {
        let mut i: usize = 0;
        while i < 8
            invariant
                i <= 8,
                forall|j: int| 0 <= j < i ==> self.sender@[j] == other.sender@[j],
                forall|j: int| 0 <= j < i ==> self.target@[j] == other.target@[j],
            decreases 8 - i,
        {
            if self.sender[i] != other.sender[i] {
                assert(self@[i as int] != other@[i as int]);
                return false;
            }
            if self.target[i] != other.target[i] {
                assert(self@[8 + i] != other@[8 + i]);
                return false;
            }
            i += 1;
        }
        if self.action_relation != other.action_relation {
            assert(self@[16] != other@[16]);
            return false;
        }
        if self.padding != other.padding {
            assert(self@[17] != other@[17]);
            return false;
        }
        assert(self@ =~= other@);
        true
    }
}

/// Builds the table key for a sender, a target, a relation and an action:
/// each identifier reduced to eight bytes, the two tags in one byte, and a
/// zero byte of padding.
pub fn make_fast_path_key(sender_id: &str, target_id: &str, relation: u8, action: u8) -> (key:
    RelationKey)
    ensures
        key@ == fast_path_key(
            RuleKey { sender: sender_id@, target: target_id@, relation, action },
        ),
        key.sender@ == fixed8(sender_id.spec_bytes()),
        key.target@ == fixed8(target_id.spec_bytes()),
        key.action_relation == combined_byte(relation, action),
        key.padding == 0,
{
    RelationKey {
        sender: identifier_to_fixed8(sender_id),
        target: identifier_to_fixed8(target_id),
        action_relation: encode_combined(relation, action),
        padding: 0,
    }
}

/// Reads the key at the head of a packet: sender, target and combined byte
/// from its first seventeen bytes. The eighteenth byte must be there and is
/// not looked at; the key's padding is zero.
pub fn packet_key(data: &[u8]) -> (key: Option<RelationKey>)
    ensures
        key is Some <==> data@.len() >= KEY_LEN,
        match key {
            Some(k) => packet_key_bytes(data@) == Some(k@),
            None => packet_key_bytes(data@) is None,
        },
{
    if data.len() < KEY_LEN {
        return None;
    }
    let mut sender: [u8; 8] = [0u8; 8];
    let mut target: [u8; 8] = [0u8; 8];
    let mut i: usize = 0;
    while i < 8
        invariant
            i <= 8,
            data@.len() >= 18,
            forall|j: int| 0 <= j < i ==> sender@[j] == data@[j],
            forall|j: int| 0 <= j < i ==> target@[j] == data@[8 + j],
        decreases 8 - i,
    {
        sender[i] = data[i];
        target[i] = data[8 + i];
        i += 1;
    }
    let key = RelationKey { sender, target, action_relation: data[16], padding: 0 };
    assert(key@ =~= data@.subrange(0, 17).push(0u8));
    Some(key)
}

/// Decides a packet's fate from what the table holds for its key.
pub fn verdict(value: Option<u8>) -> (action: PacketAction)
    ensures
        action == value_action(value),
{
    match value {
        Some(v) => if v != 0 {
            PacketAction::Pass
        } else {
            PacketAction::Drop
        },
        None => PacketAction::Drop,
    }
}

} // verus!
