//! The key codec: relation and action tags, the combined byte that carries
//! both, and the reduction of a node identifier to eight bytes.

use vstd::prelude::*;
use vstd::string::*;

verus! {

/// The trust relationship between the sender of a message and its target.
#[derive(Clone, Copy, Debug, PartialEq, Eq, Structural)]
pub enum Relation {
    FromParentHQ,
    FromSiblingRN,
    FromCC,
}

/// The category of operation that a message requests.
#[derive(Clone, Copy, Debug, PartialEq, Eq, Structural)]
pub enum Action {
    Reboot,
    SetConfig,
    StatusUpdate,
    Telemetry,
}

impl Relation {
    /// The tag's byte. Only the upper four bits are ever set.
    pub open spec fn raw_value(self) -> u8 {
        match self {
            Relation::FromParentHQ => 0x10,
            Relation::FromSiblingRN => 0x20,
            Relation::FromCC => 0x30,
        }
    }

    /// The relation whose byte is `byte`, if there is one.
    pub open spec fn of_raw(byte: u8) -> Option<Relation> {
        if byte == 0x10 {
            Some(Relation::FromParentHQ)
        } else if byte == 0x20 {
            Some(Relation::FromSiblingRN)
        } else if byte == 0x30 {
            Some(Relation::FromCC)
        } else {
            None
        }
    }

    /// Returns the tag's byte.
    pub fn raw(self) -> (byte: u8)
        ensures
            byte == self.raw_value(),
            byte & 0x0F == 0,
    {
        assert(0x10u8 & 0x0F == 0 && 0x20u8 & 0x0F == 0 && 0x30u8 & 0x0F == 0) by (bit_vector);
        match self {
            Relation::FromParentHQ => 0x10,
            Relation::FromSiblingRN => 0x20,
            Relation::FromCC => 0x30,
        }
    }

    /// Reads a relation from its byte. A byte outside the vocabulary gives
    /// `None`.
    pub fn from_raw(byte: u8) -> (relation: Option<Relation>)
        ensures
            relation == Relation::of_raw(byte),
            relation matches Some(r) ==> r.raw_value() == byte,
            relation is None ==> forall|r: Relation| r.raw_value() != byte,
    {
        if byte == 0x10 {
            Some(Relation::FromParentHQ)
        } else if byte == 0x20 {
            Some(Relation::FromSiblingRN)
        } else if byte == 0x30 {
            Some(Relation::FromCC)
        } else {
            None
        }
    }
}

impl Action {
    /// The tag's byte. Only the lower four bits are ever set.
    pub open spec fn raw_value(self) -> u8 {
        match self {
            Action::Reboot => 0x01,
            Action::SetConfig => 0x02,
            Action::StatusUpdate => 0x03,
            Action::Telemetry => 0x04,
        }
    }

    /// The action whose byte is `byte`, if there is one.
    pub open spec fn of_raw(byte: u8) -> Option<Action> {
        if byte == 0x01 {
            Some(Action::Reboot)
        } else if byte == 0x02 {
            Some(Action::SetConfig)
        } else if byte == 0x03 {
            Some(Action::StatusUpdate)
        } else if byte == 0x04 {
            Some(Action::Telemetry)
        } else {
            None
        }
    }

    /// Returns the tag's byte.
    pub fn raw(self) -> (byte: u8)
        ensures
            byte == self.raw_value(),
            byte & 0xF0 == 0,
    {
        assert(0x01u8 & 0xF0 == 0 && 0x02u8 & 0xF0 == 0 && 0x03u8 & 0xF0 == 0 && 0x04u8 & 0xF0
            == 0) by (bit_vector);
        match self {
            Action::Reboot => 0x01,
            Action::SetConfig => 0x02,
            Action::StatusUpdate => 0x03,
            Action::Telemetry => 0x04,
        }
    }

    /// Reads an action from its byte. A byte outside the vocabulary gives
    /// `None`.
    pub fn from_raw(byte: u8) -> (action: Option<Action>)
        ensures
            action == Action::of_raw(byte),
            action matches Some(a) ==> a.raw_value() == byte,
            action is None ==> forall|a: Action| a.raw_value() != byte,
    {
        if byte == 0x01 {
            Some(Action::Reboot)
        } else if byte == 0x02 {
            Some(Action::SetConfig)
        } else if byte == 0x03 {
            Some(Action::StatusUpdate)
        } else if byte == 0x04 {
            Some(Action::Telemetry)
        } else {
            None
        }
    }
}

/// The byte that carries the upper four bits of `relation` and the lower four
/// bits of `action`.
pub open spec fn combined_byte(relation: u8, action: u8) -> u8 {
    (relation & 0xF0) | (action & 0x0F)
}

/// The two halves of a combined byte, each left in its place: the upper four
/// bits with the lower four cleared, and the lower four bits alone.
pub open spec fn split_byte(byte: u8) -> (u8, u8) {
    (byte & 0xF0, byte & 0x0F)
}

/// Packs the upper four bits of `relation` and the lower four bits of
/// `action` into one byte. Bits outside a tag's half are dropped.
pub fn encode_combined(relation: u8, action: u8) -> (byte: u8)
    ensures
        byte == combined_byte(relation, action),
        relation & 0x0F == 0 && action & 0xF0 == 0 ==> byte == relation + action,
{
    assert(relation & 0x0F == 0 && action & 0xF0 == 0 ==> (relation & 0xF0) | (action & 0x0F)
        == relation + action) by (bit_vector);
    (relation & 0xF0) | (action & 0x0F)
}

/// Combines an action and a relation into the single byte of the table key.
pub fn encode_action_relation(action: Action, relation: Relation) -> (byte: u8)
    ensures
        byte == combined_byte(relation.raw_value(), action.raw_value()),
        byte == relation.raw_value() + action.raw_value(),
{
    encode_combined(relation.raw(), action.raw())
}

/// Splits a combined byte into its relation half and its action half. Each
/// half keeps its position, so the halves of a byte made from two tags are
/// the tags' own bytes. Neither half is checked against the vocabulary.
pub fn decode_combined(byte: u8) -> (halves: (u8, u8))
    ensures
        halves == split_byte(byte),
        halves.0 == (byte / 16) * 16,
        halves.1 == byte % 16,
        halves.0 + halves.1 == byte,
{
    assert(byte & 0xF0 == (byte / 16) * 16) by (bit_vector);
    assert(byte & 0x0F == byte % 16) by (bit_vector);
    (byte & 0xF0, byte & 0x0F)
}

/// An identifier's bytes cut to eight: the first eight where there are that
/// many, else all of them followed by zero bytes.
pub open spec fn fixed8(bytes: Seq<u8>) -> Seq<u8> {
    Seq::new(
        8,
        |i: int|
            if i < bytes.len() {
                bytes[i]
            } else {
                0u8
            },
    )
}

/// Reduces an identifier to the eight bytes that stand for it in a table key:
/// its UTF-8 bytes, cut after the eighth or padded with zero bytes on the
/// right. Identifiers that agree on their first eight bytes give the same
/// result; the key's width leaves no room to tell them apart.
pub fn identifier_to_fixed8(identifier: &str) -> (out: [u8; 8])
    ensures
        out@ == fixed8(identifier.spec_bytes()),
{
    let bytes = identifier.as_bytes();
    let mut out: [u8; 8] = [0u8; 8];
    let mut i: usize = 0;
    while i < 8 && i < bytes.len()
        invariant
            i <= 8,
            i <= bytes@.len(),
            bytes@ == identifier.spec_bytes(),
            forall|j: int| 0 <= j < i ==> out@[j] == bytes@[j],
            forall|j: int| i <= j < 8 ==> out@[j] == 0u8,
        decreases 8 - i,
    {
        out[i] = bytes[i];
        i += 1;
    }
    assert(out@ =~= fixed8(identifier.spec_bytes()));
    out
}

/// Decoding an encoded pair of tags gives back the two tags' bytes.
pub proof fn lemma_decode_inverts_encode(relation: Relation, action: Action)
    ensures
        split_byte(combined_byte(relation.raw_value(), action.raw_value())) == (
            relation.raw_value(),
            action.raw_value(),
        ),
        Relation::of_raw(split_byte(combined_byte(relation.raw_value(), action.raw_value())).0)
            == Some(relation),
        Action::of_raw(split_byte(combined_byte(relation.raw_value(), action.raw_value())).1)
            == Some(action),
{
    let r = relation.raw_value();
    let a = action.raw_value();
    assert(r & 0x0F == 0) by (bit_vector)
        requires
            r == 0x10 || r == 0x20 || r == 0x30,
    ;
    assert(a & 0xF0 == 0) by (bit_vector)
        requires
            a == 0x01 || a == 0x02 || a == 0x03 || a == 0x04,
    ;
    lemma_decode_inverts_encode_bytes(r, a);
}

/// Decoding an encoded pair of bytes gives back the upper half of the first
/// and the lower half of the second: the bytes themselves where each keeps to
/// its own half.
pub proof fn lemma_decode_inverts_encode_bytes(relation: u8, action: u8)
    ensures
        split_byte(combined_byte(relation, action)) == (relation & 0xF0, action & 0x0F),
        relation & 0x0F == 0 && action & 0xF0 == 0 ==> split_byte(
            combined_byte(relation, action),
        ) == (relation, action),
{
    assert(((relation & 0xF0) | (action & 0x0F)) & 0xF0 == relation & 0xF0) by (bit_vector);
    assert(((relation & 0xF0) | (action & 0x0F)) & 0x0F == action & 0x0F) by (bit_vector);
    assert(relation & 0x0F == 0 ==> relation & 0xF0 == relation) by (bit_vector);
    assert(action & 0xF0 == 0 ==> action & 0x0F == action) by (bit_vector);
}

/// Encoding the two halves of any byte gives the byte back.
pub proof fn lemma_encode_inverts_decode(byte: u8)
    ensures
        combined_byte(split_byte(byte).0, split_byte(byte).1) == byte,
{
    assert(((byte & 0xF0) & 0xF0) | ((byte & 0x0F) & 0x0F) == byte) by (bit_vector);
}

/// Two pairs of tags that encode to the same byte are the same pair.
pub proof fn lemma_encode_distinguishes_tags(r1: Relation, a1: Action, r2: Relation, a2: Action)
    requires
        combined_byte(r1.raw_value(), a1.raw_value()) == combined_byte(
            r2.raw_value(),
            a2.raw_value(),
        ),
    ensures
        r1 == r2,
        a1 == a2,
{
    lemma_decode_inverts_encode(r1, a1);
    lemma_decode_inverts_encode(r2, a2);
}

/// The reduction cuts after the eighth byte and pads on the right with zero
/// bytes.
pub proof fn lemma_fixed8_truncates_and_pads(bytes: Seq<u8>)
    ensures
        fixed8(bytes).len() == 8,
        bytes.len() >= 8 ==> fixed8(bytes) == bytes.subrange(0, 8),
        bytes.len() <= 8 ==> fixed8(bytes) == bytes + Seq::new(
            (8 - bytes.len()) as nat,
            |i: int| 0u8,
        ),
{
    if bytes.len() >= 8 {
        assert(fixed8(bytes) =~= bytes.subrange(0, 8));
    }
    if bytes.len() <= 8 {
        assert(fixed8(bytes) =~= bytes + Seq::new((8 - bytes.len()) as nat, |i: int| 0u8));
    }
}

/// Identifiers that share their first eight bytes reduce to the same eight
/// bytes, whatever follows.
pub proof fn lemma_shared_prefix_collides(a: Seq<u8>, b: Seq<u8>)
    requires
        a.len() >= 8,
        b.len() >= 8,
        a.subrange(0, 8) == b.subrange(0, 8),
    ensures
        fixed8(a) == fixed8(b),
{
    lemma_fixed8_truncates_and_pads(a);
    lemma_fixed8_truncates_and_pads(b);
}

} // verus!
