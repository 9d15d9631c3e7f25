//! Relation-based access control for messages between the nodes of a device
//! fleet: the key codec, the authoritative rule store, and the projection of
//! its rules into the fixed-width table that is consulted for every packet.

pub mod batch;
pub mod codec;
pub mod fast_path;
pub mod rules;
pub mod store;
pub mod sync;
pub mod table;

pub use batch::{TableWrite, WriteBatch};
pub use codec::{
    decode_combined, encode_action_relation, encode_combined, identifier_to_fixed8, Action,
    Relation,
};
pub use fast_path::{make_fast_path_key, packet_key, verdict, PacketAction, RelationKey, KEY_LEN};
pub use rules::{PolicySnapshot, RelationEntry};
pub use store::PolicyEngine;
pub use sync::{project, resync, synchronize, SourceError};
pub use table::{FastPathTable, TableWriteFailure};
