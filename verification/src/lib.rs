//! The room services' decision logic for a Matrix homeserver: how room state
//! is layered and stored, who is in a room, what stripped state an invite or a
//! knock carries, who may see what, how the events of a room are taken in,
//! edited and related, and how the service registry names its members.

pub mod alias;
pub mod auth_chain;
pub mod auto_accept;
pub mod bytes;
pub mod event_handler;
pub mod json_object;
pub mod lazy_loading;
pub mod membership;
pub mod read_receipt;
pub mod registry;
pub mod relations;
pub mod room_deletion;
pub mod room_servers;
pub mod room_version;
pub mod search;
pub mod spaces;
pub mod state_accessor;
pub mod state_cache;
pub mod state_compressor;
pub mod stripped_state;
pub mod text_order;
pub mod threads;
pub mod timeline;
pub mod typing;
