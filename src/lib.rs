//! Peer layer of a node agent: interface selection, peer discovery records,
//! the transfer header codec and the multi-stream file transfer rules; also
//! the agent's version handling, its update settings and the records it
//! reports about the machine.

pub mod codec;
pub mod discovery;
pub mod ident;
pub mod interface;
pub mod models;
pub mod text;
pub mod system;
pub mod transfer;
pub mod updater;
pub mod version;
pub mod wireless;
