//! An end-to-end encrypted group chat: the shared protocol, the server's room
//! bookkeeping and command handling, and the client's decisions.

pub mod text;
pub mod protocol;
pub mod rooms;
pub mod server;
pub mod client;
pub mod end_to_end;
