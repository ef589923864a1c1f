//! What the operations are for.
//!
//! The modules of the library say what their functions return in terms of
//! models. The laws here say what that comes to in terms of the fields of
//! inputs and results alone: bytes of identifiers, advertised metrics, T and R
//! bits, parents on a tree, entries of a table, fields of a message.

pub mod agreement;
pub mod changes;
pub mod database;
pub mod forwarding;
pub mod instance;
pub mod messages;
pub mod naming;
pub mod paths;
pub mod region;
pub mod wire;
