//! Account-scoped state transitions: change sets, their canonical encoding,
//! an in-memory snapshot store with all-or-nothing application, and the
//! checks that turn untrusted account bytes into a verified snapshot.

pub mod keys;
pub mod order;
pub mod changes;
pub mod storage;
pub mod codec;
pub mod wire;
pub mod snapshot;
pub mod resolver;
pub mod transition;
