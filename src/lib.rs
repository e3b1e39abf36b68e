//! Coordination core of a collaborative document engine: replica options and
//! their wire form, causal buffering of remote updates, state vectors, delete
//! sets and snapshots, transaction arbitration, nested documents and the
//! event subscriptions that expose their transitions.

pub mod block;
pub mod codec;
pub mod doc;
pub mod options;
pub mod store;
pub mod uuid;
mod random;
pub mod text;
