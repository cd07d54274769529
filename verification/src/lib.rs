//! The decisions of a zone SDK: a sequencer that publishes inscriptions to a
//! channel and keeps track of what becomes of them, and an indexer that reads
//! one.

pub mod adapter;
pub mod block_tree;
pub mod collections;
pub mod ids;
pub mod indexer;
pub mod inscriptions;
pub mod items;
pub mod mantle;
pub mod messages;
pub mod safe_set;
pub mod sequencer;
pub mod state;
pub mod text;
pub mod time;
pub mod tracker_laws;
