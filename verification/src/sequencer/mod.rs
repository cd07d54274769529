//! Channel sequencer: what is pending, what is mined, what the consumer is
//! told.

pub mod types;
pub mod channel_tx;
pub mod channel_wallet;
pub mod slot_clock;
pub mod note_selection;
pub mod state_model;
pub mod state;
pub mod block_fetch;
pub mod block_event;
pub mod tx_builder;
pub mod turn;
pub mod events;
pub mod updates;
pub mod resubmit;
pub mod checkpoint;
pub mod backfill;
pub mod sequencer_model;
pub mod zone_sequencer;
pub mod actor;
pub mod drive;
pub mod publish;
pub mod requests;
pub mod state_laws;
pub mod consistency_laws;
pub mod shed_laws;
pub mod block_laws;
pub mod shape_laws;
pub mod lineage_laws;
pub mod pending_laws;
pub mod reading_laws;
pub mod actor_laws;
pub mod builder_laws;
pub mod given_up_laws;
pub mod request_laws;
pub mod mirror_laws;
pub mod wallet_laws;
pub mod view_laws;
pub mod event_laws;
pub mod sequencer_laws;
