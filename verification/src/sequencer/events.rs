//! What the drive loop hands out, and the mathematical form of it.

use vstd::prelude::*;

use crate::ids::{HeaderId, MsgId, TxHash};
use crate::mantle::{SignedOps, Slot};
use crate::sequencer::channel_wallet::lists_notes;
use crate::sequencer::state_model::StateModel;
use crate::sequencer::types::{
    ChannelNote, ChannelUpdate, ChannelUpdateTx, DepositInfo, FinalizedTx, SequencerCheckpoint,
    TurnNotification,
};

verus! {

/// An event of the sequencer.
#[derive(Debug, PartialEq, Eq)]
pub enum Event {
    /// Cold-start backfill is complete, or a reconnect is: publishes are
    /// served.
    Ready,
    /// A block was processed, or a batch of finalized blocks.
    BlocksProcessed {
        checkpoint: SequencerCheckpoint,
        channel_update: ChannelUpdate,
        deposits: Vec<DepositInfo>,
        finalized: Vec<FinalizedTx>,
    },
    /// The turn to write changed.
    TurnNotification { notification: TurnNotification },
    /// A transaction was handed to the mempool for the first time.
    MempoolPending(TxHash),
}

/// A checkpoint as a mathematical value.
#[verifier::ext_equal]
pub struct CheckpointModel {
    pub last_msg_id: MsgId,
    pub pending_txs: Seq<(TxHash, SignedOps)>,
    pub lib: HeaderId,
    pub lib_slot: Slot,
    pub finalized_config: MsgId,
    pub channel_notes: Seq<ChannelNote>,
}

impl View for SequencerCheckpoint {
    type V = CheckpointModel;

    open spec fn view(&self) -> CheckpointModel {
        CheckpointModel {
            last_msg_id: self.last_msg_id,
            pending_txs: self.pending_txs@,
            lib: self.lib,
            lib_slot: self.lib_slot,
            finalized_config: self.finalized_config,
            channel_notes: self.channel_notes@,
        }
    }
}

impl CheckpointModel {
    /// A checkpoint of a state. In which order the pending inscriptions and
    /// the notes are listed is left open.
    pub open spec fn captures(self, m: StateModel, last_msg_id: MsgId, lib_slot: Slot) -> bool {
        &&& self.last_msg_id == last_msg_id
        &&& m.lists_pending(self.pending_txs)
        &&& self.lib == m.lib
        &&& self.lib_slot == lib_slot
        &&& self.finalized_config == m.finalized_config
        &&& lists_notes(self.channel_notes, m.wallet.base)
    }
}

/// A change of the channel view as a mathematical value.
#[verifier::ext_equal]
pub enum ViewChange {
    Extension { adopted: Seq<ChannelUpdateTx> },
    Conflict {
        common_prefix: Seq<ChannelUpdateTx>,
        adopted: Seq<ChannelUpdateTx>,
        orphaned: Seq<ChannelUpdateTx>,
    },
}

impl View for ChannelUpdate {
    type V = ViewChange;

    open spec fn view(&self) -> ViewChange {
        match self {
            ChannelUpdate::Extension { adopted } => ViewChange::Extension { adopted: adopted@ },
            ChannelUpdate::Conflict { common_prefix, adopted, orphaned } => ViewChange::Conflict {
                common_prefix: common_prefix@,
                adopted: adopted@,
                orphaned: orphaned@,
            },
        }
    }
}

impl ViewChange {
    pub open spec fn orphans(self) -> Seq<ChannelUpdateTx> {
        match self {
            ViewChange::Extension { .. } => Seq::empty(),
            ViewChange::Conflict { orphaned, .. } => orphaned,
        }
    }
}

/// An event as a mathematical value.
#[verifier::ext_equal]
pub enum EventModel {
    Ready,
    BlocksProcessed {
        checkpoint: CheckpointModel,
        channel_update: ViewChange,
        deposits: Seq<DepositInfo>,
        finalized: Seq<FinalizedTx>,
    },
    TurnNotification { notification: TurnNotification },
    MempoolPending(TxHash),
}

impl View for Event {
    type V = EventModel;

    open spec fn view(&self) -> EventModel {
        match self {
            Event::Ready => EventModel::Ready,
            Event::BlocksProcessed { checkpoint, channel_update, deposits, finalized } => {
                EventModel::BlocksProcessed {
                    checkpoint: checkpoint@,
                    channel_update: channel_update@,
                    deposits: deposits@,
                    finalized: finalized@,
                }
            },
            Event::TurnNotification { notification } => EventModel::TurnNotification {
                notification: *notification,
            },
            Event::MempoolPending(hash) => EventModel::MempoolPending(*hash),
        }
    }
}

/// The mathematical form of each event of a list.
pub open spec fn event_models(events: Seq<Event>) -> Seq<EventModel> {
    events.map_values(|e: Event| e@)
}

} // verus!
