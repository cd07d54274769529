//! What the drive loop does next. The loop performs the step — a request to the
//! node, a wait — and hands back what came of it.

use vstd::prelude::*;

use crate::mantle::Slot;
use crate::sequencer::backfill::{backfill_step, BackfillStep};
use crate::sequencer::events::Event;
use crate::sequencer::sequencer_model::SequencerModel;
use crate::sequencer::zone_sequencer::ZoneSequencer;

verus! {

/// A step of the drive loop.
#[derive(Debug, PartialEq, Eq)]
pub enum Step {
    /// Hand out an event.
    Emit(Event),
    /// Fetch and settle finalized history, both slots included.
    Backfill { from: Slot, to: Slot },
    /// Process the block that was pulled from the stream and not processed yet.
    ProcessBlock,
    /// Ask the node where the chain is.
    Initialize,
    /// Open the stream of blocks, then schedule what it missed.
    OpenStream,
    /// Wait for a block, a completed post, the resubmit timer or the next turn.
    Wait,
}

/// Which step comes next, and what it leaves of the sequencer: buffered events
/// first, then history, then a block in hand, then the connection.
pub open spec fn stepped(
    before: SequencerModel,
    retained: bool,
    stream_open: bool,
    step: Step,
    after: SequencerModel,
) -> bool {
    let history = backfill_step(before.backfill_from, before.backfill_to);
    let rested = if history == BackfillStep::Exhausted {
        SequencerModel { backfill_from: None, backfill_to: None, ..before }
    } else {
        before
    };
    match before.first_event() {
        Some(first) => {
            &&& step matches Step::Emit(event) && event@ == first
            &&& after == before.without_first_event()
        },
        None => match history {
            BackfillStep::Fetch { from, to } => step == Step::Backfill { from, to } && after
                == before,
            _ => {
                &&& after == rested
                &&& step == if retained {
                    Step::ProcessBlock
                } else if stream_open {
                    Step::Wait
                } else if before.state is None || before.slot_clock is None {
                    Step::Initialize
                } else {
                    Step::OpenStream
                }
            },
        },
    }
}

impl ZoneSequencer {
    /// The next step of the drive loop. `retained` says that a block is in
    /// hand, `stream_open` that the stream of blocks is open.
    pub fn next_step(&mut self, retained: bool, stream_open: bool) -> (res: Step)
        ensures
            stepped(old(self)@, retained, stream_open, res, final(self)@),
    {
        match self.pop_event() {
            Some(event) => {
                return Step::Emit(event);
            },
            None => {},
        }
        assert(self@ =~= old(self)@);
        match self.next_backfill() {
            BackfillStep::Fetch { from, to } => {
                return Step::Backfill { from, to };
            },
            _ => {},
        }
        if retained {
            Step::ProcessBlock
        } else if stream_open {
            Step::Wait
        } else if self.state.is_none() || self.slot_clock.is_none() {
            Step::Initialize
        } else {
            Step::OpenStream
        }
    }
}

} // verus!
