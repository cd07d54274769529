//! The steps of the sequencer on what its consumer asks for: which requests are
//! served, what a new transaction chains from, and how it becomes pending.

use vstd::prelude::*;
use vstd::string::StringExecFns;

use crate::ids::{MsgId, TxHash};
use crate::items::Items;
use crate::mantle::{Inputs, Inscription, Outputs, SignedOps};
use crate::sequencer::channel_wallet::lists_notes;
use crate::sequencer::sequencer_model::SequencerModel;
use crate::sequencer::state::{ParentTaken, TxState};
use crate::sequencer::state_model::{OtherModel, PendingBundle, PendingInscription, StateModel};
use crate::sequencer::turn::Moment;
use crate::sequencer::tx_builder::is_network;
use crate::sequencer::types::{
    ChannelWalletView, Error, SequencerCheckpoint, TxStatus, WithdrawInfo,
};
use crate::sequencer::zone_sequencer::ZoneSequencer;
use crate::text::{decimal, push_decimal};

verus! {

/// What a consumer asks for.
#[derive(Clone, Copy, Debug, PartialEq, Eq, Structural)]
pub enum Request {
    PublishMessage,
    PrepareTx,
    SignTx,
    SubmitSignedTx,
    ChannelConfig,
    PublishAtomicWithdraw,
}

/// Whether a request is served.
#[derive(Debug, PartialEq, Eq)]
pub enum Admission {
    Serve,
    /// There is nobody to answer.
    Drop,
    Reject(Error),
}

pub open spec fn not_ready() -> Error {
    Error::Unavailable { reason: "sequencer not yet ready" }
}

/// Before readiness nothing is served. A message or a bundle is dropped, since
/// nobody waits for an answer; every other request is rejected.
pub fn admission_of(ready: bool, request: Request) -> (res: Admission)
    ensures
        res == if ready {
            Admission::Serve
        } else if request == Request::PublishMessage || request
            == Request::PublishAtomicWithdraw {
            Admission::Drop
        } else {
            Admission::Reject(not_ready())
        },
{
    if ready {
        return Admission::Serve;
    }
    match request {
        Request::PublishMessage => Admission::Drop,
        Request::PublishAtomicWithdraw => Admission::Drop,
        _ => Admission::Reject(Error::Unavailable { reason: "sequencer not yet ready" }),
    }
}

/// A transaction accepted for publishing.
#[derive(Debug, PartialEq, Eq)]
pub struct PublishReceipt {
    pub inscription_id: TxHash,
    /// The checkpoint with the transaction pending.
    pub checkpoint: SequencerCheckpoint,
    /// Whether it is to be posted at once.
    pub post: bool,
}

/// What a channel config chains from and who signs it; nobody where the channel
/// does not exist yet.
#[derive(Clone, Copy, Debug, PartialEq, Eq, Structural)]
pub struct ConfigPlan {
    pub parent: MsgId,
    pub signer: Option<u16>,
}

/// Why one signer cannot configure a channel.
pub open spec fn config_failure(s: SequencerModel) -> Option<Seq<char>> {
    match s.channel_state {
        None => None,
        Some(channel) => if s.own_key_index is None {
            Some("sequencer key not in channel accredited_keys"@)
        } else if channel.configuration_threshold > 1 {
            Some(
                "single-signer channel_config requires configuration_threshold == 1, got "@
                    + decimal(channel.configuration_threshold as nat),
            )
        } else {
            None
        },
    }
}

/// What an accepted transaction makes of the sequencer.
pub open spec fn accepts(
    s: SequencerModel,
    m: StateModel,
    tx_hash: TxHash,
    pointer: MsgId,
    post: bool,
    receipt: PublishReceipt,
    after: SequencerModel,
) -> bool {
    let taken = s.accepted(m, tx_hash, pointer);
    &&& after == SequencerModel {
        posting: if post {
            s.posting.insert(tx_hash)
        } else {
            s.posting
        },
        ..taken
    }.with_checkpoint(after.checkpoint)
    &&& after.checkpoint_is_current()
    &&& receipt.inscription_id == tx_hash
    &&& receipt.post == post
    &&& after.checkpoint == Some(receipt.checkpoint@)
}

/// The refusal of a transaction whose parent another pending one continues.
pub open spec fn is_refusal(err: Error, parent: MsgId, by: TxHash) -> bool {
    err matches Error::ChannelStateChanged(text) && text@ == (ParentTaken { parent, by }).text()
}

impl ZoneSequencer {
    /// An error before cold-start backfill is complete.
    pub fn require_ready(&self) -> (res: Result<(), Error>)
        ensures
            res == if self@.ready {
                Ok::<(), Error>(())
            } else {
                Err::<(), Error>(not_ready())
            },
    {
        if self.ready {
            Ok(())
        } else {
            Err(Error::Unavailable { reason: "sequencer not yet ready" })
        }
    }

    /// An error before cold-start backfill is complete, and while the node is
    /// disconnected: what needs the node's funding fails fast.
    pub fn require_connected(&self) -> (res: Result<(), Error>)
        ensures
            res == if !self@.ready {
                Err::<(), Error>(not_ready())
            } else if !self@.connected {
                Err::<(), Error>(Error::Unavailable { reason: "node disconnected" })
            } else {
                Ok::<(), Error>(())
            },
    {
        if !self.ready {
            Err(Error::Unavailable { reason: "sequencer not yet ready" })
        } else if !self.connected {
            Err(Error::Unavailable { reason: "node disconnected" })
        } else {
            Ok(())
        }
    }

    /// What a new message chains from: the channel tip with our pending tail.
    pub fn publish_parent(&self) -> (res: MsgId)
        ensures
            res == self@.publish_parent(),
    {
        match (&self.state, self.current_tip) {
            (Some(state), Some(tip)) => state.publish_parent(tip),
            _ => self.last_msg_id,
        }
    }

    /// What a new config chains from: the mined config tip, never a config
    /// still in flight.
    pub fn config_parent(&self) -> (res: MsgId)
        ensures
            res == self@.config_parent(),
    {
        match (&self.state, self.current_tip) {
            (Some(state), Some(tip)) => state.config_tip_at(tip),
            (Some(state), None) => state.finalized_config(),
            (None, _) => MsgId::root(),
        }
    }

    /// What a new config chains from and which of the accredited keys signs it.
    /// An existing channel is configured by one signer only where our key is
    /// accredited and the threshold is one.
    pub fn plan_channel_config(&self) -> (res: Result<ConfigPlan, Error>)
        ensures
            match config_failure(self@) {
                Some(text) => res is Err && is_network(res->Err_0, text),
                None => res == Ok::<ConfigPlan, Error>(
                    ConfigPlan {
                        parent: self@.config_parent(),
                        signer: if self@.channel_state is Some {
                            self@.own_key_index
                        } else {
                            None
                        },
                    },
                ),
            },
    {
        let mut signer: Option<u16> = None;
        if let Some(channel) = &self.channel_state {
            if self.own_key_index.is_none() {
                return Err(
                    Error::Network("sequencer key not in channel accredited_keys".to_string()),
                );
            }
            if channel.configuration_threshold > 1 {
                let mut text =
                    "single-signer channel_config requires configuration_threshold == 1, got ".to_string();
                push_decimal(&mut text, channel.configuration_threshold as u64);
                return Err(Error::Network(text));
            }
            signer = self.own_key_index;
        }
        Ok(ConfigPlan { parent: self.config_parent(), signer })
    }

    /// The channel's notes at the current tip.
    pub fn channel_wallet(&self) -> (res: ChannelWalletView)
        ensures
            match self@.state {
                Some(m) => {
                    &&& lists_notes(
                        res.finalized@,
                        m.wallet.finalized_on(m.branch_at(self@.current_tip)),
                    )
                    &&& lists_notes(
                        res.unfinalized@,
                        m.wallet.unfinalized_on(m.branch_at(self@.current_tip)),
                    )
                },
                None => res.finalized@.len() == 0 && res.unfinalized@.len() == 0,
            },
    {
        match &self.state {
            Some(state) => state.channel_wallet_view(self.current_tip),
            None => ChannelWalletView { finalized: Vec::new(), unfinalized: Vec::new() },
        }
    }

    /// Whether a new inscription is posted at once.
    pub fn posts_inscription_now(&self, moment: &Moment) -> (res: bool)
        ensures
            res == self@.posts_now(*moment),
    {
        if !self.can_publish_inscription_now(moment) {
            return false;
        }
        let depth: usize = if self.config.max_pending_publish_depth == 0 {
            1
        } else {
            self.config.max_pending_publish_depth
        };
        match &self.state {
            Some(state) => state.posted_pending_publish_count() < depth,
            None => false,
        }
    }

    /// Takes over a state with a transaction pending in it.
    fn take_over(&mut self, state: TxState, tx_hash: TxHash, pointer: MsgId, post: bool) -> (res:
        PublishReceipt)
        ensures
            accepts(old(self)@, state@, tx_hash, pointer, post, res, final(self)@),
    {
        let ghost before = self@;
        self.state = Some(state);
        self.last_msg_id = pointer;
        assert(self@ =~= SequencerModel {
            state: Some(state@),
            last_msg_id: pointer,
            ..before
        });
        self.queue_tx_status(tx_hash, TxStatus::AcceptedLocally);
        if post {
            let _ = self.posting.insert(tx_hash);
        }
        assert(self@ =~= SequencerModel {
            posting: if post {
                before.posting.insert(tx_hash)
            } else {
                before.posting
            },
            ..before.accepted(state@, tx_hash, pointer)
        });
        let checkpoint = self.publish_checkpoint().unwrap();
        PublishReceipt { inscription_id: tx_hash, checkpoint, post }
    }

    /// Takes the state out, to put it back later.
    fn take_state(&mut self) -> (res: TxState)
        requires
            old(self)@.state is Some,
        ensures
            Some(res@) == old(self)@.state,
            final(self)@ == (SequencerModel { state: None, ..old(self)@ }),
    {
        let mut taken: Option<TxState> = None;
        std::mem::swap(&mut taken, &mut self.state);
        assert(self@ =~= SequencerModel { state: None, ..old(self)@ });
        taken.unwrap()
    }

    /// Accepts a signed inscription. Refused when another pending transaction
    /// continues its parent; nothing changes.
    pub fn accept_inscription(
        &mut self,
        signed_tx: SignedOps,
        parent: MsgId,
        msg_id: MsgId,
        payload: Inscription,
        moment: &Moment,
    ) -> (res: Result<PublishReceipt, Error>)
        requires
            old(self)@.state is Some,
        ensures
            ({
                let m = old(self)@.state->0;
                match m.taken(parent, signed_tx.hash) {
                    Some(by) => res is Err && is_refusal(res->Err_0, parent, by) && final(self)@
                        == old(self)@,
                    None => res is Ok && accepts(
                        old(self)@,
                        m.track_local(signed_tx.hash).put_pending(
                            PendingInscription {
                                tx_hash: signed_tx.hash,
                                signed_tx,
                                parent_msg: parent,
                                this_msg: msg_id,
                                payload,
                                bundle: PendingBundle::Plain,
                                posted: false,
                            },
                        ),
                        signed_tx.hash,
                        msg_id,
                        old(self)@.posts_now(*moment),
                        res->Ok_0,
                        final(self)@,
                    ),
                }
            }),
    {
        let post = self.posts_inscription_now(moment);
        let tx_hash = signed_tx.hash;
        let mut state = self.take_state();
        let submitted = state.submit_inscription(signed_tx, parent, msg_id, payload);
        match submitted {
            Ok(()) => {
                let receipt = self.take_over(state, tx_hash, msg_id, post);
                Ok(receipt)
            },
            Err(taken) => {
                self.state = Some(state);
                assert(self@ =~= old(self)@);
                Err(taken.into_error())
            },
        }
    }

    /// Accepts a signed inscription bundled with withdraws. Refused as an
    /// inscription is.
    pub fn accept_atomic_withdraw(
        &mut self,
        signed_tx: SignedOps,
        parent: MsgId,
        msg_id: MsgId,
        payload: Inscription,
        withdraws: Vec<WithdrawInfo>,
        outputs: Outputs,
        moment: &Moment,
    ) -> (res: Result<PublishReceipt, Error>)
        requires
            old(self)@.state is Some,
        ensures
            ({
                let m = old(self)@.state->0;
                match m.taken(parent, signed_tx.hash) {
                    Some(by) => res is Err && is_refusal(res->Err_0, parent, by) && final(self)@
                        == old(self)@,
                    None => res is Ok && accepts(
                        old(self)@,
                        m.track_local(signed_tx.hash).put_pending(
                            PendingInscription {
                                tx_hash: signed_tx.hash,
                                signed_tx,
                                parent_msg: parent,
                                this_msg: msg_id,
                                payload,
                                bundle: PendingBundle::Withdraw {
                                    withdraws: Items::of(withdraws@),
                                    outputs,
                                },
                                posted: false,
                            },
                        ),
                        signed_tx.hash,
                        msg_id,
                        old(self)@.posts_now(*moment),
                        res->Ok_0,
                        final(self)@,
                    ),
                }
            }),
    {
        let post = self.posts_inscription_now(moment);
        let tx_hash = signed_tx.hash;
        let mut state = self.take_state();
        let submitted = state.submit_atomic_withdraw(
            signed_tx,
            parent,
            msg_id,
            payload,
            withdraws,
            outputs,
        );
        match submitted {
            Ok(()) => {
                let receipt = self.take_over(state, tx_hash, msg_id, post);
                Ok(receipt)
            },
            Err(taken) => {
                self.state = Some(state);
                assert(self@ =~= old(self)@);
                Err(taken.into_error())
            },
        }
    }

    /// Accepts a signed inscription bundled with a transfer of deposited notes.
    /// Refused as an inscription is.
    pub fn accept_pin_deposit(
        &mut self,
        signed_tx: SignedOps,
        parent: MsgId,
        msg_id: MsgId,
        payload: Inscription,
        consumed_notes: Inputs,
        moment: &Moment,
    ) -> (res: Result<PublishReceipt, Error>)
        requires
            old(self)@.state is Some,
        ensures
            ({
                let m = old(self)@.state->0;
                match m.taken(parent, signed_tx.hash) {
                    Some(by) => res is Err && is_refusal(res->Err_0, parent, by) && final(self)@
                        == old(self)@,
                    None => res is Ok && accepts(
                        old(self)@,
                        m.track_local(signed_tx.hash).put_pending(
                            PendingInscription {
                                tx_hash: signed_tx.hash,
                                signed_tx,
                                parent_msg: parent,
                                this_msg: msg_id,
                                payload,
                                bundle: PendingBundle::PinDeposit(consumed_notes),
                                posted: false,
                            },
                        ),
                        signed_tx.hash,
                        msg_id,
                        old(self)@.posts_now(*moment),
                        res->Ok_0,
                        final(self)@,
                    ),
                }
            }),
    {
        let post = self.posts_inscription_now(moment);
        let tx_hash = signed_tx.hash;
        let mut state = self.take_state();
        let submitted = state.submit_pin_deposit(
            signed_tx,
            parent,
            msg_id,
            payload,
            consumed_notes,
        );
        match submitted {
            Ok(()) => {
                let receipt = self.take_over(state, tx_hash, msg_id, post);
                Ok(receipt)
            },
            Err(taken) => {
                self.state = Some(state);
                assert(self@ =~= old(self)@);
                Err(taken.into_error())
            },
        }
    }

    /// Accepts a signed transaction of any shape, built by the caller around
    /// the message `msg_id`. It is posted at once. Refused when another pending
    /// transaction continues its parent.
    pub fn submit_signed_tx(&mut self, signed_tx: SignedOps, msg_id: MsgId) -> (res: Result<
        PublishReceipt,
        Error,
    >)
        requires
            old(self)@.state is Some,
        ensures
            opaque_accepted(*old(self), signed_tx, msg_id, res, *final(self)),
    {
        self.accept_other(signed_tx, msg_id)
    }

    /// Accepts a signed channel config. It does not move the chaining pointer.
    pub fn submit_channel_config(&mut self, signed_tx: SignedOps) -> (res: Result<
        PublishReceipt,
        Error,
    >)
        requires
            old(self)@.state is Some,
        ensures
            opaque_accepted(*old(self), signed_tx, old(self)@.last_msg_id, res, *final(self)),
    {
        let pointer = self.last_msg_id;
        self.accept_other(signed_tx, pointer)
    }

    fn accept_other(&mut self, signed_tx: SignedOps, pointer: MsgId) -> (res: Result<
        PublishReceipt,
        Error,
    >)
        requires
            old(self)@.state is Some,
        ensures
            opaque_accepted(*old(self), signed_tx, pointer, res, *final(self)),
    {
        let tx_hash = signed_tx.hash;
        let channel_id = self.channel_id;
        let mut state = self.take_state();
        let submitted = state.submit_other(signed_tx, channel_id);
        match submitted {
            Ok(_) => {
                let receipt = self.take_over(state, tx_hash, pointer, true);
                Ok(receipt)
            },
            Err(taken) => {
                self.state = Some(state);
                assert(self@ =~= old(self)@);
                Err(taken.into_error())
            },
        }
    }
}

/// What accepting an opaque transaction makes of the sequencer.
pub open spec fn opaque_accepted(
    before: ZoneSequencer,
    signed_tx: SignedOps,
    pointer: MsgId,
    res: Result<PublishReceipt, Error>,
    after: ZoneSequencer,
) -> bool {
    let m = before@.state->0;
    let entry = OtherModel::of(signed_tx, before@.channel_id);
    let taken = match entry.first_parent() {
        Some(parent) => m.taken(parent, signed_tx.hash),
        None => None,
    };
    match taken {
        Some(by) => res is Err && is_refusal(res->Err_0, entry.first_parent()->0, by) && after@
            == before@,
        None => res is Ok && accepts(
            before@,
            m.track_local(signed_tx.hash).put_other(signed_tx, before@.channel_id),
            signed_tx.hash,
            pointer,
            true,
            res->Ok_0,
            after@,
        ),
    }
}

} // verus!
