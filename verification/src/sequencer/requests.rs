//! The requests of a consumer, each from what is asked for to what it makes of
//! the sequencer. Ids, hashes and signatures come from outside: a request
//! carries what was made of the transaction that the sequencer builds.

use std::sync::Arc;

use vstd::prelude::*;
use vstd::string::StringExecFns;

use crate::ids::{Ed25519PublicKey, MsgId, TxHash};
use crate::items::{law_items_hold, Items};
use crate::mantle::{
    ChannelConfigOp, ChannelWithdrawOp, Ed25519Signature, IndexedSignature, Inscription,
    InscriptionOp, Op, OpProof, SignedOps,
};
use crate::sequencer::channel_tx::{as_inscription, inscriptions_of};
use crate::sequencer::publish::{
    accepts, admission_of, config_failure, is_refusal, opaque_accepted, not_ready, Admission,
    PublishReceipt, Request,
};
use crate::sequencer::sequencer_model::SequencerModel;
use crate::sequencer::state_model::{PendingBundle, PendingInscription};
use crate::sequencer::turn::Moment;
use crate::sequencer::tx_builder::{
    assemble_channel_config_tx, assemble_inscribe_tx, build_atomic_withdraw_ops_proofs,
    each_proof, is_network, is_transfer, joined_outputs, law_each_op_proven, number_withdraws,
    numbers, outputs_of, prepare_tx, transfer_count, withdraw_bundle_proof_of, withdraw_failure,
};
use crate::sequencer::types::{
    AtomicWithdrawInfo, ChannelState, Error, InscriptionInfo, PublishedTx, WithdrawArg,
    WithdrawInfo,
};
use crate::sequencer::zone_sequencer::ZoneSequencer;

verus! {

/// What was made of a transaction that the sequencer builds: its hash, the id
/// of its message or config, and the sequencer's signature over it.
#[derive(Clone, Copy, Debug, PartialEq, Eq, Structural)]
pub struct Made {
    pub tx_hash: TxHash,
    pub msg_id: MsgId,
    pub signature: Ed25519Signature,
}

/// A transaction that was published.
#[derive(Debug, PartialEq, Eq)]
pub struct Published {
    pub signed_tx: SignedOps,
    pub tx: PublishedTx,
    pub receipt: PublishReceipt,
}

/// What a channel is configured to.
#[derive(Debug, PartialEq, Eq)]
pub struct ChannelSettings {
    pub keys: Arc<Vec<Ed25519PublicKey>>,
    pub posting_timeframe: u32,
    pub posting_timeout: u32,
    pub configuration_threshold: u16,
    pub transfer_threshold: u16,
}

/// What a consumer asks for, with all that serving it takes.
#[derive(Debug, PartialEq, Eq)]
pub enum ActorRequest {
    PublishMessage { data: Inscription, made: Made },
    /// `id` is that of the message to append.
    PrepareTx { ops: Vec<Op>, msg: Inscription, id: MsgId },
    SignTx { signature: Ed25519Signature },
    SubmitSignedTx { tx: SignedOps, msg_id: MsgId },
    ChannelConfig { settings: ChannelSettings, made: Made },
    /// `channel` is what came of asking the node for the channel's state.
    PublishAtomicWithdraw {
        inscribe: Inscription,
        withdraws: Vec<WithdrawArg>,
        channel: Result<ChannelState, String>,
        made: Made,
    },
}

impl ActorRequest {
    pub open spec fn spec_kind(self) -> Request {
        match self {
            ActorRequest::PublishMessage { .. } => Request::PublishMessage,
            ActorRequest::PrepareTx { .. } => Request::PrepareTx,
            ActorRequest::SignTx { .. } => Request::SignTx,
            ActorRequest::SubmitSignedTx { .. } => Request::SubmitSignedTx,
            ActorRequest::ChannelConfig { .. } => Request::ChannelConfig,
            ActorRequest::PublishAtomicWithdraw { .. } => Request::PublishAtomicWithdraw,
        }
    }

    /// The kind of request.
    pub fn kind(&self) -> (res: Request)
        ensures
            res == self.spec_kind(),
    {
        match self {
            ActorRequest::PublishMessage { .. } => Request::PublishMessage,
            ActorRequest::PrepareTx { .. } => Request::PrepareTx,
            ActorRequest::SignTx { .. } => Request::SignTx,
            ActorRequest::SubmitSignedTx { .. } => Request::SubmitSignedTx,
            ActorRequest::ChannelConfig { .. } => Request::ChannelConfig,
            ActorRequest::PublishAtomicWithdraw { .. } => Request::PublishAtomicWithdraw,
        }
    }
}

/// What came of a request.
#[derive(Debug, PartialEq, Eq)]
pub enum Answer {
    /// Not served, and nobody waits for an answer.
    Dropped,
    Rejected(Error),
    Published(Result<Published, Error>),
    /// The ops to be signed by all parties.
    Prepared(Vec<Op>),
    Signed(Ed25519Signature),
    Submitted(Result<PublishReceipt, Error>),
    Configured(Result<(SignedOps, PublishReceipt), Error>),
}

/// The inscription that publishes a payload now.
pub open spec fn new_inscription(s: SequencerModel, data: Inscription, made: Made) -> InscriptionOp {
    InscriptionOp {
        channel_id: s.channel_id,
        inscription: data,
        parent: s.publish_parent(),
        signer: s.own_key,
        id: made.msg_id,
    }
}

/// What is told of it.
pub open spec fn new_info(s: SequencerModel, data: Inscription, made: Made) -> InscriptionInfo {
    InscriptionInfo {
        tx_hash: made.tx_hash,
        parent_msg: s.publish_parent(),
        this_msg: made.msg_id,
        payload: data,
        signer: Some(s.own_key),
    }
}

/// The pending entry of a new inscription.
pub open spec fn new_pending(
    s: SequencerModel,
    signed_tx: SignedOps,
    data: Inscription,
    made: Made,
    bundle: PendingBundle,
) -> PendingInscription {
    PendingInscription {
        tx_hash: made.tx_hash,
        signed_tx,
        parent_msg: s.publish_parent(),
        this_msg: made.msg_id,
        payload: data,
        bundle,
        posted: false,
    }
}

/// What publishing a message makes of the sequencer.
pub open spec fn message_published(
    before: SequencerModel,
    data: Inscription,
    made: Made,
    moment: Moment,
    res: Result<Published, Error>,
    after: SequencerModel,
) -> bool {
    let m = before.state->0;
    let parent = before.publish_parent();
    match m.taken(parent, made.tx_hash) {
        Some(by) => res is Err && is_refusal(res->Err_0, parent, by) && after == before,
        None => res matches Ok(published) && {
            let tx = published.signed_tx;
            &&& tx.hash == made.tx_hash
            &&& tx.ops@ == seq![Op::ChannelInscribe(new_inscription(before, data, made))]
            &&& tx.proofs@ == seq![OpProof::Ed25519Sig(made.signature)]
            &&& published.tx == PublishedTx::Inscription(new_info(before, data, made))
            &&& accepts(
                before,
                m.track_local(made.tx_hash).put_pending(
                    new_pending(before, tx, data, made, PendingBundle::Plain),
                ),
                made.tx_hash,
                made.msg_id,
                before.posts_now(moment),
                published.receipt,
                after,
            )
        },
    }
}

/// The ops of a bundle: the withdraws, then the inscription.
pub open spec fn bundle_ops(withdraws: Seq<ChannelWithdrawOp>, inscribe: InscriptionOp) -> Seq<Op> {
    withdraws.map_values(|op: ChannelWithdrawOp| Op::ChannelWithdraw(op)).push(
        Op::ChannelInscribe(inscribe),
    )
}

/// What is told of a bundle's withdraws.
pub open spec fn withdraw_infos(tx_hash: TxHash, withdraws: Seq<ChannelWithdrawOp>) -> Seq<
    WithdrawInfo,
> {
    withdraws.map_values(|op: ChannelWithdrawOp| WithdrawInfo { tx_hash, op })
}

/// The proofs of a bundle: the channel's for each withdraw, and the signature
/// for the inscription.
pub open spec fn proves_bundle(
    proofs: Seq<OpProof>,
    withdraws: nat,
    index: u16,
    signature: Ed25519Signature,
) -> bool {
    &&& proofs.len() == withdraws + 1
    &&& proofs.last() == OpProof::Ed25519Sig(signature)
    &&& forall|i: int|
        0 <= i < withdraws ==> match #[trigger] proofs[i] {
            OpProof::ChannelMultiSigProof(shared) => shared@ == seq![
                IndexedSignature { channel_key_index: index, signature },
            ],
            _ => false,
        }
}

/// Why withdraws cannot be published with an inscription, in the order in
/// which it is checked; `channel` is what came of asking for the channel's
/// state.
pub open spec fn publish_failure(
    withdraws: nat,
    channel: Result<ChannelState, String>,
    own_key: Ed25519PublicKey,
) -> Option<Seq<char>> {
    if withdraws == 0 {
        Some("publish_atomic_withdraw requires at least one withdraw"@)
    } else {
        match channel {
            Err(text) => Some("channel_state query failed: "@ + text@),
            Ok(state) => withdraw_failure(
                withdraws,
                state.transfer_threshold,
                state.accredited_keys@.index_of_first(own_key),
                state.withdrawal_nonce,
            ),
        }
    }
}

pub open spec fn op_of() -> spec_fn(WithdrawInfo) -> ChannelWithdrawOp {
    |info: WithdrawInfo| info.op
}

/// What publishing an inscription bundled with withdraws makes of the
/// sequencer.
pub open spec fn bundle_published(
    before: SequencerModel,
    data: Inscription,
    withdraws: Seq<WithdrawArg>,
    channel: Result<ChannelState, String>,
    made: Made,
    moment: Moment,
    res: Result<Published, Error>,
    after: SequencerModel,
) -> bool {
    let m = before.state->0;
    let parent = before.publish_parent();
    match publish_failure(withdraws.len(), channel, before.own_key) {
        Some(text) => res is Err && is_network(res->Err_0, text) && after == before,
        None => match m.taken(parent, made.tx_hash) {
            Some(by) => res is Err && is_refusal(res->Err_0, parent, by) && after == before,
            None => res matches Ok(published) && {
                let tx = published.signed_tx;
                let state = channel->Ok_0;
                &&& published.tx matches PublishedTx::AtomicWithdraw(bundle)
                &&& ({
                    let ops = bundle.withdraws@.map_values(op_of());
                    &&& numbers(ops, before.channel_id, withdraws, state.withdrawal_nonce)
                    &&& bundle.tx_hash == made.tx_hash
                    &&& bundle.inscription == new_info(before, data, made)
                    &&& bundle.withdraws == Items::of(withdraw_infos(made.tx_hash, ops))
                    &&& bundle.outputs@ == withdraws.flat_map(outputs_of())
                    &&& tx.hash == made.tx_hash
                    &&& tx.ops@ == bundle_ops(ops, new_inscription(before, data, made))
                    &&& proves_bundle(
                        tx.proofs@,
                        withdraws.len(),
                        state.accredited_keys@.index_of_first(before.own_key)->0 as u16,
                        made.signature,
                    )
                })
                &&& accepts(
                    before,
                    m.track_local(made.tx_hash).put_pending(
                        new_pending(
                            before,
                            tx,
                            data,
                            made,
                            PendingBundle::Withdraw {
                                withdraws: bundle.withdraws,
                                outputs: bundle.outputs,
                            },
                        ),
                    ),
                    made.tx_hash,
                    made.msg_id,
                    before.posts_now(moment),
                    published.receipt,
                    after,
                )
            },
        },
    }
}

/// The op that configures the channel now.
pub open spec fn new_config(s: SequencerModel, settings: ChannelSettings, made: Made) -> ChannelConfigOp {
    ChannelConfigOp {
        channel: s.channel_id,
        parent: s.config_parent(),
        keys: settings.keys,
        posting_timeframe: settings.posting_timeframe,
        posting_timeout: settings.posting_timeout,
        configuration_threshold: settings.configuration_threshold,
        transfer_threshold: settings.transfer_threshold,
        id: made.msg_id,
    }
}

/// The signatures of a config: ours, at our index, on a channel that exists.
pub open spec fn config_signatures(s: SequencerModel, signature: Ed25519Signature) -> Seq<
    IndexedSignature,
> {
    match (s.channel_state, s.own_key_index) {
        (Some(_), Some(index)) => seq![IndexedSignature { channel_key_index: index, signature }],
        _ => Seq::empty(),
    }
}

/// What configuring the channel makes of the sequencer.
pub open spec fn channel_configured(
    before: ZoneSequencer,
    settings: ChannelSettings,
    made: Made,
    res: Result<(SignedOps, PublishReceipt), Error>,
    after: ZoneSequencer,
) -> bool {
    match config_failure(before@) {
        Some(text) => res is Err && is_network(res->Err_0, text) && after@ == before@,
        None => res matches Ok((tx, receipt)) && {
            &&& tx.hash == made.tx_hash
            &&& tx.ops@ == seq![Op::ChannelConfig(new_config(before@, settings, made))]
            &&& tx.proofs@.len() == 1
            &&& match tx.proofs@[0] {
                OpProof::ChannelMultiSigProof(shared) => shared@ == config_signatures(
                    before@,
                    made.signature,
                ),
                _ => false,
            }
            &&& opaque_accepted(before, tx, before@.last_msg_id, Ok(receipt), after)
        },
    }
}

/// What a request makes of the sequencer: nothing before readiness, and what
/// its kind says after.
pub open spec fn request_served(
    before: ZoneSequencer,
    request: ActorRequest,
    moment: Moment,
    answer: Answer,
    after: ZoneSequencer,
) -> bool {
    if !before@.ready {
        &&& after@ == before@
        &&& answer == if request is PublishMessage || request is PublishAtomicWithdraw {
            Answer::Dropped
        } else {
            Answer::Rejected(not_ready())
        }
    } else {
        match request {
            ActorRequest::PublishMessage { data, made } => answer matches Answer::Published(res)
                && message_published(before@, data, made, moment, res, after@),
            ActorRequest::PrepareTx { ops, msg, id } => {
                &&& after@ == before@
                &&& answer matches Answer::Prepared(prepared) && prepared@ == ops@.push(
                    Op::ChannelInscribe(
                        InscriptionOp {
                            channel_id: before@.channel_id,
                            inscription: msg,
                            parent: before@.last_msg_id,
                            signer: before@.own_key,
                            id,
                        },
                    ),
                )
            },
            ActorRequest::SignTx { signature } => after@ == before@ && answer == Answer::Signed(
                signature,
            ),
            ActorRequest::SubmitSignedTx { tx, msg_id } => answer matches Answer::Submitted(res)
                && opaque_accepted(before, tx, msg_id, res, after),
            ActorRequest::ChannelConfig { settings, made } => answer matches Answer::Configured(res)
                && channel_configured(before, settings, made, res, after),
            ActorRequest::PublishAtomicWithdraw { inscribe, withdraws, channel, made } => answer
                matches Answer::Published(res) && bundle_published(
                before@,
                inscribe,
                withdraws@,
                channel,
                made,
                moment,
                res,
                after@,
            ),
        }
    }
}

impl ZoneSequencer {
    /// Publishes a message: builds its transaction on the publish parent and
    /// accepts it as pending.
    pub fn handle_publish(&mut self, data: Inscription, made: Made, moment: &Moment) -> (res:
        Result<Published, Error>)
        requires
            old(self)@.state is Some,
        ensures
            message_published(old(self)@, data, made, *moment, res, final(self)@),
    {
        let parent = self.publish_parent();
        let inscribe = InscriptionOp {
            channel_id: self.channel_id,
            inscription: data.clone(),
            parent,
            signer: self.own_key,
            id: made.msg_id,
        };
        let info = InscriptionInfo {
            tx_hash: made.tx_hash,
            parent_msg: parent,
            this_msg: made.msg_id,
            payload: data.clone(),
            signer: Some(self.own_key),
        };
        let mut ops: Vec<Op> = Vec::new();
        ops.push(Op::ChannelInscribe(inscribe));
        assert(ops@ =~= seq![Op::ChannelInscribe(new_inscription(old(self)@, data, made))]);
        proof {
            lemma_no_transfers(ops@);
        }
        let signed_tx = match assemble_inscribe_tx(made.tx_hash, ops, None, made.signature) {
            Ok(tx) => tx,
            Err(err) => {
                return Err(err);
            },
        };
        match self.accept_inscription(signed_tx.clone(), parent, made.msg_id, data, moment) {
            Ok(receipt) => Ok(Published { signed_tx, tx: PublishedTx::Inscription(info), receipt }),
            Err(err) => Err(err),
        }
    }

    /// Publishes an inscription bundled with withdraws, under the sequencer's
    /// own signature: for channels that one key may withdraw from. The
    /// withdraws are numbered from the channel's next withdraw nonce. On an
    /// error nothing changes.
    pub fn handle_publish_atomic_withdraw(
        &mut self,
        inscribe: Inscription,
        withdraws: Vec<WithdrawArg>,
        channel: Result<ChannelState, String>,
        made: Made,
        moment: &Moment,
    ) -> (res: Result<Published, Error>)
        requires
            old(self)@.state is Some,
        ensures
            bundle_published(
                old(self)@,
                inscribe,
                withdraws@,
                channel,
                made,
                *moment,
                res,
                final(self)@,
            ),
    {
        if withdraws.len() == 0 {
            return Err(
                Error::Network(
                    "publish_atomic_withdraw requires at least one withdraw".to_string(),
                ),
            );
        }
        let state = match channel {
            Ok(state) => state,
            Err(text) => {
                return Err(
                    Error::Network(
                        "channel_state query failed: ".to_string().concat(text.as_str()),
                    ),
                );
            },
        };
        let outputs = joined_outputs(withdraws.as_slice());
        let ghost args = withdraws@;
        let (withdraws, index) = match number_withdraws(
            withdraws.as_slice(),
            self.channel_id,
            &state,
            &self.own_key,
        ) {
            Ok(numbered) => numbered,
            Err(err) => {
                return Err(err);
            },
        };
        let parent = self.publish_parent();
        let ghost op = new_inscription(old(self)@, inscribe, made);
        let mut ops: Vec<Op> = Vec::new();
        let mut infos: Vec<WithdrawInfo> = Vec::new();
        let mut told: Vec<WithdrawInfo> = Vec::new();
        let mut i: usize = 0;
        while i < withdraws.len()
            invariant
                i <= withdraws@.len(),
                ops@ == withdraws@.take(i as int).map_values(
                    |op: ChannelWithdrawOp| Op::ChannelWithdraw(op),
                ),
                infos@ == withdraw_infos(made.tx_hash, withdraws@.take(i as int)),
                told@ == infos@,
            decreases withdraws@.len() - i,
        {
            ops.push(Op::ChannelWithdraw(withdraws[i].clone()));
            infos.push(WithdrawInfo { tx_hash: made.tx_hash, op: withdraws[i].clone() });
            told.push(WithdrawInfo { tx_hash: made.tx_hash, op: withdraws[i].clone() });
            assert(withdraws@.take(i + 1) =~= withdraws@.take(i as int).push(
                withdraws@[i as int],
            ));
            assert(ops@ =~= withdraws@.take(i + 1).map_values(
                |op: ChannelWithdrawOp| Op::ChannelWithdraw(op),
            ));
            assert(infos@ =~= withdraw_infos(made.tx_hash, withdraws@.take(i + 1)));
            assert(told@ =~= infos@);
            i = i + 1;
        }
        assert(withdraws@.take(i as int) =~= withdraws@);
        let ops = prepare_tx(
            ops,
            self.channel_id,
            self.own_key,
            inscribe.clone(),
            parent,
            made.msg_id,
        );
        assert(ops@ =~= bundle_ops(withdraws@, op));
        let proofs = match build_atomic_withdraw_ops_proofs(ops.as_slice(), index, made.signature) {
            Ok(proofs) => proofs,
            Err(err) => {
                proof {
                    lemma_bundle_is_proven(withdraws@, op, index, made.signature);
                }
                return Err(err);
            },
        };
        proof {
            lemma_bundle_is_proven(withdraws@, op, index, made.signature);
        }
        assert(proves_bundle(proofs@, withdraws@.len(), index, made.signature));
        proof {
            law_items_hold(infos@);
            assert(infos@.map_values(op_of()) =~= withdraws@);
        }
        let signed_tx = SignedOps::new(made.tx_hash, ops, proofs);
        let inscription = InscriptionInfo {
            tx_hash: made.tx_hash,
            parent_msg: parent,
            this_msg: made.msg_id,
            payload: inscribe.clone(),
            signer: Some(self.own_key),
        };
        let tx = PublishedTx::AtomicWithdraw(
            AtomicWithdrawInfo {
                tx_hash: made.tx_hash,
                inscription,
                withdraws: Items::from_vec(told),
                outputs: outputs.clone(),
            },
        );
        match self.accept_atomic_withdraw(
            signed_tx.clone(),
            parent,
            made.msg_id,
            inscribe,
            infos,
            outputs,
            moment,
        ) {
            Ok(receipt) => Ok(Published { signed_tx, tx, receipt }),
            Err(err) => Err(err),
        }
    }

    /// Configures the channel by one signature. It extends the mined config
    /// tip; a channel that does not exist yet is claimed without a signature.
    pub fn handle_channel_config(&mut self, settings: ChannelSettings, made: Made) -> (res: Result<
        (SignedOps, PublishReceipt),
        Error,
    >)
        requires
            old(self)@.state is Some,
        ensures
            channel_configured(*old(self), settings, made, res, *final(self)),
    {
        let plan = match self.plan_channel_config() {
            Ok(plan) => plan,
            Err(err) => {
                return Err(err);
            },
        };
        let mut signatures: Vec<IndexedSignature> = Vec::new();
        if let Some(index) = plan.signer {
            signatures.push(
                IndexedSignature { channel_key_index: index, signature: made.signature },
            );
        }
        assert(signatures@ =~= config_signatures(old(self)@, made.signature));
        let config = ChannelConfigOp {
            channel: self.channel_id,
            parent: plan.parent,
            keys: settings.keys,
            posting_timeframe: settings.posting_timeframe,
            posting_timeout: settings.posting_timeout,
            configuration_threshold: settings.configuration_threshold,
            transfer_threshold: settings.transfer_threshold,
            id: made.msg_id,
        };
        let mut ops: Vec<Op> = Vec::new();
        ops.push(Op::ChannelConfig(config));
        assert(ops@ =~= seq![Op::ChannelConfig(new_config(old(self)@, settings, made))]);
        proof {
            lemma_no_transfers(ops@);
        }
        let tx = match assemble_channel_config_tx(made.tx_hash, ops, None, signatures) {
            Ok(tx) => tx,
            Err(err) => {
                return Err(err);
            },
        };
        proof {
            lemma_no_inscriptions(tx, self@.channel_id);
        }
        match self.submit_channel_config(tx.clone()) {
            Ok(receipt) => Ok((tx, receipt)),
            Err(err) => Err(err),
        }
    }

    /// Serves one request.
    pub fn handle_request(&mut self, request: ActorRequest, moment: &Moment) -> (res: Answer)
        requires
            old(self)@.ready ==> old(self)@.state is Some,
        ensures
            request_served(*old(self), request, *moment, res, *final(self)),
    {
        match admission_of(self.ready, request.kind()) {
            Admission::Drop => {
                return Answer::Dropped;
            },
            Admission::Reject(err) => {
                return Answer::Rejected(err);
            },
            Admission::Serve => {},
        }
        match request {
            ActorRequest::PublishMessage { data, made } => Answer::Published(
                self.handle_publish(data, made, moment),
            ),
            ActorRequest::PrepareTx { ops, msg, id } => Answer::Prepared(
                prepare_tx(ops, self.channel_id, self.own_key, msg, self.last_msg_id, id),
            ),
            ActorRequest::SignTx { signature } => Answer::Signed(signature),
            ActorRequest::SubmitSignedTx { tx, msg_id } => Answer::Submitted(
                self.submit_signed_tx(tx, msg_id),
            ),
            ActorRequest::ChannelConfig { settings, made } => Answer::Configured(
                self.handle_channel_config(settings, made),
            ),
            ActorRequest::PublishAtomicWithdraw { inscribe, withdraws, channel, made } => Answer::Published(
                self.handle_publish_atomic_withdraw(inscribe, withdraws, channel, made, moment),
            ),
        }
    }
}

proof fn lemma_no_transfers(ops: Seq<Op>)
    requires
        ops.len() == 1,
        !(ops[0] is Transfer),
    ensures
        transfer_count(ops) == 0,
{
    reveal_with_fuel(Seq::filter, 2);
    assert(ops.drop_last() =~= Seq::<Op>::empty());
    assert(ops.filter(is_transfer()) =~= Seq::<Op>::empty());
}

proof fn lemma_no_inscriptions(tx: SignedOps, channel_id: crate::ids::ChannelId)
    requires
        tx.ops@.len() == 1,
        tx.ops@[0] is ChannelConfig,
    ensures
        inscriptions_of(tx, channel_id) == Seq::<InscriptionInfo>::empty(),
{
    let f = as_inscription(tx.hash, channel_id);
    tx.ops@.lemma_filter_map_take_succ(f, 0);
    assert(tx.ops@.take(1) =~= tx.ops@);
    assert(tx.ops@.take(0) =~= Seq::<Op>::empty());
}

/// Every op of a bundle has a proof.
proof fn lemma_bundle_is_proven(
    withdraws: Seq<ChannelWithdrawOp>,
    inscribe: InscriptionOp,
    index: u16,
    signature: Ed25519Signature,
)
    ensures
        forall|shared: Arc<Vec<IndexedSignature>>| #[trigger]
            shared@ == seq![IndexedSignature { channel_key_index: index, signature }]
                ==> (each_proof(
                bundle_ops(withdraws, inscribe),
                withdraw_bundle_proof_of(signature, shared),
            ) matches Ok(proofs) && proves_bundle(proofs, withdraws.len(), index, signature)),
{
    let ops = bundle_ops(withdraws, inscribe);
    assert forall|shared: Arc<Vec<IndexedSignature>>| #[trigger]
        shared@ == seq![IndexedSignature { channel_key_index: index, signature }] implies (
    each_proof(ops, withdraw_bundle_proof_of(signature, shared)) matches Ok(proofs)
        && proves_bundle(proofs, withdraws.len(), index, signature)) by {
        let f = withdraw_bundle_proof_of(signature, shared);
        lemma_all_proven(ops, f);
        law_each_op_proven(ops, f);
        let proofs = each_proof(ops, f)->Ok_0;
        assert(f(ops[withdraws.len() as int]) == Ok::<OpProof, Seq<char>>(
            proofs[withdraws.len() as int],
        ));
        assert forall|i: int| 0 <= i < withdraws.len() implies match #[trigger] proofs[i] {
            OpProof::ChannelMultiSigProof(shared) => shared@ == seq![
                IndexedSignature { channel_key_index: index, signature },
            ],
            _ => false,
        } by {
            assert(f(ops[i]) == Ok::<OpProof, Seq<char>>(proofs[i]));
            assert(ops[i] == Op::ChannelWithdraw(withdraws[i]));
        }
    }
}

proof fn lemma_all_proven(ops: Seq<Op>, f: spec_fn(Op) -> Result<OpProof, Seq<char>>)
    requires
        forall|i: int| 0 <= i < ops.len() ==> (#[trigger] f(ops[i])) is Ok,
    ensures
        each_proof(ops, f) is Ok,
    decreases ops.len(),
{
    if ops.len() > 0 {
        assert forall|i: int| 0 <= i < ops.drop_last().len() implies (#[trigger] f(
            ops.drop_last()[i],
        )) is Ok by {
            assert(ops.drop_last()[i] == ops[i]);
            assert(f(ops[i]) is Ok);
        }
        lemma_all_proven(ops.drop_last(), f);
        assert(f(ops[ops.len() - 1]) is Ok);
    }
}

} // verus!
