//! Building and checking the transactions that the sequencer publishes.
//!
//! Hashing, signing and checking a signature happen outside; their results are
//! arguments here.

use std::sync::Arc;

use vstd::prelude::*;
use vstd::string::StringExecFns;

use crate::adapter::{id_string, id_text};
use crate::ids::{ChannelId, Ed25519PublicKey, MsgId, NoteId, TxHash};
use crate::mantle::{
    ChannelKeyIndex, ChannelWithdrawOp, Ed25519Signature, IndexedSignature, Inputs, Inscription,
    InscriptionOp, Note, Op, OpProof, Outputs, SignedOps,
};
use crate::sequencer::types::{ChannelState, Error, WithdrawArg};
use crate::text::{decimal, push_decimal};

verus! {

/// A network error with the given text.
pub open spec fn is_network(err: Error, text: Seq<char>) -> bool {
    err matches Error::Network(t) && t@ == text
}

pub open spec fn is_transfer() -> spec_fn(Op) -> bool {
    |op: Op| op is Transfer
}

/// How many ledger transfers a transaction carries.
pub open spec fn transfer_count(ops: Seq<Op>) -> nat {
    ops.filter(is_transfer()).len()
}

fn count_transfers(ops: &[Op]) -> (res: usize)
    ensures
        res == transfer_count(ops@),
{
    let ghost keep = is_transfer();
    let mut count: usize = 0;
    let mut i: usize = 0;
    assert(ops@.take(0).filter(keep).len() == 0) by {
        reveal(Seq::filter);
        assert(ops@.take(0) =~= Seq::empty());
    }
    while i < ops.len()
        invariant
            i <= ops@.len(),
            keep == is_transfer(),
            count <= i,
            count == ops@.take(i as int).filter(keep).len(),
        decreases ops@.len() - i,
    {
        proof {
            let taken = ops@.take(i as int);
            assert(ops@.take(i + 1) =~= taken.push(ops@[i as int]));
            Seq::lemma_filter_push(taken, ops@[i as int], keep);
        }
        match &ops[i] {
            Op::Transfer(_) => {
                count = count + 1;
            },
            _ => {},
        }
        i = i + 1;
    }
    assert(ops@.take(i as int) =~= ops@);
    count
}

pub open spec fn no_transfer_proof_text() -> Seq<char> {
    "funded transaction carries a fee transfer but no transfer proof"@
}

fn no_transfer_proof() -> (res: Error)
    ensures
        is_network(res, no_transfer_proof_text()),
{
    Error::Network(
        "funded transaction carries a fee transfer but no transfer proof".to_string(),
    )
}

/// Why the proof of a fee transfer cannot be attached to a transaction with
/// `count` transfers.
pub open spec fn attach_failure(count: nat, has_proof: bool) -> Option<Seq<char>> {
    if count == 0 || (count == 1 && has_proof) {
        None
    } else if count == 1 {
        Some(no_transfer_proof_text())
    } else {
        Some("unexpected transfer op count in funded transaction: "@ + decimal(count))
    }
}

/// The proofs of a funded transaction: funding appends the transfer as the last
/// op.
pub open spec fn attached(
    ops: Seq<Op>,
    channel_proofs: Seq<OpProof>,
    transfer_proof: Option<OpProof>,
) -> Seq<OpProof> {
    if transfer_count(ops) == 0 {
        channel_proofs
    } else {
        channel_proofs.push(transfer_proof->0)
    }
}

/// Appends the fee transfer's proof to the channel-op proofs, following the
/// funded transaction's op layout.
pub fn attach_transfer_proof(
    ops: &[Op],
    channel_proofs: Vec<OpProof>,
    transfer_proof: Option<OpProof>,
) -> (res: Result<Vec<OpProof>, Error>)
    ensures
        match attach_failure(transfer_count(ops@), transfer_proof is Some) {
            Some(text) => res is Err && is_network(res->Err_0, text),
            None => res is Ok && res->Ok_0@ == attached(ops@, channel_proofs@, transfer_proof),
        },
{
    let mut proofs = channel_proofs;
    let count: usize = count_transfers(ops);
    if count == 0 {
        return Ok(proofs);
    }
    if count > 1 {
        let mut text = "unexpected transfer op count in funded transaction: ".to_string();
        push_decimal(&mut text, count as u64);
        return Err(Error::Network(text));
    }
    match transfer_proof {
        Some(given) => {
            proofs.push(given);
            Ok(proofs)
        },
        None => Err(no_transfer_proof()),
    }
}

/// What an op is called in a message.
pub open spec fn op_name(op: Op) -> Seq<char> {
    match op {
        Op::ChannelInscribe(_) => "ChannelInscribe"@,
        Op::ChannelConfig(_) => "ChannelConfig"@,
        Op::ChannelDeposit(_) => "ChannelDeposit"@,
        Op::ChannelWithdraw(_) => "ChannelWithdraw"@,
        Op::ChannelTransfer(_) => "ChannelTransfer"@,
        Op::Transfer(_) => "Transfer"@,
        Op::Other(_) => "Other"@,
    }
}

fn name_of(op: &Op) -> (res: &'static str)
    ensures
        res@ == op_name(*op),
{
    match op {
        Op::ChannelInscribe(_) => "ChannelInscribe",
        Op::ChannelConfig(_) => "ChannelConfig",
        Op::ChannelDeposit(_) => "ChannelDeposit",
        Op::ChannelWithdraw(_) => "ChannelWithdraw",
        Op::ChannelTransfer(_) => "ChannelTransfer",
        Op::Transfer(_) => "Transfer",
        Op::Other(_) => "Other",
    }
}

/// The proof of one op of an atomic channel bundle, or why it has none.
pub open spec fn bundle_proof(
    op: Op,
    inscribe_sig: Ed25519Signature,
    channel_proof: Arc<Vec<IndexedSignature>>,
    transfer_proof: Option<OpProof>,
) -> Result<OpProof, Seq<char>> {
    match op {
        Op::ChannelTransfer(_) => Ok(OpProof::ChannelMultiSigProof(channel_proof)),
        Op::ChannelWithdraw(_) => Ok(OpProof::ChannelMultiSigProof(channel_proof)),
        Op::ChannelInscribe(_) => Ok(OpProof::Ed25519Sig(inscribe_sig)),
        Op::Transfer(_) => match transfer_proof {
            Some(given) => Ok(given),
            None => Err(no_transfer_proof_text()),
        },
        _ => Err("unexpected op in atomic channel bundle: "@ + op_name(op)),
    }
}

pub open spec fn bundle_proof_of(
    inscribe_sig: Ed25519Signature,
    channel_proof: Arc<Vec<IndexedSignature>>,
    transfer_proof: Option<OpProof>,
) -> spec_fn(Op) -> Result<OpProof, Seq<char>> {
    |op: Op| bundle_proof(op, inscribe_sig, channel_proof, transfer_proof)
}

/// The results of `f` on each op, or the failure of the first op that has one.
pub open spec fn each_proof(
    ops: Seq<Op>,
    f: spec_fn(Op) -> Result<OpProof, Seq<char>>,
) -> Result<Seq<OpProof>, Seq<char>>
    decreases ops.len(),
{
    if ops.len() == 0 {
        Ok(Seq::empty())
    } else {
        match each_proof(ops.drop_last(), f) {
            Err(text) => Err(text),
            Ok(proofs) => match f(ops.last()) {
                Ok(given) => Ok(proofs.push(given)),
                Err(text) => Err(text),
            },
        }
    }
}

/// One op without a proof leaves the whole transaction without.
pub proof fn lemma_each_proof_fails(
    ops: Seq<Op>,
    f: spec_fn(Op) -> Result<OpProof, Seq<char>>,
    i: int,
)
    requires
        0 <= i <= ops.len(),
        each_proof(ops.take(i), f) is Err,
    ensures
        each_proof(ops, f) == each_proof(ops.take(i), f),
    decreases ops.len() - i,
{
    if i == ops.len() {
        assert(ops.take(i) =~= ops);
    } else {
        assert(ops.take(i + 1).drop_last() =~= ops.take(i));
        lemma_each_proof_fails(ops, f, i + 1);
    }
}

/// Where every op has a proof, there is one proof per op, in op order.
pub proof fn law_each_op_proven(ops: Seq<Op>, f: spec_fn(Op) -> Result<OpProof, Seq<char>>)
    ensures
        each_proof(ops, f) matches Ok(proofs) ==> {
            &&& proofs.len() == ops.len()
            &&& forall|i: int| 0 <= i < ops.len() ==> #[trigger] f(ops[i]) == Ok::<
                OpProof,
                Seq<char>,
            >(proofs[i])
        },
    decreases ops.len(),
{
    if ops.len() > 0 {
        law_each_op_proven(ops.drop_last(), f);
        if each_proof(ops, f) is Ok {
            let proofs = each_proof(ops, f)->Ok_0;
            let before = each_proof(ops.drop_last(), f)->Ok_0;
            assert(proofs == before.push(f(ops.last())->Ok_0));
            assert forall|i: int| 0 <= i < ops.len() implies #[trigger] f(ops[i]) == Ok::<
                OpProof,
                Seq<char>,
            >(proofs[i]) by {
                if i < ops.len() - 1 {
                    assert(ops.drop_last()[i] == ops[i]);
                    assert(f(ops.drop_last()[i]) == Ok::<OpProof, Seq<char>>(before[i]));
                }
            }
        }
    }
}

fn one_bundle_proof(
    op: &Op,
    inscribe_sig: Ed25519Signature,
    channel_proof: &Arc<Vec<IndexedSignature>>,
    transfer_proof: Option<&OpProof>,
) -> (res: Result<OpProof, Error>)
    ensures
        match bundle_proof(
            *op,
            inscribe_sig,
            *channel_proof,
            unref_proof(transfer_proof),
        ) {
            Ok(given) => res == Ok::<OpProof, Error>(given),
            Err(text) => res is Err && is_network(res->Err_0, text),
        },
{
    match op {
        Op::ChannelTransfer(_) => Ok(OpProof::ChannelMultiSigProof(Arc::clone(channel_proof))),
        Op::ChannelWithdraw(_) => Ok(OpProof::ChannelMultiSigProof(Arc::clone(channel_proof))),
        Op::ChannelInscribe(_) => Ok(OpProof::Ed25519Sig(inscribe_sig)),
        Op::Transfer(_) => match transfer_proof {
            Some(given) => Ok(given.clone()),
            None => Err(no_transfer_proof()),
        },
        _ => {
            let text = "unexpected op in atomic channel bundle: ".to_string().concat(name_of(op));
            Err(Error::Network(text))
        },
    }
}

pub open spec fn unref_proof(given: Option<&OpProof>) -> Option<OpProof> {
    match given {
        Some(p) => Some(*p),
        None => None,
    }
}

/// Per-op proofs of an atomic channel bundle: transfer and withdraw ops share
/// `channel_proof`, the inscription carries `inscribe_sig`, and the fee
/// transfer carries `transfer_proof`.
pub fn assemble_atomic_bundle_ops_proofs(
    ops: &[Op],
    inscribe_sig: Ed25519Signature,
    channel_proof: &Arc<Vec<IndexedSignature>>,
    transfer_proof: Option<&OpProof>,
) -> (res: Result<Vec<OpProof>, Error>)
    ensures
        match each_proof(
            ops@,
            bundle_proof_of(inscribe_sig, *channel_proof, unref_proof(transfer_proof)),
        ) {
            Ok(proofs) => res is Ok && res->Ok_0@ == proofs,
            Err(text) => res is Err && is_network(res->Err_0, text),
        },
{
    let ghost f = bundle_proof_of(inscribe_sig, *channel_proof, unref_proof(transfer_proof));
    let mut proofs: Vec<OpProof> = Vec::new();
    let mut i: usize = 0;
    assert(ops@.take(0) =~= Seq::empty());
    while i < ops.len()
        invariant
            i <= ops@.len(),
            f == bundle_proof_of(inscribe_sig, *channel_proof, unref_proof(transfer_proof)),
            each_proof(ops@.take(i as int), f) == Ok::<Seq<OpProof>, Seq<char>>(proofs@),
        decreases ops@.len() - i,
    {
        assert(ops@.take(i + 1).drop_last() =~= ops@.take(i as int));
        match one_bundle_proof(&ops[i], inscribe_sig, channel_proof, transfer_proof) {
            Ok(given) => proofs.push(given),
            Err(err) => {
                proof {
                    lemma_each_proof_fails(ops@, f, i + 1);
                }
                return Err(err);
            },
        }
        i = i + 1;
    }
    assert(ops@.take(i as int) =~= ops@);
    Ok(proofs)
}

/// Assembles a fully signed atomic bundle. `signatures` are indexed against the
/// channel's accredited keys.
pub fn assemble_atomic_bundle_tx(
    tx_hash: TxHash,
    ops: Vec<Op>,
    inscribe_sig: Ed25519Signature,
    signatures: Vec<IndexedSignature>,
    transfer_proof: Option<&OpProof>,
) -> (res: Result<SignedOps, Error>)
    ensures
        exists|channel_proof: Arc<Vec<IndexedSignature>>| #[trigger]
            channel_proof@ == signatures@ && match each_proof(
                ops@,
                bundle_proof_of(inscribe_sig, channel_proof, unref_proof(transfer_proof)),
            ) {
                Ok(proofs) => res is Ok && res->Ok_0.hash == tx_hash && res->Ok_0.ops@ == ops@
                    && res->Ok_0.proofs@ == proofs,
                Err(text) => res is Err && is_network(res->Err_0, text),
            },
{
    let channel_proof = Arc::new(signatures);
    assert(channel_proof@ == signatures@);
    match assemble_atomic_bundle_ops_proofs(
        ops.as_slice(),
        inscribe_sig,
        &channel_proof,
        transfer_proof,
    ) {
        Ok(proofs) => Ok(SignedOps::new(tx_hash, ops, proofs)),
        Err(err) => Err(err),
    }
}

/// Assembles a fully signed channel-config transaction from a funded one.
/// `signatures` are indexed against the keys accredited before the update;
/// an unclaimed channel is configured with none.
pub fn assemble_channel_config_tx(
    tx_hash: TxHash,
    ops: Vec<Op>,
    transfer_proof: Option<OpProof>,
    signatures: Vec<IndexedSignature>,
) -> (res: Result<SignedOps, Error>)
    ensures
        match attach_failure(transfer_count(ops@), transfer_proof is Some) {
            Some(text) => res is Err && is_network(res->Err_0, text),
            None => res matches Ok(tx) && {
                &&& tx.hash == tx_hash
                &&& tx.ops@ == ops@
                &&& exists|shared: Arc<Vec<IndexedSignature>>| #[trigger]
                    shared@ == signatures@ && tx.proofs@ == attached(
                        ops@,
                        seq![OpProof::ChannelMultiSigProof(shared)],
                        transfer_proof,
                    )
            },
        },
{
    let shared = Arc::new(signatures);
    assert(shared@ == signatures@);
    let mut channel_proofs: Vec<OpProof> = Vec::new();
    channel_proofs.push(OpProof::ChannelMultiSigProof(shared));
    assert(channel_proofs@ =~= seq![OpProof::ChannelMultiSigProof(shared)]);
    match attach_transfer_proof(ops.as_slice(), channel_proofs, transfer_proof) {
        Ok(proofs) => Ok(SignedOps::new(tx_hash, ops, proofs)),
        Err(err) => Err(err),
    }
}

/// Assembles a fully signed inscription transaction from a funded one.
pub fn assemble_inscribe_tx(
    tx_hash: TxHash,
    ops: Vec<Op>,
    transfer_proof: Option<OpProof>,
    signature: Ed25519Signature,
) -> (res: Result<SignedOps, Error>)
    ensures
        match attach_failure(transfer_count(ops@), transfer_proof is Some) {
            Some(text) => res is Err && is_network(res->Err_0, text),
            None => res matches Ok(tx) && {
                &&& tx.hash == tx_hash
                &&& tx.ops@ == ops@
                &&& tx.proofs@ == attached(
                    ops@,
                    seq![OpProof::Ed25519Sig(signature)],
                    transfer_proof,
                )
            },
        },
{
    let mut channel_proofs: Vec<OpProof> = Vec::new();
    channel_proofs.push(OpProof::Ed25519Sig(signature));
    assert(channel_proofs@ =~= seq![OpProof::Ed25519Sig(signature)]);
    match attach_transfer_proof(ops.as_slice(), channel_proofs, transfer_proof) {
        Ok(proofs) => Ok(SignedOps::new(tx_hash, ops, proofs)),
        Err(err) => Err(err),
    }
}

/// The ops of a transaction with an inscription appended to those of the
/// caller. `id` is the inscription's message id.
pub fn prepare_tx(
    ops: Vec<Op>,
    channel_id: ChannelId,
    signer: Ed25519PublicKey,
    inscription: Inscription,
    parent: MsgId,
    id: MsgId,
) -> (res: Vec<Op>)
    ensures
        res@ == ops@.push(
            Op::ChannelInscribe(InscriptionOp { channel_id, inscription, parent, signer, id }),
        ),
{
    let mut res = ops;
    res.push(Op::ChannelInscribe(InscriptionOp { channel_id, inscription, parent, signer, id }));
    res
}

/// The texts of a list of messages.
pub open spec fn texts(messages: Seq<String>) -> Seq<Seq<char>> {
    messages.map_values(|s: String| s@)
}

pub open spec fn threshold_text(prepared: ChannelKeyIndex, live: ChannelKeyIndex) -> Seq<char> {
    "transfer_threshold changed "@ + decimal(prepared as nat) + " -> "@ + decimal(live as nat)
}

pub open spec fn keys_text(prepared: nat, live: nat) -> Seq<char> {
    "accredited keys changed ("@ + decimal(prepared) + " -> "@ + decimal(live) + " keys)"@
}

pub open spec fn parent_text(prepared: MsgId, live: MsgId) -> Seq<char> {
    "inscription parent "@ + id_text(prepared.0) + " is no longer the publish tip "@ + id_text(
        live.0,
    )
}

pub open spec fn if_so(holds: bool, text: Seq<char>) -> Seq<Seq<char>> {
    if holds {
        seq![text]
    } else {
        Seq::empty()
    }
}

/// Every way a prepared bundle has gone stale.
pub open spec fn stale_reasons(
    prepared_keys: Seq<Ed25519PublicKey>,
    prepared_threshold: ChannelKeyIndex,
    live_keys: Seq<Ed25519PublicKey>,
    live_threshold: ChannelKeyIndex,
    prepared_parent: MsgId,
    live_parent: MsgId,
) -> Seq<Seq<char>> {
    if_so(
        prepared_threshold != live_threshold,
        threshold_text(prepared_threshold, live_threshold),
    ) + if_so(prepared_keys != live_keys, keys_text(prepared_keys.len(), live_keys.len())) + if_so(
        prepared_parent != live_parent,
        parent_text(prepared_parent, live_parent),
    )
}

fn same_keys(a: &[Ed25519PublicKey], b: &[Ed25519PublicKey]) -> (res: bool)
    ensures
        res == (a@ == b@),
{
    if a.len() != b.len() {
        return false;
    }
    let mut i: usize = 0;
    while i < a.len()
        invariant
            i <= a@.len() == b@.len(),
            forall|j: int| 0 <= j < i ==> a@[j] == b@[j],
        decreases a@.len() - i,
    {
        if a[i] != b[i] {
            return false;
        }
        i = i + 1;
    }
    assert(a@ =~= b@);
    true
}

/// Every way a prepared bundle has gone stale since it was prepared, empty when
/// it can still land as built: the keys or the threshold that the signatures
/// were collected under moved, or the inscription's parent is no longer the one
/// that would be picked now.
pub fn stale_bundle_reasons(
    prepared_keys: &[Ed25519PublicKey],
    prepared_threshold: ChannelKeyIndex,
    live_keys: &[Ed25519PublicKey],
    live_threshold: ChannelKeyIndex,
    prepared_parent: MsgId,
    live_parent: MsgId,
) -> (res: Vec<String>)
    ensures
        texts(res@) == stale_reasons(
            prepared_keys@,
            prepared_threshold,
            live_keys@,
            live_threshold,
            prepared_parent,
            live_parent,
        ),
{
    let mut reasons: Vec<String> = Vec::new();
    if prepared_threshold != live_threshold {
        let mut text = "transfer_threshold changed ".to_string();
        push_decimal(&mut text, prepared_threshold as u64);
        text.append(" -> ");
        push_decimal(&mut text, live_threshold as u64);
        reasons.push(text);
    }
    if !same_keys(prepared_keys, live_keys) {
        let mut text = "accredited keys changed (".to_string();
        push_decimal(&mut text, prepared_keys.len() as u64);
        text.append(" -> ");
        push_decimal(&mut text, live_keys.len() as u64);
        text.append(" keys)");
        reasons.push(text);
    }
    if prepared_parent != live_parent {
        let mut text = "inscription parent ".to_string();
        text.append(id_string(&prepared_parent.0).as_str());
        text.append(" is no longer the publish tip ");
        text.append(id_string(&live_parent.0).as_str());
        reasons.push(text);
    }
    proof {
        assert(texts(reasons@) =~= stale_reasons(
            prepared_keys@,
            prepared_threshold,
            live_keys@,
            live_threshold,
            prepared_parent,
            live_parent,
        ));
    }
    reasons
}

/// A bundle is fresh exactly when neither the keys, nor the threshold, nor the
/// parent moved.
pub proof fn law_fresh_iff_nothing_moved(
    prepared_keys: Seq<Ed25519PublicKey>,
    prepared_threshold: ChannelKeyIndex,
    live_keys: Seq<Ed25519PublicKey>,
    live_threshold: ChannelKeyIndex,
    prepared_parent: MsgId,
    live_parent: MsgId,
)
    ensures
        stale_reasons(
            prepared_keys,
            prepared_threshold,
            live_keys,
            live_threshold,
            prepared_parent,
            live_parent,
        ).len() == 0 <==> prepared_keys == live_keys && prepared_threshold == live_threshold
            && prepared_parent == live_parent,
{
}

pub open spec fn count_text(count: nat, threshold: ChannelKeyIndex) -> Seq<char> {
    "signature count "@ + decimal(count) + " does not match transfer_threshold "@ + decimal(
        threshold as nat,
    )
}

pub open spec fn order_text(index: ChannelKeyIndex, prev: ChannelKeyIndex) -> Seq<char> {
    "indices must be strictly ascending, got "@ + decimal(index as nat) + " after "@ + decimal(
        prev as nat,
    )
}

pub open spec fn range_text(index: ChannelKeyIndex, keys: nat) -> Seq<char> {
    "index "@ + decimal(index as nat) + " is outside the "@ + decimal(keys)
        + " accredited keys"@
}

pub open spec fn verify_text(index: ChannelKeyIndex) -> Seq<char> {
    "signature at index "@ + decimal(index as nat)
        + " does not verify against the accredited key"@
}

/// What is wrong with the signature at `i`.
pub open spec fn signature_problems(
    keys: nat,
    signatures: Seq<IndexedSignature>,
    verifies: Seq<bool>,
    i: int,
) -> Seq<Seq<char>> {
    let index = signatures[i].channel_key_index;
    let prev = signatures[i - 1].channel_key_index;
    if_so(i > 0 && prev >= index, order_text(index, prev)) + if index >= keys {
        seq![range_text(index, keys)]
    } else {
        if_so(!verifies[i], verify_text(index))
    }
}

/// What is wrong with the first `n` signatures.
pub open spec fn problems_of_first(
    keys: nat,
    signatures: Seq<IndexedSignature>,
    verifies: Seq<bool>,
    n: int,
) -> Seq<Seq<char>>
    decreases n,
{
    if n <= 0 {
        Seq::empty()
    } else {
        problems_of_first(keys, signatures, verifies, n - 1) + signature_problems(
            keys,
            signatures,
            verifies,
            n - 1,
        )
    }
}

/// Everything wrong with a set of signatures.
pub open spec fn multi_sig_problems(
    keys: nat,
    threshold: ChannelKeyIndex,
    signatures: Seq<IndexedSignature>,
    verifies: Seq<bool>,
) -> Seq<Seq<char>> {
    if_so(signatures.len() != threshold, count_text(signatures.len(), threshold))
        + problems_of_first(keys, signatures, verifies, signatures.len() as int)
}

/// The first `n` signatures have strictly ascending indices of accredited keys
/// and are each valid for the key at their index.
pub open spec fn first_hold(
    keys: nat,
    signatures: Seq<IndexedSignature>,
    verifies: Seq<bool>,
    n: int,
) -> bool {
    &&& forall|i: int, j: int|
        0 <= i < j < n ==> (#[trigger] signatures[i]).channel_key_index < (
        #[trigger] signatures[j]).channel_key_index
    &&& forall|i: int|
        0 <= i < n ==> (#[trigger] signatures[i]).channel_key_index < keys && verifies[i]
}

/// A set of signatures that the ledger accepts: exactly `threshold` of them,
/// with strictly ascending indices of accredited keys, each valid for the key
/// at its index.
pub open spec fn acceptable(
    keys: nat,
    threshold: ChannelKeyIndex,
    signatures: Seq<IndexedSignature>,
    verifies: Seq<bool>,
) -> bool {
    &&& signatures.len() == threshold
    &&& first_hold(keys, signatures, verifies, signatures.len() as int)
}

proof fn lemma_no_problem_in_first(
    keys: nat,
    signatures: Seq<IndexedSignature>,
    verifies: Seq<bool>,
    n: int,
)
    requires
        0 <= n <= signatures.len(),
    ensures
        problems_of_first(keys, signatures, verifies, n).len() == 0 <==> first_hold(
            keys,
            signatures,
            verifies,
            n,
        ),
    decreases n,
{
    if n > 0 {
        lemma_no_problem_in_first(keys, signatures, verifies, n - 1);
        let before = problems_of_first(keys, signatures, verifies, n - 1);
        let last = signature_problems(keys, signatures, verifies, n - 1);
        assert(problems_of_first(keys, signatures, verifies, n) == before + last);
        assert((before + last).len() == before.len() + last.len());
        if before.len() == 0 && last.len() == 0 {
            assert forall|i: int, j: int| 0 <= i < j < n implies (
            #[trigger] signatures[i]).channel_key_index < (
            #[trigger] signatures[j]).channel_key_index by {
                if j == n - 1 && i < n - 2 {
                    assert(signatures[i].channel_key_index < signatures[n - 2].channel_key_index);
                }
            }
        }
        if first_hold(keys, signatures, verifies, n) {
            assert(first_hold(keys, signatures, verifies, n - 1));
            assert(signatures[n - 1].channel_key_index < keys);
            if n > 1 {
                assert(signatures[n - 2].channel_key_index < signatures[n - 1].channel_key_index);
            }
            assert(last.len() == 0);
        }
    }
}

/// There is no problem to report exactly where the ledger accepts the set.
pub proof fn law_acceptable_iff_no_problem(
    keys: nat,
    threshold: ChannelKeyIndex,
    signatures: Seq<IndexedSignature>,
    verifies: Seq<bool>,
)
    ensures
        multi_sig_problems(keys, threshold, signatures, verifies).len() == 0 <==> acceptable(
            keys,
            threshold,
            signatures,
            verifies,
        ),
{
    lemma_no_problem_in_first(keys, signatures, verifies, signatures.len() as int);
}

/// Texts with a separator between each two.
pub open spec fn joined(parts: Seq<Seq<char>>, separator: Seq<char>) -> Seq<char>
    decreases parts.len(),
{
    if parts.len() == 0 {
        Seq::empty()
    } else if parts.len() == 1 {
        parts[0]
    } else {
        joined(parts.drop_last(), separator) + separator + parts.last()
    }
}

fn join(parts: &Vec<String>, separator: &str) -> (res: String)
    ensures
        res@ == joined(texts(parts@), separator@),
{
    let mut res = String::new();
    let mut i: usize = 0;
    while i < parts.len()
        invariant
            i <= parts@.len(),
            res@ == joined(texts(parts@).take(i as int), separator@),
        decreases parts@.len() - i,
    {
        let ghost all = texts(parts@);
        let ghost before = res@;
        if i > 0 {
            res.append(separator);
        }
        res.append(parts[i].as_str());
        proof {
            assert(all.take(i + 1).drop_last() =~= all.take(i as int));
            assert(all.take(i + 1).last() == parts@[i as int]@);
            if i == 0 {
                assert(before =~= Seq::empty());
                assert(res@ =~= all.take(1)[0]);
            } else {
                assert(res@ =~= before + separator@ + parts@[i as int]@);
            }
        }
        i = i + 1;
    }
    assert(texts(parts@).take(i as int) =~= texts(parts@));
    res
}

fn count_problem(count: usize, threshold: ChannelKeyIndex) -> (res: String)
    ensures
        res@ == count_text(count as nat, threshold),
{
    let mut text = "signature count ".to_string();
    push_decimal(&mut text, count as u64);
    text.append(" does not match transfer_threshold ");
    push_decimal(&mut text, threshold as u64);
    text
}

fn order_problem(index: ChannelKeyIndex, prev: ChannelKeyIndex) -> (res: String)
    ensures
        res@ == order_text(index, prev),
{
    let mut text = "indices must be strictly ascending, got ".to_string();
    push_decimal(&mut text, index as u64);
    text.append(" after ");
    push_decimal(&mut text, prev as u64);
    text
}

fn range_problem(index: ChannelKeyIndex, keys: usize) -> (res: String)
    ensures
        res@ == range_text(index, keys as nat),
{
    let mut text = "index ".to_string();
    push_decimal(&mut text, index as u64);
    text.append(" is outside the ");
    push_decimal(&mut text, keys as u64);
    text.append(" accredited keys");
    text
}

fn verify_problem(index: ChannelKeyIndex) -> (res: String)
    ensures
        res@ == verify_text(index),
{
    let mut text = "signature at index ".to_string();
    push_decimal(&mut text, index as u64);
    text.append(" does not verify against the accredited key");
    text
}

/// Checks collected signatures against the accredited keys, as the ledger will:
/// a proof that cannot land fails here and does not park among the pending
/// transactions. `verifies[i]` says whether `signatures[i]` is valid for the
/// key at its index. Every problem found is reported.
pub fn validate_multi_sig(
    accredited_keys: &[Ed25519PublicKey],
    threshold: ChannelKeyIndex,
    signatures: &[IndexedSignature],
    verifies: &[bool],
) -> (res: Result<(), Error>)
    requires
        verifies@.len() == signatures@.len(),
    ensures
        res is Ok <==> acceptable(accredited_keys@.len(), threshold, signatures@, verifies@),
        res matches Err(err) ==> err matches Error::InvalidMultiSig(text) && text@ == joined(
            multi_sig_problems(accredited_keys@.len(), threshold, signatures@, verifies@),
            "; "@,
        ),
{
    let ghost keys = accredited_keys@.len();
    let mut problems: Vec<String> = Vec::new();
    if signatures.len() != threshold as usize {
        problems.push(count_problem(signatures.len(), threshold));
    }
    let ghost counted = texts(problems@);
    assert(counted =~= if_so(
        signatures@.len() != threshold,
        count_text(signatures@.len(), threshold),
    ));
    assert(counted =~= counted + problems_of_first(keys, signatures@, verifies@, 0));
    let mut i: usize = 0;
    while i < signatures.len()
        invariant
            i <= signatures@.len(),
            verifies@.len() == signatures@.len(),
            keys == accredited_keys@.len(),
            texts(problems@) == counted + problems_of_first(
                keys,
                signatures@,
                verifies@,
                i as int,
            ),
        decreases signatures@.len() - i,
    {
        let ghost before = texts(problems@);
        let index: ChannelKeyIndex = signatures[i].channel_key_index;
        if i > 0 {
            let prev: ChannelKeyIndex = signatures[i - 1].channel_key_index;
            if prev >= index {
                problems.push(order_problem(index, prev));
            }
        }
        if index as usize >= accredited_keys.len() {
            problems.push(range_problem(index, accredited_keys.len()));
        } else if !verifies[i] {
            problems.push(verify_problem(index));
        }
        assert(texts(problems@) =~= before + signature_problems(
            keys,
            signatures@,
            verifies@,
            i as int,
        ));
        assert(texts(problems@) =~= counted + problems_of_first(
            keys,
            signatures@,
            verifies@,
            i + 1,
        ));
        i = i + 1;
    }
    proof {
        law_acceptable_iff_no_problem(keys, threshold, signatures@, verifies@);
        assert(texts(problems@).len() == problems@.len());
    }
    if problems.len() == 0 {
        Ok(())
    } else {
        Err(Error::InvalidMultiSig(join(&problems, "; ")))
    }
}

/// The position of a key's first occurrence.
pub(crate) fn key_position(keys: &[Ed25519PublicKey], key: &Ed25519PublicKey) -> (res: Option<usize>)
    ensures
        match res {
            Some(i) => keys@.index_of_first(*key) == Some(i as int),
            None => keys@.index_of_first(*key) is None,
        },
        res matches Some(i) ==> i < keys@.len() && keys@[i as int] == *key,
{
    let mut i: usize = 0;
    while i < keys.len()
        invariant
            i <= keys@.len(),
            forall|j: int| 0 <= j < i ==> keys@[j] != *key,
        decreases keys@.len() - i,
    {
        if keys[i] == *key {
            proof {
                keys@.index_of_first_ensures(*key);
                assert(keys@.contains(keys@[i as int]));
            }
            return Some(i);
        }
        i = i + 1;
    }
    proof {
        keys@.index_of_first_ensures(*key);
    }
    None
}

/// Why a key cannot sign a prepared payload.
pub open spec fn sign_failure(position: Option<int>) -> Option<Seq<char>> {
    match position {
        None => Some("key not in the prepared accredited set"@),
        Some(i) => if i > u16::MAX {
            Some("accredited key index exceeds u16"@)
        } else {
            None
        },
    }
}

/// A signature over a prepared payload, indexed by the position of its key in
/// the accredited list.
pub fn sign_prepared(
    own_key: Ed25519PublicKey,
    accredited_keys: &[Ed25519PublicKey],
    signature: Ed25519Signature,
) -> (res: Result<IndexedSignature, Error>)
    ensures
        match sign_failure(accredited_keys@.index_of_first(own_key)) {
            Some(text) => res is Err && is_network(res->Err_0, text),
            None => res is Ok && res->Ok_0.signature == signature
                && accredited_keys@.index_of_first(own_key) == Some(
                res->Ok_0.channel_key_index as int,
            ),
        },
{
    match key_position(accredited_keys, &own_key) {
        None => Err(Error::Network("key not in the prepared accredited set".to_string())),
        Some(i) => {
            if i > u16::MAX as usize {
                Err(Error::Network("accredited key index exceeds u16".to_string()))
            } else {
                Ok(IndexedSignature { channel_key_index: i as u16, signature })
            }
        },
    }
}

/// The position of the sequencer's key among the channel's accredited keys; a
/// position of 65536 and more keeps its low sixteen bits.
pub fn find_own_key_index(channel_state: &ChannelState, own_key: &Ed25519PublicKey) -> (res: Result<
    ChannelKeyIndex,
    Error,
>)
    ensures
        match channel_state.accredited_keys@.index_of_first(*own_key) {
            Some(i) => res == Ok::<ChannelKeyIndex, Error>(i as ChannelKeyIndex),
            None => res is Err && is_network(
                res->Err_0,
                "sequencer key not in channel accredited_keys"@,
            ),
        },
{
    match key_position(channel_state.accredited_keys.as_slice(), own_key) {
        Some(i) => Ok(#[verifier::truncate] (i as ChannelKeyIndex)),
        None => Err(Error::Network("sequencer key not in channel accredited_keys".to_string())),
    }
}

/// The proof of one op of an inscription bundled with withdraws under one
/// signature.
pub open spec fn withdraw_bundle_proof(
    op: Op,
    signature: Ed25519Signature,
    withdraw_proof: Arc<Vec<IndexedSignature>>,
) -> Result<OpProof, Seq<char>> {
    match op {
        Op::ChannelWithdraw(_) => Ok(OpProof::ChannelMultiSigProof(withdraw_proof)),
        Op::ChannelInscribe(_) => Ok(OpProof::Ed25519Sig(signature)),
        _ => Err("unexpected op in atomic withdraw bundle: "@ + op_name(op)),
    }
}

pub open spec fn withdraw_bundle_proof_of(
    signature: Ed25519Signature,
    withdraw_proof: Arc<Vec<IndexedSignature>>,
) -> spec_fn(Op) -> Result<OpProof, Seq<char>> {
    |op: Op| withdraw_bundle_proof(op, signature, withdraw_proof)
}

/// Per-op proofs of an inscription bundled with withdraws, all under the one
/// signature of the key at `own_key_index`.
pub fn build_atomic_withdraw_ops_proofs(
    ops: &[Op],
    own_key_index: ChannelKeyIndex,
    own_sig: Ed25519Signature,
) -> (res: Result<Vec<OpProof>, Error>)
    ensures
        exists|shared: Arc<Vec<IndexedSignature>>| #[trigger]
            shared@ == seq![IndexedSignature { channel_key_index: own_key_index, signature: own_sig }]
                && match each_proof(ops@, withdraw_bundle_proof_of(own_sig, shared)) {
                Ok(proofs) => res is Ok && res->Ok_0@ == proofs,
                Err(text) => res is Err && is_network(res->Err_0, text),
            },
{
    let mut signatures: Vec<IndexedSignature> = Vec::new();
    signatures.push(IndexedSignature { channel_key_index: own_key_index, signature: own_sig });
    let withdraw_proof = Arc::new(signatures);
    assert(withdraw_proof@ =~= seq![
        IndexedSignature { channel_key_index: own_key_index, signature: own_sig },
    ]);
    let ghost f = withdraw_bundle_proof_of(own_sig, withdraw_proof);
    let mut proofs: Vec<OpProof> = Vec::new();
    let mut i: usize = 0;
    assert(ops@.take(0) =~= Seq::empty());
    while i < ops.len()
        invariant
            i <= ops@.len(),
            f == withdraw_bundle_proof_of(own_sig, withdraw_proof),
            withdraw_proof@ == seq![
                IndexedSignature { channel_key_index: own_key_index, signature: own_sig },
            ],
            each_proof(ops@.take(i as int), f) == Ok::<Seq<OpProof>, Seq<char>>(proofs@),
        decreases ops@.len() - i,
    {
        assert(ops@.take(i + 1).drop_last() =~= ops@.take(i as int));
        match &ops[i] {
            Op::ChannelWithdraw(_) => {
                proofs.push(OpProof::ChannelMultiSigProof(Arc::clone(&withdraw_proof)));
            },
            Op::ChannelInscribe(_) => {
                proofs.push(OpProof::Ed25519Sig(own_sig));
            },
            _ => {
                let text = "unexpected op in atomic withdraw bundle: ".to_string().concat(
                    name_of(&ops[i]),
                );
                proof {
                    lemma_each_proof_fails(ops@, f, i + 1);
                    assert(withdraw_proof@ == seq![
                        IndexedSignature { channel_key_index: own_key_index, signature: own_sig },
                    ]);
                }
                return Err(Error::Network(text));
            },
        }
        i = i + 1;
    }
    assert(ops@.take(i as int) =~= ops@);
    Ok(proofs)
}

/// Ops for the withdraws of a bundle: on the channel, in the order asked for,
/// paying out what was asked for, under consecutive nonces.
pub open spec fn numbers(
    ops: Seq<ChannelWithdrawOp>,
    channel_id: ChannelId,
    withdraws: Seq<WithdrawArg>,
    nonce: u32,
) -> bool {
    &&& ops.len() == withdraws.len()
    &&& forall|i: int|
        0 <= i < ops.len() ==> {
            &&& (#[trigger] ops[i]).channel_id == channel_id
            &&& ops[i].inputs@ == Seq::<NoteId>::empty()
            &&& ops[i].outputs == withdraws[i].outputs
            &&& ops[i].withdraw_nonce == nonce + i
        }
}

/// Why withdraws cannot be bundled with an inscription under one signature, in
/// the order in which it is checked.
pub open spec fn bundle_failure(
    withdraws: nat,
    threshold: ChannelKeyIndex,
    key_position: Option<int>,
) -> Option<Seq<char>> {
    if withdraws == 0 {
        Some("publish_atomic_withdraw requires at least one withdraw"@)
    } else if threshold > 1 {
        Some(
            "publish_atomic_withdraw requires withdraw_threshold == 1, got "@ + decimal(
                threshold as nat,
            ),
        )
    } else if key_position is None {
        Some("sequencer key not in channel accredited_keys"@)
    } else {
        None
    }
}

/// The index of the key that signs a bundle of an inscription with withdraws.
pub fn bundle_signer(
    withdraws: usize,
    channel_state: &ChannelState,
    own_key: &Ed25519PublicKey,
) -> (res: Result<ChannelKeyIndex, Error>)
    ensures
        ({
            let position = channel_state.accredited_keys@.index_of_first(*own_key);
            match bundle_failure(withdraws as nat, channel_state.transfer_threshold, position) {
                Some(text) => res is Err && is_network(res->Err_0, text),
                None => res == Ok::<ChannelKeyIndex, Error>(position->0 as ChannelKeyIndex),
            }
        }),
{
    if withdraws == 0 {
        return Err(
            Error::Network("publish_atomic_withdraw requires at least one withdraw".to_string()),
        );
    }
    if channel_state.transfer_threshold > 1 {
        let mut text =
            "publish_atomic_withdraw requires withdraw_threshold == 1, got ".to_string();
        push_decimal(&mut text, channel_state.transfer_threshold as u64);
        return Err(Error::Network(text));
    }
    find_own_key_index(channel_state, own_key)
}

/// Why withdraws cannot be numbered for a bundle.
pub open spec fn withdraw_failure(
    withdraws: nat,
    threshold: ChannelKeyIndex,
    key_position: Option<int>,
    nonce: u32,
) -> Option<Seq<char>> {
    match bundle_failure(withdraws, threshold, key_position) {
        Some(text) => Some(text),
        None => if nonce + withdraws > u32::MAX {
            Some("withdraw nonce overflow"@)
        } else {
            None
        },
    }
}

/// The ops for the withdraws of a bundle, numbered from the channel's next
/// withdraw nonce, and the index of the key that signs them. The nonce that
/// follows the bundle must exist too.
pub fn number_withdraws(
    withdraws: &[WithdrawArg],
    channel_id: ChannelId,
    channel_state: &ChannelState,
    own_key: &Ed25519PublicKey,
) -> (res: Result<(Vec<ChannelWithdrawOp>, ChannelKeyIndex), Error>)
    ensures
        match withdraw_failure(
            withdraws@.len(),
            channel_state.transfer_threshold,
            channel_state.accredited_keys@.index_of_first(*own_key),
            channel_state.withdrawal_nonce,
        ) {
            Some(text) => res is Err && is_network(res->Err_0, text),
            None => res matches Ok((ops, index)) && {
                &&& numbers(ops@, channel_id, withdraws@, channel_state.withdrawal_nonce)
                &&& index == channel_state.accredited_keys@.index_of_first(*own_key)->0
                    as ChannelKeyIndex
            },
        },
{
    let index: ChannelKeyIndex = match bundle_signer(withdraws.len(), channel_state, own_key) {
        Ok(index) => index,
        Err(err) => return Err(err),
    };
    let nonce: u32 = channel_state.withdrawal_nonce;
    let mut ops: Vec<ChannelWithdrawOp> = Vec::new();
    let mut next: u32 = nonce;
    let mut i: usize = 0;
    while i < withdraws.len()
        invariant
            i <= withdraws@.len(),
            next == nonce + i,
            nonce == channel_state.withdrawal_nonce,
            ops@.len() == i,
            numbers(ops@, channel_id, withdraws@.take(i as int), nonce),
            withdraws@.len() > 0,
            channel_state.transfer_threshold <= 1,
            channel_state.accredited_keys@.index_of_first(*own_key) is Some,
        decreases withdraws@.len() - i,
    {
        let ghost before = ops@;
        ops.push(
            ChannelWithdrawOp {
                channel_id,
                inputs: Inputs::new(Vec::new()),
                outputs: withdraws[i].outputs.clone(),
                withdraw_nonce: next,
            },
        );
        next = match next.checked_add(1) {
            Some(next) => next,
            None => return Err(Error::Network("withdraw nonce overflow".to_string())),
        };
        i = i + 1;
        assert forall|j: int| 0 <= j < ops@.len() implies {
            &&& (#[trigger] ops@[j]).channel_id == channel_id
            &&& ops@[j].inputs@ == Seq::<NoteId>::empty()
            &&& ops@[j].outputs == withdraws@.take(i as int)[j].outputs
            &&& ops@[j].withdraw_nonce == nonce + j
        } by {
            if j < before.len() {
                assert(ops@[j] == before[j]);
                assert(withdraws@.take(i - 1)[j] == withdraws@.take(i as int)[j]);
            }
        }
    }
    assert(withdraws@.take(i as int) =~= withdraws@);
    Ok((ops, index))
}

pub open spec fn outputs_of() -> spec_fn(WithdrawArg) -> Seq<Note> {
    |arg: WithdrawArg| arg.outputs@
}

/// What the withdraws of a bundle pay out together, in order.
pub fn joined_outputs(withdraws: &[WithdrawArg]) -> (res: Outputs)
    ensures
        res@ == withdraws@.flat_map(outputs_of()),
{
    let mut notes: Vec<Note> = Vec::new();
    let ghost f = outputs_of();
    let mut i: usize = 0;
    while i < withdraws.len()
        invariant
            i <= withdraws@.len(),
            f == outputs_of(),
            notes@ == withdraws@.take(i as int).flat_map(f),
        decreases withdraws@.len() - i,
    {
        proof {
            withdraws@.lemma_flat_map_take_append(f, i as int);
        }
        let ghost before = notes@;
        match &withdraws[i].outputs.notes {
            Some(more) => {
                let mut k: usize = 0;
                assert(before + more@.take(0) =~= before);
                while k < more.len()
                    invariant
                        k <= more@.len(),
                        notes@ == before + more@.take(k as int),
                    decreases more@.len() - k,
                {
                    notes.push(more[k]);
                    assert(notes@ =~= before + more@.take(k + 1));
                    k = k + 1;
                }
                assert(more@.take(k as int) =~= more@);
            },
            None => {
                assert(before + Seq::<Note>::empty() =~= before);
            },
        }
        i = i + 1;
    }
    assert(withdraws@.take(i as int) =~= withdraws@);
    Outputs::new(notes)
}

} // verus!
