//! What transactions are made of: their proofs, and why a set of signatures or a
//! bundle is refused.

use std::sync::Arc;
use vstd::prelude::*;

use crate::ids::{Ed25519PublicKey, MsgId};
use crate::mantle::{ChannelKeyIndex, Ed25519Signature, IndexedSignature, Op, OpProof};
use crate::sequencer::tx_builder::{
    acceptable, attach_failure, attached, bundle_proof_of, count_text, each_proof, joined,
    keys_text, law_each_op_proven, multi_sig_problems, order_text, parent_text, problems_of_first,
    range_text, signature_problems, stale_reasons, threshold_text, transfer_count, verify_text,
    withdraw_bundle_proof_of, withdraw_failure,
};

verus! {

// Proofs.

/// A funded transaction keeps the proofs of its channel operations in front and
/// gets one more for its ledger transfer, at the end; without a transfer it gets
/// none. It is refused exactly where it has more than one transfer, or one
/// without a proof.
pub proof fn law_transfer_is_proven_last(
    ops: Seq<Op>,
    channel_proofs: Seq<OpProof>,
    transfer_proof: Option<OpProof>,
)
    ensures
        ({
            let transfers = transfer_count(ops);
            let all = attached(ops, channel_proofs, transfer_proof);
            &&& attach_failure(transfers, transfer_proof is Some) is None <==> transfers == 0 || (
            transfers == 1 && transfer_proof is Some)
            &&& transfers == 0 ==> all == channel_proofs
            &&& attach_failure(transfers, transfer_proof is Some) is None ==> all.len()
                == channel_proofs.len() + transfers
            &&& transfers == 1 && transfer_proof is Some ==> all.last() == transfer_proof->0
                && all.drop_last() == channel_proofs
        }),
{
    if transfer_count(ops) == 1 {
        assert(attached(ops, channel_proofs, transfer_proof).drop_last() =~= channel_proofs);
    }
}

proof fn lemma_each_proof_fails(
    ops: Seq<Op>,
    f: spec_fn(Op) -> Result<OpProof, Seq<char>>,
    i: int,
)
    ensures
        (forall|k: int| 0 <= k < ops.len() ==> f(#[trigger] ops[k]) is Ok) ==> each_proof(
            ops,
            f,
        ) is Ok,
        0 <= i < ops.len() && f(ops[i]) is Err && (forall|k: int|
            0 <= k < i ==> f(#[trigger] ops[k]) is Ok) ==> each_proof(ops, f) == Err::<
            Seq<OpProof>,
            Seq<char>,
        >(f(ops[i])->Err_0),
    decreases ops.len(),
{
    if ops.len() > 0 {
        let front = ops.drop_last();
        lemma_each_proof_fails(front, f, i);
        assert(ops[ops.len() - 1] == ops.last());
        assert forall|k: int| 0 <= k < front.len() implies front[k] == #[trigger] ops[k] by {
        }
    }
}

/// The operation can stand in an atomic bundle.
pub open spec fn can_bundle(op: Op, funded: bool) -> bool {
    op is ChannelTransfer || op is ChannelWithdraw || op is ChannelInscribe || (op is Transfer
        && funded)
}

/// An atomic bundle has one proof per operation: the channel's signatures for a
/// channel transfer or a withdraw, the inscriber's for a message, and the given
/// one for the ledger transfer. It is refused exactly where an operation cannot
/// stand in it, for the first such one.
pub proof fn law_bundle_is_proven_op_by_op(
    ops: Seq<Op>,
    inscribe_sig: Ed25519Signature,
    channel_proof: Arc<Vec<IndexedSignature>>,
    transfer_proof: Option<OpProof>,
    i: int,
)
    ensures
        ({
            let f = bundle_proof_of(inscribe_sig, channel_proof, transfer_proof);
            let res = each_proof(ops, f);
            &&& res is Ok <==> forall|k: int|
                0 <= k < ops.len() ==> can_bundle(#[trigger] ops[k], transfer_proof is Some)
            &&& res matches Ok(proofs) ==> proofs.len() == ops.len() && (0 <= i < ops.len() ==> {
                &&& ops[i] is ChannelTransfer || ops[i] is ChannelWithdraw ==> proofs[i]
                    == OpProof::ChannelMultiSigProof(channel_proof)
                &&& ops[i] is ChannelInscribe ==> proofs[i] == OpProof::Ed25519Sig(inscribe_sig)
                &&& ops[i] is Transfer ==> Some(proofs[i]) == transfer_proof
            })
        }),
{
    let f = bundle_proof_of(inscribe_sig, channel_proof, transfer_proof);
    assert forall|op: Op| #[trigger] f(op) is Ok <==> can_bundle(op, transfer_proof is Some) by {
    }
    lemma_each_proof_fails(ops, f, 0);
    law_each_op_proven(ops, f);
    if each_proof(ops, f) is Ok {
        assert forall|k: int| 0 <= k < ops.len() implies can_bundle(
            #[trigger] ops[k],
            transfer_proof is Some,
        ) by {
            assert(f(ops[k]) is Ok);
        }
        if 0 <= i < ops.len() {
            assert(f(ops[i]) is Ok);
        }
    } else if forall|k: int|
        0 <= k < ops.len() ==> can_bundle(#[trigger] ops[k], transfer_proof is Some) {
        assert forall|k: int| 0 <= k < ops.len() implies f(#[trigger] ops[k]) is Ok by {
            assert(can_bundle(ops[k], transfer_proof is Some));
        }
    }
}

/// An inscription bundled with withdraws has the channel's signatures for each
/// withdraw and the signature for the inscription; no other operation goes in.
pub proof fn law_withdraw_bundle_is_proven_op_by_op(
    ops: Seq<Op>,
    signature: Ed25519Signature,
    withdraw_proof: Arc<Vec<IndexedSignature>>,
    i: int,
)
    ensures
        ({
            let res = each_proof(ops, withdraw_bundle_proof_of(signature, withdraw_proof));
            &&& res is Ok <==> forall|k: int|
                0 <= k < ops.len() ==> (#[trigger] ops[k]) is ChannelWithdraw
                    || ops[k] is ChannelInscribe
            &&& res matches Ok(proofs) ==> proofs.len() == ops.len() && (0 <= i < ops.len() ==> {
                &&& ops[i] is ChannelWithdraw ==> proofs[i] == OpProof::ChannelMultiSigProof(
                    withdraw_proof,
                )
                &&& ops[i] is ChannelInscribe ==> proofs[i] == OpProof::Ed25519Sig(signature)
            })
        }),
{
    let f = withdraw_bundle_proof_of(signature, withdraw_proof);
    assert forall|op: Op| #[trigger]
        f(op) is Ok <==> op is ChannelWithdraw || op is ChannelInscribe by {
    }
    lemma_each_proof_fails(ops, f, 0);
    law_each_op_proven(ops, f);
    if each_proof(ops, f) is Ok {
        assert forall|k: int| 0 <= k < ops.len() implies (#[trigger] ops[k]) is ChannelWithdraw
            || ops[k] is ChannelInscribe by {
            assert(f(ops[k]) is Ok);
        }
        if 0 <= i < ops.len() {
            assert(f(ops[i]) is Ok);
        }
    } else if forall|k: int|
        0 <= k < ops.len() ==> (#[trigger] ops[k]) is ChannelWithdraw || ops[k] is ChannelInscribe {
        assert forall|k: int| 0 <= k < ops.len() implies f(#[trigger] ops[k]) is Ok by {
            assert(ops[k] is ChannelWithdraw || ops[k] is ChannelInscribe);
        }
    }
}

// Signatures.

/// A set of signatures is accepted exactly where it has as many as the threshold
/// asks for, of accredited keys, no key twice and in the order of the keys, and
/// each verifies.
pub proof fn law_accepted_signatures_are_of_different_keys(
    keys: nat,
    threshold: ChannelKeyIndex,
    signatures: Seq<IndexedSignature>,
    verifies: Seq<bool>,
)
    ensures
        acceptable(keys, threshold, signatures, verifies) <==> {
            &&& signatures.len() == threshold
            &&& forall|i: int|
                0 <= i < signatures.len() ==> (#[trigger] signatures[i]).channel_key_index < keys
            &&& forall|i: int| 0 <= i < signatures.len() ==> #[trigger] verifies[i]
            &&& forall|i: int, j: int|
                0 <= i < j < signatures.len() ==> (#[trigger] signatures[i]).channel_key_index < (
                #[trigger] signatures[j]).channel_key_index
        },
{
    if acceptable(keys, threshold, signatures, verifies) {
        assert forall|i: int| 0 <= i < signatures.len() implies #[trigger] verifies[i] by {
            assert(signatures[i].channel_key_index < keys);
        }
    }
}

proof fn lemma_problem_is_listed(
    keys: nat,
    signatures: Seq<IndexedSignature>,
    verifies: Seq<bool>,
    n: int,
    i: int,
    text: Seq<char>,
)
    requires
        0 <= i < n <= signatures.len(),
        signature_problems(keys, signatures, verifies, i).contains(text),
    ensures
        problems_of_first(keys, signatures, verifies, n).contains(text),
    decreases n,
{
    let before = problems_of_first(keys, signatures, verifies, n - 1);
    let here = signature_problems(keys, signatures, verifies, n - 1);
    let all = problems_of_first(keys, signatures, verifies, n);
    assert(all == before + here);
    if i < n - 1 {
        lemma_problem_is_listed(keys, signatures, verifies, n - 1, i, text);
        assert(all[before.index_of(text)] == text);
    } else {
        assert(all[before.len() + here.index_of(text)] == text);
    }
}

/// Everything that is wrong with a set of signatures is reported: a count that
/// is not the threshold, first; and of each signature an index that does not
/// rise, one that no key has, or else that it does not verify.
pub proof fn law_every_signature_problem_is_reported(
    keys: nat,
    threshold: ChannelKeyIndex,
    signatures: Seq<IndexedSignature>,
    verifies: Seq<bool>,
    i: int,
)
    requires
        0 <= i < signatures.len(),
    ensures
        ({
            let all = multi_sig_problems(keys, threshold, signatures, verifies);
            let index = signatures[i].channel_key_index;
            &&& signatures.len() != threshold ==> all.len() > 0 && all[0] == count_text(
                signatures.len(),
                threshold,
            )
            &&& i > 0 && signatures[i - 1].channel_key_index >= index ==> all.contains(
                order_text(index, signatures[i - 1].channel_key_index),
            )
            &&& index >= keys ==> all.contains(range_text(index, keys))
            &&& index < keys && !verifies[i] ==> all.contains(verify_text(index))
        }),
{
    let n = signatures.len() as int;
    let all = multi_sig_problems(keys, threshold, signatures, verifies);
    let rest = problems_of_first(keys, signatures, verifies, n);
    let head = all.len() - rest.len();
    let here = signature_problems(keys, signatures, verifies, i);
    let index = signatures[i].channel_key_index;
    assert forall|text: Seq<char>| rest.contains(text) implies all.contains(text) by {
        assert(all[head + rest.index_of(text)] == text);
    }
    if i > 0 && signatures[i - 1].channel_key_index >= index {
        let text = order_text(index, signatures[i - 1].channel_key_index);
        assert(here[0] == text);
        lemma_problem_is_listed(keys, signatures, verifies, n, i, text);
    }
    if index >= keys {
        let text = range_text(index, keys);
        assert(here[here.len() - 1] == text);
        lemma_problem_is_listed(keys, signatures, verifies, n, i, text);
    } else if !verifies[i] {
        let text = verify_text(index);
        assert(here[here.len() - 1] == text);
        lemma_problem_is_listed(keys, signatures, verifies, n, i, text);
    }
}

/// Joined texts stand one behind the other with the separator between each two.
pub proof fn law_joined_texts_stand_in_order(
    parts: Seq<Seq<char>>,
    last: Seq<char>,
    separator: Seq<char>,
)
    ensures
        joined(Seq::empty(), separator) == Seq::<char>::empty(),
        joined(seq![last], separator) == last,
        parts.len() > 0 ==> joined(parts.push(last), separator) == joined(parts, separator)
            + separator + last,
{
    assert(parts.push(last).drop_last() =~= parts);
}

// Refusals.

/// A bundle that went stale says how, in this order: the threshold, the keys, the
/// parent; each exactly where it moved.
pub proof fn law_each_move_is_a_reason(
    prepared_keys: Seq<Ed25519PublicKey>,
    prepared_threshold: ChannelKeyIndex,
    live_keys: Seq<Ed25519PublicKey>,
    live_threshold: ChannelKeyIndex,
    prepared_parent: MsgId,
    live_parent: MsgId,
)
    ensures
        ({
            let reasons = stale_reasons(
                prepared_keys,
                prepared_threshold,
                live_keys,
                live_threshold,
                prepared_parent,
                live_parent,
            );
            let a: int = if prepared_threshold != live_threshold {
                1
            } else {
                0
            };
            let b: int = if prepared_keys != live_keys {
                1
            } else {
                0
            };
            let c: int = if prepared_parent != live_parent {
                1
            } else {
                0
            };
            &&& reasons.len() == a + b + c
            &&& a == 1 ==> reasons[0] == threshold_text(prepared_threshold, live_threshold)
            &&& b == 1 ==> reasons[a] == keys_text(prepared_keys.len(), live_keys.len())
            &&& c == 1 ==> reasons[a + b] == parent_text(prepared_parent, live_parent)
        }),
{
}

/// Withdraws can be bundled exactly where there is one, one signature is enough,
/// our key is accredited, and their nonces fit.
pub proof fn law_withdraws_bundle_where_one_signature_is_enough(
    withdraws: nat,
    threshold: ChannelKeyIndex,
    key_position: Option<int>,
    nonce: u32,
)
    ensures
        withdraw_failure(withdraws, threshold, key_position, nonce) is None <==> withdraws > 0
            && threshold <= 1 && key_position is Some && nonce + withdraws <= u32::MAX,
{
}

} // verus!
