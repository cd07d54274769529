use std::sync::Arc;

use zone_sdk::ids::{Bytes32, ChannelId, Ed25519PublicKey, MsgId, NoteId, TxHash, ZkPublicKey};
use zone_sdk::mantle::{
    ChannelConfigOp, ChannelWithdrawOp, Ed25519Signature, IndexedSignature, Inputs, Inscription,
    InscriptionOp, Note, Op, OpProof, Outputs, TransferOp,
};
use zone_sdk::sequencer::tx_builder::{
    assemble_atomic_bundle_ops_proofs, assemble_atomic_bundle_tx, assemble_channel_config_tx,
    assemble_inscribe_tx, attach_transfer_proof, build_atomic_withdraw_ops_proofs,
    find_own_key_index, joined_outputs, number_withdraws, prepare_tx, sign_prepared, stale_bundle_reasons,
    validate_multi_sig,
};
use zone_sdk::sequencer::types::{ChannelState, Error, WithdrawArg};

fn digest(parts: &[&[u8]]) -> [u8; 32] {
    let mut acc: u64 = 0xcbf2_9ce4_8422_2325;
    for part in parts {
        for byte in *part {
            acc = (acc ^ u64::from(*byte)).wrapping_mul(0x100_0000_01b3);
        }
        acc = acc.rotate_left(7) ^ part.len() as u64;
    }
    let mut out = [0u8; 32];
    for i in 0..4 {
        acc = acc.wrapping_mul(6_364_136_223_846_793_005).wrapping_add(1_442_695_040_888_963_407);
        out[i * 8..i * 8 + 8].copy_from_slice(&acc.to_be_bytes());
    }
    out
}

/// A signing key whose signatures are digests: enough to tell payloads apart.
struct SigningKey([u8; 32]);

impl SigningKey {
    fn public_key(&self) -> Ed25519PublicKey {
        Ed25519PublicKey::from_bytes(self.0)
    }

    fn sign_payload(&self, payload: &[u8]) -> Ed25519Signature {
        signature_of(&self.public_key(), payload)
    }
}

fn signature_of(key: &Ed25519PublicKey, payload: &[u8]) -> Ed25519Signature {
    Ed25519Signature {
        r: Bytes32::from_bytes(digest(&[b"r", &key.0.to_bytes(), payload])),
        s: Bytes32::from_bytes(digest(&[b"s", &key.0.to_bytes(), payload])),
    }
}

fn verifies(key: &Ed25519PublicKey, payload: &[u8], signature: &Ed25519Signature) -> bool {
    signature_of(key, payload) == *signature
}

fn sign_with(
    key: &SigningKey,
    accredited: &[Ed25519PublicKey],
    payload: &[u8],
) -> Result<IndexedSignature, Error> {
    sign_prepared(key.public_key(), accredited, key.sign_payload(payload))
}

fn validate(
    accredited: &[Ed25519PublicKey],
    threshold: u16,
    payload: &[u8],
    signatures: &[IndexedSignature],
) -> Result<(), Error> {
    let outcomes: Vec<bool> = signatures
        .iter()
        .map(|sig| {
            accredited
                .get(sig.channel_key_index as usize)
                .is_some_and(|key| verifies(key, payload, &sig.signature))
        })
        .collect();
    validate_multi_sig(accredited, threshold, signatures, &outcomes)
}

#[test]
fn sign_prepared_indexes_by_position_and_verifies() {
    let keys: Vec<SigningKey> = (1u8..=3)
        .map(|b| SigningKey([b; 32]))
        .collect();
    let accredited: Vec<Ed25519PublicKey> = keys.iter().map(SigningKey::public_key).collect();
    let payload = b"channel config sign payload";

    // Signing with the middle key indexes at its position, and the
    // signature verifies against that key over the payload.
    let signed = sign_with(&keys[1], &accredited, payload).expect("signer is accredited");
    assert_eq!(signed.channel_key_index, 1);
    assert!(verifies(&accredited[1], payload, &signed.signature));
}

#[test]
fn sign_prepared_rejects_unaccredited_key() {
    let accredited = vec![
        SigningKey([1; 32]).public_key(),
        SigningKey([2; 32]).public_key(),
    ];
    let outsider = SigningKey([9; 32]);
    assert!(sign_with(&outsider, &accredited, b"payload").is_err());
}

#[test]
fn sign_prepared_empty_accredited_is_rejected() {
    let key = SigningKey([1; 32]);
    assert!(sign_with(&key, &[], b"payload").is_err());
}

/// Three accredited keys and a 2-of-3 signature set over `payload`.
fn multi_sig_fixture() -> (
    Vec<SigningKey>,
    Vec<Ed25519PublicKey>,
    Vec<IndexedSignature>,
) {
    let keys: Vec<SigningKey> = (1u8..=3)
        .map(|b| SigningKey([b; 32]))
        .collect();
    let accredited: Vec<Ed25519PublicKey> = keys.iter().map(SigningKey::public_key).collect();
    let sigs = vec![
        sign_with(&keys[0], &accredited, PAYLOAD).unwrap(),
        sign_with(&keys[2], &accredited, PAYLOAD).unwrap(),
    ];
    (keys, accredited, sigs)
}

const PAYLOAD: &[u8] = b"atomic bundle sign payload";

fn invalid_multi_sig_message(result: Result<(), Error>) -> String {
    match result {
        Err(Error::InvalidMultiSig(msg)) => msg,
        other => panic!("expected InvalidMultiSig, got {other:?}"),
    }
}

#[test]
fn validate_multi_sig_accepts_threshold_signatures_in_order() {
    let (_, accredited, sigs) = multi_sig_fixture();
    validate(&accredited, 2, PAYLOAD, &sigs).expect("2-of-3 in order verifies");
}

#[test]
fn validate_multi_sig_rejects_count_mismatch() {
    let (_, accredited, sigs) = multi_sig_fixture();
    // Too few for the threshold.
    let msg = invalid_multi_sig_message(validate(&accredited, 3, PAYLOAD, &sigs));
    assert!(
        msg.contains("count 2 does not match transfer_threshold 3"),
        "{msg}"
    );
    // Too many: the ledger requires exactly `threshold`, not at least.
    let msg = invalid_multi_sig_message(validate(&accredited, 1, PAYLOAD, &sigs));
    assert!(
        msg.contains("count 2 does not match transfer_threshold 1"),
        "{msg}"
    );
}

#[test]
fn validate_multi_sig_rejects_unordered_or_duplicate_indices() {
    let (_, accredited, mut sigs) = multi_sig_fixture();
    sigs.reverse();
    let msg = invalid_multi_sig_message(validate(&accredited, 2, PAYLOAD, &sigs));
    assert!(msg.contains("strictly ascending, got 0 after 2"), "{msg}");

    let dup = vec![sigs[1], sigs[1]];
    let msg = invalid_multi_sig_message(validate(&accredited, 2, PAYLOAD, &dup));
    assert!(msg.contains("strictly ascending, got 0 after 0"), "{msg}");
}

#[test]
fn validate_multi_sig_rejects_out_of_range_index() {
    let (keys, accredited, _) = multi_sig_fixture();
    let sigs = vec![
        sign_with(&keys[0], &accredited, PAYLOAD).unwrap(),
        IndexedSignature { channel_key_index: 7, signature: keys[1].sign_payload(PAYLOAD) },
    ];
    let msg = invalid_multi_sig_message(validate(&accredited, 2, PAYLOAD, &sigs));
    assert!(
        msg.contains("index 7 is outside the 3 accredited keys"),
        "{msg}"
    );
}

#[test]
fn validate_multi_sig_rejects_signature_over_other_payload() {
    let (keys, accredited, _) = multi_sig_fixture();
    // Peer signed a stale/different prepared bundle.
    let sigs = vec![
        sign_with(&keys[0], &accredited, PAYLOAD).unwrap(),
        sign_with(&keys[2], &accredited, b"some other bundle").unwrap(),
    ];
    let msg = invalid_multi_sig_message(validate(&accredited, 2, PAYLOAD, &sigs));
    assert!(msg.contains("index 2 does not verify"), "{msg}");
}

#[test]
fn validate_multi_sig_reports_every_problem_at_once() {
    let (keys, accredited, _) = multi_sig_fixture();
    // Wrong count (3 for threshold 2), a bad signature, and an
    // out-of-range index — all in one set.
    let sigs = vec![
        sign_with(&keys[0], &accredited, PAYLOAD).unwrap(),
        sign_with(&keys[1], &accredited, b"other").unwrap(),
        IndexedSignature { channel_key_index: 9, signature: keys[2].sign_payload(PAYLOAD) },
    ];
    let msg = invalid_multi_sig_message(validate(&accredited, 2, PAYLOAD, &sigs));
    assert!(
        msg.contains("count 3 does not match transfer_threshold 2"),
        "{msg}"
    );
    assert!(msg.contains("index 1 does not verify"), "{msg}");
    assert!(msg.contains("index 9 is outside"), "{msg}");
}

#[test]
fn stale_bundle_reasons_covers_config_and_parent() {
    let (_, prepared, _) = multi_sig_fixture();
    let parent = MsgId::root();

    assert!(stale_bundle_reasons(&prepared, 2, &prepared, 2, parent, parent).is_empty());

    // Threshold moved 2 -> 3 while signatures were being collected.
    let reasons = stale_bundle_reasons(&prepared, 2, &prepared, 3, parent, parent);
    assert_eq!(reasons.len(), 1);
    assert!(reasons[0].contains("transfer_threshold changed 2 -> 3"));

    // Key at index 2 rotated; same threshold.
    let mut rotated = prepared.clone();
    rotated[2] = SigningKey([9; 32]).public_key();
    let reasons = stale_bundle_reasons(&prepared, 2, &rotated, 2, parent, parent);
    assert_eq!(reasons.len(), 1);
    assert!(reasons[0].contains("accredited keys changed"));

    // A peer inscribed at our parent slot: the publish tip moved.
    let moved = MsgId::from_bytes([7u8; 32]);
    let reasons = stale_bundle_reasons(&prepared, 2, &prepared, 2, parent, moved);
    assert_eq!(reasons.len(), 1);
    assert!(reasons[0].contains("no longer the publish tip"));

    // Everything at once is reported together.
    let reasons = stale_bundle_reasons(&prepared, 2, &rotated, 3, parent, moved);
    assert_eq!(reasons.len(), 3);
}

fn inscribe() -> Op {
    Op::ChannelInscribe(InscriptionOp {
        channel_id: ChannelId::from_bytes([1u8; 32]),
        inscription: Inscription::new(b"x".to_vec()),
        parent: MsgId::root(),
        signer: Ed25519PublicKey::from_bytes([1u8; 32]),
        id: MsgId::from_bytes([2u8; 32]),
    })
}

fn config() -> Op {
    Op::ChannelConfig(ChannelConfigOp {
        channel: ChannelId::from_bytes([1u8; 32]),
        parent: MsgId::root(),
        keys: Arc::new(vec![Ed25519PublicKey::from_bytes([1u8; 32])]),
        posting_timeframe: 0,
        posting_timeout: 0,
        configuration_threshold: 1,
        transfer_threshold: 1,
        id: MsgId::from_bytes([3u8; 32]),
    })
}

fn withdraw() -> Op {
    Op::ChannelWithdraw(ChannelWithdrawOp {
        channel_id: ChannelId::from_bytes([1u8; 32]),
        inputs: Inputs::new(vec![NoteId::from_bytes([4u8; 32])]),
        outputs: Outputs::empty(),
        withdraw_nonce: 0,
    })
}

fn transfer() -> Op {
    Op::Transfer(TransferOp { inputs: Inputs::new(vec![]), outputs: Outputs::empty() })
}

fn own_sig() -> Ed25519Signature {
    SigningKey([1; 32]).sign_payload(PAYLOAD)
}

fn funding_proof() -> OpProof {
    OpProof::Other(Arc::new(vec![9]))
}

fn channel_state(threshold: u16) -> ChannelState {
    ChannelState {
        accredited_keys: Arc::new(
            (1u8..=3).map(|b| SigningKey([b; 32]).public_key()).collect::<Vec<_>>(),
        ),
        configuration_threshold: 1,
        transfer_threshold: threshold,
        withdrawal_nonce: 7,
        tip_message: MsgId::root(),
        posting_timeframe: 0,
        posting_timeout: 0,
    }
}

#[test]
fn a_bundle_has_one_proof_per_op() {
    let proof = Arc::new(vec![IndexedSignature { channel_key_index: 0, signature: own_sig() }]);
    let ops = [inscribe(), withdraw(), transfer()];
    let funding = funding_proof();
    let proofs =
        assemble_atomic_bundle_ops_proofs(&ops, own_sig(), &proof, Some(&funding)).unwrap();
    assert_eq!(
        proofs,
        vec![
            OpProof::Ed25519Sig(own_sig()),
            OpProof::ChannelMultiSigProof(proof.clone()),
            funding_proof(),
        ]
    );
    let missing = assemble_atomic_bundle_ops_proofs(&ops, own_sig(), &proof, None);
    assert!(matches!(missing, Err(Error::Network(_))), "{missing:?}");
    let foreign = assemble_atomic_bundle_ops_proofs(&[config()], own_sig(), &proof, None);
    assert!(matches!(foreign, Err(Error::Network(_))), "{foreign:?}");
}

#[test]
fn assembled_transactions_keep_their_ops() {
    let hash = TxHash::from_bytes([8u8; 32]);
    let sigs = vec![IndexedSignature { channel_key_index: 0, signature: own_sig() }];
    let bundle =
        assemble_atomic_bundle_tx(hash, vec![inscribe(), withdraw()], own_sig(), sigs.clone(), None)
            .unwrap();
    assert_eq!(bundle.hash, hash);
    assert_eq!(*bundle.ops, vec![inscribe(), withdraw()]);
    assert_eq!(bundle.proofs.len(), 2);

    let configured =
        assemble_channel_config_tx(hash, vec![config()], None, sigs.clone()).unwrap();
    assert_eq!(*configured.proofs, vec![OpProof::ChannelMultiSigProof(Arc::new(sigs.clone()))]);

    let inscribed =
        assemble_inscribe_tx(hash, vec![inscribe(), transfer()], Some(funding_proof()), own_sig())
            .unwrap();
    assert_eq!(*inscribed.proofs, vec![OpProof::Ed25519Sig(own_sig()), funding_proof()]);

    let unfunded = assemble_inscribe_tx(hash, vec![inscribe(), transfer()], None, own_sig());
    assert!(matches!(unfunded, Err(Error::Network(_))), "{unfunded:?}");
}

#[test]
fn a_transfer_proof_goes_with_exactly_one_transfer() {
    let channel = vec![OpProof::Ed25519Sig(own_sig())];
    assert_eq!(
        attach_transfer_proof(&[inscribe()], channel.clone(), None).unwrap(),
        channel
    );
    let with = attach_transfer_proof(&[inscribe(), transfer()], channel.clone(), Some(funding_proof()));
    assert_eq!(with.unwrap(), vec![OpProof::Ed25519Sig(own_sig()), funding_proof()]);
    assert!(attach_transfer_proof(&[inscribe(), transfer()], channel, None).is_err());
}

#[test]
fn withdraw_bundles_are_signed_by_one_key() {
    let proofs = build_atomic_withdraw_ops_proofs(&[withdraw(), inscribe()], 2, own_sig()).unwrap();
    let multi = OpProof::ChannelMultiSigProof(
        Arc::new(vec![IndexedSignature { channel_key_index: 2, signature: own_sig() }]),
    );
    assert_eq!(proofs, vec![multi, OpProof::Ed25519Sig(own_sig())]);
    assert!(build_atomic_withdraw_ops_proofs(&[transfer()], 2, own_sig()).is_err());
}

#[test]
fn a_prepared_transaction_ends_with_its_inscription() {
    let channel = ChannelId::from_bytes([1u8; 32]);
    let signer = Ed25519PublicKey::from_bytes([1u8; 32]);
    let parent = MsgId::from_bytes([5u8; 32]);
    let id = MsgId::from_bytes([6u8; 32]);
    let ops =
        prepare_tx(vec![withdraw()], channel, signer, Inscription::new(b"y".to_vec()), parent, id);
    assert_eq!(ops.len(), 2);
    assert_eq!(ops[0], withdraw());
    match &ops[1] {
        Op::ChannelInscribe(op) => {
            assert_eq!((op.parent, op.id, op.signer, op.channel_id), (parent, id, signer, channel));
            assert_eq!(op.inscription, Inscription::new(b"y".to_vec()));
        },
        other => panic!("expected an inscription, got {other:?}"),
    }
}

#[test]
fn own_key_is_found_by_its_position() {
    let state = channel_state(1);
    assert_eq!(find_own_key_index(&state, &SigningKey([2; 32]).public_key()), Ok(1));
    assert!(find_own_key_index(&state, &SigningKey([9; 32]).public_key()).is_err());
}

#[test]
fn withdraws_are_numbered_from_the_nonce() {
    let own = SigningKey([3; 32]).public_key();
    let note = Note { value: 5, pk: ZkPublicKey::from_bytes([1u8; 32]) };
    let args = || {
        vec![
            WithdrawArg { outputs: Outputs::new(vec![note]) },
            WithdrawArg { outputs: Outputs::empty() },
        ]
    };
    let channel = ChannelId::from_bytes([1u8; 32]);
    let (numbered, index) = number_withdraws(&args(), channel, &channel_state(1), &own).unwrap();
    assert_eq!(index, 2);
    let nonces: Vec<u32> = numbered.iter().map(|w| w.withdraw_nonce).collect();
    assert_eq!(nonces, vec![7, 8]);
    assert_eq!(numbered[0].outputs, Outputs::new(vec![note]));
    assert!(numbered.iter().all(|op| op.channel_id == channel && op.inputs.ids.is_empty()));
    assert_eq!(joined_outputs(&args()), Outputs::new(vec![note]));
    assert!(number_withdraws(&args(), channel, &channel_state(2), &own).is_err());
    let outsider = SigningKey([9; 32]).public_key();
    assert!(number_withdraws(&args(), channel, &channel_state(1), &outsider).is_err());
    let spent = ChannelState { withdrawal_nonce: u32::MAX - 1, ..channel_state(1) };
    let overflow = number_withdraws(&args(), channel, &spent, &own).unwrap_err();
    assert_eq!(overflow, Error::Network("withdraw nonce overflow".to_string()));
    let last = ChannelState { withdrawal_nonce: u32::MAX - 2, ..channel_state(1) };
    assert!(number_withdraws(&args(), channel, &last, &own).is_ok());
}
