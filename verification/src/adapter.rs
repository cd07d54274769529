//! What the sequencer asks of a node's block events.

use std::sync::Arc;

use vstd::prelude::*;
use vstd::string::StringExecFns;

use crate::collections::KeyMap;
use crate::ids::{ChannelId, HeaderId, Key, OpId, TxHash};
use crate::mantle::{Op, SignedOps, Value};
use crate::sequencer::types::{DepositNote, Error};
use crate::text::{hex_chars, hex_encode};

verus! {

/// A deposit op, by its transaction and its id.
#[derive(Clone, Copy, Debug, PartialEq, Eq, Structural)]
pub struct DepositOpKey {
    pub tx_hash: TxHash,
    pub op_id: OpId,
}

impl Key for DepositOpKey {
    fn same(&self, other: &Self) -> (res: bool) {
        *self == *other
    }
}

/// What the events of a block say of one deposit.
#[derive(Debug, PartialEq, Eq)]
pub struct DepositEvent {
    pub amount: Value,
    /// The channel notes the deposit created.
    pub notes: Arc<Vec<DepositNote>>,
}

/// The deposits that the events of a block speak of.
pub type DepositEvents = KeyMap<DepositOpKey, DepositEvent>;

/// A deposit event as a node delivers it.
#[derive(Debug, PartialEq, Eq)]
pub struct BlockDepositEvent {
    pub key: DepositOpKey,
    pub amount: Value,
    pub notes: Arc<Vec<DepositNote>>,
}

/// The lookup that a block's events spell; a later event of the same deposit
/// stands.
pub open spec fn events_map(events: Seq<BlockDepositEvent>) -> Map<DepositOpKey, DepositEvent>
    decreases events.len(),
{
    if events.len() == 0 {
        Map::empty()
    } else {
        let event = events.last();
        events_map(events.drop_last()).insert(
            event.key,
            DepositEvent { amount: event.amount, notes: event.notes },
        )
    }
}

/// Builds the lookup over a block's events.
pub fn build_deposit_events(events: &[BlockDepositEvent]) -> (res: DepositEvents)
    ensures
        res@ == events_map(events@),
{
    let mut res: DepositEvents = KeyMap::new();
    let mut i: usize = 0;
    while i < events.len()
        invariant
            i <= events@.len(),
            res@ == events_map(events@.take(i as int)),
        decreases events@.len() - i,
    {
        proof {
            assert(events@.take(i + 1).drop_last() =~= events@.take(i as int));
        }
        res.insert(
            events[i].key,
            DepositEvent { amount: events[i].amount, notes: Arc::clone(&events[i].notes) },
        );
        i = i + 1;
    }
    assert(events@.take(i as int) =~= events@);
    res
}

/// The deposit into the channel that an operation makes, if it makes one.
pub open spec fn deposit_key(tx_hash: TxHash, channel_id: ChannelId, op: Op) -> Option<
    DepositOpKey,
> {
    match op {
        Op::ChannelDeposit(deposit) => if deposit.channel_id == channel_id {
            Some(DepositOpKey { tx_hash, op_id: deposit.op_id })
        } else {
            None
        },
        _ => None,
    }
}

pub open spec fn as_deposit_key(tx_hash: TxHash, channel_id: ChannelId) -> spec_fn(Op) -> Option<
    DepositOpKey,
> {
    |op: Op| deposit_key(tx_hash, channel_id, op)
}

pub open spec fn deposit_keys_of(channel_id: ChannelId) -> spec_fn(SignedOps) -> Seq<DepositOpKey> {
    |tx: SignedOps| tx.ops@.filter_map(as_deposit_key(tx.hash, channel_id))
}

/// A block's deposits into the channel, in tx-then-op order.
pub open spec fn deposit_keys(txs: Seq<SignedOps>, channel_id: ChannelId) -> Seq<DepositOpKey> {
    txs.flat_map(deposit_keys_of(channel_id))
}

/// A lookup that knows every deposit into the channel.
pub open spec fn knows_deposits(
    txs: Seq<SignedOps>,
    channel_id: ChannelId,
    events: Map<DepositOpKey, DepositEvent>,
) -> bool {
    forall|k: int, i: int|
        0 <= k < txs.len() && 0 <= i < txs[k].ops@.len() ==> (deposit_key(
            txs[k].hash,
            channel_id,
            #[trigger] txs[k].ops@[i],
        ) matches Some(key) ==> events.contains_key(key))
}

/// The deposits into the channel of a block's transactions.
pub fn expected_deposits(txs: &[SignedOps], channel_id: ChannelId) -> (res: Vec<DepositOpKey>)
    ensures
        res@ == deposit_keys(txs@, channel_id),
{
    let mut res: Vec<DepositOpKey> = Vec::new();
    let ghost f = deposit_keys_of(channel_id);
    let mut k: usize = 0;
    while k < txs.len()
        invariant
            k <= txs@.len(),
            f == deposit_keys_of(channel_id),
            res@ == txs@.take(k as int).flat_map(f),
        decreases txs@.len() - k,
    {
        let tx = &txs[k];
        let ghost g = as_deposit_key(tx.hash, channel_id);
        let ghost before = res@;
        let mut i: usize = 0;
        while i < tx.ops.len()
            invariant
                i <= tx.ops@.len(),
                g == as_deposit_key(tx.hash, channel_id),
                res@ == before + tx.ops@.take(i as int).filter_map(g),
            decreases tx.ops@.len() - i,
        {
            proof {
                tx.ops@.lemma_filter_map_take_succ(g, i as int);
            }
            if let Op::ChannelDeposit(deposit) = &tx.ops[i] {
                if deposit.channel_id == channel_id {
                    res.push(DepositOpKey { tx_hash: tx.hash, op_id: deposit.op_id });
                }
            }
            i = i + 1;
        }
        proof {
            assert(tx.ops@.take(i as int) =~= tx.ops@);
            txs@.lemma_flat_map_take_append(f, k as int);
        }
        k = k + 1;
    }
    assert(txs@.take(k as int) =~= txs@);
    res
}

/// What came of asking a node for the events of a block.
#[derive(Debug, PartialEq, Eq)]
pub enum EventsReply {
    Events(Vec<BlockDepositEvent>),
    /// The node has no events for the block.
    Absent,
    /// The request failed, for this reason.
    Failed(String),
}

/// The first of `keys` that the lookup does not know.
pub open spec fn first_unknown(
    keys: Seq<DepositOpKey>,
    events: Map<DepositOpKey, DepositEvent>,
) -> Option<DepositOpKey>
    decreases keys.len(),
{
    if keys.len() == 0 {
        None
    } else if !events.contains_key(keys[0]) {
        Some(keys[0])
    } else {
        first_unknown(keys.drop_first(), events)
    }
}

/// A block id, a transaction hash or an operation id as text.
pub open spec fn id_text(id: crate::ids::Bytes32) -> Seq<char> {
    hex_chars(id.bytes())
}

pub(crate) fn id_string(id: &crate::ids::Bytes32) -> (res: String)
    ensures
        res@ == id_text(*id),
{
    hex_encode(id.to_bytes().as_slice())
}

pub open spec fn absent_text(block_id: HeaderId) -> Seq<char> {
    "no events for block "@ + id_text(block_id.0) + " containing channel deposits"@
}

pub open spec fn failed_text(block_id: HeaderId, reason: Seq<char>) -> Seq<char> {
    "failed to fetch events for block "@ + id_text(block_id.0) + ": "@ + reason
}

pub open spec fn unknown_text(block_id: HeaderId, key: DepositOpKey) -> Seq<char> {
    "block "@ + id_text(block_id.0) + " events missing deposit entry for tx "@ + id_text(
        key.tx_hash.0,
    ) + " op "@ + id_text(key.op_id.0)
}

/// The deposit lookup of a block, from the node's reply; the reply does not
/// matter for a block without a channel deposit, and need not be asked for.
///
/// A block and its events become visible together, so an absent reply, or one
/// that misses a deposit, is an error and never a partial lookup.
pub open spec fn deposit_lookup(
    block_id: HeaderId,
    txs: Seq<SignedOps>,
    channel_id: ChannelId,
    reply: EventsReply,
) -> Result<Map<DepositOpKey, DepositEvent>, Seq<char>> {
    let keys = deposit_keys(txs, channel_id);
    if keys.len() == 0 {
        Ok(Map::empty())
    } else {
        match reply {
            EventsReply::Absent => Err(absent_text(block_id)),
            EventsReply::Failed(reason) => Err(failed_text(block_id, reason@)),
            EventsReply::Events(events) => match first_unknown(keys, events_map(events@)) {
                Some(key) => Err(unknown_text(block_id, key)),
                None => Ok(events_map(events@)),
            },
        }
    }
}

/// Resolves the deposit events of a block; `Ok` with the complete lookup, or
/// the reason why there is none.
#[verifier::loop_isolation(false)]
pub fn resolve_deposit_events(
    block_id: HeaderId,
    txs: &[SignedOps],
    channel_id: ChannelId,
    reply: &EventsReply,
) -> (res: Result<DepositEvents, Error>)
    ensures
        match res {
            Ok(events) => deposit_lookup(block_id, txs@, channel_id, *reply) == Ok::<
                Map<DepositOpKey, DepositEvent>,
                Seq<char>,
            >(events@) && knows_deposits(txs@, channel_id, events@),
            Err(Error::Network(text)) => deposit_lookup(block_id, txs@, channel_id, *reply) == Err::<
                Map<DepositOpKey, DepositEvent>,
                Seq<char>,
            >(text@),
            Err(_) => false,
        },
{
    let expected = expected_deposits(txs, channel_id);
    if expected.len() == 0 {
        proof {
            lemma_known_keys(txs@, channel_id, Map::<DepositOpKey, DepositEvent>::empty());
        }
        return Ok(KeyMap::new());
    }
    match reply {
        EventsReply::Absent => {
            let text = "no events for block ".to_string().concat(
                id_string(&block_id.0).as_str(),
            ).concat(" containing channel deposits");
            assert(text@ =~= absent_text(block_id));
            Err(Error::Network(text))
        },
        EventsReply::Failed(reason) => {
            let text = "failed to fetch events for block ".to_string().concat(
                id_string(&block_id.0).as_str(),
            ).concat(": ").concat(reason.as_str());
            assert(text@ =~= failed_text(block_id, reason@));
            Err(Error::Network(text))
        },
        EventsReply::Events(delivered) => {
            let events = build_deposit_events(delivered.as_slice());
            assert(expected@.skip(0) =~= expected@);
            let mut i: usize = 0;
            while i < expected.len()
                invariant
                    i <= expected@.len(),
                    first_unknown(expected@, events@) == first_unknown(
                        expected@.skip(i as int),
                        events@,
                    ),
                    forall|j: int| 0 <= j < i ==> events@.contains_key(#[trigger] expected@[j]),
                decreases expected@.len() - i,
            {
                assert(expected@.skip(i as int).drop_first() =~= expected@.skip(i + 1));
                let key: DepositOpKey = expected[i];
                assert(expected@.skip(i as int)[0] == key);
                if !events.contains_key(&key) {
                    let text = "block ".to_string().concat(
                        id_string(&block_id.0).as_str(),
                    ).concat(" events missing deposit entry for tx ").concat(
                        id_string(&key.tx_hash.0).as_str(),
                    ).concat(" op ").concat(id_string(&key.op_id.0).as_str());
                    assert(text@ =~= unknown_text(block_id, key));
                    return Err(Error::Network(text));
                }
                i = i + 1;
            }
            proof {
                lemma_known_keys(txs@, channel_id, events@);
            }
            Ok(events)
        },
    }
}

/// A lookup with every expected deposit knows every deposit.
pub proof fn lemma_known_keys(
    txs: Seq<SignedOps>,
    channel_id: ChannelId,
    events: Map<DepositOpKey, DepositEvent>,
)
    requires
        forall|j: int|
            0 <= j < deposit_keys(txs, channel_id).len() ==> events.contains_key(
                #[trigger] deposit_keys(txs, channel_id)[j],
            ),
    ensures
        knows_deposits(txs, channel_id, events),
    decreases txs.len(),
{
    let f = deposit_keys_of(channel_id);
    if txs.len() > 0 {
        let rest = txs.drop_last();
        assert(rest.push(txs.last()) =~= txs);
        rest.lemma_flat_map_push(f, txs.last());
        let head = rest.flat_map(f);
        let tail = f(txs.last());
        assert(deposit_keys(txs, channel_id) == head + tail);
        assert forall|j: int| 0 <= j < head.len() implies events.contains_key(
            #[trigger] deposit_keys(rest, channel_id)[j],
        ) by {
            assert(deposit_keys(txs, channel_id)[j] == head[j]);
        }
        lemma_known_keys(rest, channel_id, events);
        assert forall|j: int| 0 <= j < tail.len() implies events.contains_key(#[trigger] tail[j]) by {
            assert(deposit_keys(txs, channel_id)[head.len() + j] == tail[j]);
        }
        assert forall|k: int, i: int|
            0 <= k < txs.len() && 0 <= i < txs[k].ops@.len() implies (deposit_key(
            txs[k].hash,
            channel_id,
            #[trigger] txs[k].ops@[i],
        ) matches Some(key) ==> events.contains_key(key)) by {
            if k == txs.len() - 1 {
                lemma_filter_map_holds(
                    txs.last().ops@,
                    as_deposit_key(txs.last().hash, channel_id),
                    i,
                );
            } else {
                assert(rest[k].ops@[i] == txs[k].ops@[i]);
            }
        }
    }
}

/// What an element maps to is in the mapped list.
pub proof fn lemma_filter_map_holds<A, B>(s: Seq<A>, f: spec_fn(A) -> Option<B>, i: int)
    requires
        0 <= i < s.len(),
    ensures
        f(s[i]) matches Some(b) ==> exists|j: int|
            0 <= j < s.filter_map(f).len() && #[trigger] s.filter_map(f)[j] == b,
    decreases s.len(),
{
    if let Some(b) = f(s[i]) {
        let rest = s.drop_last();
        if i == s.len() - 1 {
            let j = rest.filter_map(f).len() as int;
            assert(s.filter_map(f)[j] == b);
        } else {
            assert(rest[i] == s[i]);
            lemma_filter_map_holds(rest, f, i);
            let j = choose|j: int|
                0 <= j < rest.filter_map(f).len() && #[trigger] rest.filter_map(f)[j] == b;
            assert(s.filter_map(f)[j] == b);
        }
    }
}

} // verus!
