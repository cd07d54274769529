//! A plain transaction tracker: every pending transaction is alike, and a
//! transaction is done once the block that carries it is irreversible.

use vstd::prelude::*;

use crate::block_tree::{below, blocks_below, branch_blocks, orphan_blocks, orphans};
use crate::collections::{KeyMap, KeySet};
use crate::ids::{HeaderId, Key, MsgId, TxHash};
use crate::mantle::{Op, SignedOps};
use crate::safe_set::SafeSet;
use crate::sequencer::state::sheds::add_msgs;
use crate::sequencer::state_model::{branch, grounded, kept_blocks, msg_of, msgs};
use crate::sequencer::types::InscriptionInfo;

verus! {

/// The tracker as a mathematical value.
#[verifier::ext_equal]
pub struct Model {
    /// Transactions that are not irreversible yet.
    pub pending: Map<TxHash, SignedOps>,
    /// The pending transactions mined on the branch up to a block.
    pub safe: Map<HeaderId, Set<TxHash>>,
    /// The parent of a block.
    pub parents: Map<HeaderId, HeaderId>,
    /// The last irreversible block.
    pub lib: HeaderId,
    /// The channel's inscriptions in a block that has any.
    pub inscriptions: Map<HeaderId, Seq<InscriptionInfo>>,
    /// The irreversible channel tip.
    pub finalized_msg: MsgId,
}

/// A message that a pending inscription chains from, and what it makes of it.
pub open spec fn inscribes(tx: SignedOps, hash: TxHash, info: InscriptionInfo) -> bool {
    exists|i: int|
        0 <= i < tx.ops@.len() && #[trigger] inscription_at(tx, hash, i) == Some(info)
}

/// The inscription that an op is, if it is one.
pub open spec fn inscription_at(tx: SignedOps, hash: TxHash, i: int) -> Option<InscriptionInfo> {
    match tx.ops@[i] {
        Op::ChannelInscribe(op) => Some(
            InscriptionInfo {
                tx_hash: hash,
                parent_msg: op.parent,
                this_msg: op.id,
                payload: op.inscription,
                signer: Some(op.signer),
            },
        ),
        _ => None,
    }
}

/// A transaction with an inscription.
pub open spec fn has_inscription(tx: SignedOps) -> bool {
    exists|i: int| 0 <= i < tx.ops@.len() && (#[trigger] tx.ops@[i]) is ChannelInscribe
}

impl Model {
    pub open spec fn new(lib: HeaderId, finalized_msg: MsgId) -> Model {
        Model {
            pending: Map::empty(),
            safe: Map::empty().insert(lib, Set::empty()),
            parents: Map::empty(),
            lib,
            inscriptions: Map::empty(),
            finalized_msg,
        }
    }

    pub open spec fn safe_at(self, block: HeaderId) -> Set<TxHash> {
        if self.safe.contains_key(block) {
            self.safe[block]
        } else {
            Set::empty()
        }
    }

    pub open spec fn inscriptions_at(self) -> spec_fn(HeaderId) -> Seq<InscriptionInfo> {
        |block: HeaderId|
            if self.inscriptions.contains_key(block) {
                self.inscriptions[block]
            } else {
                Seq::empty()
            }
    }

    /// The blocks from `tip` down to LIB, or down to where the parent is not
    /// known.
    pub open spec fn branch(self, tip: HeaderId) -> Seq<HeaderId> {
        branch(self.parents, self.lib, tip, self.parents.len())
    }

    /// The last inscription in the first of the blocks that has one.
    pub open spec fn tip_in(self, blocks: Seq<HeaderId>) -> MsgId
        decreases blocks.len(),
    {
        if blocks.len() == 0 {
            self.finalized_msg
        } else {
            let here = self.inscriptions_at()(blocks[0]);
            if here.len() > 0 {
                here.last().this_msg
            } else {
                self.tip_in(blocks.drop_first())
            }
        }
    }

    /// The channel tip at a block.
    pub open spec fn channel_tip(self, tip: HeaderId) -> MsgId {
        self.tip_in(self.branch(tip))
    }

    /// The inscriptions on a branch, oldest first.
    pub open spec fn on_branch(self, tip: HeaderId) -> Seq<InscriptionInfo> {
        self.branch(tip).reverse().flat_map(self.inscriptions_at())
    }

    /// The state with a block added.
    pub open spec fn add_block(
        self,
        block: HeaderId,
        parent: HeaderId,
        our_txs: Seq<TxHash>,
        inscriptions: Seq<InscriptionInfo>,
    ) -> Model {
        Model {
            parents: self.parents.insert(block, parent),
            safe: self.safe.insert(
                block,
                self.safe_at(parent).union(our_txs.to_set().intersect(self.pending.dom())),
            ),
            inscriptions: if inscriptions.len() > 0 {
                self.inscriptions.insert(block, inscriptions)
            } else {
                self.inscriptions
            },
            ..self
        }
    }

    /// The pending transactions mined on the way from the old LIB to `lib`.
    pub open spec fn finalized_by(self, lib: HeaderId) -> Set<TxHash> {
        Set::new(
            |hash: TxHash|
                self.pending.contains_key(hash) && exists|i: int|
                    0 <= i < self.branch(lib).len() && #[trigger] self.safe_at(
                        self.branch(lib)[i],
                    ).contains(hash),
        )
    }

    /// The state without a set of blocks.
    pub open spec fn prune(self, blocks: Set<HeaderId>) -> Model {
        Model {
            parents: self.parents.remove_keys(blocks),
            safe: self.safe.remove_keys(blocks),
            inscriptions: self.inscriptions.remove_keys(blocks),
            ..self
        }
    }

    /// The state with the safe set of `lib` cut to what is still pending.
    pub open spec fn trim(self, lib: HeaderId) -> Model {
        Model {
            safe: if self.safe.contains_key(lib) {
                self.safe.insert(lib, self.safe[lib].intersect(self.pending.dom()))
            } else {
                self.safe
            },
            ..self
        }
    }

    /// The state once `lib` is irreversible.
    pub open spec fn advance_lib(self, lib: HeaderId) -> Model {
        let settled = Model {
            pending: self.pending.remove_keys(self.finalized_by(lib)),
            finalized_msg: self.channel_tip(lib),
            ..self
        };
        let trimmed = settled.prune(below(settled.parents, lib)).trim(lib);
        Model { lib, ..trimmed.prune(orphans(trimmed.parents, lib)) }
    }

    pub open spec fn process_block(
        self,
        block: HeaderId,
        parent: HeaderId,
        lib: HeaderId,
        our_txs: Seq<TxHash>,
        inscriptions: Seq<InscriptionInfo>,
    ) -> Model {
        let added = self.add_block(block, parent, our_txs, inscriptions);
        if lib != self.lib {
            added.advance_lib(lib)
        } else {
            added
        }
    }

    /// A set of messages that holds, with a message, whatever a pending
    /// inscription chains to it.
    pub open spec fn closed(self, set: Set<MsgId>) -> bool {
        forall|hash: TxHash, i: int|
            #![trigger inscription_at(self.pending[hash], hash, i)]
            self.pending.contains_key(hash) && 0 <= i < self.pending[hash].ops@.len() ==> (
            match inscription_at(self.pending[hash], hash, i) {
                Some(info) => set.contains(info.parent_msg) ==> set.contains(info.this_msg),
                None => true,
            })
    }

    /// The messages that pending inscriptions reach from `from`: those of every
    /// closed set that holds `from`.
    pub open spec fn reached(self, from: MsgId) -> Set<MsgId> {
        Set::new(
            |msg: MsgId|
                forall|set: Set<MsgId>| #[trigger]
                    self.closed(set) && set.contains(from) ==> set.contains(msg),
        )
    }

    /// No pending transaction carries the same inscription twice.
    pub open spec fn carried_once(self) -> bool {
        forall|hash: TxHash| #[trigger]
            self.pending.contains_key(hash) ==> carries_once(self.pending[hash], hash)
    }

    /// The pending inscriptions that chain from `from`, directly or not.
    pub open spec fn suffix(self, from: MsgId) -> Set<InscriptionInfo> {
        Set::new(
            |info: InscriptionInfo|
                self.pending.contains_key(info.tx_hash) && inscribes(
                    self.pending[info.tx_hash],
                    info.tx_hash,
                    info,
                ) && self.reached(from).contains(info.parent_msg),
        )
    }
}

/// The inscriptions of a transaction differ.
pub open spec fn carries_once(tx: SignedOps, hash: TxHash) -> bool {
    forall|i: int, j: int|
        #![trigger inscription_at(tx, hash, i), inscription_at(tx, hash, j)]
        0 <= i < j < tx.ops@.len() && inscription_at(tx, hash, i) is Some ==> inscription_at(
            tx,
            hash,
            i,
        ) != inscription_at(tx, hash, j)
}

/// Each entry chains from `from` or from one before it.
pub open spec fn follow(infos: Seq<InscriptionInfo>, from: MsgId) -> bool {
    forall|i: int|
        0 <= i < infos.len() && (#[trigger] infos[i]).parent_msg != from ==> exists|j: int|
            0 <= j < i && (#[trigger] infos[j]).this_msg == infos[i].parent_msg
}

/// The entries write different messages, and none writes `from`.
pub open spec fn written_once(infos: Seq<InscriptionInfo>, from: MsgId) -> bool {
    infos.map_values(msg_of()).no_duplicates() && !msgs(infos).contains(from)
}

/// An entry that chains from another stands after it.
pub open spec fn parents_first(infos: Seq<InscriptionInfo>) -> bool {
    forall|i: int, j: int|
        0 <= i < infos.len() && 0 <= j < infos.len() && (#[trigger] infos[i]).parent_msg == (
        #[trigger] infos[j]).this_msg ==> j < i
}

/// Where each message is written once, entries that follow stand after what
/// they chain from.
proof fn lemma_parents_first(infos: Seq<InscriptionInfo>, from: MsgId)
    requires
        follow(infos, from),
    ensures
        written_once(infos, from) ==> parents_first(infos),
{
    if written_once(infos, from) {
        let ids = infos.map_values(msg_of());
        assert forall|i: int, j: int|
            0 <= i < infos.len() && 0 <= j < infos.len() && (#[trigger] infos[i]).parent_msg == (
            #[trigger] infos[j]).this_msg implies j < i by {
            assert(ids[j] == infos[j].this_msg);
            assert(ids.contains(infos[j].this_msg));
            let k = choose|k: int|
                0 <= k < i && (#[trigger] infos[k]).this_msg == infos[i].parent_msg;
            assert(ids[k] == ids[j]);
        }
    }
}

/// The last message of `old_branch` that the new chain holds, or `otherwise`.
pub open spec fn last_common(
    old_branch: Seq<InscriptionInfo>,
    new_chain: Set<MsgId>,
    otherwise: MsgId,
) -> MsgId
    decreases old_branch.len(),
{
    if old_branch.len() == 0 {
        otherwise
    } else if new_chain.contains(old_branch.last().this_msg) {
        old_branch.last().this_msg
    } else {
        last_common(old_branch.drop_last(), new_chain, otherwise)
    }
}

/// From the first entry that chains from `msg` on; nothing where none does.
pub open spec fn from_parent(infos: Seq<InscriptionInfo>, msg: MsgId) -> Seq<InscriptionInfo>
    decreases infos.len(),
{
    if infos.len() == 0 {
        Seq::empty()
    } else if infos[0].parent_msg == msg {
        infos
    } else {
        from_parent(infos.drop_first(), msg)
    }
}

impl Model {
    /// The messages of the chain at a tip, with the irreversible one.
    pub open spec fn chain(self, tip: HeaderId) -> Set<MsgId> {
        msgs(self.on_branch(tip)).insert(self.finalized_msg)
    }

    /// The chain at `new_tip` continues the one at `old_tip`.
    pub open spec fn extends(self, old_tip: HeaderId, new_tip: HeaderId) -> bool {
        self.chain(new_tip).contains(self.channel_tip(old_tip))
    }

    /// Where the two chains part.
    pub open spec fn fork_point(self, old_tip: HeaderId, new_tip: HeaderId) -> MsgId {
        last_common(self.on_branch(old_tip), self.chain(new_tip), self.finalized_msg)
    }

    /// What the new chain holds beyond the fork.
    pub open spec fn adopted(self, old_tip: HeaderId, new_tip: HeaderId) -> Seq<InscriptionInfo> {
        from_parent(self.on_branch(new_tip), self.fork_point(old_tip, new_tip))
    }

    /// Nothing changed for the channel between two tips.
    pub open spec fn unchanged(self, old_tip: HeaderId, new_tip: HeaderId) -> bool {
        ||| self.channel_tip(old_tip) == self.channel_tip(new_tip)
        ||| (self.extends(old_tip, new_tip) && self.adopted(old_tip, new_tip).len() == 0)
    }
}

/// How the channel changed.
#[derive(Debug, PartialEq, Eq)]
pub struct ChannelUpdateInfo {
    /// Our pending inscriptions that are invalid now: their parent is taken.
    pub invalidated: Vec<InscriptionInfo>,
    /// Inscriptions on the new chain beyond the fork.
    pub adopted: Vec<InscriptionInfo>,
    pub new_channel_tip: MsgId,
}

impl ChannelUpdateInfo {
    /// Whether the update broke our pending chain.
    pub fn is_conflict(&self) -> (res: bool)
        ensures
            res == (self.invalidated@.len() > 0),
    {
        self.invalidated.len() > 0
    }
}

/// A tracker of pending transactions.
pub struct TxState {
    pending: KeyMap<TxHash, SignedOps>,
    block_states: KeyMap<HeaderId, SafeSet>,
    parent_map: KeyMap<HeaderId, HeaderId>,
    current_lib: HeaderId,
    block_inscriptions: KeyMap<HeaderId, Vec<InscriptionInfo>>,
    finalized_msg: MsgId,
}

spec fn set_view() -> spec_fn(SafeSet) -> Set<TxHash> {
    |set: SafeSet| set@
}

spec fn list_view() -> spec_fn(Vec<InscriptionInfo>) -> Seq<InscriptionInfo> {
    |list: Vec<InscriptionInfo>| list@
}

impl View for TxState {
    type V = Model;

    closed spec fn view(&self) -> Model {
        Model {
            pending: self.pending@,
            safe: self.block_states@.map_values(set_view()),
            parents: self.parent_map@,
            lib: self.current_lib,
            inscriptions: self.block_inscriptions@.map_values(list_view()),
            finalized_msg: self.finalized_msg,
        }
    }
}

fn copy_infos(infos: &Vec<InscriptionInfo>) -> (res: Vec<InscriptionInfo>)
    ensures
        res@ == infos@,
{
    let mut res: Vec<InscriptionInfo> = Vec::new();
    let mut i: usize = 0;
    while i < infos.len()
        invariant
            i <= infos@.len(),
            res@ == infos@.take(i as int),
        decreases infos@.len() - i,
    {
        res.push(infos[i].clone());
        assert(res@ =~= infos@.take(i + 1));
        i = i + 1;
    }
    assert(res@ =~= infos@);
    res
}

impl TxState {
    pub fn new(lib: HeaderId, finalized_msg: MsgId) -> (res: TxState)
        ensures
            res@ == Model::new(lib, finalized_msg),
    {
        let mut block_states: KeyMap<HeaderId, SafeSet> = KeyMap::new();
        block_states.insert(lib, SafeSet::new());
        let res = TxState {
            pending: KeyMap::new(),
            block_states,
            parent_map: KeyMap::new(),
            current_lib: lib,
            block_inscriptions: KeyMap::new(),
            finalized_msg,
        };
        assert(res@ =~= Model::new(lib, finalized_msg));
        res
    }

    /// The irreversible channel tip.
    pub fn finalized_msg(&self) -> (res: MsgId)
        ensures
            res == self@.finalized_msg,
    {
        self.finalized_msg
    }

    /// Track a transaction.
    pub fn submit(&mut self, tx_hash: TxHash, signed_tx: SignedOps)
        ensures
            final(self)@ == (Model {
                pending: old(self)@.pending.insert(tx_hash, signed_tx),
                ..old(self)@
            }),
    {
        self.pending.insert(tx_hash, signed_tx);
        assert(self@ =~= Model {
            pending: old(self)@.pending.insert(tx_hash, signed_tx),
            ..old(self)@
        });
    }

    /// Take a pending transaction out.
    pub fn remove_pending(&mut self, tx_hash: &TxHash) -> (res: Option<SignedOps>)
        ensures
            match res {
                Some(tx) => old(self)@.pending.contains_key(*tx_hash) && tx
                    == old(self)@.pending[*tx_hash],
                None => !old(self)@.pending.contains_key(*tx_hash),
            },
            final(self)@ == (Model {
                pending: old(self)@.pending.remove(*tx_hash),
                ..old(self)@
            }),
    {
        let res = self.pending.remove(tx_hash);
        assert(self@ =~= Model { pending: old(self)@.pending.remove(*tx_hash), ..old(self)@ });
        res
    }

    /// How many transactions are pending.
    pub fn pending_count(&self) -> (res: usize)
        ensures
            res == self@.pending.len(),
    {
        self.pending.len()
    }

    /// Whether there is state for a block.
    pub fn has_block(&self, block_id: &HeaderId) -> (res: bool)
        ensures
            res == self@.safe.contains_key(*block_id),
    {
        self.block_states.contains_key(block_id)
    }

    /// The last irreversible block.
    pub fn lib(&self) -> (res: HeaderId)
        ensures
            res == self@.lib,
    {
        self.current_lib
    }

    /// Whether an inscription is pending.
    pub fn has_pending_inscriptions(&self) -> (res: bool)
        ensures
            res == exists|hash: TxHash|
                self@.pending.contains_key(hash) && has_inscription(
                    #[trigger] self@.pending[hash],
                ),
    {
        let hashes = self.pending.keys();
        let mut i: usize = 0;
        while i < hashes.len()
            invariant
                i <= hashes@.len(),
                hashes@.to_set() == self@.pending.dom(),
                forall|j: int|
                    0 <= j < i ==> !has_inscription(self@.pending[#[trigger] hashes@[j]]),
            decreases hashes@.len() - i,
        {
            let ghost hash = hashes@[i as int];
            proof {
                assert(hashes@.to_set().contains(hash));
            }
            match self.pending.get(&hashes[i]) {
                Some(tx) => {
                    if carries_inscription(tx) {
                        assert(self@.pending.contains_key(hash));
                        return true;
                    }
                },
                None => {},
            }
            i = i + 1;
        }
        proof {
            assert forall|hash: TxHash| self@.pending.contains_key(hash) implies !has_inscription(
                #[trigger] self@.pending[hash],
            ) by {
                assert(hashes@.to_set().contains(hash));
                let j = hashes@.index_of(hash);
                assert(hashes@[j] == hash);
            }
        }
        false
    }

    /// The pending transactions to post again: those not mined on the branch of
    /// `tip`, in no particular order.
    pub fn pending_txs(&self, tip: HeaderId) -> (res: Vec<(TxHash, SignedOps)>)
        ensures
            res@.map_values(first_of_pair()).no_duplicates(),
            forall|hash: TxHash, tx: SignedOps|
                #![trigger res@.contains((hash, tx))]
                res@.contains((hash, tx)) <==> self@.pending.contains_key(hash)
                    && self@.pending[hash] == tx && !self@.safe_at(tip).contains(hash),
    {
        let safe = match self.block_states.get(&tip) {
            Some(set) => set.copy(),
            None => SafeSet::new(),
        };
        assert(safe@ =~= self@.safe_at(tip));
        self.pending_outside(&safe)
    }

    /// All pending transactions, in no particular order.
    pub fn all_pending_txs(&self) -> (res: Vec<(TxHash, SignedOps)>)
        ensures
            res@.map_values(first_of_pair()).no_duplicates(),
            forall|hash: TxHash, tx: SignedOps|
                #![trigger res@.contains((hash, tx))]
                res@.contains((hash, tx)) <==> self@.pending.contains_key(hash)
                    && self@.pending[hash] == tx,
    {
        self.pending_outside(&SafeSet::new())
    }

    /// The channel tip at a block: the newest inscription on its branch, or the
    /// irreversible one when the window down to LIB has none.
    pub fn channel_tip_at(&self, block_id: HeaderId) -> (res: MsgId)
        ensures
            res == self@.channel_tip(block_id),
    {
        let blocks = branch_blocks(&self.parent_map, self.current_lib, block_id);
        assert(blocks@.skip(0) =~= blocks@);
        let mut i: usize = 0;
        while i < blocks.len()
            invariant
                i <= blocks@.len(),
                self@.channel_tip(block_id) == self@.tip_in(blocks@.skip(i as int)),
            decreases blocks@.len() - i,
        {
            assert(blocks@.skip(i as int)[0] == blocks@[i as int]);
            assert(blocks@.skip(i as int).drop_first() =~= blocks@.skip(i + 1));
            match self.block_inscriptions.get(&blocks[i]) {
                Some(list) => {
                    assert(self@.inscriptions_at()(blocks@[i as int]) == list@);
                    if list.len() > 0 {
                        return list[list.len() - 1].this_msg;
                    }
                },
                None => {
                    assert(self@.inscriptions_at()(blocks@[i as int]) =~= Seq::empty());
                },
            }
            i = i + 1;
        }
        self.finalized_msg
    }

    /// The inscriptions from LIB up to `tip`, oldest first.
    pub fn collect_inscriptions_on_branch(&self, tip: HeaderId) -> (res: Vec<InscriptionInfo>)
        ensures
            res@ == self@.on_branch(tip),
    {
        let blocks = branch_blocks(&self.parent_map, self.current_lib, tip);
        let ghost f = self@.inscriptions_at();
        let ghost order = blocks@.reverse();
        let mut res: Vec<InscriptionInfo> = Vec::new();
        let mut n: usize = blocks.len();
        assert(order.take(0) =~= Seq::empty());
        while n > 0
            invariant
                n <= blocks@.len(),
                f == self@.inscriptions_at(),
                order == blocks@.reverse(),
                res@ == order.take(blocks@.len() - n).flat_map(f),
            decreases n,
        {
            let ghost k = blocks@.len() - n;
            proof {
                order.lemma_flat_map_take_append(f, k);
                assert(order[k] == blocks@[n - 1]);
            }
            n = n - 1;
            match self.block_inscriptions.get(&blocks[n]) {
                Some(list) => {
                    assert(f(blocks@[n as int]) == list@);
                    let mut more = copy_infos(list);
                    res.append(&mut more);
                },
                None => {
                    assert(f(blocks@[n as int]) =~= Seq::empty());
                },
            }
            assert(res@ =~= order.take(k + 1).flat_map(f));
        }
        assert(order.take(blocks@.len() as int) =~= order);
        res
    }

    /// All pending inscriptions, in no particular order.
    fn pending_inscriptions(&self) -> (res: Vec<InscriptionInfo>)
        ensures
            self@.carried_once() ==> res@.no_duplicates(),
            forall|info: InscriptionInfo| #[trigger]
                res@.contains(info) <==> self@.pending.contains_key(info.tx_hash) && inscribes(
                    self@.pending[info.tx_hash],
                    info.tx_hash,
                    info,
                ),
    {
        let hashes = self.pending.keys();
        let mut res: Vec<InscriptionInfo> = Vec::new();
        let mut k: usize = 0;
        while k < hashes.len()
            invariant
                k <= hashes@.len(),
                hashes@.to_set() == self@.pending.dom(),
                hashes@.no_duplicates(),
                self@.carried_once() ==> res@.no_duplicates(),
                forall|j: int|
                    0 <= j < hashes@.len() ==> self@.pending.contains_key(#[trigger] hashes@[j]),
                forall|info: InscriptionInfo| #[trigger]
                    res@.contains(info) <==> hashes@.take(k as int).contains(info.tx_hash)
                        && inscribes(self@.pending[info.tx_hash], info.tx_hash, info),
            decreases hashes@.len() - k,
        {
            let hash = hashes[k];
            let ghost before = res@;
            assert(self@.pending.contains_key(hash));
            let mut more: Vec<InscriptionInfo> = match self.pending.get(&hash) {
                Some(tx) => inscriptions_of(tx, hash),
                None => Vec::new(),
            };
            let ghost added = more@;
            res.append(&mut more);
            proof {
                if self@.carried_once() {
                    assert forall|x: InscriptionInfo| before.contains(x) implies !added.contains(
                        x,
                    ) by {
                        if added.contains(x) {
                            let j = hashes@.take(k as int).index_of(hash);
                            assert(hashes@[j] == hash);
                        }
                    }
                    lemma_no_duplicates_add(before, added);
                    assert(res@ =~= before + added);
                }
                lemma_take_contains(hashes@, k as int);
                assert forall|info: InscriptionInfo| #[trigger]
                    res@.contains(info) <==> hashes@.take(k + 1).contains(info.tx_hash)
                        && inscribes(self@.pending[info.tx_hash], info.tx_hash, info) by {
                    lemma_contains_add(before, added, info);
                }
            }
            k = k + 1;
        }
        proof {
            assert(hashes@.take(k as int) =~= hashes@);
            assert forall|h: TxHash| hashes@.contains(h) == self@.pending.contains_key(h) by {
                assert(hashes@.to_set().contains(h) == self@.pending.dom().contains(h));
            }
        }
        res
    }

    /// The pending inscriptions that chain from `from_msg`, directly or not,
    /// each after one that it chains from.
    pub fn collect_pending_suffix(&self, from_msg: MsgId) -> (res: Vec<InscriptionInfo>)
        ensures
            res@.to_set() == self@.suffix(from_msg),
            self@.carried_once() ==> res@.no_duplicates(),
            follow(res@, from_msg),
            written_once(res@, from_msg) ==> parents_first(res@),
    {
        let all = self.pending_inscriptions();
        let res = reachable(&all, from_msg);
        proof {
            lemma_parents_first(res@, from_msg);
            assert forall|set: Set<MsgId>| self@.closed(set) == closed_list(all@, set) by {
                lemma_closed(self@, all@, set);
            }
            assert forall|msg: MsgId| self@.reached(from_msg).contains(msg) == reached_in(
                all@,
                from_msg,
            ).contains(msg) by {
                if self@.reached(from_msg).contains(msg) {
                    assert forall|set: Set<MsgId>| #[trigger]
                        closed_list(all@, set) && set.contains(from_msg) implies set.contains(
                        msg,
                    ) by {
                        assert(self@.closed(set));
                    }
                }
                if reached_in(all@, from_msg).contains(msg) {
                    assert forall|set: Set<MsgId>| #[trigger]
                        self@.closed(set) && set.contains(from_msg) implies set.contains(msg) by {
                        assert(closed_list(all@, set));
                    }
                }
            }
            assert forall|info: InscriptionInfo| res@.to_set().contains(info)
                == self@.suffix(from_msg).contains(info) by {
                assert(res@.contains(info) == (all@.contains(info) && reached_in(
                    all@,
                    from_msg,
                ).contains(info.parent_msg)));
            }
            assert(res@.to_set() =~= self@.suffix(from_msg));
        }
        res
    }

    /// How the channel changed between two tips. An extension of the old chain
    /// invalidates nothing; otherwise whatever is pending from the fork on is
    /// invalid.
    pub fn detect_channel_update(&self, old_tip: HeaderId, new_tip: HeaderId) -> (res: Option<
        ChannelUpdateInfo,
    >)
        ensures
            res is None <==> self@.unchanged(old_tip, new_tip),
            res matches Some(update) ==> {
                &&& update.adopted@ == self@.adopted(old_tip, new_tip)
                &&& update.new_channel_tip == self@.channel_tip(new_tip)
                &&& update.invalidated@.to_set() == if self@.extends(old_tip, new_tip) {
                    Set::<InscriptionInfo>::empty()
                } else {
                    self@.suffix(self@.fork_point(old_tip, new_tip))
                }
                &&& self@.carried_once() ==> update.invalidated@.no_duplicates()
                &&& follow(update.invalidated@, self@.fork_point(old_tip, new_tip))
                &&& written_once(update.invalidated@, self@.fork_point(old_tip, new_tip))
                    ==> parents_first(update.invalidated@)
            },
    {
        let old_channel_tip = self.channel_tip_at(old_tip);
        let new_channel_tip = self.channel_tip_at(new_tip);
        if old_channel_tip.same(&new_channel_tip) {
            return None;
        }
        let new_branch = self.collect_inscriptions_on_branch(new_tip);
        let old_branch = self.collect_inscriptions_on_branch(old_tip);
        let mut new_chain: KeySet<MsgId> = KeySet::new();
        add_msgs(&mut new_chain, new_branch.as_slice());
        let _ = new_chain.insert(self.finalized_msg);
        assert(new_chain@ =~= self@.chain(new_tip));
        let extends = new_chain.contains(&old_channel_tip);
        let fork = last_common_msg(&old_branch, &new_chain, self.finalized_msg);
        let adopted = tail_from(&new_branch, fork);
        if extends && adopted.len() == 0 {
            return None;
        }
        let invalidated = if extends {
            Vec::new()
        } else {
            self.collect_pending_suffix(fork)
        };
        assert(extends ==> invalidated@.to_set() =~= Set::<InscriptionInfo>::empty());
        Some(ChannelUpdateInfo { invalidated, adopted, new_channel_tip })
    }

    /// Process a new block. The pending ones of its transactions join the safe
    /// set of its branch. When LIB moves, the pending transactions mined on the
    /// way to it are done and returned, each once; blocks below it, and those
    /// that no longer reach it, are dropped.
    ///
    /// A block whose parent is not known starts from an empty safe set: its
    /// transactions read as pending until they are seen again.
    pub fn process_block(
        &mut self,
        block_id: HeaderId,
        parent_id: HeaderId,
        lib: HeaderId,
        our_txs: Vec<TxHash>,
        inscriptions: Vec<InscriptionInfo>,
    ) -> (res: Vec<TxHash>)
        ensures
            final(self)@ == old(self)@.process_block(
                block_id,
                parent_id,
                lib,
                our_txs@,
                inscriptions@,
            ),
            res@.no_duplicates(),
            res@.to_set() == if lib != old(self)@.lib {
                old(self)@.add_block(block_id, parent_id, our_txs@, inscriptions@).finalized_by(lib)
            } else {
                Set::<TxHash>::empty()
            },
    {
        let ghost start = self@;
        self.parent_map.insert(block_id, parent_id);
        let mut safe_set = match self.block_states.get(&parent_id) {
            Some(set) => set.copy(),
            None => SafeSet::new(),
        };
        let ghost dom = start.pending.dom();
        assert(safe_set@ =~= start.safe_at(parent_id).union(
            our_txs@.take(0).to_set().intersect(dom),
        ));
        let mut i: usize = 0;
        while i < our_txs.len()
            invariant
                i <= our_txs@.len(),
                dom == start.pending.dom(),
                self.pending@ == start.pending,
                safe_set@ == start.safe_at(parent_id).union(
                    our_txs@.take(i as int).to_set().intersect(dom),
                ),
            decreases our_txs@.len() - i,
        {
            proof {
                assert(our_txs@.take(i + 1) =~= our_txs@.take(i as int).push(our_txs@[i as int]));
                our_txs@.take(i as int).lemma_push_to_set_commute(our_txs@[i as int]);
            }
            if self.pending.contains_key(&our_txs[i]) {
                safe_set = safe_set.insert(our_txs[i]);
            }
            assert(safe_set@ =~= start.safe_at(parent_id).union(
                our_txs@.take(i + 1).to_set().intersect(dom),
            ));
            i = i + 1;
        }
        assert(our_txs@.take(i as int) =~= our_txs@);
        self.block_states.insert(block_id, safe_set);
        if inscriptions.len() > 0 {
            self.block_inscriptions.insert(block_id, inscriptions);
        }
        assert(self@ =~= start.add_block(block_id, parent_id, our_txs@, inscriptions@));
        if lib.same(&self.current_lib) {
            let none: Vec<TxHash> = Vec::new();
            assert(none@.to_set() =~= Set::<TxHash>::empty());
            return none;
        }
        self.advance_lib(lib)
    }

    fn advance_lib(&mut self, lib: HeaderId) -> (res: Vec<TxHash>)
        ensures
            final(self)@ == old(self)@.advance_lib(lib),
            res@.no_duplicates(),
            res@.to_set() == old(self)@.finalized_by(lib),
    {
        let ghost start = self@;
        // Before the blocks below go.
        let tip = self.channel_tip_at(lib);
        let done = self.settle(lib);
        self.finalized_msg = tip;
        let ghost settled = Model {
            pending: start.pending.remove_keys(start.finalized_by(lib)),
            finalized_msg: start.channel_tip(lib),
            ..start
        };
        assert(self@ =~= settled);
        let gone = blocks_below(&self.parent_map, lib);
        self.prune_blocks(&gone);
        self.trim_lib(lib);
        let gone = orphan_blocks(&self.parent_map, lib);
        self.prune_blocks(&gone);
        self.current_lib = lib;
        assert(self@ =~= start.advance_lib(lib));
        done
    }

    /// Takes out the pending transactions mined on the way to `lib`.
    fn settle(&mut self, lib: HeaderId) -> (res: Vec<TxHash>)
        ensures
            res@.no_duplicates(),
            res@.to_set() == old(self)@.finalized_by(lib),
            final(self)@ == (Model {
                pending: old(self)@.pending.remove_keys(old(self)@.finalized_by(lib)),
                ..old(self)@
            }),
    {
        let ghost start = self@;
        let blocks = branch_blocks(&self.parent_map, self.current_lib, lib);
        let mut done: Vec<TxHash> = Vec::new();
        proof {
            assert(done@.to_set() =~= settled_in(start, blocks@, 0, Seq::empty()));
            assert(start.pending.remove_keys(done@.to_set()) =~= start.pending);
        }
        let mut k: usize = 0;
        while k < blocks.len()
            invariant
                k <= blocks@.len(),
                self@ == (Model {
                    pending: start.pending.remove_keys(done@.to_set()),
                    ..start
                }),
                done@.no_duplicates(),
                done@.to_set() == settled_in(start, blocks@, k as int, Seq::empty()),
            decreases blocks@.len() - k,
        {
            let hashes: Vec<TxHash> = match self.block_states.get(&blocks[k]) {
                Some(set) => set.to_vec(),
                None => Vec::new(),
            };
            proof {
                assert(hashes@.to_set() =~= start.safe_at(blocks@[k as int]));
                assert(hashes@.take(0) =~= Seq::empty());
            }
            let mut i: usize = 0;
            while i < hashes.len()
                invariant
                    i <= hashes@.len(),
                    k < blocks@.len(),
                    self@ == (Model {
                        pending: start.pending.remove_keys(done@.to_set()),
                        ..start
                    }),
                    done@.no_duplicates(),
                    done@.to_set() == settled_in(
                        start,
                        blocks@,
                        k as int,
                        hashes@.take(i as int),
                    ),
                decreases hashes@.len() - i,
            {
                let hash = hashes[i];
                let ghost before = done@;
                proof {
                    before.lemma_push_to_set_commute(hash);
                    lemma_take_contains(hashes@, i as int);
                }
                if self.pending.remove(&hash).is_some() {
                    assert(!before.contains(hash)) by {
                        if before.contains(hash) {
                            assert(before.to_set().contains(hash));
                        }
                    }
                    done.push(hash);
                    assert(self@.pending =~= start.pending.remove_keys(done@.to_set()));
                } else {
                    assert(self@.pending =~= start.pending.remove_keys(done@.to_set()));
                }
                assert(self@ =~= Model {
                    pending: start.pending.remove_keys(done@.to_set()),
                    ..start
                });
                assert(done@.to_set() =~= settled_in(start, blocks@, k as int, hashes@.take(i + 1)));
                i = i + 1;
            }
            proof {
                assert(hashes@.take(i as int) =~= hashes@);
                assert(done@.to_set() =~= settled_in(start, blocks@, k + 1, Seq::empty())) by {
                    assert forall|h: TxHash| hashes@.contains(h) == start.safe_at(
                        blocks@[k as int],
                    ).contains(h) by {
                        assert(hashes@.to_set().contains(h) == start.safe_at(
                            blocks@[k as int],
                        ).contains(h));
                    }
                    lemma_settled_next(start, blocks@, k as int, hashes@);
                }
            }
            k = k + 1;
        }
        assert(done@.to_set() =~= start.finalized_by(lib));
        done
    }

    /// Drops blocks and what is held for them.
    fn prune_blocks(&mut self, blocks: &Vec<HeaderId>)
        ensures
            final(self)@ == old(self)@.prune(blocks@.to_set()),
    {
        let ghost start = self@;
        assert(self@ =~= start.prune(blocks@.take(0).to_set()));
        let mut i: usize = 0;
        while i < blocks.len()
            invariant
                i <= blocks@.len(),
                self@ == start.prune(blocks@.take(i as int).to_set()),
            decreases blocks@.len() - i,
        {
            proof {
                assert(blocks@.take(i + 1) =~= blocks@.take(i as int).push(blocks@[i as int]));
                blocks@.take(i as int).lemma_push_to_set_commute(blocks@[i as int]);
            }
            let ghost before = self@;
            let _ = self.block_states.remove(&blocks[i]);
            let _ = self.block_inscriptions.remove(&blocks[i]);
            let _ = self.parent_map.remove(&blocks[i]);
            proof {
                let block = blocks@[i as int];
                let gone = blocks@.take(i as int).to_set();
                assert(self@.safe =~= before.safe.remove(block));
                assert(self@.inscriptions =~= before.inscriptions.remove(block));
                assert(self@.safe =~= start.safe.remove_keys(gone.insert(block)));
                assert(self@.inscriptions =~= start.inscriptions.remove_keys(gone.insert(block)));
                assert(self@.parents =~= start.parents.remove_keys(gone.insert(block)));
            }
            assert(self@ =~= start.prune(blocks@.take(i + 1).to_set()));
            i = i + 1;
        }
        assert(blocks@.take(i as int) =~= blocks@);
    }

    /// Cuts the safe set of `lib` to what is still pending, so that finished
    /// transactions do not pile up in the sets built on it.
    fn trim_lib(&mut self, lib: HeaderId)
        ensures
            final(self)@ == old(self)@.trim(lib),
    {
        let ghost start = self@;
        let hashes: Vec<TxHash> = match self.block_states.get(&lib) {
            Some(set) => set.to_vec(),
            None => {
                assert(self@ =~= start.trim(lib));
                return;
            },
        };
        let mut fresh = SafeSet::new();
        assert(fresh@ =~= hashes@.take(0).to_set().intersect(start.pending.dom()));
        let mut i: usize = 0;
        while i < hashes.len()
            invariant
                i <= hashes@.len(),
                self@ == start,
                fresh@ == hashes@.take(i as int).to_set().intersect(start.pending.dom()),
            decreases hashes@.len() - i,
        {
            proof {
                assert(hashes@.take(i + 1) =~= hashes@.take(i as int).push(hashes@[i as int]));
                hashes@.take(i as int).lemma_push_to_set_commute(hashes@[i as int]);
            }
            if self.pending.contains_key(&hashes[i]) {
                fresh = fresh.insert(hashes[i]);
            }
            assert(fresh@ =~= hashes@.take(i + 1).to_set().intersect(start.pending.dom()));
            i = i + 1;
        }
        assert(hashes@.take(i as int) =~= hashes@);
        self.block_states.insert(lib, fresh);
        assert(self@ =~= start.trim(lib));
    }

    fn pending_outside(&self, safe: &SafeSet) -> (res: Vec<(TxHash, SignedOps)>)
        ensures
            res@.map_values(first_of_pair()).no_duplicates(),
            forall|hash: TxHash, tx: SignedOps|
                #![trigger res@.contains((hash, tx))]
                res@.contains((hash, tx)) <==> self@.pending.contains_key(hash)
                    && self@.pending[hash] == tx && !safe@.contains(hash),
    {
        let hashes = self.pending.keys();
        let mut res: Vec<(TxHash, SignedOps)> = Vec::new();
        let mut i: usize = 0;
        while i < hashes.len()
            invariant
                i <= hashes@.len(),
                hashes@.no_duplicates(),
                hashes@.to_set() == self@.pending.dom(),
                forall|j: int|
                    0 <= j < res@.len() ==> hashes@.take(i as int).contains(
                        (#[trigger] res@[j]).0,
                    ) && self@.pending.contains_key(res@[j].0) && self@.pending[res@[j].0]
                        == res@[j].1 && !safe@.contains(res@[j].0),
                forall|j: int, k: int|
                    0 <= j < k < res@.len() ==> (#[trigger] res@[j]).0 != (#[trigger] res@[k]).0,
                forall|k: int|
                    0 <= k < i && !safe@.contains(#[trigger] hashes@[k]) ==> res@.contains(
                        (hashes@[k], self@.pending[hashes@[k]]),
                    ),
            decreases hashes@.len() - i,
        {
            let hash = hashes[i];
            let ghost before = res@;
            proof {
                assert(hashes@.to_set().contains(hash));
                assert(hashes@.take(i + 1) =~= hashes@.take(i as int).push(hash));
                assert forall|x: TxHash| hashes@.take(i as int).contains(x) implies hashes@.take(
                    i + 1,
                ).contains(x) by {
                    let k = hashes@.take(i as int).index_of(x);
                    assert(hashes@.take(i + 1)[k] == x);
                }
                assert(hashes@.take(i + 1)[i as int] == hash);
                assert(!hashes@.take(i as int).contains(hash)) by {
                    if hashes@.take(i as int).contains(hash) {
                        let k = hashes@.take(i as int).index_of(hash);
                        assert(hashes@[k] == hash);
                    }
                }
            }
            if !safe.contains(&hash) {
                match self.pending.get(&hash) {
                    Some(tx) => res.push((hash, tx.clone())),
                    None => {},
                }
                assert(res@[res@.len() - 1] == (hash, self@.pending[hash]));
            }
            proof {
                assert forall|k: int| 0 <= k < i + 1 && !safe@.contains(#[trigger] hashes@[k]) implies res@.contains(
                (hashes@[k], self@.pending[hashes@[k]])) by {
                    if k < i {
                        let j = before.index_of((hashes@[k], self@.pending[hashes@[k]]));
                        assert(res@[j] == (hashes@[k], self@.pending[hashes@[k]]));
                    }
                }
            }
            i = i + 1;
        }
        proof {
            let firsts = res@.map_values(first_of_pair());
            assert forall|j: int, k: int|
                0 <= j < firsts.len() && 0 <= k < firsts.len() && j != k implies firsts[j]
                != firsts[k] by {
                if j < k {
                    assert(res@[j].0 != res@[k].0);
                } else {
                    assert(res@[k].0 != res@[j].0);
                }
            }
            assert forall|hash: TxHash, tx: SignedOps|
                #![trigger res@.contains((hash, tx))]
                res@.contains((hash, tx)) <==> self@.pending.contains_key(hash)
                    && self@.pending[hash] == tx && !safe@.contains(hash) by {
                if res@.contains((hash, tx)) {
                    let j = res@.index_of((hash, tx));
                    assert(res@[j] == (hash, tx));
                }
                if self@.pending.contains_key(hash) && self@.pending[hash] == tx && !safe@.contains(
                    hash,
                ) {
                    assert(hashes@.to_set().contains(hash));
                    let k = hashes@.index_of(hash);
                    assert(hashes@[k] == hash);
                }
            }
        }
        res
    }
}

pub open spec fn first_of_pair() -> spec_fn((TxHash, SignedOps)) -> TxHash {
    |pair: (TxHash, SignedOps)| pair.0
}

fn carries_inscription(tx: &SignedOps) -> (res: bool)
    ensures
        res == has_inscription(*tx),
{
    let ops: &Vec<Op> = &tx.ops;
    let mut i: usize = 0;
    while i < ops.len()
        invariant
            i <= ops@.len(),
            ops@ == tx.ops@,
            forall|j: int| 0 <= j < i ==> !((#[trigger] ops@[j]) is ChannelInscribe),
        decreases ops@.len() - i,
    {
        if let Op::ChannelInscribe(_) = &ops[i] {
            return true;
        }
        i = i + 1;
    }
    false
}

/// The pending transactions in the safe sets of the first `k` blocks, or in
/// `more`.
spec fn settled_in(m: Model, blocks: Seq<HeaderId>, k: int, more: Seq<TxHash>) -> Set<TxHash> {
    Set::new(
        |hash: TxHash|
            m.pending.contains_key(hash) && (more.contains(hash) || exists|i: int|
                0 <= i < k && #[trigger] m.safe_at(blocks[i]).contains(hash)),
    )
}

proof fn lemma_take_contains(hashes: Seq<TxHash>, i: int)
    requires
        0 <= i < hashes.len(),
    ensures
        forall|h: TxHash| #[trigger]
            hashes.take(i + 1).contains(h) == (hashes.take(i).contains(h) || h == hashes[i]),
{
    assert(hashes.take(i + 1) =~= hashes.take(i).push(hashes[i]));
    hashes.take(i).lemma_push_to_set_commute(hashes[i]);
    assert forall|h: TxHash| #[trigger]
        hashes.take(i + 1).contains(h) == (hashes.take(i).contains(h) || h == hashes[i]) by {
        assert(hashes.take(i + 1).to_set().contains(h) == hashes.take(i).to_set().insert(
            hashes[i],
        ).contains(h));
    }
}

proof fn lemma_settled_next(m: Model, blocks: Seq<HeaderId>, k: int, hashes: Seq<TxHash>)
    requires
        0 <= k < blocks.len(),
        forall|h: TxHash| hashes.contains(h) == m.safe_at(blocks[k]).contains(h),
    ensures
        settled_in(m, blocks, k, hashes) == settled_in(m, blocks, k + 1, Seq::empty()),
{
    assert forall|h: TxHash| settled_in(m, blocks, k, hashes).contains(h) == settled_in(
        m,
        blocks,
        k + 1,
        Seq::empty(),
    ).contains(h) by {
        if m.pending.contains_key(h) {
            if hashes.contains(h) {
                assert(m.safe_at(blocks[k]).contains(h));
            }
            if exists|i: int| 0 <= i < k && #[trigger] m.safe_at(blocks[i]).contains(h) {
                let i = choose|i: int| 0 <= i < k && #[trigger] m.safe_at(blocks[i]).contains(h);
                assert(0 <= i < k + 1 && m.safe_at(blocks[i]).contains(h));
            }
        }
    }
    assert(settled_in(m, blocks, k, hashes) =~= settled_in(m, blocks, k + 1, Seq::empty()));
}

proof fn lemma_contains_add(a: Seq<InscriptionInfo>, b: Seq<InscriptionInfo>, x: InscriptionInfo)
    ensures
        (a + b).contains(x) == (a.contains(x) || b.contains(x)),
{
    if a.contains(x) {
        assert((a + b)[a.index_of(x)] == x);
    }
    if b.contains(x) {
        assert((a + b)[a.len() + b.index_of(x)] == x);
    }
    if (a + b).contains(x) {
        let i = (a + b).index_of(x);
        if i < a.len() {
            assert(a[i] == x);
        } else {
            assert(b[i - a.len()] == x);
        }
    }
}

proof fn lemma_no_duplicates_add(a: Seq<InscriptionInfo>, b: Seq<InscriptionInfo>)
    requires
        a.no_duplicates(),
        b.no_duplicates(),
        forall|x: InscriptionInfo| #[trigger] a.contains(x) ==> !b.contains(x),
    ensures
        (a + b).no_duplicates(),
{
    let all = a + b;
    assert forall|i: int, j: int| 0 <= i < j < all.len() implies all[i] != all[j] by {
        if j < a.len() {
            assert(a[i] != a[j]);
        } else if i >= a.len() {
            assert(b[i - a.len()] != b[j - a.len()]);
        } else {
            assert(a[i] == all[i]);
            assert(a.contains(all[i]));
            assert(b[j - a.len()] == all[j]);
            assert(b.contains(all[j]));
        }
    }
}

/// The inscriptions of a transaction.
fn inscriptions_of(tx: &SignedOps, hash: TxHash) -> (res: Vec<InscriptionInfo>)
    ensures
        carries_once(*tx, hash) ==> res@.no_duplicates(),
        forall|info: InscriptionInfo| #[trigger]
            res@.contains(info) <==> info.tx_hash == hash && inscribes(*tx, hash, info),
{
    let ops: &Vec<Op> = &tx.ops;
    let mut res: Vec<InscriptionInfo> = Vec::new();
    let mut i: usize = 0;
    while i < ops.len()
        invariant
            i <= ops@.len(),
            ops@ == tx.ops@,
            carries_once(*tx, hash) ==> res@.no_duplicates(),
            forall|info: InscriptionInfo| #[trigger]
                res@.contains(info) <==> exists|j: int|
                    0 <= j < i && #[trigger] inscription_at(*tx, hash, j) == Some(info),
        decreases ops@.len() - i,
    {
        let ghost before = res@;
        let ghost found = inscription_at(*tx, hash, i as int);
        if let Op::ChannelInscribe(op) = &ops[i] {
            res.push(
                InscriptionInfo {
                    tx_hash: hash,
                    parent_msg: op.parent,
                    this_msg: op.id,
                    payload: op.inscription.clone(),
                    signer: Some(op.signer),
                },
            );
        }
        proof {
            if carries_once(*tx, hash) && found is Some {
                assert(res@ =~= before + seq![found->0]);
                assert forall|x: InscriptionInfo| #[trigger] before.contains(x) implies !seq![
                    found->0,
                ].contains(x) by {
                    let j = choose|j: int|
                        0 <= j < i && #[trigger] inscription_at(*tx, hash, j) == Some(x);
                    assert(inscription_at(*tx, hash, j) != inscription_at(*tx, hash, i as int));
                }
                lemma_no_duplicates_add(before, seq![found->0]);
            }
            assert forall|info: InscriptionInfo| #[trigger]
                res@.contains(info) <==> exists|j: int|
                    0 <= j < i + 1 && #[trigger] inscription_at(*tx, hash, j) == Some(info) by {
                if found is Some {
                    assert(res@ =~= before + seq![found->0]);
                    lemma_contains_add(before, seq![found->0], info);
                    if seq![found->0].contains(info) {
                        assert(seq![found->0][0] == info);
                    }
                    if found == Some(info) {
                        assert(seq![found->0][0] == info);
                    }
                } else {
                    assert(res@ =~= before);
                }
            }
        }
        i = i + 1;
    }
    proof {
        assert forall|info: InscriptionInfo| #[trigger]
            res@.contains(info) <==> info.tx_hash == hash && inscribes(*tx, hash, info) by {}
    }
    res
}

/// A set that holds, with a message, whatever an inscription of the list chains
/// to it.
spec fn closed_list(all: Seq<InscriptionInfo>, set: Set<MsgId>) -> bool {
    forall|i: int|
        0 <= i < all.len() && set.contains((#[trigger] all[i]).parent_msg) ==> set.contains(
            all[i].this_msg,
        )
}

spec fn reached_in(all: Seq<InscriptionInfo>, from: MsgId) -> Set<MsgId> {
    Set::new(
        |msg: MsgId|
            forall|set: Set<MsgId>| #[trigger]
                closed_list(all, set) && set.contains(from) ==> set.contains(msg),
    )
}

proof fn lemma_closed(m: Model, all: Seq<InscriptionInfo>, set: Set<MsgId>)
    requires
        forall|info: InscriptionInfo| #[trigger]
            all.contains(info) <==> m.pending.contains_key(info.tx_hash) && inscribes(
                m.pending[info.tx_hash],
                info.tx_hash,
                info,
            ),
    ensures
        m.closed(set) == closed_list(all, set),
{
    if m.closed(set) {
        assert forall|i: int|
            0 <= i < all.len() && set.contains((#[trigger] all[i]).parent_msg) implies set.contains(
            all[i].this_msg,
        ) by {
            let info = all[i];
            assert(all.contains(info));
            let tx = m.pending[info.tx_hash];
            let j = choose|j: int|
                0 <= j < tx.ops@.len() && #[trigger] inscription_at(tx, info.tx_hash, j) == Some(
                    info,
                );
            assert(inscription_at(m.pending[info.tx_hash], info.tx_hash, j) == Some(info));
        }
    }
    if closed_list(all, set) {
        assert forall|hash: TxHash, i: int|
            #![trigger inscription_at(m.pending[hash], hash, i)]
            m.pending.contains_key(hash) && 0 <= i < m.pending[hash].ops@.len() implies (
        match inscription_at(m.pending[hash], hash, i) {
            Some(info) => set.contains(info.parent_msg) ==> set.contains(info.this_msg),
            None => true,
        }) by {
            if let Some(info) = inscription_at(m.pending[hash], hash, i) {
                assert(inscribes(m.pending[hash], hash, info));
                assert(all.contains(info));
                let k = all.index_of(info);
                assert(all[k] == info);
            }
        }
    }
}

/// What the inscriptions of a list make of `parent`.
spec fn children(all: Seq<InscriptionInfo>, parent: MsgId) -> Set<MsgId> {
    Set::new(
        |msg: MsgId|
            exists|i: int|
                0 <= i < all.len() && (#[trigger] all[i]).parent_msg == parent && all[i].this_msg
                    == msg,
    )
}

/// Collects the inscriptions that chain from `parent`, and notes the messages
/// that were not seen before.
fn expand(
    all: &Vec<InscriptionInfo>,
    parent: MsgId,
    seen: &mut KeySet<MsgId>,
    frontier: &mut Vec<MsgId>,
    res: &mut Vec<InscriptionInfo>,
)
    ensures
        final(seen)@ == old(seen)@.union(children(all@, parent)),
        final(frontier)@.to_set() == old(frontier)@.to_set().union(
            final(seen)@.difference(old(seen)@),
        ),
        final(seen)@ == old(seen)@ ==> final(frontier)@ == old(frontier)@,
        old(frontier)@.no_duplicates() && old(frontier)@.to_set().subset_of(old(seen)@)
            ==> final(frontier)@.no_duplicates(),
        final(res)@.len() >= old(res)@.len(),
        final(res)@.take(old(res)@.len() as int) == old(res)@,
        forall|i: int|
            old(res)@.len() <= i < final(res)@.len() ==> (#[trigger] final(res)@[i]).parent_msg
                == parent,
        all@.no_duplicates() && old(res)@.no_duplicates() && (forall|i: int|
            0 <= i < old(res)@.len() ==> (#[trigger] old(res)@[i]).parent_msg != parent)
            ==> final(res)@.no_duplicates(),
        forall|info: InscriptionInfo| #[trigger]
            final(res)@.contains(info) <==> old(res)@.contains(info) || (all@.contains(info)
                && info.parent_msg == parent),
{
    let ghost seen0 = seen@;
    let ghost frontier0 = frontier@;
    let ghost res0 = res@;
    proof {
        assert(seen0.union(children(all@.take(0), parent)) =~= seen0);
        assert(frontier0.to_set().union(seen0.difference(seen0)) =~= frontier0.to_set());
        assert(res0.take(res0.len() as int) =~= res0);
    }
    let mut i: usize = 0;
    while i < all.len()
        invariant
            i <= all@.len(),
            seen@ == seen0.union(children(all@.take(i as int), parent)),
            frontier@.to_set() == frontier0.to_set().union(seen@.difference(seen0)),
            seen@ == seen0 ==> frontier@ == frontier0,
            frontier0.no_duplicates() && frontier0.to_set().subset_of(seen0)
                ==> frontier@.no_duplicates(),
            res@.len() >= res0.len(),
            res@.take(res0.len() as int) == res0,
            forall|j: int|
                res0.len() <= j < res@.len() ==> (#[trigger] res@[j]).parent_msg == parent,
            all@.no_duplicates() && res0.no_duplicates() && (forall|j: int|
                0 <= j < res0.len() ==> (#[trigger] res0[j]).parent_msg != parent)
                ==> res@.no_duplicates(),
            forall|info: InscriptionInfo| #[trigger]
                res@.contains(info) <==> res0.contains(info) || (all@.take(i as int).contains(info)
                    && info.parent_msg == parent),
        decreases all@.len() - i,
    {
        let info = &all[i];
        let ghost seen1 = seen@;
        let ghost res1 = res@;
        let ghost taken = all@.take(i as int);
        let ghost next = all@.take(i + 1);
        proof {
            assert(next =~= taken + seq![*info]);
            assert forall|x: InscriptionInfo| next.contains(x) == (taken.contains(x) || x == *info) by {
                lemma_contains_add(taken, seq![*info], x);
                assert(seq![*info][0] == *info);
            }
        }
        if info.parent_msg.same(&parent) {
            proof {
                assert(children(next, parent) =~= children(taken, parent).insert(info.this_msg)) by {
                    assert(next[i as int] == *info);
                    assert forall|msg: MsgId| children(next, parent).contains(msg) == children(
                        taken,
                        parent,
                    ).insert(info.this_msg).contains(msg) by {
                        if children(taken, parent).contains(msg) {
                            let j = choose|j: int|
                                0 <= j < taken.len() && (#[trigger] taken[j]).parent_msg == parent
                                    && taken[j].this_msg == msg;
                            assert(next[j] == taken[j]);
                        }
                        if children(next, parent).contains(msg) {
                            let j = choose|j: int|
                                0 <= j < next.len() && (#[trigger] next[j]).parent_msg == parent
                                    && next[j].this_msg == msg;
                            if j < i {
                                assert(taken[j] == next[j]);
                            }
                        }
                    }
                }
                frontier@.lemma_push_to_set_commute(info.this_msg);
            }
            proof {
                if all@.no_duplicates() && res0.no_duplicates() && (forall|j: int|
                    0 <= j < res0.len() ==> (#[trigger] res0[j]).parent_msg != parent) {
                    assert forall|x: InscriptionInfo| #[trigger] res1.contains(
                        x,
                    ) implies !seq![*info].contains(x) by {
                        if seq![*info].contains(x) {
                            assert(x == *info);
                            if res0.contains(x) {
                                assert(res0[res0.index_of(x)] == x);
                            } else {
                                let j = taken.index_of(x);
                                assert(all@[j] == all@[i as int]);
                            }
                        }
                    }
                    lemma_no_duplicates_add(res1, seq![*info]);
                }
            }
            res.push(info.clone());
            assert(res@.take(res0.len() as int) =~= res1.take(res0.len() as int));
            let ghost frontier1 = frontier@;
            if seen.insert(info.this_msg) {
                proof {
                    if frontier0.no_duplicates() && frontier0.to_set().subset_of(seen0) {
                        assert(!frontier1.contains(info.this_msg)) by {
                            if frontier1.contains(info.this_msg) {
                                assert(frontier1.to_set().contains(info.this_msg));
                            }
                        }
                    }
                }
                frontier.push(info.this_msg);
                assert(seen@ != seen0) by {
                    assert(seen@.contains(info.this_msg));
                    assert(!seen0.contains(info.this_msg));
                }
            } else {
                assert(seen@ =~= seen1);
            }
            proof {
                assert(seen@ =~= seen0.union(children(next, parent)));
                assert(frontier@.to_set() =~= frontier0.to_set().union(seen@.difference(seen0)));
                assert(res@ =~= res1 + seq![*info]);
                assert forall|x: InscriptionInfo| #[trigger] res@.contains(x) <==> res0.contains(x)
                    || (next.contains(x) && x.parent_msg == parent) by {
                    lemma_contains_add(res1, seq![*info], x);
                    assert(seq![*info][0] == *info);
                }
            }
        } else {
            proof {
                assert(children(next, parent) =~= children(taken, parent)) by {
                    assert(next[i as int] == *info);
                    assert forall|msg: MsgId| children(next, parent).contains(msg) == children(
                        taken,
                        parent,
                    ).contains(msg) by {
                        if children(taken, parent).contains(msg) {
                            let j = choose|j: int|
                                0 <= j < taken.len() && (#[trigger] taken[j]).parent_msg == parent
                                    && taken[j].this_msg == msg;
                            assert(next[j] == taken[j]);
                        }
                        if children(next, parent).contains(msg) {
                            let j = choose|j: int|
                                0 <= j < next.len() && (#[trigger] next[j]).parent_msg == parent
                                    && next[j].this_msg == msg;
                            assert(j < i);
                            assert(taken[j] == next[j]);
                        }
                    }
                }
            }
        }
        i = i + 1;
    }
    assert(all@.take(i as int) =~= all@);
}

/// Entries behind a message that is there keep the list in order, and put what
/// they write in it.
proof fn lemma_follow_grows(
    all: Seq<InscriptionInfo>,
    before: Seq<InscriptionInfo>,
    after: Seq<InscriptionInfo>,
    seen0: Set<MsgId>,
    seen: Set<MsgId>,
    parent: MsgId,
    from: MsgId,
)
    requires
        follow(before, from),
        seen0.contains(parent),
        seen == seen0.union(children(all, parent)),
        forall|msg: MsgId| #[trigger]
            seen0.contains(msg) && msg != from ==> exists|j: int|
                0 <= j < before.len() && (#[trigger] before[j]).this_msg == msg,
        after.len() >= before.len(),
        after.take(before.len() as int) == before,
        forall|i: int|
            before.len() <= i < after.len() ==> (#[trigger] after[i]).parent_msg == parent,
        forall|info: InscriptionInfo| #[trigger]
            after.contains(info) <==> before.contains(info) || (all.contains(info)
                && info.parent_msg == parent),
    ensures
        follow(after, from),
        forall|msg: MsgId| #[trigger]
            seen.contains(msg) && msg != from ==> exists|j: int|
                0 <= j < after.len() && (#[trigger] after[j]).this_msg == msg,
{
    assert forall|i: int| 0 <= i < before.len() implies before[i] == #[trigger] after[i] by {
        assert(after.take(before.len() as int)[i] == after[i]);
    }
    assert forall|i: int|
        0 <= i < after.len() && (#[trigger] after[i]).parent_msg != from implies exists|j: int|
        0 <= j < i && (#[trigger] after[j]).this_msg == after[i].parent_msg by {
        if i < before.len() {
            assert(before[i] == after[i]);
            let j = choose|j: int|
                0 <= j < i && (#[trigger] before[j]).this_msg == before[i].parent_msg;
            assert(after[j] == before[j]);
        } else {
            let j = choose|j: int| 0 <= j < before.len() && (#[trigger] before[j]).this_msg == parent;
            assert(after[j] == before[j]);
        }
    }
    assert forall|msg: MsgId| #[trigger] seen.contains(msg) && msg != from implies exists|j: int|
        0 <= j < after.len() && (#[trigger] after[j]).this_msg == msg by {
        if seen0.contains(msg) {
            let j = choose|j: int| 0 <= j < before.len() && (#[trigger] before[j]).this_msg == msg;
            assert(after[j] == before[j]);
        } else {
            let i = choose|i: int|
                0 <= i < all.len() && (#[trigger] all[i]).parent_msg == parent && all[i].this_msg
                    == msg;
            assert(all.contains(all[i]));
            assert(after.contains(all[i]));
            let j = after.index_of(all[i]);
            assert(after[j].this_msg == msg);
        }
    }
}

/// The inscriptions of a list that chain from `from`, directly or not.
fn reachable(all: &Vec<InscriptionInfo>, from: MsgId) -> (res: Vec<InscriptionInfo>)
    ensures
        all@.no_duplicates() ==> res@.no_duplicates(),
        follow(res@, from),
        forall|info: InscriptionInfo| #[trigger]
            res@.contains(info) <==> all@.contains(info) && reached_in(all@, from).contains(
                info.parent_msg,
            ),
{
    let ghost universe = msgs(all@).insert(from);
    let mut res: Vec<InscriptionInfo> = Vec::new();
    let mut seen: KeySet<MsgId> = KeySet::new();
    let _ = seen.insert(from);
    let mut frontier: Vec<MsgId> = Vec::new();
    proof {
        frontier@.lemma_push_to_set_commute(from);
    }
    frontier.push(from);
    let ghost mut done: Set<MsgId> = Set::empty();
    proof {
        broadcast use vstd::seq_lib::seq_to_set_is_finite;

        assert(universe.finite());
        assert(seen@ =~= done.union(frontier@.to_set()));
    }
    while frontier.len() > 0
        invariant
            universe == msgs(all@).insert(from),
            universe.finite(),
            seen@.subset_of(universe),
            seen@.contains(from),
            seen@ == done.union(frontier@.to_set()),
            frontier@.no_duplicates(),
            done.disjoint(frontier@.to_set()),
            all@.no_duplicates() ==> res@.no_duplicates(),
            follow(res@, from),
            forall|msg: MsgId| #[trigger]
                seen@.contains(msg) && msg != from ==> exists|j: int|
                    0 <= j < res@.len() && (#[trigger] res@[j]).this_msg == msg,
            forall|set: Set<MsgId>| #[trigger]
                closed_list(all@, set) && set.contains(from) ==> seen@.subset_of(set),
            forall|i: int|
                0 <= i < all@.len() && done.contains((#[trigger] all@[i]).parent_msg)
                    ==> seen@.contains(all@[i].this_msg),
            forall|info: InscriptionInfo| #[trigger]
                res@.contains(info) <==> all@.contains(info) && done.contains(info.parent_msg),
        decreases universe.difference(seen@).len(), frontier@.len(),
    {
        let ghost seen0 = seen@;
        let ghost done0 = done;
        let ghost frontier0 = frontier@;
        let ghost res0 = res@;
        let parent = frontier.pop().unwrap();
        proof {
            assert(frontier0 =~= frontier@.push(parent));
            assert(!frontier@.contains(parent)) by {
                if frontier@.contains(parent) {
                    assert(frontier0[frontier@.index_of(parent)] == frontier0.last());
                }
            }
            assert forall|i: int| 0 <= i < res@.len() implies (#[trigger] res@[i]).parent_msg
                != parent by {
                assert(res@.contains(res@[i]));
            }
            frontier@.lemma_push_to_set_commute(parent);
            assert(frontier0.to_set().contains(parent));
            done = done.insert(parent);
            assert(seen@ =~= done.union(frontier@.to_set()));
        }
        expand(all, parent, &mut seen, &mut frontier, &mut res);
        proof {
            lemma_follow_grows(all@, res0, res@, seen0, seen@, parent, from);
            assert(seen@ =~= done.union(frontier@.to_set()));
            assert forall|msg: MsgId| children(all@, parent).contains(msg) implies universe.contains(
                msg,
            ) by {
                let i = choose|i: int|
                    0 <= i < all@.len() && (#[trigger] all@[i]).parent_msg == parent
                        && all@[i].this_msg == msg;
                let ids = all@.map_values(msg_of());
                assert(ids[i] == msg);
                assert(ids.contains(msg));
            }
            assert forall|set: Set<MsgId>| #[trigger]
                closed_list(all@, set) && set.contains(from) implies seen@.subset_of(set) by {
                assert(seen0.subset_of(set));
                assert(set.contains(parent));
                assert forall|msg: MsgId| children(all@, parent).contains(msg) implies set.contains(
                    msg,
                ) by {
                    let i = choose|i: int|
                        0 <= i < all@.len() && (#[trigger] all@[i]).parent_msg == parent
                            && all@[i].this_msg == msg;
                    assert(set.contains(all@[i].parent_msg));
                }
            }
            assert forall|i: int|
                0 <= i < all@.len() && done.contains(
                    (#[trigger] all@[i]).parent_msg,
                ) implies seen@.contains(all@[i].this_msg) by {
                if all@[i].parent_msg == parent {
                    assert(children(all@, parent).contains(all@[i].this_msg));
                }
            }
            let old_rest = universe.difference(seen0);
            let new_rest = universe.difference(seen@);
            if seen@ != seen0 {
                assert(new_rest.subset_of(old_rest));
                let extra = choose|msg: MsgId| seen@.contains(msg) && !seen0.contains(msg);
                assert(exists|msg: MsgId| seen@.contains(msg) && !seen0.contains(msg)) by {
                    if forall|msg: MsgId| seen@.contains(msg) ==> seen0.contains(msg) {
                        assert(seen@ =~= seen0);
                    }
                }
                assert(old_rest.contains(extra) && !new_rest.contains(extra));
                assert(new_rest.subset_of(old_rest.remove(extra)));
                vstd::set_lib::lemma_len_subset(new_rest, old_rest.remove(extra));
            }
        }
    }
    proof {
        assert(frontier@.to_set() =~= Set::empty());
        assert(seen@ =~= done);
        assert(closed_list(all@, seen@));
        assert forall|msg: MsgId| reached_in(all@, from).contains(msg) == seen@.contains(msg) by {}
    }
    res
}

fn last_common_msg(
    old_branch: &Vec<InscriptionInfo>,
    new_chain: &KeySet<MsgId>,
    otherwise: MsgId,
) -> (res: MsgId)
    ensures
        res == last_common(old_branch@, new_chain@, otherwise),
{
    let mut n: usize = old_branch.len();
    assert(old_branch@.take(n as int) =~= old_branch@);
    while n > 0
        invariant
            n <= old_branch@.len(),
            last_common(old_branch@, new_chain@, otherwise) == last_common(
                old_branch@.take(n as int),
                new_chain@,
                otherwise,
            ),
        decreases n,
    {
        assert(old_branch@.take(n as int).drop_last() =~= old_branch@.take(n - 1));
        assert(old_branch@.take(n as int).last() == old_branch@[n - 1]);
        if new_chain.contains(&old_branch[n - 1].this_msg) {
            return old_branch[n - 1].this_msg;
        }
        n = n - 1;
    }
    otherwise
}

fn tail_from(infos: &Vec<InscriptionInfo>, msg: MsgId) -> (res: Vec<InscriptionInfo>)
    ensures
        res@ == from_parent(infos@, msg),
{
    let mut start: usize = 0;
    assert(infos@.skip(0) =~= infos@);
    while start < infos.len() && !infos[start].parent_msg.same(&msg)
        invariant
            start <= infos@.len(),
            from_parent(infos@, msg) == from_parent(infos@.skip(start as int), msg),
        decreases infos@.len() - start,
    {
        assert(infos@.skip(start as int)[0] == infos@[start as int]);
        assert(infos@.skip(start as int).drop_first() =~= infos@.skip(start + 1));
        start = start + 1;
    }
    proof {
        if start < infos@.len() {
            assert(infos@.skip(start as int)[0] == infos@[start as int]);
        }
        assert(from_parent(infos@, msg) =~= infos@.skip(start as int));
    }
    let mut res: Vec<InscriptionInfo> = Vec::new();
    let mut i: usize = start;
    while i < infos.len()
        invariant
            start <= i <= infos@.len(),
            res@ == infos@.subrange(start as int, i as int),
        decreases infos@.len() - i,
    {
        res.push(infos[i].clone());
        assert(res@ =~= infos@.subrange(start as int, i + 1));
        i = i + 1;
    }
    assert(res@ =~= infos@.skip(start as int));
    res
}

/// A pending transaction that a block carries is safe on the block's branch, and
/// its safety is inherited by the blocks on top.
pub proof fn law_mined_is_safe(
    m: Model,
    block: HeaderId,
    parent: HeaderId,
    our_txs: Seq<TxHash>,
    inscriptions: Seq<InscriptionInfo>,
    hash: TxHash,
)
    ensures
        ({
            let n = m.add_block(block, parent, our_txs, inscriptions);
            &&& m.pending.contains_key(hash) && our_txs.contains(hash) ==> n.safe_at(
                block,
            ).contains(hash)
            &&& m.safe_at(parent).contains(hash) ==> n.safe_at(block).contains(hash)
            &&& n.pending == m.pending
        }),
{
    if our_txs.contains(hash) {
        assert(our_txs.to_set().contains(hash));
    }
}

/// What became irreversible is pending no longer, and everything else stays.
pub proof fn law_only_the_finalized_is_done(m: Model, lib: HeaderId, hash: TxHash)
    ensures
        m.advance_lib(lib).pending.contains_key(hash) <==> m.pending.contains_key(hash)
            && !m.finalized_by(lib).contains(hash),
        m.advance_lib(lib).finalized_msg == m.channel_tip(lib),
{
}

/// Once LIB moved, every known block hangs together with it.
pub proof fn law_known_blocks_reach_lib(m: Model, lib: HeaderId)
    ensures
        grounded(m.advance_lib(lib).parents, lib, m.advance_lib(lib).parents.dom()),
{
    let settled = Model {
        pending: m.pending.remove_keys(m.finalized_by(lib)),
        finalized_msg: m.channel_tip(lib),
        ..m
    };
    let trimmed = settled.prune(below(settled.parents, lib)).trim(lib);
    let n = m.advance_lib(lib);
    let kept = kept_blocks(trimmed.parents, lib);
    assert forall|id: HeaderId| #[trigger] n.parents.dom().contains(id) implies id == lib
        || n.parents[id] == lib || n.parents.dom().contains(n.parents[id]) by {
        assert(kept.contains(id));
        let blocks = choose|blocks: Set<HeaderId>|
            {
                &&& #[trigger] blocks.subset_of(trimmed.parents.dom())
                &&& grounded(trimmed.parents, lib, blocks)
                &&& blocks.contains(id)
            };
        let parent = trimmed.parents[id];
        if id != lib && parent != lib {
            assert(blocks.contains(parent));
            assert(kept.contains(parent));
            assert(trimmed.parents.contains_key(parent));
        }
    }
}

/// An update between a tip and itself is none.
pub proof fn law_same_tip_is_no_update(m: Model, tip: HeaderId)
    ensures
        m.unchanged(tip, tip),
{
}

} // verus!
