//! Following a channel: its zone blocks, out of finalized blocks.

use vstd::prelude::*;

use crate::ids::ChannelId;
use crate::mantle::{Op, SignedOps};
use crate::messages::ZoneBlock;
use crate::sequencer::state::lemma_filter_map_push;

verus! {

/// The zone block that an op publishes on a channel.
pub open spec fn zone_block_on(channel_id: ChannelId) -> spec_fn(Op) -> Option<ZoneBlock> {
    |op: Op|
        match op {
            Op::ChannelInscribe(op) => if op.channel_id == channel_id {
                Some(ZoneBlock { id: op.id, data: op.inscription })
            } else {
                None
            },
            _ => None,
        }
}

pub open spec fn zone_blocks_of_tx(channel_id: ChannelId) -> spec_fn(SignedOps) -> Seq<ZoneBlock> {
    |tx: SignedOps| tx.ops@.filter_map(zone_block_on(channel_id))
}

/// Reads a channel.
#[derive(Clone, Copy, Debug, PartialEq, Eq, Structural)]
pub struct ZoneIndexer {
    pub channel_id: ChannelId,
}

impl ZoneIndexer {
    pub fn new(channel_id: ChannelId) -> (res: ZoneIndexer)
        ensures
            res.channel_id == channel_id,
    {
        ZoneIndexer { channel_id }
    }

    /// The zone blocks of one finalized block, in op order.
    pub fn follow(&self, transactions: &[SignedOps]) -> (res: Vec<ZoneBlock>)
        ensures
            res@ == transactions@.flat_map(zone_blocks_of_tx(self.channel_id)),
    {
        let ghost f = zone_blocks_of_tx(self.channel_id);
        let ghost g = zone_block_on(self.channel_id);
        let mut res: Vec<ZoneBlock> = Vec::new();
        let mut k: usize = 0;
        assert(transactions@.take(0) =~= Seq::empty());
        while k < transactions.len()
            invariant
                k <= transactions@.len(),
                f == zone_blocks_of_tx(self.channel_id),
                g == zone_block_on(self.channel_id),
                res@ == transactions@.take(k as int).flat_map(f),
            decreases transactions@.len() - k,
        {
            let ops: &Vec<Op> = &transactions[k].ops;
            let ghost before = res@;
            assert(ops@.take(0) =~= Seq::empty());
            assert(ops@.take(0).filter_map(g) =~= Seq::empty());
            assert(before + ops@.take(0).filter_map(g) =~= before);
            let mut i: usize = 0;
            while i < ops.len()
                invariant
                    i <= ops@.len(),
                    g == zone_block_on(self.channel_id),
                    res@ == before + ops@.take(i as int).filter_map(g),
                decreases ops@.len() - i,
            {
                let ghost taken = ops@.take(i as int);
                proof {
                    lemma_filter_map_push(taken, ops@[i as int], g);
                    assert(ops@.take(i + 1) =~= taken.push(ops@[i as int]));
                }
                if let Op::ChannelInscribe(op) = &ops[i] {
                    if op.channel_id == self.channel_id {
                        res.push(ZoneBlock { id: op.id, data: op.inscription.clone() });
                    }
                }
                assert(res@ =~= before + ops@.take(i + 1).filter_map(g));
                i = i + 1;
            }
            proof {
                assert(ops@.take(i as int) =~= ops@);
                transactions@.lemma_flat_map_take_append(f, k as int);
            }
            k = k + 1;
        }
        assert(transactions@.take(k as int) =~= transactions@);
        res
    }
}

} // verus!
