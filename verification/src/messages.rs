//! What a zone channel carries, as its readers see it.

use std::sync::Arc;

use vstd::prelude::*;

use crate::ids::MsgId;
use crate::mantle::{Inputs, Inscription, Outputs, Value};

verus! {

/// A message from a zone channel.
#[derive(Debug, PartialEq, Eq)]
pub enum ZoneMessage {
    /// A zone block published to the channel.
    Block(ZoneBlock),
    /// A deposit to the channel.
    Deposit(Deposit),
    /// A withdraw from the channel.
    Withdraw(Withdraw),
}

/// A zone block.
#[derive(Debug, PartialEq, Eq)]
pub struct ZoneBlock {
    /// The id of the inscription.
    pub id: MsgId,
    /// The opaque inscription data.
    pub data: Inscription,
}

/// A deposit.
#[derive(Debug, PartialEq, Eq)]
pub struct Deposit {
    /// Notes consumed by the deposit. A note is spent once, so they identify
    /// it.
    pub inputs: Inputs,
    /// Total value deposited.
    pub amount: Value,
    /// Opaque metadata.
    pub metadata: Arc<Vec<u8>>,
}

/// A withdraw.
#[derive(Debug, PartialEq, Eq)]
pub struct Withdraw {
    pub outputs: Outputs,
}

impl Deposit {
    /// The metadata's bytes.
    pub fn metadata(&self) -> (res: &[u8])
        ensures
            res@ == self.metadata@,
    {
        self.metadata.as_slice()
    }
}

} // verus!
