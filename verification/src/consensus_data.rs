//! What a block header says about how the block was agreed on.

use vstd::prelude::*;
use crate::primitives::Compact;
use crate::tokens::OutputValue;

verus! {

/// Who may spend an output.
#[derive(Debug, Clone, PartialEq, Eq)]
pub enum Destination {
    AnyoneCanSpend,
    /// The holder of the secret half of this encoded public key.
    PublicKey(Vec<u8>),
}

/// One output of a transaction or of a block reward.
#[derive(Debug, Clone, PartialEq, Eq)]
pub struct TxOutput {
    pub value: OutputValue,
    pub destination: Destination,
}

impl TxOutput {
    pub fn new(value: OutputValue, destination: Destination) -> (r: Self)
        ensures
            r.value == value,
            r.destination == destination,
    {
        TxOutput { value, destination }
    }
}

/// Consensus-specific part of a block header.
#[derive(Debug, Clone, PartialEq, Eq)]
pub enum ConsensusData {
    /// The block carries no consensus data.
    NoConsensus,
    /// The block was mined.
    PoW(PoWData),
}

/// Proof-of-work data: the difficulty target, the nonce found for it, and the
/// outputs that pay the block reward.
#[derive(Debug, Clone, PartialEq, Eq)]
pub struct PoWData {
    bits: Compact,
    nonce: u128,
    outputs: Vec<TxOutput>,
}

impl PoWData {
    /// The difficulty target.
    pub closed spec fn spec_bits(&self) -> Compact {
        self.bits
    }

    /// The nonce.
    pub closed spec fn spec_nonce(&self) -> u128 {
        self.nonce
    }

    /// The reward outputs, in order.
    pub closed spec fn spec_outputs(&self) -> Seq<TxOutput> {
        self.outputs@
    }

    pub fn new(bits: Compact, nonce: u128, outputs: Vec<TxOutput>) -> (r: Self)
        ensures
            r.spec_bits() == bits,
            r.spec_nonce() == nonce,
            r.spec_outputs() == outputs@,
    {
        PoWData { bits, nonce, outputs }
    }

    pub fn bits(&self) -> (r: Compact)
        ensures
            r == self.spec_bits(),
    {
        self.bits
    }

    pub fn nonce(&self) -> (r: u128)
        ensures
            r == self.spec_nonce(),
    {
        self.nonce
    }

    pub fn outputs(&self) -> (r: &[TxOutput])
        ensures
            r@ == self.spec_outputs(),
    {
        self.outputs.as_slice()
    }

    /// Replaces the nonce and nothing else.
    pub fn update_nonce(&mut self, nonce: u128)
        ensures
            final(self).spec_nonce() == nonce,
            final(self).spec_bits() == old(self).spec_bits(),
            final(self).spec_outputs() == old(self).spec_outputs(),
    {
        self.nonce = nonce;
    }
}

} // verus!
