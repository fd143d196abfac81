//! The consensus parameters that the provider reads.
use vstd::prelude::*;

use crate::types::{Block, BlockNumber, Capacity};

verus! {

/// A fraction `numer / denom`.
#[derive(Clone, Copy, Debug, PartialEq, Eq, Structural, Hash)]
pub struct Ratio {
    pub numer: u64,
    pub denom: u64,
}

/// The span of blocks before a commit block in which a proposal counts: a
/// transaction committed at `c` must have been proposed in
/// `[c - farthest, c - closest]`.
#[derive(Clone, Copy, Debug, PartialEq, Eq, Structural, Hash)]
pub struct ProposalWindow {
    pub closest: BlockNumber,
    pub farthest: BlockNumber,
}

/// Consensus parameters.
#[derive(Clone, Debug)]
pub struct Consensus {
    pub genesis_block: Block,
    pub initial_block_reward: Capacity,
    pub difficulty_adjustment_interval: BlockNumber,
    /// The orphan-rate target, a fraction in `(0, 1)`.
    pub orphan_rate_target: Ratio,
    pub min_difficulty: u128,
    /// The proposer's share of a fee, a fraction in `[0, 1]`.
    pub proposer_reward_ratio: Ratio,
    pub tx_proposal_window: ProposalWindow,
    pub cellbase_maturity: BlockNumber,
}

/// The shannons in one byte of capacity.
pub const SHANNONS_PER_BYTE: u64 = 100_000_000;

impl Consensus {
    /// The default parameters over `genesis_block`.
    pub open spec fn new_spec(genesis_block: Block) -> Consensus {
        Consensus {
            genesis_block,
            initial_block_reward: (1_000 * SHANNONS_PER_BYTE) as u64,
            difficulty_adjustment_interval: 1000,
            orphan_rate_target: Ratio { numer: 1, denom: 20 },
            min_difficulty: 0x100,
            proposer_reward_ratio: Ratio { numer: 4, denom: 10 },
            tx_proposal_window: ProposalWindow { closest: 2, farthest: 10 },
            cellbase_maturity: 100,
        }
    }

    /// The default parameters over the given genesis block.
    pub fn new(genesis_block: Block) -> (r: Consensus)
        ensures
            r.valid(),
            r == Consensus::new_spec(genesis_block),
    {
        Consensus {
            genesis_block,
            initial_block_reward: 1_000 * SHANNONS_PER_BYTE,
            difficulty_adjustment_interval: 1000,
            orphan_rate_target: Ratio { numer: 1, denom: 20 },
            min_difficulty: 0x100,
            proposer_reward_ratio: Ratio { numer: 4, denom: 10 },
            tx_proposal_window: ProposalWindow { closest: 2, farthest: 10 },
            cellbase_maturity: 100,
        }
    }

    /// The parameters lie in their ranges.
    pub open spec fn valid(&self) -> bool {
        &&& self.difficulty_adjustment_interval > 0
        &&& 0 < self.orphan_rate_target.numer < self.orphan_rate_target.denom
        &&& self.proposer_reward_ratio.denom > 0
        &&& self.proposer_reward_ratio.numer <= self.proposer_reward_ratio.denom
        &&& self.tx_proposal_window.closest <= self.tx_proposal_window.farthest
    }

    pub fn set_cellbase_maturity(self, maturity: BlockNumber) -> (r: Consensus)
        ensures
            r == (Consensus { cellbase_maturity: maturity, ..self }),
    {
        Consensus { cellbase_maturity: maturity, ..self }
    }

    pub fn set_genesis_block(self, genesis_block: Block) -> (r: Consensus)
        ensures
            r == (Consensus { genesis_block, ..self }),
    {
        Consensus { genesis_block, ..self }
    }

    pub fn set_difficulty_adjustment_interval(self, interval: BlockNumber) -> (r: Consensus)
        ensures
            r == (Consensus { difficulty_adjustment_interval: interval, ..self }),
    {
        Consensus { difficulty_adjustment_interval: interval, ..self }
    }

    pub fn set_orphan_rate_target(self, target: Ratio) -> (r: Consensus)
        ensures
            r == (Consensus { orphan_rate_target: target, ..self }),
    {
        Consensus { orphan_rate_target: target, ..self }
    }

    pub fn set_min_difficulty(self, min_difficulty: u128) -> (r: Consensus)
        ensures
            r == (Consensus { min_difficulty, ..self }),
    {
        Consensus { min_difficulty, ..self }
    }

    pub fn proposer_reward_ratio(&self) -> (r: Ratio)
        ensures
            r == self.proposer_reward_ratio,
    {
        self.proposer_reward_ratio
    }
}

} // verus!
