//! Block-production gating for a regtest chain.
//!
//! The chain itself is modeled as a height; producing blocks is held back by a
//! counter of outstanding "stop mining" requests, so that operations which
//! must observe a quiescent chain (channel open and close negotiation) can
//! hold mining back and release it again. The process that actually asks a
//! bitcoind to generate blocks lives outside the library and consults this
//! brake before every generation.

use vstd::prelude::*;

verus! {

/// The largest chain height the model admits; keeps confirmation
/// arithmetic free of overflow.
pub const MAX_HEIGHT: u64 = 100_000_000;

/// The observed state of the block chain: its tip height.
pub struct Chain {
    pub height: u64,
}

impl Chain {
    /// A chain at height zero (the genesis tip).
    pub fn new() -> (c: Chain)
        ensures
            c.height == 0,
    {
        Chain { height: 0 }
    }
}

/// Brakes block production: while `no_mine_count` is positive, mining is
/// suspended; each suspension must be released once.
pub struct Miner {
    pub no_mine_count: u32,
}

impl Miner {
    /// A miner with no outstanding suspensions.
    pub fn new() -> (m: Miner)
        ensures
            m.no_mine_count == 0,
    {
        Miner { no_mine_count: 0 }
    }

    /// Suspends mining once more.
    pub fn stop_mining(&mut self)
        requires
            old(self).no_mine_count < u32::MAX,
        ensures
            final(self).no_mine_count == old(self).no_mine_count + 1,
    {
        self.no_mine_count = self.no_mine_count + 1;
    }

    /// Releases one suspension, if any is outstanding.
    pub fn resume_mining(&mut self)
        ensures
            final(self).no_mine_count == if old(self).no_mine_count > 0 {
                (old(self).no_mine_count - 1) as u32
            } else {
                0u32
            },
    {
        if self.no_mine_count > 0 {
            self.no_mine_count = self.no_mine_count - 1;
        }
    }

    /// Extends the chain by `num_blocks` if mining is not suspended;
    /// reports whether blocks were produced.
    pub fn mine(&self, chain: &mut Chain, num_blocks: u16) -> (mined: bool)
        requires
            old(chain).height + num_blocks <= MAX_HEIGHT,
        ensures
            mined == (self.no_mine_count == 0),
            mined ==> final(chain).height == old(chain).height + num_blocks,
            !mined ==> final(chain).height == old(chain).height,
    {
        if self.no_mine_count > 0 {
            return false;
        }
        chain.height = chain.height + num_blocks as u64;
        true
    }
}

/// Extends the chain by one block, optionally releasing one mining
/// suspension first.
pub fn mine(miner: &mut Miner, chain: &mut Chain, resume: bool)
    requires
        old(chain).height + 1 <= MAX_HEIGHT,
        old(miner).no_mine_count <= if resume { 1u32 } else { 0u32 },
    ensures
        final(miner).no_mine_count == 0,
        final(chain).height == old(chain).height + 1,
{
    mine_n_blocks(miner, chain, resume, 1);
}

/// Extends the chain by `num_blocks`, optionally releasing one mining
/// suspension first. The caller must not hold more suspensions than the
/// optional release covers: a single actor cannot wait on itself to
/// release the brake.
pub fn mine_n_blocks(miner: &mut Miner, chain: &mut Chain, resume: bool, num_blocks: u16)
    requires
        old(chain).height + num_blocks <= MAX_HEIGHT,
        old(miner).no_mine_count <= if resume { 1u32 } else { 0u32 },
    ensures
        final(miner).no_mine_count == 0,
        final(chain).height == old(chain).height + num_blocks,
{
    if resume {
        miner.resume_mining();
    }
    let mined = miner.mine(chain, num_blocks);
    proof {
        assert(mined);
    }
}

/// Suspends mining on the shared brake.
pub fn stop_mining(miner: &mut Miner)
    requires
        old(miner).no_mine_count < u32::MAX,
    ensures
        final(miner).no_mine_count == old(miner).no_mine_count + 1,
{
    miner.stop_mining();
}

/// Releases one mining suspension on the shared brake.
pub fn resume_mining(miner: &mut Miner)
    ensures
        final(miner).no_mine_count == if old(miner).no_mine_count > 0 {
            (old(miner).no_mine_count - 1) as u32
        } else {
            0u32
        },
{
    miner.resume_mining();
}

} // verus!
