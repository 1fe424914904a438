//! What a network node decides when blocks and transactions reach it: its
//! chain, the forks it keeps beside the chain, and its mempool.

use vstd::prelude::*;
use crate::network::block::{hash_of, previous_of, Block, BlockV};
use crate::network::blockchain::{genesis_previous_hash, is_batch_mined_on, is_network_genesis, Blockchain};
use crate::entropy::{random_u64, random_usize};
use crate::text::{decimal, decimal_string};
use crate::transaction::Transaction;

verus! {

/// How many of the chain's top blocks a stray block may fork from.
pub const FORK_WINDOW: usize = 5;

/// A fork longer than this many blocks wins consensus.
pub const CONSENSUS_LENGTH: usize = 5;

/// How a received block was taken in.
#[derive(Debug, Clone, Copy, PartialEq, Eq, Structural)]
pub enum Accepted {
    GenesisAdded,
    BlockAdded,
    NetworkFork,
    AddedToFork,
    ForksFork,
}

/// Why a received block, or a request for a genesis block, was turned down.
#[derive(Debug, Clone, Copy, PartialEq, Eq, Structural)]
pub enum Refused {
    NoGenesis,
    ForkNotCreated,
    EmptyFork,
    HashesDoNotMatch,
    GenesisExists,
    ClockBeforeEpoch,
}

impl Accepted {
    /// The reply a node sends for this outcome.
    pub fn message(&self) -> (m: &'static str)
        ensures
            *self == Accepted::GenesisAdded ==> m@ == "Adding a genesis block successfully!"@,
            *self == Accepted::BlockAdded ==> m@ == "Adding a block successfully!"@,
            *self == Accepted::NetworkFork ==> m@ == "There has been a network fork!"@,
            *self == Accepted::AddedToFork ==> m@ == "Adding a block is successful!"@,
            *self == Accepted::ForksFork ==> m@ == "There has been a network forks fork!"@,
    {
        match self {
            Accepted::GenesisAdded => "Adding a genesis block successfully!",
            Accepted::BlockAdded => "Adding a block successfully!",
            Accepted::NetworkFork => "There has been a network fork!",
            Accepted::AddedToFork => "Adding a block is successful!",
            Accepted::ForksFork => "There has been a network forks fork!",
        }
    }
}

impl Refused {
    /// The error a node answers with.
    pub fn message(&self) -> (m: &'static str)
        ensures
            *self == Refused::NoGenesis ==> m@ == "Create a genesis block first!"@,
            *self == Refused::ForkNotCreated ==> m@ == "Error! Fork was not created!"@,
            *self == Refused::EmptyFork ==> m@ == "No blocks in fork!"@,
            *self == Refused::HashesDoNotMatch ==> m@ == "The  hashes don't match!!!!!!!!"@,
            *self == Refused::GenesisExists ==> m@ == "Genesis block already exists!"@,
            *self == Refused::ClockBeforeEpoch ==> m@ == "Time went backwards"@,
    {
        match self {
            Refused::NoGenesis => "Create a genesis block first!",
            Refused::ForkNotCreated => "Error! Fork was not created!",
            Refused::EmptyFork => "No blocks in fork!",
            Refused::HashesDoNotMatch => "The  hashes don't match!!!!!!!!",
            Refused::GenesisExists => "Genesis block already exists!",
            Refused::ClockBeforeEpoch => "Time went backwards",
        }
    }
}

/// The state of a node: its chain, the forks beside it, and the
/// transactions waiting to be mined.
#[derive(Debug)]
pub struct Ledger {
    pub chain: Blockchain,
    pub forks: Vec<Blockchain>,
    pub mempool: Vec<Transaction>,
}

/// A ledger by its views: chain, forks, mempool.
pub type LedgerV = (Seq<BlockV>, Seq<Seq<BlockV>>, Seq<Transaction>);

/// The forks, each by its view.
pub open spec fn forks_view(forks: Seq<Blockchain>) -> Seq<Seq<BlockV>> {
    forks.map_values(|c: Blockchain| c@)
}

impl View for Ledger {
    type V = LedgerV;

    open spec fn view(&self) -> LedgerV {
        (self.chain@, forks_view(self.forks@), self.mempool@)
    }
}

/// Scanning `blocks[lo..hi]` from the top down: the first index whose block
/// carries the hash `h`.
pub open spec fn last_link(blocks: Seq<BlockV>, h: Seq<char>, lo: int, hi: int) -> Option<int>
    decreases hi - lo,
{
    if hi <= lo {
        None
    } else if hash_of(blocks[hi - 1]) == h {
        Some(hi - 1)
    } else {
        last_link(blocks, h, lo, hi - 1)
    }
}

/// Where the window of the top `FORK_WINDOW` blocks of a chain of `n`
/// blocks starts.
pub open spec fn window_start(n: nat) -> int {
    if n < FORK_WINDOW { 0 } else { n - FORK_WINDOW }
}

/// `create_fork`: when a block among the chain's top `FORK_WINDOW` blocks
/// (the highest such) is the one the new block follows, the chain is cut
/// below it, and two forks join: the cut-off blocks, and the new block alone.
pub open spec fn fork_created(
    before: LedgerV,
    block: BlockV,
    after: LedgerV,
    r: Result<Accepted, Refused>,
) -> bool {
    let chain = before.0;
    match last_link(chain, previous_of(block), window_start(chain.len()), chain.len() as int) {
        Some(j) => {
            &&& r == Ok::<Accepted, Refused>(Accepted::NetworkFork)
            &&& after.0 == chain.take(j)
            &&& after.1 == before.1.push(chain.skip(j)).push(seq![block])
            &&& after.2 == before.2
        },
        None => r == Err::<Accepted, Refused>(Refused::ForkNotCreated) && after == before,
    }
}

/// `add_to_blockchain`: a genesis block starts an empty chain, a block that
/// follows the top block extends the chain, any other block may fork it.
pub open spec fn added_to_blockchain(
    before: LedgerV,
    block: BlockV,
    after: LedgerV,
    r: Result<Accepted, Refused>,
) -> bool {
    let chain = before.0;
    if chain.len() == 0 {
        if previous_of(block) == genesis_previous_hash() {
            r == Ok::<Accepted, Refused>(Accepted::GenesisAdded) && after == (
                seq![block],
                before.1,
                before.2,
            )
        } else {
            r == Err::<Accepted, Refused>(Refused::NoGenesis) && after == before
        }
    } else if hash_of(chain.last()) == previous_of(block) {
        r == Ok::<Accepted, Refused>(Accepted::BlockAdded) && after == (
            chain.push(block),
            before.1,
            before.2,
        )
    } else {
        fork_created(before, block, after, r)
    }
}

/// The first fork from `i` on that is longer than `CONSENSUS_LENGTH`, or
/// the number of forks when there is none.
pub open spec fn long_fork(forks: Seq<Seq<BlockV>>, i: int) -> int
    decreases forks.len() - i,
{
    if i >= forks.len() {
        forks.len() as int
    } else if forks[i].len() > CONSENSUS_LENGTH {
        i
    } else {
        long_fork(forks, i + 1)
    }
}

/// `consensus`: the first fork longer than `CONSENSUS_LENGTH` is appended to
/// the chain and all forks are dropped; with no such fork nothing changes.
pub open spec fn consensus_reached(before: LedgerV, after: LedgerV) -> bool {
    let k = long_fork(before.1, 0);
    if 0 <= k < before.1.len() {
        after == (before.0 + before.1[k], Seq::<Seq<BlockV>>::empty(), before.2)
    } else {
        after == before
    }
}

/// The first fork from `i` on that is empty, or whose top block is the one
/// `prev` names, or whose top block follows the same block as `prev`
/// names; the number of forks when there is none.
pub open spec fn fork_match(forks: Seq<Seq<BlockV>>, prev: Seq<char>, i: int) -> int
    decreases forks.len() - i,
{
    if i >= forks.len() {
        forks.len() as int
    } else if forks[i].len() == 0 || hash_of(forks[i].last()) == prev || previous_of(
        forks[i].last(),
    ) == prev {
        i
    } else {
        fork_match(forks, prev, i + 1)
    }
}

/// The first fork from `i` on that holds a block whose hash is `prev`; the
/// number of forks when there is none.
pub open spec fn first_linked_fork(forks: Seq<Seq<BlockV>>, prev: Seq<char>, i: int) -> int
    decreases forks.len() - i,
{
    if i >= forks.len() {
        forks.len() as int
    } else if last_link(forks[i], prev, 0, forks[i].len() as int) is Some {
        i
    } else {
        first_linked_fork(forks, prev, i + 1)
    }
}

/// `create_forked_fork`: in the first fork holding the block that the new
/// block names (the highest such), that block and all above it give way to
/// the new block, and the result joins the forks as a new one.
pub open spec fn forked_fork(
    before: LedgerV,
    block: BlockV,
    after: LedgerV,
    r: Result<Accepted, Refused>,
) -> bool {
    let forks = before.1;
    let k = first_linked_fork(forks, previous_of(block), 0);
    if 0 <= k < forks.len() {
        let j = last_link(forks[k], previous_of(block), 0, forks[k].len() as int)->0;
        &&& r == Ok::<Accepted, Refused>(Accepted::ForksFork)
        &&& after == (before.0, forks.push(forks[k].take(j).push(block)), before.2)
    } else {
        r == Err::<Accepted, Refused>(Refused::HashesDoNotMatch) && after == before
    }
}

/// `add_to_fork`: the first fork that matters decides: an empty one is an
/// error; one whose top block the new block follows grows by it and
/// consensus is sought; one whose top block is a sibling of the new block is
/// copied with the new block in place of its top block. When no fork
/// matters, a fork is made inside a fork.
pub open spec fn added_to_fork(
    before: LedgerV,
    block: BlockV,
    after: LedgerV,
    r: Result<Accepted, Refused>,
) -> bool {
    let forks = before.1;
    let prev = previous_of(block);
    let k = fork_match(forks, prev, 0);
    if !(0 <= k < forks.len()) {
        forked_fork(before, block, after, r)
    } else if forks[k].len() == 0 {
        r == Err::<Accepted, Refused>(Refused::EmptyFork) && after == before
    } else if hash_of(forks[k].last()) == prev {
        &&& r == Ok::<Accepted, Refused>(Accepted::AddedToFork)
        &&& consensus_reached((before.0, forks.update(k, forks[k].push(block)), before.2), after)
    } else {
        &&& r == Ok::<Accepted, Refused>(Accepted::NetworkFork)
        &&& after == (before.0, forks.push(forks[k].drop_last().push(block)), before.2)
    }
}

/// Whether some transaction of `txs` equals `t`.
pub open spec fn listed(txs: Seq<Transaction>, t: Transaction) -> bool {
    exists|j: int| 0 <= j < txs.len() && (#[trigger] txs[j])@ == t@
}

/// The transactions of `pool`, in order, that equal none of `txs`.
pub open spec fn keep_unlisted(pool: Seq<Transaction>, txs: Seq<Transaction>) -> Seq<Transaction>
    decreases pool.len(),
{
    if pool.len() == 0 {
        Seq::empty()
    } else {
        let rest = keep_unlisted(pool.drop_last(), txs);
        if listed(txs, pool.last()) {
            rest
        } else {
            rest.push(pool.last())
        }
    }
}

/// Forking loses no block: the chain that remains, followed by the fork cut
/// off from it, is the chain from before; and the other new fork holds just
/// the received block.
pub proof fn lemma_fork_keeps_blocks(
    before: LedgerV,
    block: BlockV,
    after: LedgerV,
    r: Result<Accepted, Refused>,
)
    requires
        fork_created(before, block, after, r),
        r is Ok,
    ensures
        after.1.len() == before.1.len() + 2,
        after.0 + after.1[before.1.len() as int] == before.0,
        after.1[before.1.len() as int + 1] == seq![block],
        after.1.take(before.1.len() as int) == before.1,
{
    let chain = before.0;
    let j = last_link(chain, previous_of(block), window_start(chain.len()), chain.len() as int)->0;
    lemma_last_link_in_range(chain, previous_of(block), window_start(chain.len()), chain.len() as int);
    assert(chain.take(j) + chain.skip(j) =~= chain);
    assert(after.1.take(before.1.len() as int) =~= before.1);
}

/// Each block of `blocks` after the first follows the block below it: its
/// previous hash is that block's hash.
pub open spec fn is_chain_linked(blocks: Seq<BlockV>) -> bool {
    forall|i: int| 1 <= i < blocks.len() ==> #[trigger] previous_of(blocks[i]) == hash_of(blocks[i - 1])
}

/// Without forks, a node's chain stays linked whatever block arrives: a
/// block is appended only on top of the block it follows, and a fork cuts
/// the chain below the block the new one follows; the two forks made then
/// are linked too.
pub proof fn lemma_chain_stays_linked(
    before: LedgerV,
    block: BlockV,
    after: LedgerV,
    r: Result<Accepted, Refused>,
)
    requires
        is_chain_linked(before.0),
        added_to_blockchain(before, block, after, r),
    ensures
        is_chain_linked(after.0),
        forall|f: int| before.1.len() <= f < after.1.len() ==> is_chain_linked(#[trigger] after.1[f]),
{
    let chain = before.0;
    if chain.len() > 0 && hash_of(chain.last()) != previous_of(block) {
        let lo = window_start(chain.len());
        lemma_last_link_in_range(chain, previous_of(block), lo, chain.len() as int);
        match last_link(chain, previous_of(block), lo, chain.len() as int) {
            Some(j) => {
                let tail = chain.skip(j);
                assert forall|i: int| 1 <= i < tail.len() implies #[trigger] previous_of(tail[i]) == hash_of(tail[i - 1]) by {
                    assert(tail[i] == chain[i + j]);
                    assert(tail[i - 1] == chain[i + j - 1]);
                }
                assert(after.1[before.1.len() as int] == tail);
                assert(after.1[before.1.len() as int + 1] == seq![block]);
                assert forall|i: int| 1 <= i < after.0.len() implies #[trigger] previous_of(after.0[i]) == hash_of(after.0[i - 1]) by {
                    assert(after.0[i] == chain[i]);
                    assert(after.0[i - 1] == chain[i - 1]);
                }
            },
            None => {},
        }
    } else if chain.len() > 0 {
        assert forall|i: int| 1 <= i < after.0.len() implies #[trigger] previous_of(after.0[i]) == hash_of(after.0[i - 1]) by {
            if i < chain.len() {
                assert(after.0[i] == chain[i]);
            }
            assert(after.0[i - 1] == chain[i - 1]);
        }
    }
}

/// A found link lies in the scanned range and carries the hash looked for.
pub proof fn lemma_last_link_in_range(blocks: Seq<BlockV>, h: Seq<char>, lo: int, hi: int)
    requires
        0 <= lo,
        hi <= blocks.len(),
    ensures
        last_link(blocks, h, lo, hi) matches Some(j) ==> lo <= j < hi && hash_of(blocks[j]) == h,
    decreases hi - lo,
{
    if hi > lo && hash_of(blocks[hi - 1]) != h {
        lemma_last_link_in_range(blocks, h, lo, hi - 1);
    }
}

/// When no fork from `i` on is longer than `CONSENSUS_LENGTH`, none is.
proof fn lemma_no_long_fork(forks: Seq<Seq<BlockV>>, i: int)
    requires
        0 <= i,
        long_fork(forks, i) == forks.len(),
    ensures
        forall|j: int| i <= j < forks.len() ==> #[trigger] forks[j].len() <= CONSENSUS_LENGTH,
    decreases forks.len() - i,
{
    if i < forks.len() {
        lemma_no_long_fork(forks, i + 1);
    }
}

/// Consensus settles the forks: after it, no fork is longer than
/// `CONSENSUS_LENGTH`; and the chain only grows.
pub proof fn lemma_consensus_settles(before: LedgerV, after: LedgerV)
    requires
        consensus_reached(before, after),
    ensures
        forall|j: int| 0 <= j < after.1.len() ==> #[trigger] after.1[j].len() <= CONSENSUS_LENGTH,
        after.0.len() >= before.0.len(),
        after.0.take(before.0.len() as int) == before.0,
{
    let k = long_fork(before.1, 0);
    if 0 <= k < before.1.len() {
        assert(after.0.take(before.0.len() as int) =~= before.0);
    } else {
        lemma_long_fork_bounds(before.1, 0);
        lemma_no_long_fork(before.1, 0);
        assert(after.0.take(before.0.len() as int) =~= before.0);
    }
}

/// `long_fork` from `i` stays between `i` and the number of forks.
proof fn lemma_long_fork_bounds(forks: Seq<Seq<BlockV>>, i: int)
    requires
        0 <= i <= forks.len(),
    ensures
        i <= long_fork(forks, i) <= forks.len(),
    decreases forks.len() - i,
{
    if i < forks.len() {
        lemma_long_fork_bounds(forks, i + 1);
    }
}

/// A received block's transactions leave the mempool: none of them is left
/// in it, what is left was there before, in the same order, and nothing
/// else leaves.
pub proof fn lemma_mempool_drops_block_transactions(pool: Seq<Transaction>, txs: Seq<Transaction>)
    ensures
        forall|i: int| 0 <= i < keep_unlisted(pool, txs).len() ==>
            !listed(txs, #[trigger] keep_unlisted(pool, txs)[i]),
        keep_unlisted(pool, txs).len() <= pool.len(),
        forall|t: Transaction| #[trigger] pool.contains(t) && !listed(txs, t) ==> keep_unlisted(pool, txs).contains(t),
        forall|t: Transaction| #[trigger] keep_unlisted(pool, txs).contains(t) ==> pool.contains(t),
    decreases pool.len(),
{
    if pool.len() > 0 {
        let rest = pool.drop_last();
        lemma_mempool_drops_block_transactions(rest, txs);
        let kept = keep_unlisted(pool, txs);
        let kr = keep_unlisted(rest, txs);
        assert forall|t: Transaction| pool.contains(t) && !listed(txs, t) implies kept.contains(t) by {
            let i = choose|i: int| 0 <= i < pool.len() && pool[i] == t;
            if i < pool.len() - 1 {
                assert(rest[i] == t);
                assert(rest.contains(t));
                let k = choose|k: int| 0 <= k < kr.len() && kr[k] == t;
                assert(kept[k] == t);
            } else {
                assert(kept[kept.len() - 1] == t);
            }
        }
        assert forall|t: Transaction| kept.contains(t) implies pool.contains(t) by {
            let k = choose|k: int| 0 <= k < kept.len() && kept[k] == t;
            if k < kr.len() {
                assert(kr[k] == t);
                assert(kr.contains(t));
                let i = choose|i: int| 0 <= i < rest.len() && rest[i] == t;
                assert(pool[i] == t);
            } else {
                assert(pool[pool.len() - 1] == t);
            }
        }
        assert forall|i: int| 0 <= i < kept.len() implies !listed(txs, #[trigger] kept[i]) by {
            if i < kr.len() {
                assert(kept[i] == kr[i]);
            }
        }
    }
}

/// Whether some transaction of `txs` equals `t`.
fn is_listed(txs: &Vec<Transaction>, t: &Transaction) -> (found: bool)
    ensures
        found == listed(txs@, *t),
{
    let n = txs.len();
    for i in 0..n
        invariant
            n == txs@.len(),
            forall|j: int| 0 <= j < i ==> (#[trigger] txs@[j])@ != t@,
    {
        if txs[i] == *t {
            return true;
        }
    }
    false
}

impl Ledger {
    /// Drop from the mempool every transaction that `block` carries.
    pub fn delete_mempool_trans(&mut self, block: &Block)
        ensures
            final(self).chain == old(self).chain,
            final(self).forks == old(self).forks,
            final(self).mempool@ == keep_unlisted(old(self).mempool@, block.transaction@),
            final(self).mempool@ == old(self).mempool@.filter(not_listed_in(block.transaction@)),
    {
        let ghost pool = self.mempool@;
        let n = self.mempool.len();
        let mut kept: Vec<Transaction> = Vec::new();
        assert(pool.take(0) =~= Seq::<Transaction>::empty());
        for i in 0..n
            invariant
                n == pool.len(),
                self.mempool@ == pool,
                kept@ == keep_unlisted(pool.take(i as int), block.transaction@),
        {
            assert(pool.take(i + 1).drop_last() =~= pool.take(i as int));
            if !is_listed(&block.transaction, &self.mempool[i]) {
                kept.push(self.mempool[i].clone());
            }
        }
        assert(pool.take(n as int) =~= pool);
        self.mempool = kept;
        proof {
            lemma_mempool_keeps_order(pool, block.transaction@);
        }
    }

    /// Take in a block when there are no forks: see `added_to_blockchain`.
    pub fn add_to_blockchain(&mut self, block: Block) -> (r: Result<Accepted, Refused>)
        ensures
            added_to_blockchain(old(self)@, block@, final(self)@, r),
    {
        let n = self.chain.blocks.len();
        if n == 0 {
            if block.previous_hash == String::from_str("Genesis has no previous hash") {
                self.chain.blocks.push(block);
                assert(self.chain@ =~= seq![block@]);
                return Ok(Accepted::GenesisAdded);
            }
            return Err(Refused::NoGenesis);
        }
        assert(old(self)@.0.last() == self.chain.blocks@[n - 1]@);
        if self.chain.blocks[n - 1].hash == block.previous_hash {
            let ghost chain0 = self.chain@;
            self.chain.blocks.push(block);
            assert(self.chain@ =~= chain0.push(block@));
            Ok(Accepted::BlockAdded)
        } else {
            self.create_fork(block)
        }
    }

    /// Fork the chain for a block that does not follow its top block: see
    /// `fork_created`.
    pub fn create_fork(&mut self, block: Block) -> (r: Result<Accepted, Refused>)
        ensures
            fork_created(old(self)@, block@, final(self)@, r),
    {
        let ghost chain0 = self.chain@;
        let ghost prev = previous_of(block@);
        let n = self.chain.blocks.len();
        let cut = if n < FORK_WINDOW { 0 } else { n - FORK_WINDOW };
        let mut k = n;
        while k > cut
            invariant
                *self == *old(self),
                chain0 == self.chain@,
                prev == block.previous_hash@,
                n == self.chain.blocks@.len(),
                cut == window_start(n as nat),
                cut <= k <= n,
                last_link(chain0, prev, cut as int, n as int) == last_link(chain0, prev, cut as int, k as int),
            decreases k,
        {
            assert(chain0[k - 1] == self.chain.blocks@[k - 1]@);
            if self.chain.blocks[k - 1].hash == block.previous_hash {
                let ghost forks0 = forks_view(self.forks@);
                let ghost block_v = block@;
                let tail = self.chain.blocks.split_off(k - 1);
                let mut fresh: Vec<Block> = Vec::new();
                fresh.push(block);
                let tail_chain = Blockchain { blocks: tail };
                let fresh_chain = Blockchain { blocks: fresh };
                assert(tail_chain@ =~= chain0.skip(k - 1));
                assert(fresh_chain@ =~= seq![block_v]);
                self.forks.push(tail_chain);
                self.forks.push(fresh_chain);
                assert(self.chain@ =~= chain0.take(k - 1));
                assert(forks_view(self.forks@) =~= forks0.push(chain0.skip(k - 1)).push(seq![block_v]));
                return Ok(Accepted::NetworkFork);
            }
            k = k - 1;
        }
        Err(Refused::ForkNotCreated)
    }

    /// Append the first fork longer than `CONSENSUS_LENGTH` to the chain and
    /// drop all forks; see `consensus_reached`.
    pub fn consensus(&mut self)
        ensures
            consensus_reached(old(self)@, final(self)@),
    {
        let ghost fv = forks_view(self.forks@);
        let n = self.forks.len();
        let mut i: usize = 0;
        while i < n
            invariant
                *self == *old(self),
                fv == forks_view(self.forks@),
                n == self.forks@.len(),
                i <= n,
                long_fork(fv, 0) == long_fork(fv, i as int),
            decreases n - i,
        {
            assert(fv[i as int].len() == self.forks@[i as int].blocks@.len());
            if self.forks[i].blocks.len() > CONSENSUS_LENGTH {
                let ghost chain0 = self.chain@;
                let mut winner = self.forks.remove(i);
                self.chain.blocks.append(&mut winner.blocks);
                self.forks.clear();
                assert(self.chain@ =~= chain0 + fv[i as int]);
                assert(forks_view(self.forks@) =~= Seq::<Seq<BlockV>>::empty());
                return;
            }
            i = i + 1;
        }
    }

    /// Take in a block when there are forks: see `added_to_fork`.
    pub fn add_to_fork(&mut self, block: Block) -> (r: Result<Accepted, Refused>)
        ensures
            added_to_fork(old(self)@, block@, final(self)@, r),
    {
        let ghost fv = forks_view(self.forks@);
        let ghost prev = previous_of(block@);
        let n = self.forks.len();
        let mut i: usize = 0;
        while i < n
            invariant
                *self == *old(self),
                fv == forks_view(self.forks@),
                prev == block.previous_hash@,
                n == self.forks@.len(),
                i <= n,
                fork_match(fv, prev, 0) == fork_match(fv, prev, i as int),
            decreases n - i,
        {
            let m = self.forks[i].blocks.len();
            assert(fv[i as int] == self.forks@[i as int]@);
            if m == 0 {
                return Err(Refused::EmptyFork);
            }
            assert(fv[i as int].last() == self.forks@[i as int].blocks@[m - 1]@);
            let extends = self.forks[i].blocks[m - 1].hash == block.previous_hash;
            let sibling = self.forks[i].blocks[m - 1].previous_hash == block.previous_hash;
            if extends {
                let ghost block_v = block@;
                let ghost forks0 = self.forks@;
                self.forks[i].blocks.push(block);
                assert(self.forks@[i as int]@ =~= fv[i as int].push(block_v));
                assert forall|j: int| 0 <= j < n && j != i implies self.forks@[j] == forks0[j] by {}
                assert(forks_view(self.forks@) =~= fv.update(i as int, fv[i as int].push(block_v)));
                self.consensus();
                return Ok(Accepted::AddedToFork);
            } else if sibling {
                let ghost block_v = block@;
                let mut copy = self.forks[i].clone();
                copy.blocks.pop();
                copy.blocks.push(block);
                assert(copy@ =~= fv[i as int].drop_last().push(block_v));
                self.forks.push(copy);
                assert(forks_view(self.forks@) =~= fv.push(fv[i as int].drop_last().push(block_v)));
                return Ok(Accepted::NetworkFork);
            }
            i = i + 1;
        }
        self.create_forked_fork(block)
    }

    /// Fork a fork for a block that follows a block inside it: see
    /// `forked_fork`.
    pub fn create_forked_fork(&mut self, block: Block) -> (r: Result<Accepted, Refused>)
        ensures
            forked_fork(old(self)@, block@, final(self)@, r),
    {
        let ghost fv = forks_view(self.forks@);
        let ghost prev = previous_of(block@);
        let n = self.forks.len();
        let mut f: usize = 0;
        while f < n
            invariant
                *self == *old(self),
                fv == forks_view(self.forks@),
                prev == block.previous_hash@,
                n == self.forks@.len(),
                f <= n,
                first_linked_fork(fv, prev, 0) == first_linked_fork(fv, prev, f as int),
            decreases n - f,
        {
            let m = self.forks[f].blocks.len();
            let ghost fork = fv[f as int];
            assert(fork == self.forks@[f as int]@);
            let mut k = m;
            while k > 0
                invariant
                    *self == *old(self),
                    fv == forks_view(self.forks@),
                    prev == block.previous_hash@,
                    n == self.forks@.len(),
                    f < n,
                    fork == fv[f as int],
                    m == fork.len(),
                    m == self.forks@[f as int].blocks@.len(),
                    k <= m,
                    first_linked_fork(fv, prev, 0) == first_linked_fork(fv, prev, f as int),
                    last_link(fork, prev, 0, m as int) == last_link(fork, prev, 0, k as int),
                decreases k,
            {
                assert(fork[k - 1] == self.forks@[f as int].blocks@[k - 1]@);
                if self.forks[f].blocks[k - 1].hash == block.previous_hash {
                    let ghost block_v = block@;
                    let mut current = self.forks[f].clone();
                    current.blocks.truncate(k - 1);
                    current.blocks.push(block);
                    assert(current@ =~= fork.take(k - 1).push(block_v));
                    self.forks.push(current);
                    assert(forks_view(self.forks@) =~= fv.push(fork.take(k - 1).push(block_v)));
                    return Ok(Accepted::ForksFork);
                }
                k = k - 1;
            }
            f = f + 1;
        }
        Err(Refused::HashesDoNotMatch)
    }

    /// Take in a block announced by a node: its transactions leave the
    /// mempool, then it goes to the chain when there are no forks
    /// (`added_to_blockchain`) and to the forks otherwise (`added_to_fork`).
    pub fn add_block(&mut self, block: Block) -> (r: Result<Accepted, Refused>)
        ensures
            final(self)@.2 == keep_unlisted(old(self)@.2, block@.1),
            ({
                let cleaned = (old(self)@.0, old(self)@.1, keep_unlisted(old(self)@.2, block@.1));
                if old(self)@.1.len() == 0 {
                    added_to_blockchain(cleaned, block@, final(self)@, r)
                } else {
                    added_to_fork(cleaned, block@, final(self)@, r)
                }
            }),
    {
        self.delete_mempool_trans(&block);
        if self.forks.len() == 0 {
            self.add_to_blockchain(block)
        } else {
            self.add_to_fork(block)
        }
    }
}


/// A block by its view, if there is one.
pub open spec fn option_view(b: Option<Block>) -> Option<BlockV> {
    match b {
        Some(b) => Some(b@),
        None => None,
    }
}

/// One round of minting (`mint_round`): the first `min(len, batch_limit)`
/// transactions leave the mempool. With no forks, a block mined from them,
/// if any, joins the chain on top of its top block. With forks, a block
/// mined from them, if any, joins fork `fork_pick` modulo their number on
/// top of its top block, and consensus is sought.
pub open spec fn mint_round_done(
    before: LedgerV,
    batch_limit: usize,
    fork_pick: usize,
    after: LedgerV,
    mined: Option<BlockV>,
) -> bool {
    let pool = before.2;
    let k = if pool.len() < batch_limit { pool.len() as int } else { batch_limit as int };
    let batch = pool.take(k);
    let rest = pool.skip(k);
    if before.1.len() == 0 {
        match mined {
            Some(b) => {
                &&& is_batch_mined_on(b, hash_of(before.0.last()), batch)
                &&& after == (before.0.push(b), before.1, rest)
            },
            None => after == (before.0, before.1, rest),
        }
    } else {
        let i = (fork_pick as int) % (before.1.len() as int);
        match mined {
            Some(b) => {
                &&& is_batch_mined_on(b, hash_of(before.1[i].last()), batch)
                &&& consensus_reached((before.0, before.1.update(i, before.1[i].push(b)), rest), after)
            },
            None => consensus_reached((before.0, before.1, rest), after),
        }
    }
}

/// The seconds a node waits between mints, which is also the most
/// transactions one of its blocks takes, drawn from a random number `r`.
pub fn mint_interval(r: usize) -> (s: usize)
    ensures
        s == r % 9 + 6,
        6 <= s <= 14,
{
    r % 9 + 6
}

impl Ledger {
    /// A mint on fork `fork_pick` (modulo the number of forks) can go
    /// ahead: with no forks the chain holds a block, and otherwise that fork
    /// does.
    pub open spec fn can_mint_on(&self, fork_pick: usize) -> bool {
        &&& self.forks@.len() == 0 ==> self.chain.blocks@.len() > 0
        &&& self.forks@.len() > 0 ==> self.forks@[(fork_pick as int) % (self.forks@.len() as int)].blocks@.len() > 0
    }

    /// A mint can go ahead whichever fork is drawn: with no forks the chain
    /// holds a block, and every fork holds a block.
    pub open spec fn can_mint(&self) -> bool {
        &&& self.forks@.len() == 0 ==> self.chain.blocks@.len() > 0
        &&& forall|i: int| 0 <= i < self.forks@.len() ==> #[trigger] self.forks@[i].blocks@.len() > 0
    }

    /// One round of a node's minting: up to `batch_limit` transactions leave
    /// the front of the mempool and are mined into a block, on top of the
    /// chain when there are no forks, else on top of fork `fork_pick` modulo
    /// their number, after which consensus is sought. The block joins the
    /// chain or that fork, and a copy is returned to be announced to the
    /// peers.
    pub fn mint_round(&mut self, batch_limit: usize, fork_pick: usize) -> (mined: Option<Block>)
        requires
            old(self).can_mint_on(fork_pick),
        ensures
            mint_round_done(old(self)@, batch_limit, fork_pick, final(self)@, option_view(mined)),
            old(self).forks@.len() > 0 ==> forall|j: int|
                0 <= j < final(self).forks@.len() ==> #[trigger] final(self).forks@[j].blocks@.len() <= CONSENSUS_LENGTH,
    {
        let ghost pool = self.mempool@;
        let ghost before = self@;
        let k = if self.mempool.len() < batch_limit { self.mempool.len() } else { batch_limit };
        let mut part = self.mempool.split_off(k);
        std::mem::swap(&mut self.mempool, &mut part);
        assert(part@ =~= pool.take(k as int));
        assert(self.mempool@ =~= pool.skip(k as int));
        if self.forks.len() == 0 {
            self.chain.mint(part)
        } else {
            let i = fork_pick % self.forks.len();
            assert(self.forks@[i as int]@.last() == self.forks@[i as int].blocks@.last()@);
            let ghost forks0 = self.forks@;
            let ghost fv = forks_view(forks0);
            let mut fork = self.forks.remove(i);
            let mined = fork.mint(part);
            self.forks.insert(i, fork);
            proof {
                match &mined {
                    Some(b) => {
                        assert(forks_view(self.forks@) =~= fv.update(i as int, fv[i as int].push(b@)));
                    },
                    None => {
                        assert(forks_view(self.forks@) =~= fv);
                    },
                }
            }
            self.consensus();
            proof {
                lemma_mint_round_settles(before, batch_limit, fork_pick, self@, option_view(mined));
                assert forall|j: int| 0 <= j < self.forks@.len() implies #[trigger] self.forks@[j].blocks@.len() <= CONSENSUS_LENGTH by {
                    assert(self@.1[j] == self.forks@[j]@);
                }
            }
            mined
        }
    }

    /// A genesis block for a node whose chain is empty: it starts the chain
    /// and is returned to be announced. A chain that has blocks is refused,
    /// and so is the request when the clock reads a time before the Unix
    /// epoch.
    pub fn genesis_generate(&mut self) -> (r: Result<Block, Refused>)
        ensures
            old(self).chain.blocks@.len() > 0 ==> r == Err::<Block, Refused>(Refused::GenesisExists)
                && *final(self) == *old(self),
            old(self).chain.blocks@.len() == 0 ==> match r {
                Ok(b) => {
                    &&& is_network_genesis(b@)
                    &&& final(self)@ == (seq![b@], old(self)@.1, old(self)@.2)
                },
                Err(e) => e == Refused::ClockBeforeEpoch && *final(self) == *old(self),
            },
    {
        if self.chain.blocks.len() > 0 {
            return Err(Refused::GenesisExists);
        }
        let mut fresh = match Blockchain::new() {
            Some(c) => c,
            None => return Err(Refused::ClockBeforeEpoch),
        };
        let genesis = fresh.blocks.remove(0);
        self.chain.blocks.push(genesis.clone());
        assert(self.chain@ =~= seq![genesis@]);
        Ok(genesis)
    }
}
/// A random mint interval for a node, between six and fourteen.
pub fn random_mint_interval() -> (s: usize)
    ensures
        6 <= s <= 14,
{
    mint_interval(random_usize())
}

/// A random transaction, to exercise the network: sender and recipient are
/// random numbers in decimal, and so is the amount.
pub fn random_transaction() -> (t: Transaction)
    ensures
        exists|a: nat, b: nat| t.from@ == decimal(a) && t.to@ == decimal(b),
{
    let from = decimal_string(random_u64() as u128);
    let to = decimal_string(random_u64() as u128);
    Transaction { from, to, amount: random_u64() }
}

impl Ledger {
    /// A round of minting (`mint_round`) on a fork drawn at random when
    /// there are forks. Any fork may be drawn, so each must hold a block
    /// (`can_mint`).
    pub fn mint_round_at_random(&mut self, batch_limit: usize) -> (mined: Option<Block>)
        requires
            old(self).can_mint(),
        ensures
            exists|pick: usize| mint_round_done(old(self)@, batch_limit, pick, final(self)@, option_view(mined)),
    {
        let pick = random_usize();
        self.mint_round(batch_limit, pick)
    }
}


/// Every fork is linked: in each, a block's previous hash is the hash of
/// the block below it.
pub open spec fn forks_linked(forks: Seq<Seq<BlockV>>) -> bool {
    forall|f: int| 0 <= f < forks.len() ==> is_chain_linked(#[trigger] forks[f])
}

/// `fork_match` lies between `i` and the number of forks, and a fork it
/// finds is empty, is followed by `prev`, or has a top block that follows
/// the block `prev` names too.
proof fn lemma_fork_match(forks: Seq<Seq<BlockV>>, prev: Seq<char>, i: int)
    requires
        0 <= i <= forks.len(),
    ensures
        i <= fork_match(forks, prev, i) <= forks.len(),
        fork_match(forks, prev, i) < forks.len() ==> {
            let k = fork_match(forks, prev, i);
            forks[k].len() == 0 || hash_of(forks[k].last()) == prev || previous_of(forks[k].last()) == prev
        },
    decreases forks.len() - i,
{
    if i < forks.len() {
        lemma_fork_match(forks, prev, i + 1);
    }
}

/// `first_linked_fork` lies between `i` and the number of forks, and a fork
/// it finds holds a block whose hash is `prev`.
proof fn lemma_first_linked_fork(forks: Seq<Seq<BlockV>>, prev: Seq<char>, i: int)
    requires
        0 <= i <= forks.len(),
    ensures
        i <= first_linked_fork(forks, prev, i) <= forks.len(),
        first_linked_fork(forks, prev, i) < forks.len() ==> {
            let k = first_linked_fork(forks, prev, i);
            last_link(forks[k], prev, 0, forks[k].len() as int) is Some
        },
    decreases forks.len() - i,
{
    if i < forks.len() {
        lemma_first_linked_fork(forks, prev, i + 1);
    }
}

/// A fork found by `long_fork` is longer than `CONSENSUS_LENGTH`.
proof fn lemma_long_fork_found(forks: Seq<Seq<BlockV>>, i: int)
    requires
        0 <= i <= forks.len(),
    ensures
        long_fork(forks, i) < forks.len() ==> forks[long_fork(forks, i)].len() > CONSENSUS_LENGTH,
    decreases forks.len() - i,
{
    if i < forks.len() {
        lemma_long_fork_found(forks, i + 1);
    }
}

/// After consensus the forks are gone or unchanged, and the chain is the
/// old chain, followed by a fork longer than `CONSENSUS_LENGTH` when the
/// forks are gone.
proof fn lemma_consensus_outcome(before: LedgerV, after: LedgerV)
    requires
        consensus_reached(before, after),
    ensures
        after.2 == before.2,
        after.1.len() == 0 || after == before,
        after.1.len() == 0 && before.1.len() > 0 ==> exists|k: int|
            0 <= k < before.1.len() && before.1[k].len() > CONSENSUS_LENGTH && after.0 == before.0 + #[trigger] before.1[k],
        (exists|j: int| 0 <= j < before.1.len() && #[trigger] before.1[j].len() > CONSENSUS_LENGTH)
            ==> after.1.len() == 0,
{
    lemma_long_fork_bounds(before.1, 0);
    lemma_long_fork_found(before.1, 0);
    let k = long_fork(before.1, 0);
    if k == before.1.len() {
        lemma_no_long_fork(before.1, 0);
    } else {
        assert(before.1[k].len() > CONSENSUS_LENGTH);
    }
}

/// Taking in a block while there are forks keeps every fork linked, except
/// when a fork is forked inside: a block that extends a fork is put on the
/// fork whose top block it follows, and a block that is a sibling of a
/// fork's top block goes on a copy of that very fork without its top block.
/// A fork forked inside is the beginning of an existing fork, cut at a
/// block whose hash the received block names, followed by that block.
pub proof fn lemma_add_to_fork_keeps_forks_linked(
    before: LedgerV,
    block: BlockV,
    after: LedgerV,
    r: Result<Accepted, Refused>,
)
    requires
        added_to_fork(before, block, after, r),
    ensures
        forks_linked(before.1) && r != Ok::<Accepted, Refused>(Accepted::ForksFork) ==> forks_linked(after.1),
        r == Ok::<Accepted, Refused>(Accepted::ForksFork) ==> exists|k: int, j: int|
            0 <= k < before.1.len() && 0 <= j < before.1[k].len()
            && hash_of(before.1[k][j]) == previous_of(block)
            && after.1 == before.1.push(#[trigger] before.1[k].take(j).push(block)),
        r == Ok::<Accepted, Refused>(Accepted::AddedToFork) ==> forall|j: int|
            0 <= j < after.1.len() ==> #[trigger] after.1[j].len() <= CONSENSUS_LENGTH,
{
    let forks = before.1;
    let prev = previous_of(block);
    lemma_fork_match(forks, prev, 0);
    let k = fork_match(forks, prev, 0);
    if !(0 <= k < forks.len()) {
        lemma_first_linked_fork(forks, prev, 0);
        let f = first_linked_fork(forks, prev, 0);
        if 0 <= f < forks.len() {
            let j = last_link(forks[f], prev, 0, forks[f].len() as int)->0;
            lemma_last_link_in_range(forks[f], prev, 0, forks[f].len() as int);
            assert(after.1 == forks.push(forks[f].take(j).push(block)));
        }
    } else if forks[k].len() == 0 {
    } else if hash_of(forks[k].last()) == prev {
        let grown = forks.update(k, forks[k].push(block));
        lemma_consensus_outcome((before.0, grown, before.2), after);
        lemma_consensus_settles((before.0, grown, before.2), after);
        if forks_linked(forks) && after.1.len() > 0 {
            assert forall|f: int| 0 <= f < after.1.len() implies is_chain_linked(#[trigger] after.1[f]) by {
                if f == k {
                    let g = forks[k].push(block);
                    assert(is_chain_linked(forks[k]));
                    assert forall|i: int| 1 <= i < g.len() implies #[trigger] previous_of(g[i]) == hash_of(g[i - 1]) by {
                        if i < forks[k].len() {
                            assert(g[i] == forks[k][i]);
                        }
                        assert(g[i - 1] == forks[k][i - 1]);
                    }
                    assert(after.1[f] == g);
                } else {
                    assert(after.1[f] == forks[f]);
                }
            }
        }
    } else {
        let top = forks[k];
        let copy = top.drop_last().push(block);
        assert(after.1 == forks.push(copy));
        if forks_linked(forks) {
            assert(is_chain_linked(top));
            assert forall|i: int| 1 <= i < copy.len() implies #[trigger] previous_of(copy[i]) == hash_of(copy[i - 1]) by {
                assert(copy[i - 1] == top[i - 1]);
                if i < copy.len() - 1 {
                    assert(copy[i] == top[i]);
                } else {
                    assert(previous_of(top[i]) == hash_of(top[i - 1]));
                }
            }
            assert forall|f: int| 0 <= f < after.1.len() implies is_chain_linked(#[trigger] after.1[f]) by {
                if f < forks.len() {
                    assert(after.1[f] == forks[f]);
                } else {
                    assert(after.1[f] == copy);
                }
            }
        }
    }
}

/// Keeping a transaction unless a block carries it.
pub open spec fn not_listed_in(txs: Seq<Transaction>) -> spec_fn(Transaction) -> bool {
    |t: Transaction| !listed(txs, t)
}

/// Dropping a block's transactions keeps the rest of the mempool in its
/// order: what is left is the mempool filtered to the transactions the
/// block does not carry; and a block that carries none of them leaves the
/// mempool as it was.
pub proof fn lemma_mempool_keeps_order(pool: Seq<Transaction>, txs: Seq<Transaction>)
    ensures
        keep_unlisted(pool, txs) == pool.filter(not_listed_in(txs)),
        (forall|i: int| 0 <= i < pool.len() ==> !listed(txs, #[trigger] pool[i]))
            ==> keep_unlisted(pool, txs) == pool,
    decreases pool.len(),
{
    reveal(Seq::filter);
    if pool.len() > 0 {
        lemma_mempool_keeps_order(pool.drop_last(), txs);
        if forall|i: int| 0 <= i < pool.len() ==> !listed(txs, #[trigger] pool[i]) {
            assert forall|i: int| 0 <= i < pool.drop_last().len() implies !listed(txs, #[trigger] pool.drop_last()[i]) by {
                assert(pool.drop_last()[i] == pool[i]);
            }
            assert(!listed(txs, pool[pool.len() - 1]));
            assert(pool.drop_last().push(pool.last()) =~= pool);
        }
    } else {
        assert(pool.filter(not_listed_in(txs)) == pool);
    }
}

/// A round of minting takes its batch from the front of the mempool: a
/// mined block carries the transactions that left, and the mempool left is
/// the rest in its order. Without forks, a mined block joins the chain on
/// top of the block it names.
pub proof fn lemma_mint_round_takes_front(
    before: LedgerV,
    batch_limit: usize,
    fork_pick: usize,
    after: LedgerV,
    mined: Option<BlockV>,
)
    requires
        mint_round_done(before, batch_limit, fork_pick, after, mined),
    ensures
        mined matches Some(b) ==> b.1 + after.2 == before.2 && b.1.len() <= batch_limit,
        mined is None ==> after.2.len() + batch_limit >= before.2.len() && before.2.subrange(
            before.2.len() - after.2.len(),
            before.2.len() as int,
        ) == after.2,
        before.1.len() == 0 ==> after.1.len() == 0,
        before.1.len() == 0 && mined is Some ==> {
            let b = mined->0;
            &&& after.0.len() == before.0.len() + 1
            &&& after.0.last() == b
            &&& after.0.drop_last() == before.0
            &&& before.0.len() > 0 ==> previous_of(b) == hash_of(before.0.last())
        },
{
    let pool = before.2;
    let k = if pool.len() < batch_limit { pool.len() as int } else { batch_limit as int };
    assert(pool.take(k) + pool.skip(k) =~= pool);
    if before.1.len() > 0 {
        let i = (fork_pick as int) % (before.1.len() as int);
        let forks2 = match mined {
            Some(b) => before.1.update(i, before.1[i].push(b)),
            None => before.1,
        };
        lemma_consensus_outcome((before.0, forks2, pool.skip(k)), after);
    }
    assert(pool.subrange(pool.len() - pool.skip(k).len(), pool.len() as int) =~= pool.skip(k));
    if before.1.len() == 0 && mined is Some {
        assert(after.0.drop_last() =~= before.0);
    }
}

/// After a round of minting on a fork no fork is longer than
/// `CONSENSUS_LENGTH`; and when the block mined made its fork longer than
/// that, the forks are gone and the chain has grown.
pub proof fn lemma_mint_round_settles(
    before: LedgerV,
    batch_limit: usize,
    fork_pick: usize,
    after: LedgerV,
    mined: Option<BlockV>,
)
    requires
        mint_round_done(before, batch_limit, fork_pick, after, mined),
        before.1.len() > 0,
    ensures
        forall|j: int| 0 <= j < after.1.len() ==> #[trigger] after.1[j].len() <= CONSENSUS_LENGTH,
        mined is Some && before.1[(fork_pick as int) % (before.1.len() as int)].len() >= CONSENSUS_LENGTH
            ==> after.1.len() == 0 && after.0.len() > before.0.len(),
{
    let pool = before.2;
    let k = if pool.len() < batch_limit { pool.len() as int } else { batch_limit as int };
    let rest = pool.skip(k);
    let i = (fork_pick as int) % (before.1.len() as int);
    let forks2 = match mined {
        Some(b) => before.1.update(i, before.1[i].push(b)),
        None => before.1,
    };
    let mid = (before.0, forks2, rest);
    assert(consensus_reached(mid, after));
    lemma_consensus_settles(mid, after);
    lemma_consensus_outcome(mid, after);
    if mined is Some && before.1[i].len() >= CONSENSUS_LENGTH {
        assert(forks2[i].len() > CONSENSUS_LENGTH);
        assert(after.1.len() == 0);
        let j = choose|j: int|
            0 <= j < forks2.len() && forks2[j].len() > CONSENSUS_LENGTH && after.0 == before.0 + #[trigger] forks2[j];
        assert(after.0.len() == before.0.len() + forks2[j].len());
    }
}

} // verus!
