//! The chain a network node keeps, and mining a batch of transactions.

use vstd::prelude::*;
use crate::block::meets_difficulty;
use crate::blockchain::{clock_always_reads, MINING_ATTEMPTS};
use crate::clock::current_timestamp;
use crate::digest::hash_of_text;
use crate::entropy::random_usize;
use crate::network::block::{batch_preimage, hash_of, previous_of, Block, BlockV, Header};
use crate::text::{is_lower_hex, is_timestamp};
use crate::transaction::Transaction;

verus! {

#[derive(PartialEq, Debug)]
pub struct Blockchain {
    pub blocks: Vec<Block>,
}

/// The previous hash a genesis block carries.
pub open spec fn genesis_previous_hash() -> Seq<char> {
    "Genesis has no previous hash"@
}

/// The blocks of a chain, each by its view.
pub open spec fn blocks_view(blocks: Seq<Block>) -> Seq<BlockV> {
    blocks.map_values(|b: Block| b@)
}

impl View for Blockchain {
    type V = Seq<BlockV>;

    open spec fn view(&self) -> Seq<BlockV> {
        blocks_view(self.blocks@)
    }
}

impl Clone for Blockchain {
    fn clone(&self) -> (c: Blockchain)
        ensures
            c@ == self@,
    {
        let n = self.blocks.len();
        let mut blocks: Vec<Block> = Vec::new();
        for i in 0..n
            invariant
                n == self.blocks@.len(),
                blocks@.len() == i,
                forall|j: int| 0 <= j < i ==> #[trigger] blocks@[j]@ == self.blocks@[j]@,
        {
            blocks.push(self.blocks[i].clone());
        }
        let c = Blockchain { blocks };
        assert(c@ =~= self@);
        c
    }
}

/// The genesis block of a network chain: a zero transfer from `Genesis` to
/// `You`, hashed with its own timestamp.
pub open spec fn is_network_genesis(b: BlockV) -> bool {
    &&& b.1.len() == 1
    &&& b.1[0].from@ == "Genesis"@
    &&& b.1[0].to@ == "You"@
    &&& b.1[0].amount == 0
    &&& hash_of(b) == b.0.head_timestamp@
    &&& is_timestamp(hash_of(b))
    &&& previous_of(b) == genesis_previous_hash()
}

/// `b` was mined on top of a block whose hash is `previous_hash`, carrying
/// `txs`: its hash is the hash of its contents taken with some earlier clock
/// reading as timestamp (64 hexadecimal digits), meets the difficulty, and
/// its timestamp was stamped afterwards.
pub open spec fn is_batch_mined_on(b: BlockV, previous_hash: Seq<char>, txs: Seq<Transaction>) -> bool {
    &&& b.1 == txs
    &&& previous_of(b) == previous_hash
    &&& exists|t: Seq<char>|
        is_timestamp(t) && hash_of(b) == #[trigger] hash_of_text(
            batch_preimage(t, b.0.nonce as nat, previous_hash, txs),
        )
    &&& hash_of(b).len() == 64
    &&& is_lower_hex(hash_of(b))
    &&& meets_difficulty(hash_of(b))
    &&& is_timestamp(b.0.head_timestamp@)
}

/// Nonce `n` would make a block of `txs` stamped `stamp`, on top of a block
/// whose hash is `previous_hash`, meet the difficulty.
pub open spec fn batch_nonce_works(stamp: Seq<char>, n: usize, txs: Seq<Transaction>, previous_hash: Seq<char>) -> bool {
    meets_difficulty(hash_of_text(batch_preimage(stamp, n as nat, previous_hash, txs)))
}

/// Every nonce would do, whatever the timestamp.
pub open spec fn every_batch_nonce_works(txs: Seq<Transaction>, previous_hash: Seq<char>) -> bool {
    forall|stamp: Seq<char>, n: usize| #[trigger] batch_nonce_works(stamp, n, txs, previous_hash)
}

impl Blockchain {
    /// A chain holding only its genesis block; nothing when the clock reads
    /// a time before the Unix epoch.
    pub fn new() -> (chain: Option<Blockchain>)
        ensures
            chain matches Some(c) ==> c@.len() == 1 && is_network_genesis(c@[0]),
    {
        let mut transactions: Vec<Transaction> = Vec::new();
        transactions.push(
            Transaction { from: String::from_str("Genesis"), to: String::from_str("You"), amount: 0 },
        );
        let header = match Header::new() {
            Some(h) => h,
            None => return None,
        };
        let genesis = Block {
            head: header.clone(),
            transaction: transactions,
            hash: header.head_timestamp,
            previous_hash: String::from_str("Genesis has no previous hash"),
        };
        let mut blocks = Vec::new();
        blocks.push(genesis);
        let chain = Blockchain { blocks };
        assert(chain@[0] == chain.blocks@[0]@);
        Some(chain)
    }

    /// Mine a block of `mempool_part` on top of the chain: random nonces are
    /// tried until the block's hash meets the difficulty; the block is then
    /// stamped with the time, joins the chain, and a copy is returned to be
    /// announced. After `MINING_ATTEMPTS` failed nonces, or when the clock
    /// reads a time before the Unix epoch, nothing is returned and the chain
    /// is left as it was.
    pub fn mint(&mut self, mempool_part: Vec<Transaction>) -> (mined: Option<Block>)
        requires
            old(self).blocks@.len() > 0,
        ensures
            mined is None ==> final(self)@ == old(self)@,
            mined matches Some(b) ==> {
                &&& final(self)@ == old(self)@.push(b@)
                &&& is_batch_mined_on(b@, hash_of(old(self)@.last()), mempool_part@)
            },
    {
        self.mint_with_clock(mempool_part, current_timestamp)
    }

    /// `mint`, with the clock that stamps the block given as `read_clock`.
    /// Mining fails only by chance or by the clock: when every nonce would
    /// give a hash that meets the difficulty, whatever the timestamp, and
    /// the clock always reads, a block is mined, whatever the chain holds.
    pub fn mint_with_clock<F: Fn() -> Option<String>>(
        &mut self,
        mempool_part: Vec<Transaction>,
        read_clock: F,
    ) -> (mined: Option<Block>)
        requires
            old(self).blocks@.len() > 0,
            read_clock.requires(()),
            forall|r: Option<String>| #[trigger] read_clock.ensures((), r) ==> (r matches Some(t) ==> is_timestamp(t@)),
        ensures
            mined is None ==> final(self)@ == old(self)@,
            mined matches Some(b) ==> {
                &&& final(self)@ == old(self)@.push(b@)
                &&& is_batch_mined_on(b@, hash_of(old(self)@.last()), mempool_part@)
            },
            clock_always_reads(read_clock) && every_batch_nonce_works(mempool_part@, hash_of(old(self)@.last()))
                ==> mined is Some,
    {
        let ghost txs = mempool_part@;
        let ghost chain0 = self@;
        let ghost sure = clock_always_reads(read_clock) && every_batch_nonce_works(
            mempool_part@,
            hash_of(old(self)@.last()),
        );
        let head = match read_clock() {
            Some(t) => Header { head_timestamp: t, nonce: random_usize() },
            None => return None,
        };
        let mut block = Block {
            head,
            transaction: mempool_part,
            hash: String::new(),
            previous_hash: String::new(),
        };
        let ghost stamp = block.head.head_timestamp@;
        let mut attempts: u64 = 0;
        while attempts < MINING_ATTEMPTS
            invariant
                *self == *old(self),
                chain0 == old(self)@,
                txs == mempool_part@,
                self.blocks@.len() > 0,
                block.transaction@ == txs,
                block.head.head_timestamp@ == stamp,
                is_timestamp(stamp),
                read_clock.requires(()),
                forall|r: Option<String>| #[trigger] read_clock.ensures((), r) ==> (r matches Some(t) ==> is_timestamp(t@)),
                sure == (clock_always_reads(read_clock) && every_batch_nonce_works(txs, hash_of(chain0.last()))),
                sure ==> attempts == 0,
            decreases MINING_ATTEMPTS - attempts,
        {
            block.previous_hash = self.blocks[self.blocks.len() - 1].hash.clone();
            let nonce = random_usize();
            proof {
                if sure {
                    assert(self@.last() == self.blocks@.last()@);
                    assert(batch_nonce_works(stamp, nonce, txs, hash_of(chain0.last())));
                }
            }
            if block.try_nonce(nonce) {
                assert(self@.last() == self.blocks@.last()@);
                assert(hash_of_text(block.preimage()) == hash_of_text(
                    batch_preimage(stamp, block.head.nonce as nat, block.previous_hash@, txs),
                ));
                match read_clock() {
                    Some(t) => {
                        block.head.head_timestamp = t;
                    },
                    None => {
                        return None;
                    },
                }
                assert(hash_of(block@) == hash_of_text(
                    batch_preimage(stamp, block@.0.nonce as nat, hash_of(chain0.last()), txs),
                ));
                assert(previous_of(block@) == hash_of(chain0.last()));
                assert(block@.1 == txs);
                assert(is_batch_mined_on(block@, hash_of(chain0.last()), txs));
                let announced = block.clone();
                self.blocks.push(block);
                assert(self@ =~= chain0.push(announced@));
                return Some(announced);
            }
            attempts = attempts + 1;
        }
        None
    }
}

} // verus!
