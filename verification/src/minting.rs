//! The proof-of-work emulation with big random nonces: blocks of one
//! transaction whose header carries a random integer of up to a thousand
//! bits, kept as the decimal numeral it is hashed as.

use std::collections::VecDeque;
use vstd::prelude::*;
use crate::block::{meets_difficulty, DIFFICULTY};
use crate::blockchain::{clock_always_reads, MINING_ATTEMPTS};
use crate::digest::{hash_of_text, hash_text};
use crate::entropy::{is_signed_decimal_below, random_bigint_decimal};
use crate::text::{count_char_in, decimal, decimal_string, is_lower_hex, is_timestamp};
use crate::transaction::Transaction;

pub use crate::clock::current_timestamp;

verus! {

/// How many bits the random nonces have at most.
pub const NONCE_BITS: u64 = 1000;

#[derive(Debug)]
pub struct Header {
    pub head_timestamp: String,
    /// The nonce, a big integer, as its decimal numeral.
    pub nonce: String,
}

#[derive(Debug)]
pub struct Block {
    pub head: Header,
    pub transaction: Transaction,
    pub hash: String,
    pub previous_hash: String,
}

/// The text hashed for a block: sender, recipient, amount, previous hash
/// and nonce.
pub open spec fn nonce_preimage(tx: Transaction, previous_hash: Seq<char>, nonce: Seq<char>) -> Seq<char> {
    tx.from@ + tx.to@ + decimal(tx.amount as nat) + previous_hash + nonce
}

/// `b` was mined on top of a block whose hash is `previous_hash`, carrying
/// `tx`: its hash, of its contents with its nonce (64 hexadecimal digits),
/// meets the difficulty, and its timestamp was stamped afterwards.
pub open spec fn is_nonce_mined_on(b: Block, previous_hash: Seq<char>, tx: Transaction) -> bool {
    &&& b.transaction == tx
    &&& b.previous_hash@ == previous_hash
    &&& is_signed_decimal_below(b.head.nonce@, NONCE_BITS as nat)
    &&& b.hash@ == hash_of_text(nonce_preimage(tx, previous_hash, b.head.nonce@))
    &&& b.hash@.len() == 64
    &&& is_lower_hex(b.hash@)
    &&& meets_difficulty(b.hash@)
    &&& is_timestamp(b.head.head_timestamp@)
}

/// The nonce numeral `nonce` would make a block carrying `tx` on top of a
/// block whose hash is `previous_hash` meet the difficulty.
pub open spec fn big_nonce_works(nonce: Seq<char>, tx: Transaction, previous_hash: Seq<char>) -> bool {
    meets_difficulty(hash_of_text(nonce_preimage(tx, previous_hash, nonce)))
}

/// Every nonce numeral would do.
pub open spec fn every_big_nonce_works(tx: Transaction, previous_hash: Seq<char>) -> bool {
    forall|nonce: Seq<char>| #[trigger] big_nonce_works(nonce, tx, previous_hash)
}

impl Block {
    /// The hash of the block's transaction, previous hash and nonce.
    pub fn hash_func(&mut self) -> (h: String)
        ensures
            *final(self) == *old(self),
            h@ == hash_of_text(
                nonce_preimage(old(self).transaction, old(self).previous_hash@, old(self).head.nonce@),
            ),
            h@.len() == 64,
            is_lower_hex(h@),
    {
        let mut text = self.transaction.from.clone();
        text.append(self.transaction.to.as_str());
        let amount = decimal_string(self.transaction.amount as u128);
        text.append(amount.as_str());
        text.append(self.previous_hash.as_str());
        text.append(self.head.nonce.as_str());
        hash_text(text.as_str())
    }

    /// One proof-of-work attempt: set the nonce and hash the block; when the
    /// hash meets the difficulty it becomes the block's hash and `true` is
    /// returned, otherwise the hash is left as it was.
    pub fn try_nonce(&mut self, nonce: String) -> (found: bool)
        ensures
            final(self).head.nonce == nonce,
            final(self).head.head_timestamp == old(self).head.head_timestamp,
            final(self).transaction == old(self).transaction,
            final(self).previous_hash == old(self).previous_hash,
            found == meets_difficulty(
                hash_of_text(nonce_preimage(old(self).transaction, old(self).previous_hash@, nonce@)),
            ),
            found ==> final(self).hash@ == hash_of_text(
                nonce_preimage(old(self).transaction, old(self).previous_hash@, nonce@),
            ),
            found ==> final(self).hash@.len() == 64 && is_lower_hex(final(self).hash@),
            !found ==> final(self).hash == old(self).hash,
    {
        self.head.nonce = nonce;
        let h = self.hash_func();
        if count_char_in(h.as_str(), '1') >= DIFFICULTY {
            self.hash = h;
            true
        } else {
            false
        }
    }
}

#[derive(Debug)]
pub struct Blockchain {
    pub blocks: Vec<Block>,
    pub transactions_queue: VecDeque<Transaction>,
}

impl Blockchain {
    /// A chain holding only its genesis block, a zero transfer from
    /// `Genesis`, stamped and hashed with clock readings; nothing when the
    /// clock reads a time before the Unix epoch.
    pub fn new() -> (chain: Option<Blockchain>)
        ensures
            chain matches Some(c) ==> {
                &&& c.blocks@.len() == 1
                &&& c.blocks@[0].transaction.from@ == "Genesis"@
                &&& c.blocks@[0].transaction.to@ == Seq::<char>::empty()
                &&& c.blocks@[0].transaction.amount == 0
                &&& is_timestamp(c.blocks@[0].hash@)
                &&& is_timestamp(c.blocks@[0].head.head_timestamp@)
                &&& is_signed_decimal_below(c.blocks@[0].head.nonce@, NONCE_BITS as nat)
                &&& c.blocks@[0].previous_hash@ == Seq::<char>::empty()
                &&& c.transactions_queue@.len() == 0
            },
    {
        let head_timestamp = match current_timestamp() {
            Some(t) => t,
            None => return None,
        };
        let nonce = random_bigint_decimal(NONCE_BITS);
        let hash = match current_timestamp() {
            Some(t) => t,
            None => return None,
        };
        let genesis = Block {
            head: Header { head_timestamp, nonce },
            transaction: Transaction { from: String::from_str("Genesis"), to: String::new(), amount: 0 },
            hash,
            previous_hash: String::new(),
        };
        let mut blocks = Vec::new();
        blocks.push(genesis);
        Some(Blockchain { blocks, transactions_queue: VecDeque::new() })
    }

    /// Queue a transaction.
    pub fn new_transaction(&mut self, from: String, to: String, amount: u64)
        ensures
            final(self).blocks@ == old(self).blocks@,
            final(self).transactions_queue@ == old(self).transactions_queue@.push(
                Transaction { from, to, amount },
            ),
    {
        self.transactions_queue.push_back(Transaction { from, to, amount });
    }

    /// Mine the first queued transaction: it leaves the queue, and random
    /// big nonces are tried until the hash of a block carrying it on top of
    /// the chain meets the difficulty; that block is stamped with the time
    /// and joins the chain. Returns whether a block was added: with an empty
    /// queue nothing changes; after `MINING_ATTEMPTS` failed nonces, or when
    /// the clock reads a time before the Unix epoch, the chain is left as it
    /// was.
    pub fn mint(&mut self) -> (added: bool)
        requires
            old(self).transactions_queue@.len() > 0 ==> old(self).blocks@.len() > 0,
        ensures
            old(self).transactions_queue@.len() == 0 ==> !added
                && final(self).blocks@ == old(self).blocks@
                && final(self).transactions_queue@ == old(self).transactions_queue@,
            old(self).transactions_queue@.len() > 0
                ==> final(self).transactions_queue@ == old(self).transactions_queue@.drop_first(),
            !added ==> final(self).blocks@ == old(self).blocks@,
            added ==> {
                &&& final(self).blocks@.drop_last() == old(self).blocks@
                &&& final(self).blocks@.len() == old(self).blocks@.len() + 1
                &&& is_nonce_mined_on(
                    final(self).blocks@.last(),
                    old(self).blocks@.last().hash@,
                    old(self).transactions_queue@[0],
                )
            },
    {
        self.mint_with_clock(current_timestamp)
    }

    /// `mint`, with the clock that stamps a mined block given as
    /// `read_clock`. Mining fails only by chance or by the clock: when every
    /// nonce would give a hash that meets the difficulty and the clock always
    /// reads, a queued transaction is mined into a block, whatever the chain
    /// holds.
    pub fn mint_with_clock<F: Fn() -> Option<String>>(&mut self, read_clock: F) -> (added: bool)
        requires
            old(self).transactions_queue@.len() > 0 ==> old(self).blocks@.len() > 0,
            read_clock.requires(()),
            forall|r: Option<String>| #[trigger] read_clock.ensures((), r) ==> (r matches Some(t) ==> is_timestamp(t@)),
        ensures
            old(self).transactions_queue@.len() == 0 ==> !added
                && final(self).blocks@ == old(self).blocks@
                && final(self).transactions_queue@ == old(self).transactions_queue@,
            old(self).transactions_queue@.len() > 0
                ==> final(self).transactions_queue@ == old(self).transactions_queue@.drop_first(),
            !added ==> final(self).blocks@ == old(self).blocks@,
            added ==> {
                &&& final(self).blocks@.drop_last() == old(self).blocks@
                &&& final(self).blocks@.len() == old(self).blocks@.len() + 1
                &&& is_nonce_mined_on(
                    final(self).blocks@.last(),
                    old(self).blocks@.last().hash@,
                    old(self).transactions_queue@[0],
                )
            },
            old(self).transactions_queue@.len() > 0 && clock_always_reads(read_clock) && every_big_nonce_works(
                old(self).transactions_queue@[0],
                old(self).blocks@.last().hash@,
            ) ==> added,
    {
        if self.transactions_queue.len() == 0 {
            return false;
        }
        let ghost blocks0 = self.blocks@;
        let ghost queue0 = self.transactions_queue@;
        let ghost sure = clock_always_reads(read_clock) && every_big_nonce_works(
            queue0[0],
            blocks0.last().hash@,
        );
        let tx = match self.transactions_queue.pop_front() {
            Some(tx) => tx,
            None => return false,
        };
        assert(self.transactions_queue@ =~= queue0.drop_first());
        let previous_hash = self.blocks[self.blocks.len() - 1].hash.clone();
        let mut block = Block {
            head: Header { head_timestamp: String::new(), nonce: String::new() },
            transaction: tx,
            hash: String::new(),
            previous_hash,
        };
        let mut attempts: u64 = 0;
        while attempts < MINING_ATTEMPTS
            invariant
                self.blocks@ == blocks0,
                self.transactions_queue@ == queue0.drop_first(),
                blocks0 == old(self).blocks@,
                queue0 == old(self).transactions_queue@,
                blocks0.len() > 0,
                queue0.len() > 0,
                block.transaction == queue0[0],
                block.previous_hash@ == blocks0.last().hash@,
                read_clock.requires(()),
                forall|r: Option<String>| #[trigger] read_clock.ensures((), r) ==> (r matches Some(t) ==> is_timestamp(t@)),
                sure == (clock_always_reads(read_clock) && every_big_nonce_works(queue0[0], blocks0.last().hash@)),
                sure ==> attempts == 0,
            decreases MINING_ATTEMPTS - attempts,
        {
            let nonce = random_bigint_decimal(NONCE_BITS);
            proof {
                if sure {
                    assert(big_nonce_works(nonce@, queue0[0], blocks0.last().hash@));
                }
            }
            if block.try_nonce(nonce) {
                match read_clock() {
                    Some(t) => {
                        block.head.head_timestamp = t;
                    },
                    None => {
                        return false;
                    },
                }
                self.blocks.push(block);
                assert(self.blocks@.drop_last() =~= blocks0);
                return true;
            }
            attempts = attempts + 1;
        }
        false
    }
}

} // verus!
