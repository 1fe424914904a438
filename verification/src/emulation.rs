//! The first emulation of a blockchain: blocks of one transaction each,
//! hashed from the transaction and the previous hash, with no proof of work.

use std::collections::VecDeque;
use vstd::prelude::*;
use crate::digest::{hash_of_text, hash_text};
use crate::text::{decimal, decimal_string, is_lower_hex, is_timestamp};
use crate::transaction::Transaction;

pub use crate::clock::current_timestamp;

verus! {

#[derive(Debug)]
pub struct Block {
    pub transaction: Transaction,
    pub hash: String,
    pub previous_hash: String,
}

/// The text hashed for a block: sender, recipient, amount, previous hash.
pub open spec fn plain_preimage(tx: Transaction, previous_hash: Seq<char>) -> Seq<char> {
    tx.from@ + tx.to@ + decimal(tx.amount as nat) + previous_hash
}

impl Block {
    /// The hash of the block's transaction and previous hash.
    pub fn hash_func(&mut self) -> (h: String)
        ensures
            *final(self) == *old(self),
            h@ == hash_of_text(plain_preimage(old(self).transaction, old(self).previous_hash@)),
            h@.len() == 64,
            is_lower_hex(h@),
    {
        let mut text = self.transaction.from.clone();
        text.append(self.transaction.to.as_str());
        let amount = decimal_string(self.transaction.amount as u128);
        text.append(amount.as_str());
        text.append(self.previous_hash.as_str());
        hash_text(text.as_str())
    }
}

#[derive(Debug)]
pub struct Blockchain {
    pub blocks: Vec<Block>,
    pub transactions_queue: VecDeque<Transaction>,
}

/// Each block after the first follows the block below it: its previous
/// hash is that block's hash, and its own hash is the hash of its
/// transaction and that previous hash.
pub open spec fn is_plain_linked(blocks: Seq<Block>) -> bool {
    forall|i: int|
        1 <= i < blocks.len() ==> {
            &&& #[trigger] blocks[i].previous_hash@ == blocks[i - 1].hash@
            &&& blocks[i].hash@ == hash_of_text(plain_preimage(blocks[i].transaction, blocks[i].previous_hash@))
        }
}

impl Blockchain {
    /// A chain holding only its genesis block, a zero transfer from
    /// `Genesis` whose hash is the time of creation; nothing when the clock
    /// reads a time before the Unix epoch.
    pub fn new() -> (chain: Option<Blockchain>)
        ensures
            chain matches Some(c) ==> {
                &&& c.blocks@.len() == 1
                &&& c.blocks@[0].transaction.from@ == "Genesis"@
                &&& c.blocks@[0].transaction.to@ == Seq::<char>::empty()
                &&& c.blocks@[0].transaction.amount == 0
                &&& is_timestamp(c.blocks@[0].hash@)
                &&& c.blocks@[0].previous_hash@ == Seq::<char>::empty()
                &&& c.transactions_queue@.len() == 0
                &&& is_plain_linked(c.blocks@)
            },
    {
        let timestamp = match current_timestamp() {
            Some(t) => t,
            None => return None,
        };
        let genesis = Block {
            transaction: Transaction { from: String::from_str("Genesis"), to: String::new(), amount: 0 },
            hash: timestamp,
            previous_hash: String::new(),
        };
        let mut blocks = Vec::new();
        blocks.push(genesis);
        Some(Blockchain { blocks, transactions_queue: VecDeque::new() })
    }

    /// Queue a transaction.
    pub fn new_transaction(&mut self, from: String, to: String, amount: u64)
        ensures
            final(self).blocks@ == old(self).blocks@,
            final(self).transactions_queue@ == old(self).transactions_queue@.push(
                Transaction { from, to, amount },
            ),
    {
        self.transactions_queue.push_back(Transaction { from, to, amount });
    }

    /// Turn the first queued transaction into a block on top of the chain,
    /// hashed from the transaction and the top block's hash. Returns whether
    /// a block was added: with an empty queue nothing changes. A linked
    /// chain stays linked.
    pub fn new_block(&mut self) -> (added: bool)
        requires
            old(self).transactions_queue@.len() > 0 ==> old(self).blocks@.len() > 0,
        ensures
            added == (old(self).transactions_queue@.len() > 0),
            !added ==> final(self).blocks@ == old(self).blocks@
                && final(self).transactions_queue@ == old(self).transactions_queue@,
            added ==> {
                let tx = old(self).transactions_queue@[0];
                let prev = old(self).blocks@.last().hash@;
                let b = final(self).blocks@.last();
                &&& final(self).blocks@.len() == old(self).blocks@.len() + 1
                &&& final(self).blocks@.drop_last() == old(self).blocks@
                &&& final(self).transactions_queue@ == old(self).transactions_queue@.drop_first()
                &&& b.transaction == tx
                &&& b.previous_hash@ == prev
                &&& b.hash@ == hash_of_text(plain_preimage(tx, prev))
                &&& b.hash@.len() == 64
                &&& is_lower_hex(b.hash@)
            },
            is_plain_linked(old(self).blocks@) ==> is_plain_linked(final(self).blocks@),
    {
        if self.transactions_queue.len() == 0 {
            return false;
        }
        let ghost blocks0 = self.blocks@;
        let ghost queue0 = self.transactions_queue@;
        let last_hash = self.blocks[self.blocks.len() - 1].hash.clone();
        let tx = match self.transactions_queue.pop_front() {
            Some(tx) => tx,
            None => return false,
        };
        let mut block = Block { transaction: tx, hash: last_hash.clone(), previous_hash: last_hash };
        block.hash = block.hash_func();
        self.blocks.push(block);
        assert(self.blocks@.drop_last() =~= blocks0);
        assert(self.transactions_queue@ =~= queue0.drop_first());
        assert(is_plain_linked(blocks0) ==> is_plain_linked(self.blocks@)) by {
            if is_plain_linked(blocks0) {
                assert forall|i: int| 1 <= i < self.blocks@.len() implies {
                    &&& #[trigger] self.blocks@[i].previous_hash@ == self.blocks@[i - 1].hash@
                    &&& self.blocks@[i].hash@ == hash_of_text(
                        plain_preimage(self.blocks@[i].transaction, self.blocks@[i].previous_hash@),
                    )
                } by {
                    assert(self.blocks@[i - 1] == blocks0[i - 1]);
                    if i < blocks0.len() {
                        assert(self.blocks@[i] == blocks0[i]);
                    }
                }
            }
        }
        true
    }
}

} // verus!
