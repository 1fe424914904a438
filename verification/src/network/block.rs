//! Blocks that carry a batch of transactions.

use vstd::prelude::*;
use crate::block::{meets_difficulty, DIFFICULTY};
use crate::clock::current_timestamp;
use crate::digest::{hash_of_text, hash_text};
use crate::entropy::random_usize;
use crate::text::{count_char_in, decimal, decimal_string, is_lower_hex, is_timestamp};
use crate::transaction::Transaction;

verus! {

#[derive(PartialEq, Debug)]
pub struct Header {
    pub head_timestamp: String,
    pub nonce: usize,
}

impl Clone for Header {
    fn clone(&self) -> (h: Header)
        ensures
            h == *self,
    {
        Header { head_timestamp: self.head_timestamp.clone(), nonce: self.nonce }
    }
}

impl Header {
    /// A header stamped with the current time and a random nonce; nothing
    /// when the clock reads a time before the Unix epoch.
    pub fn new() -> (h: Option<Header>)
        ensures
            h matches Some(h) ==> is_timestamp(h.head_timestamp@),
    {
        let head_timestamp = match current_timestamp() {
            Some(t) => t,
            None => return None,
        };
        Some(Header { head_timestamp, nonce: random_usize() })
    }
}

#[derive(PartialEq, Debug)]
pub struct Block {
    pub head: Header,
    pub transaction: Vec<Transaction>,
    pub hash: String,
    pub previous_hash: String,
}

/// What a block is worth: its header, its transactions, its hash and the
/// hash of the block before it.
pub type BlockV = (Header, Seq<Transaction>, Seq<char>, Seq<char>);

/// The hash a block carries.
pub open spec fn hash_of(b: BlockV) -> Seq<char> {
    b.2
}

/// The hash of the block a block claims to follow.
pub open spec fn previous_of(b: BlockV) -> Seq<char> {
    b.3
}

impl View for Block {
    type V = BlockV;

    open spec fn view(&self) -> BlockV {
        (self.head, self.transaction@, self.hash@, self.previous_hash@)
    }
}

impl Clone for Block {
    fn clone(&self) -> (b: Block)
        ensures
            b@ == self@,
    {
        let b = Block {
            head: self.head.clone(),
            transaction: self.transaction.clone(),
            hash: self.hash.clone(),
            previous_hash: self.previous_hash.clone(),
        };
        assert(b.transaction@ =~= self.transaction@);
        b
    }
}

/// Sender, recipient and amount of each transaction, one after the other.
pub open spec fn transactions_text(txs: Seq<Transaction>) -> Seq<char>
    decreases txs.len(),
{
    if txs.len() == 0 {
        Seq::empty()
    } else {
        let t = txs.last();
        transactions_text(txs.drop_last()) + t.from@ + t.to@ + decimal(t.amount as nat)
    }
}

/// The text that is hashed for a block: timestamp, nonce, previous hash,
/// then the transactions.
pub open spec fn batch_preimage(
    timestamp: Seq<char>,
    nonce: nat,
    previous_hash: Seq<char>,
    txs: Seq<Transaction>,
) -> Seq<char> {
    timestamp + decimal(nonce) + previous_hash + transactions_text(txs)
}

impl Block {
    /// The text this block's hash is computed from.
    pub open spec fn preimage(&self) -> Seq<char> {
        batch_preimage(
            self.head.head_timestamp@,
            self.head.nonce as nat,
            self.previous_hash@,
            self.transaction@,
        )
    }

    /// The hash of the block's current contents.
    pub fn hash_func(&self) -> (h: String)
        ensures
            h@ == hash_of_text(self.preimage()),
            h@.len() == 64,
            is_lower_hex(h@),
    {
        let mut text = self.head.head_timestamp.clone();
        let nonce = decimal_string(self.head.nonce as u128);
        text.append(nonce.as_str());
        text.append(self.previous_hash.as_str());
        let ghost prefix = text@;
        let n = self.transaction.len();
        assert(self.transaction@.take(0) =~= Seq::<Transaction>::empty());
        assert(text@ =~= prefix + transactions_text(self.transaction@.take(0)));
        for i in 0..n
            invariant
                n == self.transaction@.len(),
                prefix == self.head.head_timestamp@ + decimal(self.head.nonce as nat)
                    + self.previous_hash@,
                text@ == prefix + transactions_text(self.transaction@.take(i as int)),
        {
            let t = &self.transaction[i];
            text.append(t.from.as_str());
            text.append(t.to.as_str());
            let amount = decimal_string(t.amount as u128);
            text.append(amount.as_str());
            assert(self.transaction@.take(i + 1).drop_last() =~= self.transaction@.take(i as int));
            assert(text@ =~= prefix + transactions_text(self.transaction@.take(i + 1)));
        }
        assert(self.transaction@.take(n as int) =~= self.transaction@);
        assert(text@ =~= self.preimage());
        hash_text(text.as_str())
    }

    /// One proof-of-work attempt: set the nonce and hash the block; when the
    /// hash meets the difficulty it becomes the block's hash and `true` is
    /// returned, otherwise the hash is left as it was.
    pub fn try_nonce(&mut self, nonce: usize) -> (found: bool)
        ensures
            final(self).head.nonce == nonce,
            final(self).head.head_timestamp == old(self).head.head_timestamp,
            final(self).transaction == old(self).transaction,
            final(self).previous_hash == old(self).previous_hash,
            found == meets_difficulty(hash_of_text(final(self).preimage())),
            found ==> final(self).hash@ == hash_of_text(final(self).preimage()),
            found ==> final(self).hash@.len() == 64 && is_lower_hex(final(self).hash@),
            !found ==> final(self).hash == old(self).hash,
    {
        self.head.nonce = nonce;
        let h = self.hash_func();
        let ones = count_char_in(h.as_str(), '1');
        if ones >= DIFFICULTY {
            self.hash = h;
            true
        } else {
            false
        }
    }
}

} // verus!
