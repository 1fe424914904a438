//! A block that carries one transaction, with a header of a timestamp and a
//! nonce, and the hash that links it to the block before it.

use vstd::prelude::*;
use crate::digest::{hash_of_text, hash_text};
use crate::text::{count_char, count_char_in, decimal, decimal_string, is_lower_hex};
use crate::transaction::Transaction;

verus! {

/// How many `1` digits a block hash must hold to be accepted.
pub const DIFFICULTY: usize = 6;

/// A hash is accepted as proof of work when it holds at least
/// `DIFFICULTY` characters `1`.
pub open spec fn meets_difficulty(hash: Seq<char>) -> bool {
    count_char(hash, '1') >= DIFFICULTY
}

#[derive(PartialEq, Debug)]
pub struct Header {
    pub head_timestamp: String,
    pub nonce: usize,
}

impl Clone for Header {
    fn clone(&self) -> (h: Header)
        ensures
            h == *self,
    {
        Header { head_timestamp: self.head_timestamp.clone(), nonce: self.nonce }
    }
}

#[derive(PartialEq, Debug)]
pub struct Block {
    pub head: Header,
    pub transaction: Transaction,
    pub hash: String,
    pub previous_hash: String,
}

/// The text that is hashed for a block: timestamp, nonce, sender, recipient,
/// amount, previous hash and the nonce once more, one after the other.
pub open spec fn block_preimage(
    timestamp: Seq<char>,
    nonce: nat,
    tx: Transaction,
    previous_hash: Seq<char>,
) -> Seq<char> {
    timestamp + decimal(nonce) + tx.from@ + tx.to@ + decimal(tx.amount as nat) + previous_hash
        + decimal(nonce)
}

impl Clone for Block {
    fn clone(&self) -> (b: Block)
        ensures
            b == *self,
    {
        Block {
            head: self.head.clone(),
            transaction: self.transaction.clone(),
            hash: self.hash.clone(),
            previous_hash: self.previous_hash.clone(),
        }
    }
}

impl Block {
    /// The text this block's hash is computed from.
    pub open spec fn preimage(&self) -> Seq<char> {
        block_preimage(
            self.head.head_timestamp@,
            self.head.nonce as nat,
            self.transaction,
            self.previous_hash@,
        )
    }

    /// The hash of the block's current contents; the block is left as it is.
    pub fn hash_func(&mut self) -> (h: String)
        ensures
            *final(self) == *old(self),
            h@ == hash_of_text(old(self).preimage()),
            h@.len() == 64,
            is_lower_hex(h@),
    {
        let mut text = self.head.head_timestamp.clone();
        let nonce = decimal_string(self.head.nonce as u128);
        text.append(nonce.as_str());
        text.append(self.transaction.from.as_str());
        text.append(self.transaction.to.as_str());
        let amount = decimal_string(self.transaction.amount as u128);
        text.append(amount.as_str());
        text.append(self.previous_hash.as_str());
        text.append(nonce.as_str());
        hash_text(text.as_str())
    }

    /// One proof-of-work attempt: set the nonce and hash the block; when the
    /// hash meets the difficulty it becomes the block's hash and `true` is
    /// returned, otherwise the hash is left as it was.
    pub fn try_nonce(&mut self, nonce: usize) -> (found: bool)
        ensures
            final(self).head.nonce == nonce,
            final(self).head.head_timestamp == old(self).head.head_timestamp,
            final(self).transaction == old(self).transaction,
            final(self).previous_hash == old(self).previous_hash,
            found == meets_difficulty(hash_of_text(final(self).preimage())),
            found ==> final(self).hash@ == hash_of_text(final(self).preimage()),
            found ==> final(self).hash@.len() == 64 && is_lower_hex(final(self).hash@),
            !found ==> final(self).hash == old(self).hash,
    {
        self.head.nonce = nonce;
        let h = self.hash_func();
        let ones = count_char_in(h.as_str(), '1');
        if ones >= DIFFICULTY {
            self.hash = h;
            true
        } else {
            false
        }
    }
}

} // verus!
