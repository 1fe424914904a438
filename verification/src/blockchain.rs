//! A chain of single-transaction blocks with a queue of transactions waiting
//! to be mined, and a simulation of competing forks that settles on the
//! longest one.

use std::collections::VecDeque;
use vstd::prelude::*;
use crate::block::{block_preimage, meets_difficulty, Block, Header};
use crate::clock::current_timestamp;
use crate::digest::hash_of_text;
use crate::entropy::random_usize;
use crate::text::{is_lower_hex, is_timestamp};
use crate::transaction::Transaction;

verus! {

/// How many random nonces one mint tries before it gives up.
pub const MINING_ATTEMPTS: u64 = 0xffff_ffff_ffff_ffff;

#[derive(PartialEq, Debug)]
pub struct Blockchain {
    pub blocks: Vec<Block>,
    pub transactions_queue: VecDeque<Transaction>,
}

/// The first block of a chain: a zero transfer from `Genesis`, with no
/// previous hash, stamped and hashed with clock readings.
pub open spec fn is_genesis(b: Block) -> bool {
    &&& b.transaction.from@ == "Genesis"@
    &&& b.transaction.to@ == Seq::<char>::empty()
    &&& b.transaction.amount == 0
    &&& b.previous_hash@ == Seq::<char>::empty()
    &&& is_timestamp(b.hash@)
    &&& is_timestamp(b.head.head_timestamp@)
}

/// `b` was mined on top of a block whose hash is `previous_hash`, carrying
/// `tx`: its hash is the hash of its contents taken with an empty timestamp
/// (64 hexadecimal digits), meets the difficulty, and the timestamp was
/// stamped afterwards.
pub open spec fn is_mined_on(b: Block, previous_hash: Seq<char>, tx: Transaction) -> bool {
    &&& b.transaction == tx
    &&& b.previous_hash@ == previous_hash
    &&& b.hash@ == hash_of_text(block_preimage(Seq::empty(), b.head.nonce as nat, tx, previous_hash))
    &&& b.hash@.len() == 64
    &&& is_lower_hex(b.hash@)
    &&& meets_difficulty(b.hash@)
    &&& is_timestamp(b.head.head_timestamp@)
}

/// From `(blocks, queue)` to `(blocks2, queue2)` one block was mined: the
/// first queued transaction left the queue for a new block on top.
pub open spec fn minted(
    blocks: Seq<Block>,
    queue: Seq<Transaction>,
    blocks2: Seq<Block>,
    queue2: Seq<Transaction>,
) -> bool {
    &&& queue.len() > 0
    &&& blocks.len() > 0
    &&& blocks2.len() == blocks.len() + 1
    &&& blocks2.drop_last() == blocks
    &&& queue2 == queue.drop_first()
    &&& is_mined_on(blocks2.last(), blocks.last().hash@, queue[0])
}

/// Nonce `n` would make a block carrying `tx` on top of a block whose hash
/// is `previous_hash` meet the difficulty.
pub open spec fn nonce_works(n: usize, tx: Transaction, previous_hash: Seq<char>) -> bool {
    meets_difficulty(hash_of_text(block_preimage(Seq::empty(), n as nat, tx, previous_hash)))
}

/// Every nonce would do.
pub open spec fn every_nonce_works(tx: Transaction, previous_hash: Seq<char>) -> bool {
    forall|n: usize| #[trigger] nonce_works(n, tx, previous_hash)
}

/// A clock that never fails to read.
pub open spec fn clock_always_reads<F: Fn() -> Option<String>>(read_clock: F) -> bool {
    forall|r: Option<String>| #[trigger] read_clock.ensures((), r) ==> r is Some
}

/// What a mint does: the first queued transaction leaves the queue, and
/// either a block mined from it joins the chain, or (no nonce was found, or
/// the clock could not be read) the chain stays as it was.
pub open spec fn mint_outcome(
    blocks: Seq<Block>,
    queue: Seq<Transaction>,
    blocks2: Seq<Block>,
    queue2: Seq<Transaction>,
) -> bool {
    &&& queue.len() > 0
    &&& queue2 == queue.drop_first()
    &&& (blocks2 == blocks || minted(blocks, queue, blocks2, queue2))
}

impl Clone for Blockchain {
    fn clone(&self) -> (c: Blockchain)
        ensures
            c.blocks@ == self.blocks@,
            c.transactions_queue@ == self.transactions_queue@,
    {
        let c = Blockchain {
            blocks: self.blocks.clone(),
            transactions_queue: self.transactions_queue.clone(),
        };
        assert(c.blocks@ =~= self.blocks@);
        assert(c.transactions_queue@ =~= self.transactions_queue@);
        c
    }
}

impl Blockchain {
    /// A chain holding only its genesis block, with an empty queue; nothing
    /// when the clock reads a time before the Unix epoch.
    pub fn new() -> (chain: Option<Blockchain>)
        ensures
            chain matches Some(c) ==> {
                &&& c.blocks@.len() == 1
                &&& is_genesis(c.blocks@[0])
                &&& c.transactions_queue@.len() == 0
            },
    {
        let head_timestamp = match current_timestamp() {
            Some(t) => t,
            None => return None,
        };
        let nonce = random_usize();
        let hash = match current_timestamp() {
            Some(t) => t,
            None => return None,
        };
        let genesis = Block {
            head: Header { head_timestamp, nonce },
            transaction: Transaction {
                from: String::from_str("Genesis"),
                to: String::new(),
                amount: 0,
            },
            hash,
            previous_hash: String::new(),
        };
        let mut blocks = Vec::new();
        blocks.push(genesis);
        Some(Blockchain { blocks, transactions_queue: VecDeque::new() })
    }

    /// Queue a transaction to be mined later.
    pub fn new_transaction(&mut self, from: String, to: String, amount: u64)
        ensures
            final(self).blocks@ == old(self).blocks@,
            final(self).transactions_queue@ == old(self).transactions_queue@.push(
                Transaction { from, to, amount },
            ),
    {
        self.transactions_queue.push_back(Transaction { from, to, amount });
    }

    /// Mine the first queued transaction: it leaves the queue, and random
    /// nonces are tried until the hash of a block carrying it on top of the
    /// chain meets the difficulty; that block is stamped with the time and
    /// joins the chain. Returns whether a block was added: after
    /// `MINING_ATTEMPTS` failed nonces, or when the clock reads a time
    /// before the Unix epoch, the chain is left as it was and the
    /// transaction is not put back.
    pub fn mint(&mut self) -> (added: bool)
        requires
            old(self).blocks@.len() > 0,
            old(self).transactions_queue@.len() > 0,
        ensures
            final(self).transactions_queue@ == old(self).transactions_queue@.drop_first(),
            added ==> minted(
                old(self).blocks@,
                old(self).transactions_queue@,
                final(self).blocks@,
                final(self).transactions_queue@,
            ),
            !added ==> final(self).blocks@ == old(self).blocks@,
    {
        self.mint_with_clock(current_timestamp)
    }

    /// `mint`, with the clock that stamps a mined block given as
    /// `read_clock`. Mining fails only by chance or by the clock: when every
    /// nonce would give a hash that meets the difficulty and the clock always
    /// reads, a block is added, whatever the chain holds.
    pub fn mint_with_clock<F: Fn() -> Option<String>>(&mut self, read_clock: F) -> (added: bool)
        requires
            old(self).blocks@.len() > 0,
            old(self).transactions_queue@.len() > 0,
            read_clock.requires(()),
            forall|r: Option<String>| #[trigger] read_clock.ensures((), r) ==> (r matches Some(t) ==> is_timestamp(t@)),
        ensures
            final(self).transactions_queue@ == old(self).transactions_queue@.drop_first(),
            added ==> minted(
                old(self).blocks@,
                old(self).transactions_queue@,
                final(self).blocks@,
                final(self).transactions_queue@,
            ),
            !added ==> final(self).blocks@ == old(self).blocks@,
            clock_always_reads(read_clock) && every_nonce_works(
                old(self).transactions_queue@[0],
                old(self).blocks@.last().hash@,
            ) ==> added,
    {
        let ghost blocks0 = self.blocks@;
        let ghost queue0 = self.transactions_queue@;
        let ghost sure = clock_always_reads(read_clock) && every_nonce_works(
            old(self).transactions_queue@[0],
            old(self).blocks@.last().hash@,
        );
        let tx = match self.transactions_queue.pop_front() {
            Some(tx) => tx,
            None => return false,
        };
        assert(self.transactions_queue@ =~= queue0.drop_first());
        let previous_hash = self.blocks[self.blocks.len() - 1].hash.clone();
        let mut block = Block {
            head: Header { head_timestamp: String::new(), nonce: 0 },
            transaction: tx,
            hash: String::new(),
            previous_hash,
        };
        let mut attempts: u64 = 0;
        while attempts < MINING_ATTEMPTS
            invariant
                self.blocks@ == blocks0,
                self.transactions_queue@ == queue0.drop_first(),
                blocks0 == old(self).blocks@,
                queue0 == old(self).transactions_queue@,
                blocks0.len() > 0,
                queue0.len() > 0,
                block.transaction == queue0[0],
                block.previous_hash@ == blocks0.last().hash@,
                block.head.head_timestamp@ == Seq::<char>::empty(),
                read_clock.requires(()),
                forall|r: Option<String>| #[trigger] read_clock.ensures((), r) ==> (r matches Some(t) ==> is_timestamp(t@)),
                sure == (clock_always_reads(read_clock) && every_nonce_works(queue0[0], blocks0.last().hash@)),
                sure ==> attempts == 0,
            decreases MINING_ATTEMPTS - attempts,
        {
            let nonce = random_usize();
            proof {
                if sure {
                    assert(nonce_works(nonce, queue0[0], blocks0.last().hash@));
                }
            }
            if block.try_nonce(nonce) {
                assert(block.preimage() == block_preimage(
                    Seq::empty(), block.head.nonce as nat, queue0[0], blocks0.last().hash@));
                match read_clock() {
                    Some(t) => {
                        block.head.head_timestamp = t;
                    },
                    None => {
                        return false;
                    },
                }
                self.blocks.push(block);
                assert(self.blocks@.drop_last() =~= blocks0);
                return true;
            }
            attempts = attempts + 1;
        }
        false
    }
}


/// Each block of `blocks` after the first names the hash of the block below
/// it as its previous hash.
pub open spec fn is_linked(blocks: Seq<Block>) -> bool {
    forall|i: int| 1 <= i < blocks.len() ==> #[trigger] blocks[i].previous_hash@ == blocks[i - 1].hash@
}

/// Minting keeps a linked chain linked: the new block names the hash of the
/// block it was mined on.
pub proof fn lemma_mint_keeps_chain_linked(
    blocks: Seq<Block>,
    queue: Seq<Transaction>,
    blocks2: Seq<Block>,
    queue2: Seq<Transaction>,
)
    requires
        is_linked(blocks),
        minted(blocks, queue, blocks2, queue2),
    ensures
        is_linked(blocks2),
{
    assert forall|i: int| 1 <= i < blocks2.len() implies #[trigger] blocks2[i].previous_hash@ == blocks2[i - 1].hash@ by {
        if i < blocks.len() {
            assert(blocks2[i] == blocks2.drop_last()[i]);
            assert(blocks2[i - 1] == blocks2.drop_last()[i - 1]);
        } else {
            assert(blocks2[i - 1] == blocks2.drop_last()[i - 1]);
        }
    }
}

/// Transactions are mined first in, first out: after a transaction is
/// queued, a mint takes the oldest queued transaction, which is the new one
/// only when the queue was empty, and the new one stays last in the queue
/// otherwise.
pub proof fn lemma_mint_first_in_first_out(
    blocks: Seq<Block>,
    queue: Seq<Transaction>,
    tx: Transaction,
    blocks2: Seq<Block>,
    queue2: Seq<Transaction>,
)
    requires
        minted(blocks, queue.push(tx), blocks2, queue2),
    ensures
        queue.len() == 0 ==> blocks2.last().transaction == tx && queue2.len() == 0,
        queue.len() > 0 ==> blocks2.last().transaction == queue[0]
            && queue2 == queue.drop_first().push(tx),
{
    if queue.len() > 0 {
        assert(queue.push(tx).drop_first() =~= queue.drop_first().push(tx));
    }
}

/// The most blocks that any of `chains` holds.
pub open spec fn longest_len(chains: Seq<Blockchain>) -> nat
    decreases chains.len(),
{
    if chains.len() == 0 {
        0
    } else {
        let rest = longest_len(chains.drop_last());
        let last = chains.last().blocks@.len();
        if last > rest { last } else { rest }
    }
}

/// The chains, in order, that hold at least `len` blocks.
pub open spec fn keep_longest(chains: Seq<Blockchain>, len: nat) -> Seq<Blockchain>
    decreases chains.len(),
{
    if chains.len() == 0 {
        Seq::empty()
    } else {
        let first = if chains[0].blocks@.len() < len { Seq::empty() } else { seq![chains[0]] };
        first + keep_longest(chains.drop_first(), len)
    }
}

/// While forks are simulated: the main chain and every fork hold a block,
/// and there is at least one fork.
pub open spec fn forks_ready(main: Blockchain, forks: Seq<Blockchain>) -> bool {
    &&& main.blocks@.len() > 0
    &&& forks.len() > 0
    &&& forall|i: int| 0 <= i < forks.len() ==> #[trigger] forks[i].blocks@.len() > 0
}

/// `after` is `before` with a transaction `(from, to, amount)` queued and one
/// mint run on it.
pub open spec fn grown(
    before: Blockchain,
    from: Seq<char>,
    to: Seq<char>,
    amount: u64,
    after: Blockchain,
) -> bool {
    exists|tx: Transaction|
        tx@ == (from, to, amount) && #[trigger] mint_outcome(
            before.blocks@,
            before.transactions_queue@.push(tx),
            after.blocks@,
            after.transactions_queue@,
        )
}

/// Every chain holds at most `longest_len` blocks, and when there is a chain
/// some chain holds exactly that many.
pub proof fn lemma_longest_len(chains: Seq<Blockchain>)
    ensures
        forall|i: int| 0 <= i < chains.len() ==> #[trigger] chains[i].blocks@.len() <= longest_len(chains),
        chains.len() > 0 ==> exists|i: int| 0 <= i < chains.len() && #[trigger] chains[i].blocks@.len() == longest_len(chains),
    decreases chains.len(),
{
    if chains.len() > 0 {
        let rest = chains.drop_last();
        lemma_longest_len(rest);
        assert forall|i: int| 0 <= i < chains.len() implies #[trigger] chains[i].blocks@.len() <= longest_len(chains) by {
            if i < chains.len() - 1 {
                assert(chains[i] == rest[i]);
            }
        }
        if chains.last().blocks@.len() > longest_len(rest) || rest.len() == 0 {
            assert(chains[chains.len() - 1].blocks@.len() == longest_len(chains));
        } else {
            let k = choose|i: int| 0 <= i < rest.len() && #[trigger] rest[i].blocks@.len() == longest_len(rest);
            assert(chains[k] == rest[k]);
            assert(chains[k].blocks@.len() == longest_len(chains));
        }
    }
}

/// What `keep_longest` keeps: chains of `chains`, in their order, each with
/// at least `len` blocks; and every chain with that many is kept.
pub proof fn lemma_keep_longest(chains: Seq<Blockchain>, len: nat)
    ensures
        forall|j: int| 0 <= j < keep_longest(chains, len).len() ==>
            (#[trigger] keep_longest(chains, len)[j]).blocks@.len() >= len
            && chains.contains(keep_longest(chains, len)[j]),
        (exists|i: int| 0 <= i < chains.len() && #[trigger] chains[i].blocks@.len() >= len)
            ==> keep_longest(chains, len).len() > 0,
    decreases chains.len(),
{
    if chains.len() > 0 {
        let rest = chains.drop_first();
        lemma_keep_longest(rest, len);
        let kept = keep_longest(chains, len);
        let first = if chains[0].blocks@.len() < len { Seq::<Blockchain>::empty() } else { seq![chains[0]] };
        assert(kept == first + keep_longest(rest, len));
        assert forall|j: int| 0 <= j < kept.len() implies
            (#[trigger] kept[j]).blocks@.len() >= len && chains.contains(kept[j]) by {
            if j < first.len() {
                assert(kept[j] == chains[0]);
            } else {
                let r = keep_longest(rest, len);
                assert(kept[j] == r[j - first.len()]);
                let k = choose|k: int| 0 <= k < rest.len() && rest[k] == r[j - first.len()];
                assert(chains[k + 1] == rest[k]);
            }
        }
        if exists|i: int| 0 <= i < chains.len() && #[trigger] chains[i].blocks@.len() >= len {
            let i = choose|i: int| 0 <= i < chains.len() && #[trigger] chains[i].blocks@.len() >= len;
            if i > 0 {
                assert(rest[i - 1] == chains[i]);
            }
        }
    }
}

/// Settling on the longest fork: the chains that remain all hold the most
/// blocks that any chain held, and, when there was a chain, one remains.
pub proof fn lemma_longest_survive(chains: Seq<Blockchain>)
    ensures
        forall|j: int| 0 <= j < keep_longest(chains, longest_len(chains)).len() ==>
            (#[trigger] keep_longest(chains, longest_len(chains))[j]).blocks@.len() == longest_len(chains)
            && chains.contains(keep_longest(chains, longest_len(chains))[j]),
        chains.len() > 0 ==> keep_longest(chains, longest_len(chains)).len() > 0,
{
    let m = longest_len(chains);
    lemma_longest_len(chains);
    lemma_keep_longest(chains, m);
    let kept = keep_longest(chains, m);
    assert forall|j: int| 0 <= j < kept.len() implies
        (#[trigger] kept[j]).blocks@.len() == m && chains.contains(kept[j]) by {
        let k = choose|k: int| 0 <= k < chains.len() && chains[k] == kept[j];
        assert(chains[k].blocks@.len() <= m);
    }
    if chains.len() > 0 {
        let i = choose|i: int| 0 <= i < chains.len() && #[trigger] chains[i].blocks@.len() == m;
        assert(chains[i].blocks@.len() >= m);
    }
}

/// One second's block of the fork simulation (`grow_step`), drawn with
/// `r`: with several forks, fork `r` modulo their number gets a `Test` to
/// `This` transaction of `r` and a mint, the rest staying as they were; with
/// one fork, the main chain does.
pub open spec fn grow_spec(
    main: Blockchain,
    forks: Seq<Blockchain>,
    r: usize,
    main2: Blockchain,
    forks2: Seq<Blockchain>,
) -> bool {
    if forks.len() > 1 {
        let i = (r as int) % (forks.len() as int);
        &&& main2 == main
        &&& forks2.len() == forks.len()
        &&& forall|j: int| 0 <= j < forks2.len() && j != i ==> forks2[j] == forks[j]
        &&& grown(forks[i], "Test"@, "This"@, r as u64, forks2[i])
    } else {
        &&& forks2 == forks
        &&& grown(main, "Test"@, "This"@, r as u64, main2)
    }
}

/// A fork event of the simulation (`fork_step`), drawn with `r`: a copy of
/// fork `r` modulo their number, given a `Fork` to `Ff` transaction of `r`
/// and a mint, joins the forks.
pub open spec fn fork_spec(
    main: Blockchain,
    forks: Seq<Blockchain>,
    r: usize,
    main2: Blockchain,
    forks2: Seq<Blockchain>,
) -> bool {
    &&& main2 == main
    &&& forks2.len() == forks.len() + 1
    &&& forks2.drop_last() == forks
    &&& grown(forks[(r as int) % (forks.len() as int)], "Fork"@, "Ff"@, r as u64, forks2.last())
}

/// `after` is `before`, or `before` with one block on top whose hash meets
/// the difficulty.
pub open spec fn grows_by_a_mined_block(before: Seq<Block>, after: Seq<Block>) -> bool {
    ||| after == before
    ||| (after.len() == before.len() + 1 && after.drop_last() == before && meets_difficulty(after.last().hash@))
}

/// A transaction queued and minted leaves the blocks as they were or adds
/// one mined block on top.
proof fn lemma_grown_blocks(before: Blockchain, from: Seq<char>, to: Seq<char>, amount: u64, after: Blockchain)
    requires
        grown(before, from, to, amount, after),
    ensures
        grows_by_a_mined_block(before.blocks@, after.blocks@),
{
    let tx = choose|tx: Transaction|
        tx@ == (from, to, amount) && #[trigger] mint_outcome(
            before.blocks@,
            before.transactions_queue@.push(tx),
            after.blocks@,
            after.transactions_queue@,
        );
}

/// Each second's block goes where the draw says: with several forks, fork
/// `r` modulo their number may gain a mined block and nothing else
/// changes; with one fork, the main chain may gain a mined block and the
/// forks stay as they were.
pub proof fn lemma_grow_mines_on_drawn_chain(
    main: Blockchain,
    forks: Seq<Blockchain>,
    r: usize,
    main2: Blockchain,
    forks2: Seq<Blockchain>,
)
    requires
        grow_spec(main, forks, r, main2, forks2),
    ensures
        forks.len() > 1 ==> {
            let i = (r as int) % (forks.len() as int);
            &&& main2 == main
            &&& forks2.len() == forks.len()
            &&& forall|j: int| 0 <= j < forks.len() && j != i ==> #[trigger] forks2[j] == forks[j]
            &&& grows_by_a_mined_block(forks[i].blocks@, forks2[i].blocks@)
        },
        forks.len() <= 1 ==> forks2 == forks && grows_by_a_mined_block(main.blocks@, main2.blocks@),
{
    if forks.len() > 1 {
        let i = (r as int) % (forks.len() as int);
        lemma_grown_blocks(forks[i], "Test"@, "This"@, r as u64, forks2[i]);
    } else {
        lemma_grown_blocks(main, "Test"@, "This"@, r as u64, main2);
    }
}

/// No fork of `forks` holds more blocks than `c`.
pub open spec fn is_longest_in(forks: Seq<Blockchain>, c: Blockchain) -> bool {
    forall|k: int| 0 <= k < forks.len() ==> #[trigger] forks[k].blocks@.len() <= c.blocks@.len()
}

/// Being among the longest of `forks`.
pub open spec fn longest_of(forks: Seq<Blockchain>) -> spec_fn(Blockchain) -> bool {
    |c: Blockchain| is_longest_in(forks, c)
}

/// Among chains taken from `forks`, those with at least as many blocks as
/// the longest fork are those no fork is longer than.
proof fn lemma_keep_longest_is_filter(chains: Seq<Blockchain>, forks: Seq<Blockchain>)
    requires
        forall|i: int| 0 <= i < chains.len() ==> forks.contains(#[trigger] chains[i]),
    ensures
        keep_longest(chains, longest_len(forks)) == chains.filter(longest_of(forks)),
    decreases chains.len(),
{
    reveal(Seq::filter);
    if chains.len() > 0 {
        let c = chains[0];
        let rest = chains.drop_first();
        assert forall|i: int| 0 <= i < rest.len() implies forks.contains(#[trigger] rest[i]) by {
            assert(rest[i] == chains[i + 1]);
        }
        lemma_keep_longest_is_filter(rest, forks);
        lemma_longest_len(forks);
        assert(forks.contains(c));
        let k0 = choose|k: int| 0 <= k < forks.len() && forks[k] == c;
        assert(forks[k0].blocks@.len() <= longest_len(forks));
        if c.blocks@.len() >= longest_len(forks) {
            assert(is_longest_in(forks, c));
        } else {
            let m = choose|i: int| 0 <= i < forks.len() && #[trigger] forks[i].blocks@.len() == longest_len(forks);
            assert(forks[m].blocks@.len() > c.blocks@.len());
            assert(!is_longest_in(forks, c));
        }
        assert(chains =~= seq![c] + rest);
        rest.lemma_filter_prepend(c, longest_of(forks));
    } else {
        assert(chains.filter(longest_of(forks)) =~= chains);
    }
}

/// Settling keeps exactly the forks that no fork is longer than, in their
/// order; when that is a single fork, its blocks after the first and its
/// queue join the main chain, and the forks start over from the main
/// chain's new top block.
pub proof fn lemma_longest_step_settles_on_the_longest(
    main: Blockchain,
    forks: Seq<Blockchain>,
    main2: Blockchain,
    forks2: Seq<Blockchain>,
)
    requires
        longest_spec(main, forks, main2, forks2),
    ensures
        ({
            let longest = forks.filter(longest_of(forks));
            if longest.len() == 1 {
                &&& main2.blocks@ == main.blocks@ + longest[0].blocks@.drop_first()
                &&& main2.transactions_queue@ == main.transactions_queue@ + longest[0].transactions_queue@
                &&& forks2.len() == 1
                &&& forks2[0].blocks@ == seq![main2.blocks@.last()]
                &&& forks2[0].transactions_queue@.len() == 0
            } else {
                main2 == main && forks2 == longest
            }
        }),
{
    assert forall|i: int| 0 <= i < forks.len() implies forks.contains(#[trigger] forks[i]) by {}
    lemma_keep_longest_is_filter(forks, forks);
}

/// The last of `forks2` is fork `r` modulo the number of `forks`, with one
/// block mined on top of it or, when the mint gave up, as it was; the forks
/// before it are `forks` unchanged.
pub open spec fn copies_drawn_fork(forks: Seq<Blockchain>, r: usize, forks2: Seq<Blockchain>) -> bool {
    let drawn = forks[(r as int) % (forks.len() as int)].blocks@;
    let copy = forks2.last().blocks@;
    &&& forks2.len() == forks.len() + 1
    &&& forall|j: int| 0 <= j < forks.len() ==> #[trigger] forks2[j] == forks[j]
    &&& (copy == drawn || (copy.drop_last() == drawn && copy.len() == drawn.len() + 1
        && meets_difficulty(copy.last().hash@)))
}

/// A fork event copies the fork that was drawn: the new fork is fork `r`
/// modulo the number of forks, grown by a mined block unless the mint gave
/// up, and the other forks stay as they were.
pub proof fn lemma_fork_copies_drawn_fork(
    main: Blockchain,
    forks: Seq<Blockchain>,
    r: usize,
    main2: Blockchain,
    forks2: Seq<Blockchain>,
)
    requires
        forks.len() > 0,
        fork_spec(main, forks, r, main2, forks2),
    ensures
        copies_drawn_fork(forks, r, forks2),
{
    let i = (r as int) % (forks.len() as int);
    let before = forks[i];
    let after = forks2.last();
    let tx = choose|tx: Transaction|
        tx@ == ("Fork"@, "Ff"@, r as u64) && #[trigger] mint_outcome(
            before.blocks@,
            before.transactions_queue@.push(tx),
            after.blocks@,
            after.transactions_queue@,
        );
    assert forall|j: int| 0 <= j < forks.len() implies #[trigger] forks2[j] == forks[j] by {
        assert(forks2[j] == forks2.drop_last()[j]);
    }
}

/// A settling event of the simulation (`longest_step`): the forks shorter
/// than the longest are dropped; when a single one is left, its blocks
/// after the first join the main chain, its queue joins the main queue, and
/// the forks start over from the main chain's top block.
pub open spec fn longest_spec(
    main: Blockchain,
    forks: Seq<Blockchain>,
    main2: Blockchain,
    forks2: Seq<Blockchain>,
) -> bool {
    let kept = keep_longest(forks, longest_len(forks));
    if kept.len() == 1 {
        &&& main2.blocks@ == main.blocks@ + kept[0].blocks@.drop_first()
        &&& main2.transactions_queue@ == main.transactions_queue@ + kept[0].transactions_queue@
        &&& forks2.len() == 1
        &&& forks2[0].blocks@ == seq![main2.blocks@.last()]
        &&& forks2[0].transactions_queue@.len() == 0
    } else {
        &&& main2 == main
        &&& forks2 == kept
    }
}

/// On every fifth second a fork is made (`fork_spec`), with some draw;
/// on the other seconds nothing changes.
pub open spec fn fork_if_due(
    s: nat,
    main: Blockchain,
    forks: Seq<Blockchain>,
    main2: Blockchain,
    forks2: Seq<Blockchain>,
) -> bool {
    if s % 5 == 0 {
        exists|r: usize| #[trigger] fork_spec(main, forks, r, main2, forks2)
    } else {
        main2 == main && forks2 == forks
    }
}

/// On every thirty-seventh second the longest fork is settled on
/// (`longest_spec`); on the other seconds nothing changes.
pub open spec fn settle_if_due(
    s: nat,
    main: Blockchain,
    forks: Seq<Blockchain>,
    main2: Blockchain,
    forks2: Seq<Blockchain>,
) -> bool {
    if s % 37 == 0 {
        longest_spec(main, forks, main2, forks2)
    } else {
        main2 == main && forks2 == forks
    }
}

/// Second `s` of the fork simulation, with some draws: a block is mined
/// (`grow_spec`), then a fork is made if due (`fork_if_due`), then the
/// longest fork is settled on if due (`settle_if_due`).
pub open spec fn second_step(
    s: nat,
    main: Blockchain,
    forks: Seq<Blockchain>,
    main2: Blockchain,
    forks2: Seq<Blockchain>,
) -> bool {
    exists|r: usize, m1: Blockchain, f1: Seq<Blockchain>, m2: Blockchain, f2: Seq<Blockchain>|
        #![trigger grow_spec(main, forks, r, m1, f1), fork_if_due(s, m1, f1, m2, f2)]
        {
            &&& grow_spec(main, forks, r, m1, f1)
            &&& fork_if_due(s, m1, f1, m2, f2)
            &&& settle_if_due(s, m2, f2, main2, forks2)
        }
}

/// `ms` and `fs` are the main chains and the forks of a run of the fork
/// simulation, second by second: each state follows from the one before by
/// `second_step`, the seconds counted from one.
pub open spec fn is_run(ms: Seq<Blockchain>, fs: Seq<Seq<Blockchain>>) -> bool {
    &&& ms.len() > 0
    &&& fs.len() == ms.len()
    &&& forall|s: int|
        #![trigger ms[s]]
        0 <= s < ms.len() - 1 ==> second_step((s + 1) as nat, ms[s], fs[s], ms[s + 1], fs[s + 1])
}

/// From `(main0, forks0)`, seconds `1` to `n` of the fork simulation, with
/// some draws, lead to `(main, forks)`.
pub open spec fn simulated(
    main0: Blockchain,
    forks0: Seq<Blockchain>,
    n: nat,
    main: Blockchain,
    forks: Seq<Blockchain>,
) -> bool {
    exists|ms: Seq<Blockchain>, fs: Seq<Seq<Blockchain>>| {
        &&& #[trigger] is_run(ms, fs)
        &&& ms.len() == n + 1
        &&& ms[0] == main0
        &&& fs[0] == forks0
        &&& ms[n as int] == main
        &&& fs[n as int] == forks
    }
}

/// How many seconds of the schedule a simulation of `duration` seconds
/// runs: those from the first to the one before `duration`.
pub open spec fn seconds_run(duration: u64) -> nat {
    if duration > 0 { (duration - 1) as nat } else { 0 }
}

/// The forks a simulation starts from: one fork that holds the main
/// chain's top block, with an empty queue.
pub open spec fn starting_forks(main: Blockchain, forks: Seq<Blockchain>) -> bool {
    &&& forks.len() == 1
    &&& forks[0].blocks@ == seq![main.blocks@.last()]
    &&& forks[0].transactions_queue@.len() == 0
}

/// A run grows by one more second.
proof fn lemma_run_push(ms: Seq<Blockchain>, fs: Seq<Seq<Blockchain>>, main: Blockchain, forks: Seq<Blockchain>)
    requires
        is_run(ms, fs),
        second_step(ms.len() as nat, ms.last(), fs.last(), main, forks),
    ensures
        is_run(ms.push(main), fs.push(forks)),
{
    let ms2 = ms.push(main);
    let fs2 = fs.push(forks);
    assert forall|s: int| #![trigger ms2[s]]
        0 <= s < ms2.len() - 1 implies second_step((s + 1) as nat, ms2[s], fs2[s], ms2[s + 1], fs2[s + 1]) by {
        assert(ms2[s] == ms[s]);
        assert(fs2[s] == fs[s]);
        if s < ms.len() - 1 {
            assert(ms2[s + 1] == ms[s + 1]);
            assert(fs2[s + 1] == fs[s + 1]);
            assert(second_step((s + 1) as nat, ms[s], fs[s], ms[s + 1], fs[s + 1]));
        }
    }
}

/// A fork of the simulation: its queue is empty, and each of its blocks
/// after the first meets the difficulty.
spec fn fork_is_mined(f: Blockchain) -> bool {
    &&& f.transactions_queue@.len() == 0
    &&& forall|j: int| 1 <= j < f.blocks@.len() ==> meets_difficulty(#[trigger] f.blocks@[j].hash@)
}

/// What the simulation keeps: the main chain starts with `blocks0` and
/// every block after them meets the difficulty; its queue keeps its length
/// `q0`; and every fork is mined.
spec fn simulation_kept(main: Blockchain, forks: Seq<Blockchain>, blocks0: Seq<Block>, q0: nat) -> bool {
    &&& forks_ready(main, forks)
    &&& main.blocks@.len() >= blocks0.len()
    &&& main.blocks@.subrange(0, blocks0.len() as int) == blocks0
    &&& forall|i: int| blocks0.len() <= i < main.blocks@.len() ==> meets_difficulty(#[trigger] main.blocks@[i].hash@)
    &&& main.transactions_queue@.len() == q0
    &&& forall|k: int| 0 <= k < forks.len() ==> fork_is_mined(#[trigger] forks[k])
}

/// A mint keeps the blocks below and shortens the queue by one; a block it
/// adds meets the difficulty.
proof fn lemma_mint_outcome_shape(
    blocks: Seq<Block>,
    queue: Seq<Transaction>,
    blocks2: Seq<Block>,
    queue2: Seq<Transaction>,
)
    requires
        mint_outcome(blocks, queue, blocks2, queue2),
    ensures
        blocks2.len() >= blocks.len(),
        blocks2.subrange(0, blocks.len() as int) == blocks,
        forall|i: int| blocks.len() <= i < blocks2.len() ==> meets_difficulty(#[trigger] blocks2[i].hash@),
        queue2.len() == queue.len() - 1,
{
    if blocks2 == blocks {
        assert(blocks2.subrange(0, blocks.len() as int) =~= blocks);
    } else {
        assert(blocks2.subrange(0, blocks.len() as int) =~= blocks2.drop_last());
    }
}

/// Growing a chain of the simulation by a transaction and a mint keeps
/// what `simulation_kept` asks of it, for the main chain and for a fork.
proof fn lemma_grown_shape(before: Blockchain, from: Seq<char>, to: Seq<char>, amount: u64, after: Blockchain)
    requires
        grown(before, from, to, amount, after),
    ensures
        after.blocks@.len() >= before.blocks@.len(),
        after.blocks@.subrange(0, before.blocks@.len() as int) == before.blocks@,
        forall|i: int| before.blocks@.len() <= i < after.blocks@.len() ==> meets_difficulty(#[trigger] after.blocks@[i].hash@),
        after.transactions_queue@.len() == before.transactions_queue@.len(),
        fork_is_mined(before) ==> fork_is_mined(after),
{
    let tx = choose|tx: Transaction|
        tx@ == (from, to, amount) && #[trigger] mint_outcome(
            before.blocks@,
            before.transactions_queue@.push(tx),
            after.blocks@,
            after.transactions_queue@,
        );
    lemma_mint_outcome_shape(before.blocks@, before.transactions_queue@.push(tx), after.blocks@, after.transactions_queue@);
    if fork_is_mined(before) {
        assert forall|j: int| 1 <= j < after.blocks@.len() implies meets_difficulty(#[trigger] after.blocks@[j].hash@) by {
            if j < before.blocks@.len() {
                assert(after.blocks@[j] == after.blocks@.subrange(0, before.blocks@.len() as int)[j]);
            }
        }
    }
}

/// Each second of the simulation keeps what `simulation_kept` states.
proof fn lemma_grow_kept(
    main: Blockchain,
    forks: Seq<Blockchain>,
    r: usize,
    main2: Blockchain,
    forks2: Seq<Blockchain>,
    blocks0: Seq<Block>,
    q0: nat,
)
    requires
        simulation_kept(main, forks, blocks0, q0),
        grow_spec(main, forks, r, main2, forks2),
        forks_ready(main2, forks2),
    ensures
        simulation_kept(main2, forks2, blocks0, q0),
{
    if forks.len() > 1 {
        let i = (r as int) % (forks.len() as int);
        assert(fork_is_mined(forks[i]));
        lemma_grown_shape(forks[i], "Test"@, "This"@, r as u64, forks2[i]);
        assert forall|k: int| 0 <= k < forks2.len() implies fork_is_mined(#[trigger] forks2[k]) by {
            if k != i {
                assert(forks2[k] == forks[k]);
            }
        }
    } else {
        lemma_grown_shape(main, "Test"@, "This"@, r as u64, main2);
        let n0 = blocks0.len() as int;
        let n1 = main.blocks@.len() as int;
        assert forall|i: int| 0 <= i < n0 implies main2.blocks@.subrange(0, n0)[i] == blocks0[i] by {
            assert(main2.blocks@[i] == main2.blocks@.subrange(0, n1)[i]);
            assert(main.blocks@[i] == main.blocks@.subrange(0, n0)[i]);
        }
        assert(main2.blocks@.subrange(0, n0) =~= blocks0);
        assert forall|i: int| n0 <= i < main2.blocks@.len() implies meets_difficulty(#[trigger] main2.blocks@[i].hash@) by {
            if i < n1 {
                assert(main2.blocks@[i] == main2.blocks@.subrange(0, n1)[i]);
            }
        }
    }
}

/// A fork event keeps what `simulation_kept` states.
proof fn lemma_fork_kept(
    main: Blockchain,
    forks: Seq<Blockchain>,
    r: usize,
    main2: Blockchain,
    forks2: Seq<Blockchain>,
    blocks0: Seq<Block>,
    q0: nat,
)
    requires
        simulation_kept(main, forks, blocks0, q0),
        fork_spec(main, forks, r, main2, forks2),
        forks_ready(main2, forks2),
    ensures
        simulation_kept(main2, forks2, blocks0, q0),
{
    let i = (r as int) % (forks.len() as int);
    assert(fork_is_mined(forks[i]));
    lemma_grown_shape(forks[i], "Fork"@, "Ff"@, r as u64, forks2.last());
    assert forall|k: int| 0 <= k < forks2.len() implies fork_is_mined(#[trigger] forks2[k]) by {
        if k < forks.len() {
            assert(forks2[k] == forks2.drop_last()[k]);
        }
    }
}

/// A settling event keeps what `simulation_kept` states.
proof fn lemma_longest_kept(
    main: Blockchain,
    forks: Seq<Blockchain>,
    main2: Blockchain,
    forks2: Seq<Blockchain>,
    blocks0: Seq<Block>,
    q0: nat,
)
    requires
        simulation_kept(main, forks, blocks0, q0),
        longest_spec(main, forks, main2, forks2),
        forks_ready(main2, forks2),
    ensures
        simulation_kept(main2, forks2, blocks0, q0),
{
    let kept = keep_longest(forks, longest_len(forks));
    lemma_longest_survive(forks);
    assert forall|j: int| 0 <= j < kept.len() implies fork_is_mined(#[trigger] kept[j]) by {
        assert(forks.contains(kept[j]));
        let k = choose|k: int| 0 <= k < forks.len() && forks[k] == kept[j];
        assert(fork_is_mined(forks[k]));
    }
    if kept.len() == 1 {
        let f = kept[0];
        assert(fork_is_mined(f));
        let n0 = blocks0.len() as int;
        let n1 = main.blocks@.len() as int;
        assert forall|i: int| 0 <= i < n0 implies main2.blocks@.subrange(0, n0)[i] == blocks0[i] by {
            assert(main.blocks@[i] == main.blocks@.subrange(0, n0)[i]);
        }
        assert(main2.blocks@.subrange(0, n0) =~= blocks0);
        assert forall|i: int| n0 <= i < main2.blocks@.len() implies meets_difficulty(#[trigger] main2.blocks@[i].hash@) by {
            if i >= n1 {
                assert(main2.blocks@[i] == f.blocks@[i - n1 + 1]);
            }
        }
        assert forall|k: int| 0 <= k < forks2.len() implies fork_is_mined(#[trigger] forks2[k]) by {
            assert(k == 0);
        }
    }
}

impl Blockchain {
    /// One second of the fork simulation, the block that is mined every
    /// second: with several forks, a random one (`r` modulo their number)
    /// gets a `Test` to `This` transaction of `r` and a mint; with one fork,
    /// the main chain does.
    pub fn grow_step(&mut self, forks: &mut Vec<Blockchain>, r: usize)
        requires
            forks_ready(*old(self), old(forks)@),
        ensures
            forks_ready(*final(self), final(forks)@),
            grow_spec(*old(self), old(forks)@, r, *final(self), final(forks)@),
    {
        if forks.len() > 1 {
            let i = r % forks.len();
            let mut chain = forks[i].clone();
            let ghost before = chain;
            chain.new_transaction(String::from_str("Test"), String::from_str("This"), r as u64);
            let ghost tx = chain.transactions_queue@.last();
            assert(chain.transactions_queue@ == before.transactions_queue@.push(tx));
            chain.mint();
            assert(mint_outcome(before.blocks@, before.transactions_queue@.push(tx), chain.blocks@, chain.transactions_queue@));
            forks.set(i, chain);
        } else {
            let ghost before = *self;
            self.new_transaction(String::from_str("Test"), String::from_str("This"), r as u64);
            let ghost tx = self.transactions_queue@.last();
            assert(self.transactions_queue@ == before.transactions_queue@.push(tx));
            self.mint();
            assert(mint_outcome(before.blocks@, before.transactions_queue@.push(tx), self.blocks@, self.transactions_queue@));
        }
    }

    /// One fork event of the simulation, every five seconds: a random fork
    /// (`r` modulo their number) is copied, and the copy gets a `Fork` to
    /// `Ff` transaction of `r` and a mint before it joins the forks.
    pub fn fork_step(&mut self, forks: &mut Vec<Blockchain>, r: usize)
        requires
            forks_ready(*old(self), old(forks)@),
        ensures
            forks_ready(*final(self), final(forks)@),
            fork_spec(*old(self), old(forks)@, r, *final(self), final(forks)@),
            copies_drawn_fork(old(forks)@, r, final(forks)@),
    {
        let i = r % forks.len();
        let mut chain = forks[i].clone();
        let ghost before = old(forks)@[i as int];
        chain.new_transaction(String::from_str("Fork"), String::from_str("Ff"), r as u64);
        let ghost tx = chain.transactions_queue@.last();
        assert(chain.transactions_queue@ == before.transactions_queue@.push(tx));
        chain.mint();
        assert(mint_outcome(before.blocks@, before.transactions_queue@.push(tx), chain.blocks@, chain.transactions_queue@));
        forks.push(chain);
        assert(forks@.drop_last() =~= old(forks)@);
        proof {
            lemma_fork_copies_drawn_fork(*old(self), old(forks)@, r, *self, forks@);
        }
    }

    /// One settling event of the simulation, every thirty-seven seconds:
    /// the forks shorter than the longest are dropped; when a single one is
    /// left, its blocks after the first join the main chain, its queue joins
    /// the main queue, and the forks start over from the main chain's top
    /// block.
    pub fn longest_step(&mut self, forks: &mut Vec<Blockchain>)
        requires
            forks_ready(*old(self), old(forks)@),
        ensures
            forks_ready(*final(self), final(forks)@),
            longest_spec(*old(self), old(forks)@, *final(self), final(forks)@),
    {
        let ghost chains = forks@;
        let n = forks.len();
        let mut longest: usize = 0;
        let mut i: usize = 0;
        while i < n
            invariant
                n == forks@.len(),
                forks@ == chains,
                i <= n,
                longest == longest_len(chains.take(i as int)),
            decreases n - i,
        {
            assert(chains.take(i + 1).drop_last() =~= chains.take(i as int));
            if forks[i].blocks.len() > longest {
                longest = forks[i].blocks.len();
            }
            i = i + 1;
        }
        assert(chains.take(n as int) =~= chains);
        let ghost m = longest as nat;
        let mut kept: Vec<Blockchain> = Vec::new();
        while forks.len() > 0
            invariant
                keep_longest(chains, m) == kept@ + keep_longest(forks@, m),
                m == longest,
            decreases forks@.len(),
        {
            let ghost rest = forks@;
            let chain = forks.remove(0);
            assert(forks@ =~= rest.drop_first());
            if chain.blocks.len() >= longest {
                kept.push(chain);
                assert(keep_longest(rest, m) == seq![chain] + keep_longest(forks@, m));
            } else {
                assert(keep_longest(rest, m) == keep_longest(forks@, m));
            }
            assert(keep_longest(chains, m) =~= kept@ + keep_longest(forks@, m));
        }
        assert(kept@ =~= keep_longest(chains, m));
        proof {
            lemma_longest_survive(chains);
        }
        if kept.len() == 1 {
            let mut only = kept.remove(0);
            assert(only == keep_longest(chains, m)[0]);
            only.blocks.remove(0);
            self.blocks.append(&mut only.blocks);
            self.transactions_queue.append(&mut only.transactions_queue);
            let top = self.blocks[self.blocks.len() - 1].clone();
            let mut blocks = Vec::new();
            blocks.push(top);
            forks.push(Blockchain { blocks, transactions_queue: VecDeque::new() });
            assert(forks@[0].blocks@ =~= seq![self.blocks@.last()]);
        } else {
            *forks = kept;
            assert forall|j: int| 0 <= j < forks@.len() implies #[trigger] forks@[j].blocks@.len() > 0 by {
                assert(keep_longest(chains, m)[j].blocks@.len() == m);
                let k = choose|k: int| 0 <= k < chains.len() && chains[k] == keep_longest(chains, m)[j];
                assert(chains[k].blocks@.len() > 0);
            }
        }
    }

    /// Simulate competing forks for `duration` seconds of the schedule:
    /// starting from one fork that holds the main chain's top block, each
    /// second from the first to the one before `duration` runs
    /// `second_step`: a block is mined (`grow_step`), on every fifth second
    /// a fork is made (`fork_step`), on every thirty-seventh second the
    /// longest fork is settled on (`longest_step`). The main chain only
    /// grows, every block it gains was mined, and its queue keeps its
    /// length; with a duration of at most one second nothing changes. The
    /// seconds are counted, not waited for: the whole schedule runs at once.
    pub fn fork_chain(&mut self, duration: u64)
        requires
            old(self).blocks@.len() > 0,
        ensures
            duration <= 1 ==> *final(self) == *old(self),
            final(self).blocks@.len() >= old(self).blocks@.len(),
            final(self).blocks@.subrange(0, old(self).blocks@.len() as int) == old(self).blocks@,
            forall|i: int| old(self).blocks@.len() <= i < final(self).blocks@.len()
                ==> meets_difficulty(#[trigger] final(self).blocks@[i].hash@),
            final(self).transactions_queue@.len() == old(self).transactions_queue@.len(),
            exists|forks0: Seq<Blockchain>, forks: Seq<Blockchain>|
                starting_forks(*old(self), forks0) && #[trigger] simulated(
                    *old(self),
                    forks0,
                    seconds_run(duration),
                    *final(self),
                    forks,
                ),
    {
        let top = self.blocks[self.blocks.len() - 1].clone();
        let mut first = Vec::new();
        first.push(top);
        let mut forks: Vec<Blockchain> = Vec::new();
        forks.push(Blockchain { blocks: first, transactions_queue: VecDeque::new() });
        let ghost blocks0 = self.blocks@;
        let ghost q0 = self.transactions_queue@.len();
        let ghost main0 = *self;
        let ghost forks0 = forks@;
        assert(starting_forks(main0, forks0));
        assert(self.blocks@.subrange(0, blocks0.len() as int) =~= blocks0);
        let ghost mut ms: Seq<Blockchain> = seq![main0];
        let ghost mut fs: Seq<Seq<Blockchain>> = seq![forks0];
        let mut second: u64 = 1;
        while second < duration
            invariant
                main0 == *old(self),
                blocks0 == old(self).blocks@,
                q0 == old(self).transactions_queue@.len(),
                starting_forks(main0, forks0),
                1 <= second,
                second <= duration || second == 1,
                second == 1 ==> *self == *old(self),
                simulation_kept(*self, forks@, blocks0, q0),
                is_run(ms, fs),
                ms.len() == second,
                ms[0] == main0,
                fs[0] == forks0,
                ms.last() == *self,
                fs.last() == forks@,
            decreases duration - second,
        {
            let ghost m0 = *self;
            let ghost f0 = forks@;
            let r = random_usize();
            self.grow_step(&mut forks, r);
            proof {
                lemma_grow_kept(m0, f0, r, *self, forks@, blocks0, q0);
            }
            let ghost m1 = *self;
            let ghost f1 = forks@;
            if second % 5 == 0 {
                let r = random_usize();
                self.fork_step(&mut forks, r);
                proof {
                    lemma_fork_kept(m1, f1, r, *self, forks@, blocks0, q0);
                }
            }
            let ghost m2 = *self;
            let ghost f2 = forks@;
            assert(fork_if_due(second as nat, m1, f1, m2, f2));
            if second % 37 == 0 {
                self.longest_step(&mut forks);
                proof {
                    lemma_longest_kept(m2, f2, *self, forks@, blocks0, q0);
                }
            }
            assert(settle_if_due(second as nat, m2, f2, *self, forks@));
            assert(grow_spec(m0, f0, r, m1, f1));
            proof {
                assert(second_step(second as nat, m0, f0, *self, forks@));
                lemma_run_push(ms, fs, *self, forks@);
                ms = ms.push(*self);
                fs = fs.push(forks@);
            }
            second = second + 1;
        }
        assert(seconds_run(duration) == (second - 1) as nat);
        assert(is_run(ms, fs));
        assert(simulated(*old(self), forks0, seconds_run(duration), *self, forks@));
    }
}
} // verus!
