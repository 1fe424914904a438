use sha2::{Digest, Sha256};
use blockchain::block::{Block, Header};
use blockchain::blockchain::Blockchain;
use blockchain::clock::current_timestamp;
use blockchain::transaction::Transaction;

fn tx(from: &str, to: &str, amount: u64) -> Transaction {
    Transaction { from: from.to_string(), to: to.to_string(), amount }
}

fn ones(s: &str) -> usize {
    s.matches("1").count()
}

#[test]
fn new_blockchain_test() {
    let some_blockch: Blockchain = Blockchain::new().expect("clock");
    assert_eq!(
        some_blockch.blocks.last().expect("No blocks").transaction.from.clone(),
        String::from("Genesis")
    );
    assert_eq!(some_blockch.blocks.len(), 1);
}

#[test]
fn new_transaction_test() {
    let mut some_blockch: Blockchain = Blockchain::new().expect("clock");
    some_blockch.new_transaction("TestSender".to_string(), "Recipient".to_string(), 27);
    assert_eq!(
        some_blockch.transactions_queue.back().expect("No transactions").from.clone(),
        String::from("TestSender")
    );
    assert_eq!(some_blockch.transactions_queue.len(), 1);
}

#[test]
fn mint_test() {
    let mut some_blockch: Blockchain = Blockchain::new().expect("clock");
    some_blockch.transactions_queue.push_back(Transaction {
        from: "Mint".to_string(),
        to: "Test".to_string(),
        amount: 0,
    });
    some_blockch.mint();
    assert_eq!(
        some_blockch.blocks.last().expect("No blocks").transaction.to.clone(),
        String::from("Test")
    );
    assert_eq!(some_blockch.blocks.len(), 2);
}

#[test]
fn fork_test() {
    let mut some_blockch: Blockchain = Blockchain::new().expect("clock");
    let blocks = some_blockch.blocks.len();
    let duration_sec: u64 = 100;
    some_blockch.fork_chain(duration_sec);
    assert_ne!(blocks, some_blockch.blocks.len());
}

#[test]
fn genesis_is_a_zero_transfer_with_clock_hash() {
    let chain = Blockchain::new().expect("clock");
    let g = &chain.blocks[0];
    assert_eq!(g.transaction.to, "");
    assert_eq!(g.transaction.amount, 0);
    assert_eq!(g.previous_hash, "");
    assert!(!g.hash.is_empty() && g.hash.chars().all(|c| c.is_ascii_digit()));
    assert!(chain.transactions_queue.is_empty());
}

#[test]
fn mined_block_links_and_meets_difficulty() {
    let mut chain = Blockchain::new().expect("clock");
    chain.new_transaction("A".to_string(), "B".to_string(), 5);
    assert!(chain.mint());
    let prev = chain.blocks[0].hash.clone();
    let b = &chain.blocks[1];
    assert_eq!(b.previous_hash, prev);
    assert!(ones(&b.hash) >= 6);
    assert_eq!(b.hash.len(), 64);
    // The hash was taken with an empty timestamp, then the block was stamped.
    let mut probe = b.clone();
    probe.head.head_timestamp = String::new();
    assert_eq!(probe.hash_func(), b.hash);
    assert!(b.head.head_timestamp.chars().all(|c| c.is_ascii_digit()));
}

#[test]
fn mint_takes_transactions_first_in_first_out() {
    let mut chain = Blockchain::new().expect("clock");
    chain.new_transaction("first".to_string(), "x".to_string(), 1);
    chain.new_transaction("second".to_string(), "y".to_string(), 2);
    assert!(chain.mint());
    assert_eq!(chain.blocks[1].transaction, tx("first", "x", 1));
    assert_eq!(chain.transactions_queue.len(), 1);
    assert_eq!(chain.transactions_queue[0], tx("second", "y", 2));
    assert!(chain.mint());
    assert_eq!(chain.blocks[2].transaction, tx("second", "y", 2));
    assert_eq!(chain.blocks[2].previous_hash, chain.blocks[1].hash);
    assert!(chain.transactions_queue.is_empty());
    assert!(chain.blocks[2].hash.chars().all(|c| c.is_ascii_digit() || ('a'..='f').contains(&c)));
}

#[test]
fn block_hash_is_sha256_hex_of_its_fields() {
    let mut block = Block {
        head: Header { head_timestamp: "1700000000000".to_string(), nonce: 42 },
        transaction: tx("alice", "bob", 1234),
        hash: String::new(),
        previous_hash: "abc".to_string(),
    };
    let text = "1700000000000".to_string() + "42" + "alice" + "bob" + "1234" + "abc" + "42";
    let mut hasher = Sha256::new();
    hasher.update(text);
    let expected = format!("{:x}", hasher.finalize());
    assert_eq!(block.hash_func(), expected);
    assert_eq!(block.hash, "");
}

#[test]
fn try_nonce_keeps_hash_unless_difficulty_met() {
    let mut block = Block {
        head: Header { head_timestamp: String::new(), nonce: 0 },
        transaction: tx("a", "b", 0),
        hash: "old".to_string(),
        previous_hash: "p".to_string(),
    };
    let mut nonce = 0usize;
    loop {
        let found = block.try_nonce(nonce);
        assert_eq!(block.head.nonce, nonce);
        let h = block.clone().hash_func();
        if found {
            assert_eq!(block.hash, h);
            assert!(ones(&h) >= 6);
            break;
        } else {
            assert_eq!(block.hash, "old");
            assert!(ones(&h) < 6);
        }
        nonce += 1;
    }
}

#[test]
fn longest_step_merges_a_single_longest_fork() {
    let mut main = Blockchain::new().expect("clock");
    let top = main.blocks[0].clone();
    let mut long = Blockchain { blocks: vec![top.clone()], transactions_queue: Default::default() };
    long.new_transaction("q".to_string(), "r".to_string(), 3);
    assert!(long.mint());
    long.new_transaction("left".to_string(), "over".to_string(), 4);
    let short = Blockchain { blocks: vec![top.clone()], transactions_queue: Default::default() };
    let mut forks = vec![short, long.clone()];
    main.longest_step(&mut forks);
    assert_eq!(main.blocks.len(), 2);
    assert_eq!(main.blocks[1], long.blocks[1]);
    assert_eq!(main.transactions_queue.len(), 1);
    assert_eq!(main.transactions_queue[0], tx("left", "over", 4));
    assert_eq!(forks.len(), 1);
    assert_eq!(forks[0].blocks, vec![main.blocks[1].clone()]);
}

#[test]
fn longest_step_keeps_tied_longest_forks() {
    let mut main = Blockchain::new().expect("clock");
    let top = main.blocks[0].clone();
    let mut a = Blockchain { blocks: vec![top.clone()], transactions_queue: Default::default() };
    a.new_transaction("a".to_string(), "a".to_string(), 1);
    assert!(a.mint());
    let mut b = Blockchain { blocks: vec![top.clone()], transactions_queue: Default::default() };
    b.new_transaction("b".to_string(), "b".to_string(), 2);
    assert!(b.mint());
    let c = Blockchain { blocks: vec![top.clone()], transactions_queue: Default::default() };
    let mut forks = vec![a.clone(), c, b.clone()];
    main.longest_step(&mut forks);
    assert_eq!(main.blocks.len(), 1);
    assert_eq!(forks.len(), 2);
    assert_eq!(forks[0].blocks, a.blocks);
    assert_eq!(forks[1].blocks, b.blocks);
}

#[test]
fn grow_and_fork_steps() {
    let mut main = Blockchain::new().expect("clock");
    let top = main.blocks[0].clone();
    let mut forks = vec![Blockchain { blocks: vec![top], transactions_queue: Default::default() }];
    // One fork: the main chain grows.
    main.grow_step(&mut forks, 7);
    assert_eq!(main.blocks.len(), 2);
    assert_eq!(main.blocks[1].transaction, tx("Test", "This", 7));
    // A fork event copies fork 0 and mines a `Fork` block on the copy.
    main.fork_step(&mut forks, 9);
    assert_eq!(forks.len(), 2);
    assert_eq!(forks[1].blocks.len(), 2);
    assert_eq!(forks[1].blocks[1].transaction, tx("Fork", "Ff", 9));
    // Two forks: fork 3 % 2 == 1 grows, the main chain does not.
    main.grow_step(&mut forks, 3);
    assert_eq!(main.blocks.len(), 2);
    assert_eq!(forks[1].blocks.len(), 3);
    assert_eq!(forks[0].blocks.len(), 1);
}

#[test]
fn fork_chain_keeps_the_old_blocks_first() {
    let mut chain = Blockchain::new().expect("clock");
    let before = chain.blocks.clone();
    chain.fork_chain(40);
    assert!(chain.blocks.len() >= before.len());
    assert_eq!(&chain.blocks[..before.len()], &before[..]);
}

#[test]
fn fork_chain_of_one_second_does_nothing() {
    let mut chain = Blockchain::new().expect("clock");
    let before = chain.blocks.clone();
    chain.fork_chain(1);
    assert_eq!(chain.blocks, before);
}

#[test]
fn fork_chain_of_no_time_does_nothing() {
    let mut chain = Blockchain::new().expect("clock");
    chain.new_transaction("kept".to_string(), "queued".to_string(), 1);
    let before = chain.clone();
    chain.fork_chain(0);
    assert_eq!(chain, before);
}

#[test]
fn fork_chain_mines_every_new_block_and_keeps_the_queue_length() {
    let mut chain = Blockchain::new().expect("clock");
    chain.new_transaction("waiting".to_string(), "here".to_string(), 2);
    chain.fork_chain(12);
    // Seconds one to five mine on the main chain; the fork made on second
    // five leaves two forks, which take the blocks of seconds six to eleven,
    // and none is settled before second thirty-seven.
    assert_eq!(chain.blocks.len(), 6);
    for i in 1..chain.blocks.len() {
        assert!(ones(&chain.blocks[i].hash) >= 6);
        assert_eq!(chain.blocks[i].hash.len(), 64);
        assert_eq!(chain.blocks[i].previous_hash, chain.blocks[i - 1].hash);
    }
    assert_eq!(chain.blocks[1].transaction, tx("waiting", "here", 2));
    assert_eq!(chain.transactions_queue.len(), 1);
    assert_eq!(chain.transactions_queue[0].from, "Test");
}

#[test]
fn timestamp_is_decimal_milliseconds() {
    let t = current_timestamp().expect("clock after 1970");
    assert!(t.chars().all(|c| c.is_ascii_digit()));
    assert!(t.len() >= 13);
}

#[test]
fn timestamps_read_in_clock_order() {
    let first = current_timestamp().expect("clock after 1970");
    let second = current_timestamp().expect("clock after 1970");
    assert!(second.parse::<u128>().unwrap() >= first.parse::<u128>().unwrap());
    assert_eq!(first.parse::<u128>().unwrap().to_string(), first);
}
