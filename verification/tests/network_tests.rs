use sha2::{Digest, Sha256};
use blockchain::network::block::{Block, Header};
use blockchain::network::blockchain::Blockchain;
use blockchain::network::node::{mint_interval, Accepted, Ledger, Refused};
use blockchain::network::server::Node;
use blockchain::transaction::Transaction;

fn tx(from: &str, to: &str, amount: u64) -> Transaction {
    Transaction { from: from.to_string(), to: to.to_string(), amount }
}

fn block(hash: &str, prev: &str) -> Block {
    Block {
        head: Header { head_timestamp: "1".to_string(), nonce: 0 },
        transaction: vec![],
        hash: hash.to_string(),
        previous_hash: prev.to_string(),
    }
}

fn chain_of(hashes: &[&str]) -> Blockchain {
    let mut blocks = Vec::new();
    let mut prev = "Genesis has no previous hash".to_string();
    for h in hashes {
        blocks.push(block(h, &prev));
        prev = h.to_string();
    }
    Blockchain { blocks }
}

fn hashes(c: &Blockchain) -> Vec<String> {
    c.blocks.iter().map(|b| b.hash.clone()).collect()
}

fn ledger(chain: &[&str]) -> Ledger {
    Ledger { chain: chain_of(chain), forks: vec![], mempool: vec![] }
}

#[test]
fn blockchain_new_blockchain_test() {
    let some_blockch: Blockchain = Blockchain::new().expect("clock");
    assert_eq!(
        some_blockch
            .blocks
            .last()
            .expect("No blocks")
            .transaction
            .get(0)
            .expect("No transaction in block")
            .from,
        String::from("Genesis")
    );
    assert_eq!(some_blockch.blocks.len(), 1);
}

#[test]
fn genesis_hash_is_its_timestamp() {
    let chain = Blockchain::new().expect("clock");
    let g = &chain.blocks[0];
    assert_eq!(g.hash, g.head.head_timestamp);
    assert_eq!(g.previous_hash, "Genesis has no previous hash");
    assert_eq!(g.transaction, vec![tx("Genesis", "You", 0)]);
}

#[test]
fn batch_hash_is_sha256_hex_of_its_fields() {
    let b = Block {
        head: Header { head_timestamp: "99".to_string(), nonce: 5 },
        transaction: vec![tx("a", "b", 1), tx("c", "d", 22)],
        hash: String::new(),
        previous_hash: "prev".to_string(),
    };
    let mut hasher = Sha256::new();
    hasher.update("99".to_string() + "5" + "prev" + "a" + "b" + "1" + "c" + "d" + "22");
    assert_eq!(b.hash_func(), format!("{:x}", hasher.finalize()));
}

#[test]
fn blockchain_mint_test() {
    let mut some_blockch: Blockchain = Blockchain::new().expect("clock");
    let mempool = vec![Transaction {
        from: String::from("Mint"),
        to: String::from("Test"),
        amount: 0,
    }];
    some_blockch.mint(mempool);
    assert_eq!(
        some_blockch
            .blocks
            .last()
            .expect("No blocks")
            .transaction
            .get(0)
            .expect("No transaction in block")
            .from,
        String::from("Mint")
    );
    assert_eq!(some_blockch.blocks.len(), 2);
    some_blockch.mint(vec![]);
    assert!(some_blockch.blocks.last().expect("No blocks").transaction.is_empty());
    assert_eq!(some_blockch.blocks.len(), 3);
    println!("{:?}", some_blockch);
}

#[test]
fn mint_appends_a_linked_block_and_returns_it() {
    let mut chain = Blockchain::new().expect("clock");
    let genesis_hash = chain.blocks[0].hash.clone();
    let b = chain.mint(vec![tx("Mint", "Test", 0)]).expect("mined");
    assert_eq!(chain.blocks.len(), 2);
    assert_eq!(chain.blocks[1], b);
    assert_eq!(b.previous_hash, genesis_hash);
    assert_eq!(b.transaction, vec![tx("Mint", "Test", 0)]);
    assert!(b.hash.matches("1").count() >= 6);
    assert_eq!(b.hash.len(), 64);
    assert!(b.hash.chars().all(|c| c.is_ascii_digit() || ('a'..='f').contains(&c)));
}

#[test]
fn genesis_block_starts_an_empty_chain() {
    let mut l = Ledger { chain: Blockchain { blocks: vec![] }, forks: vec![], mempool: vec![] };
    let g = block("g", "Genesis has no previous hash");
    assert_eq!(l.add_block(g.clone()), Ok(Accepted::GenesisAdded));
    assert_eq!(l.chain.blocks, vec![g]);
}

#[test]
fn empty_chain_refuses_other_blocks() {
    let mut l = Ledger { chain: Blockchain { blocks: vec![] }, forks: vec![], mempool: vec![] };
    assert_eq!(l.add_block(block("x", "y")), Err(Refused::NoGenesis));
    assert!(l.chain.blocks.is_empty());
    assert_eq!(Refused::NoGenesis.message(), "Create a genesis block first!");
}

#[test]
fn block_on_top_extends_chain() {
    let mut l = ledger(&["a", "b"]);
    assert_eq!(l.add_block(block("c", "b")), Ok(Accepted::BlockAdded));
    assert_eq!(hashes(&l.chain), vec!["a", "b", "c"]);
    assert!(l.forks.is_empty());
}

#[test]
fn block_below_top_forks_chain() {
    let mut l = ledger(&["a", "b", "c", "d"]);
    assert_eq!(l.add_block(block("x", "b")), Ok(Accepted::NetworkFork));
    assert_eq!(hashes(&l.chain), vec!["a"]);
    assert_eq!(l.forks.len(), 2);
    assert_eq!(hashes(&l.forks[0]), vec!["b", "c", "d"]);
    assert_eq!(hashes(&l.forks[1]), vec!["x"]);
    assert_eq!(Accepted::NetworkFork.message(), "There has been a network fork!");
}

#[test]
fn fork_only_within_top_five_blocks() {
    let mut l = ledger(&["a", "b", "c", "d", "e", "f"]);
    assert_eq!(l.add_block(block("x", "a")), Err(Refused::ForkNotCreated));
    assert_eq!(hashes(&l.chain), vec!["a", "b", "c", "d", "e", "f"]);
    assert!(l.forks.is_empty());
    assert_eq!(l.add_block(block("y", "b")), Ok(Accepted::NetworkFork));
    assert_eq!(hashes(&l.chain), vec!["a"]);
}

#[test]
fn fork_from_highest_matching_block() {
    let mut l = ledger(&["a", "b", "b", "c"]);
    assert_eq!(l.create_fork(block("x", "b")), Ok(Accepted::NetworkFork));
    assert_eq!(hashes(&l.chain), vec!["a", "b"]);
    assert_eq!(hashes(&l.forks[0]), vec!["b", "c"]);
}

#[test]
fn block_extends_fork_then_consensus() {
    let mut l = ledger(&["a"]);
    l.forks = vec![chain_of(&["f1", "f2", "f3", "f4", "f5"]), chain_of(&["g1"])];
    assert_eq!(l.add_block(block("f6", "f5")), Ok(Accepted::AddedToFork));
    // The fork grew to six blocks, more than five: it joins the chain.
    assert_eq!(hashes(&l.chain), vec!["a", "f1", "f2", "f3", "f4", "f5", "f6"]);
    assert!(l.forks.is_empty());
}

#[test]
fn block_extends_short_fork_without_consensus() {
    let mut l = ledger(&["a"]);
    l.forks = vec![chain_of(&["g1"]), chain_of(&["f1", "f2"])];
    assert_eq!(l.add_block(block("f3", "f2")), Ok(Accepted::AddedToFork));
    assert_eq!(hashes(&l.chain), vec!["a"]);
    assert_eq!(hashes(&l.forks[1]), vec!["f1", "f2", "f3"]);
    assert_eq!(Accepted::AddedToFork.message(), "Adding a block is successful!");
}

#[test]
fn sibling_of_fork_top_copies_fork() {
    let mut l = ledger(&["a"]);
    l.forks = vec![chain_of(&["f1", "f2"])];
    // "f2" follows "f1"; a block that also follows "f1" is its sibling.
    assert_eq!(l.add_block(block("s", "f1")), Ok(Accepted::NetworkFork));
    assert_eq!(l.forks.len(), 2);
    assert_eq!(hashes(&l.forks[0]), vec!["f1", "f2"]);
    assert_eq!(hashes(&l.forks[1]), vec!["f1", "s"]);
}

#[test]
fn block_deep_in_fork_makes_forks_fork() {
    let mut l = ledger(&["a"]);
    l.forks = vec![chain_of(&["f1", "f2", "f3", "f4"])];
    assert_eq!(l.add_block(block("z", "f2")), Ok(Accepted::ForksFork));
    assert_eq!(l.forks.len(), 2);
    // The linked block and those above it give way to the new block.
    assert_eq!(hashes(&l.forks[1]), vec!["f1", "z"]);
    assert_eq!(Accepted::ForksFork.message(), "There has been a network forks fork!");
}

#[test]
fn unknown_block_with_forks_is_refused() {
    let mut l = ledger(&["a"]);
    l.forks = vec![chain_of(&["f1", "f2"])];
    assert_eq!(l.add_block(block("z", "nowhere")), Err(Refused::HashesDoNotMatch));
    assert_eq!(l.forks.len(), 1);
    assert_eq!(Refused::HashesDoNotMatch.message(), "The  hashes don't match!!!!!!!!");
}

#[test]
fn empty_fork_is_an_error() {
    let mut l = ledger(&["a"]);
    l.forks = vec![Blockchain { blocks: vec![] }, chain_of(&["f1"])];
    assert_eq!(l.add_block(block("z", "f1")), Err(Refused::EmptyFork));
    assert_eq!(Refused::EmptyFork.message(), "No blocks in fork!");
}

#[test]
fn received_block_transactions_leave_mempool() {
    let mut l = ledger(&["a"]);
    l.mempool = vec![tx("p", "q", 1), tx("r", "s", 2), tx("p", "q", 1), tx("t", "u", 3)];
    let mut b = block("b", "a");
    b.transaction = vec![tx("p", "q", 1), tx("t", "u", 3)];
    assert_eq!(l.add_block(b), Ok(Accepted::BlockAdded));
    assert_eq!(l.mempool, vec![tx("r", "s", 2)]);
}

#[test]
fn consensus_takes_first_long_fork() {
    let mut l = ledger(&["a"]);
    l.forks = vec![
        chain_of(&["s1"]),
        chain_of(&["l1", "l2", "l3", "l4", "l5", "l6"]),
        chain_of(&["m1", "m2", "m3", "m4", "m5", "m6", "m7"]),
    ];
    l.consensus();
    assert_eq!(hashes(&l.chain), vec!["a", "l1", "l2", "l3", "l4", "l5", "l6"]);
    assert!(l.forks.is_empty());
    let mut short = ledger(&["a"]);
    short.forks = vec![chain_of(&["l1", "l2", "l3", "l4", "l5"])];
    short.consensus();
    assert_eq!(short.forks.len(), 1);
    assert_eq!(hashes(&short.chain), vec!["a"]);
}

#[test]
fn genesis_generate_only_once() {
    let mut l = Ledger { chain: Blockchain { blocks: vec![] }, forks: vec![], mempool: vec![] };
    let g = l.genesis_generate().expect("genesis");
    assert_eq!(l.chain.blocks, vec![g.clone()]);
    assert_eq!(g.transaction[0].from, "Genesis");
    assert_eq!(l.genesis_generate(), Err(Refused::GenesisExists));
    assert_eq!(l.chain.blocks.len(), 1);
    assert_eq!(Refused::GenesisExists.message(), "Genesis block already exists!");
    assert_eq!(Refused::ClockBeforeEpoch.message(), "Time went backwards");
}

#[test]
fn mint_round_takes_front_of_mempool() {
    let mut l = Ledger { chain: Blockchain::new().expect("clock"), forks: vec![], mempool: vec![] };
    l.mempool = vec![tx("1", "1", 1), tx("2", "2", 2), tx("3", "3", 3)];
    let b = l.mint_round(2, 0).expect("mined");
    assert_eq!(b.transaction, vec![tx("1", "1", 1), tx("2", "2", 2)]);
    assert_eq!(l.mempool, vec![tx("3", "3", 3)]);
    assert_eq!(l.chain.blocks.len(), 2);
    assert_eq!(b.previous_hash, l.chain.blocks[0].hash);
    assert_eq!(l.chain.blocks[1], b);
}

#[test]
fn mint_round_on_a_fork() {
    let mut l = Ledger { chain: Blockchain::new().expect("clock"), forks: vec![chain_of(&["f1"]), chain_of(&["g1"])], mempool: vec![] };
    let b = l.mint_round(9, 3).expect("mined");
    assert_eq!(b.previous_hash, "g1");
    assert_eq!(l.forks.len(), 2);
    assert_eq!(l.forks[1].blocks.len(), 2);
    assert_eq!(l.forks[1].blocks[1], b);
    assert_eq!(l.forks[0].blocks.len(), 1);
}

#[test]
fn mint_interval_between_six_and_fourteen() {
    assert_eq!(mint_interval(0), 6);
    assert_eq!(mint_interval(8), 14);
    assert_eq!(mint_interval(9), 6);
    assert_eq!(mint_interval(usize::MAX), usize::MAX % 9 + 6);
}

#[test]
fn node_peers_exclude_itself() {
    let config = vec![
        "127.0.0.1:808001".to_string(),
        "127.0.0.1:808002".to_string(),
        "127.0.0.1:808001".to_string(),
    ];
    let mut node = Node::new("127.0.0.1:80".to_string(), "8001".to_string(), config).expect("keys");
    assert_eq!(node.config_list, vec!["127.0.0.1:808002".to_string()]);
    assert!(String::from_utf8(node.id.clone()).unwrap().starts_with("-----BEGIN PUBLIC KEY-----"));
    assert_eq!(node.full_addr(), "127.0.0.1:808001");
    node.add_peer("8003".to_string());
    node.add_peer("8003".to_string());
    assert_eq!(node.config_list, vec!["127.0.0.1:808002".to_string(), "127.0.0.1:808003".to_string()]);
    let all = node.peers_with_self();
    assert_eq!(all.len(), 3);
    assert!(all.contains(&"127.0.0.1:808001".to_string()));
    node.join_network(vec!["h:1".to_string()], "h:2".to_string());
    assert_eq!(node.config_list, vec!["h:1".to_string(), "h:2".to_string()]);
}

#[test]
fn node_from_key_pair_keeps_the_keys() {
    let config = vec!["h:1".to_string(), "h:2".to_string(), "a:p".to_string()];
    let pair = (Some(vec![1u8, 2]), Some(vec![3u8]));
    let node = Node::from_key_pair(pair, "a:".to_string(), "p".to_string(), config.clone()).expect("both keys");
    assert_eq!(node.id, vec![3u8]);
    assert_eq!(node.config_list, vec!["h:1".to_string(), "h:2".to_string()]);
    assert!(Node::from_key_pair((None, Some(vec![3u8])), "a:".to_string(), "p".to_string(), config.clone()).is_none());
    assert!(Node::from_key_pair((Some(vec![1u8]), None), "a:".to_string(), "p".to_string(), config).is_none());
}

#[test]
fn key_gen_keys_belong_together_and_open_under_the_passphrase() {
    let (private, public) = blockchain::network::key::key_gen("secret".to_string());
    let private = private.expect("private key");
    let public = public.expect("public key");
    let key = openssl::rsa::Rsa::private_key_from_pem_passphrase(&private, b"secret").expect("opens");
    assert_eq!(key.size() * 8, 2048);
    assert_eq!(key.public_key_to_pem().unwrap(), public);
    assert!(openssl::rsa::Rsa::private_key_from_pem_passphrase(&private, b"other").is_err());
    assert!(String::from_utf8(private).unwrap().contains("AES-128-CBC"));
}

#[test]
fn node_keys_open_under_the_port() {
    let node = Node::new("127.0.0.1:80".to_string(), "8005".to_string(), vec![]).expect("keys");
    let public = openssl::rsa::Rsa::public_key_from_pem(&node.id).expect("public key");
    assert_eq!(public.size() * 8, 2048);
    assert!(String::from_utf8(node.id.clone()).unwrap().starts_with("-----BEGIN PUBLIC KEY-----"));
}

#[test]
fn key_gen_gives_both_keys() {
    let (private, public) = blockchain::network::key::key_gen("secret".to_string());
    let private = String::from_utf8(private.expect("private key")).unwrap();
    assert!(private.contains("ENCRYPTED"));
    assert!(String::from_utf8(public.expect("public key")).unwrap().contains("PUBLIC KEY"));
}

#[test]
fn random_helpers_stay_in_range() {
    for _ in 0..20 {
        let s = blockchain::network::node::random_mint_interval();
        assert!((6..=14).contains(&s));
    }
    let t = blockchain::network::node::random_transaction();
    assert!(t.from.chars().all(|c| c.is_ascii_digit()) && !t.from.is_empty());
    assert!(t.to.chars().all(|c| c.is_ascii_digit()) && !t.to.is_empty());
}

#[test]
fn mint_round_at_random_takes_front_of_mempool() {
    let mut l = Ledger { chain: Blockchain::new().expect("clock"), forks: vec![chain_of(&["f1"]), chain_of(&["g1"])], mempool: vec![tx("1", "1", 1)] };
    let b = l.mint_round_at_random(6).expect("mined");
    assert!(b.previous_hash == "f1" || b.previous_hash == "g1");
    assert!(l.forks.iter().any(|f| f.blocks.len() == 2 && f.blocks[1] == b));
    assert_eq!(b.transaction, vec![tx("1", "1", 1)]);
    assert!(l.mempool.is_empty());
}
