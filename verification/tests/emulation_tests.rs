use sha2::{Digest, Sha256};
use blockchain::emulation;
use blockchain::minting;
use blockchain::transaction::Transaction;

#[test]
fn emulation_new_block_links_hashes() {
    let mut chain = emulation::Blockchain::new().expect("clock");
    assert!(!chain.new_block());
    assert_eq!(chain.blocks.len(), 1);
    chain.new_transaction("H1".to_string(), "H1".to_string(), 33);
    assert!(chain.new_block());
    let genesis_hash = chain.blocks[0].hash.clone();
    let b = &chain.blocks[1];
    assert_eq!(b.previous_hash, genesis_hash);
    let mut hasher = Sha256::new();
    hasher.update("H1H133".to_string() + &genesis_hash);
    assert_eq!(b.hash, format!("{:x}", hasher.finalize()));
    assert!(chain.transactions_queue.is_empty());
}

#[test]
fn emulation_chain_stays_linked() {
    let mut chain = emulation::Blockchain::new().expect("clock");
    chain.new_transaction("H1".to_string(), "H1".to_string(), 33);
    chain.new_transaction("H2".to_string(), "H2".to_string(), 44);
    assert!(chain.new_block());
    assert!(chain.new_block());
    assert_eq!(chain.blocks.len(), 3);
    for i in 1..chain.blocks.len() {
        let b = &chain.blocks[i];
        assert_eq!(b.previous_hash, chain.blocks[i - 1].hash);
        let mut hasher = Sha256::new();
        hasher.update(b.transaction.from.clone() + &b.transaction.to + &b.transaction.amount.to_string() + &b.previous_hash);
        assert_eq!(b.hash, format!("{:x}", hasher.finalize()));
    }
}

#[test]
fn minting_mint_meets_difficulty() {
    let mut chain = minting::Blockchain::new().expect("clock");
    assert!(!chain.mint());
    assert_eq!(chain.blocks.len(), 1);
    assert!(chain.transactions_queue.is_empty());
    chain.new_transaction("Sender".to_string(), "Recipient".to_string(), 27);
    assert!(chain.mint());
    let b = &chain.blocks[1];
    assert_eq!(b.transaction, Transaction { from: "Sender".into(), to: "Recipient".into(), amount: 27 });
    assert_eq!(b.previous_hash, chain.blocks[0].hash);
    assert!(b.hash.matches("1").count() >= 6);
    let nonce = &b.head.nonce;
    let digits = nonce.strip_prefix('-').unwrap_or(nonce);
    assert!(!digits.is_empty() && digits.chars().all(|c| c.is_ascii_digit()));
    assert!(digits.len() <= 302);
    assert_eq!(b.hash.len(), 64);
    assert!(chain.transactions_queue.is_empty());
}
