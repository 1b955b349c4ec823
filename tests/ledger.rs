use btcnode::chain::Blockchain;
use btcnode::gossip::{relay_ttl, GossipFilter};
use btcnode::crypto::{PrivateKey, Signature};
use btcnode::merkle::merkle_root;
use btcnode::protocol::{closes_connection, gossips_when_accepted, height_difference, select_majority_height, MessageKind};
use btcnode::rules::{calculate_block_reward, min_target, verify_transactions, BtcError};
use btcnode::types::{Block, BlockHeader, Transaction, TransactionInput, TransactionOutput};
use btcnode::uint::{scale_clamped, U256};
use btcnode::utxo::UtxoSet;
use btcnode::wallet::{find_contact_by_address, find_contact_by_name, FeeType, Key, Recipient, TransactionResult};

const SECOND: i64 = 1_000_000_000;
const REWARD: u64 = 50 * 100_000_000;

fn output(value: u64, id: u128, address: &str) -> TransactionOutput {
    TransactionOutput { value, unique_id: id, address: address.to_string() }
}

fn coinbase(value: u64, id: u128, address: &str) -> Transaction {
    Transaction::new(vec![], vec![output(value, id, address)])
}

fn spend(prev: &TransactionOutput, key: &PrivateKey, outputs: Vec<TransactionOutput>) -> Transaction {
    let h = prev.hash();
    let input = TransactionInput {
        prev_transaction_output_hash: h,
        public_key: key.public_key(),
        signature: Signature::sign_output(&h, key),
    };
    Transaction::new(vec![input], outputs)
}

fn mined(prev: btcnode::hash::Hash, timestamp: i64, transactions: Vec<Transaction>) -> Block {
    let root = merkle_root(&transactions);
    let target = min_target();
    let mut header = BlockHeader::new(timestamp, 0, prev, root, target);
    while !header.hash().matches_target(&target) {
        header.nonce += 1;
    }
    Block::new(header, transactions)
}

fn genesis(value: u64, address: &str) -> Block {
    let txs = vec![coinbase(value, 1, address)];
    let root = merkle_root(&txs);
    Block::new(BlockHeader::new(1_000 * SECOND, 0, btcnode::hash::Hash::zero(), root, min_target()), txs)
}

fn balance(chain: &Blockchain, address: &str) -> u64 {
    chain.utxos().entries().iter().filter(|u| u.output.address == address).map(|u| u.output.value).sum()
}

fn u(w0: u64, w1: u64, w2: u64, w3: u64) -> U256 {
    U256 { w0, w1, w2, w3 }
}

#[test]
fn genesis_only() {
    let mut chain = Blockchain::new();
    assert_eq!(chain.add_block(genesis(REWARD, "A")), Ok(()));
    assert_eq!(chain.block_height(), 1);
    assert_eq!(balance(&chain, "A"), REWARD);
}

#[test]
fn genesis_must_name_zero_hash() {
    let mut chain = Blockchain::new();
    let mut block = genesis(REWARD, "A");
    block.header.prev_block_hash = btcnode::hash::Hash::of_bytes(b"x");
    assert_eq!(chain.add_block(block), Err(BtcError::InvalidBlock));
    assert_eq!(chain.block_height(), 0);
}

#[test]
fn double_spend_in_block() {
    let key = PrivateKey::from_seed(b"owner").ok().unwrap();
    let mut chain = Blockchain::new();
    let g = genesis(REWARD, "A");
    let owned = g.transactions[0].outputs[0].clone();
    let g_hash = g.hash();
    chain.add_block(g).unwrap();
    let tx1 = spend(&owned, &key, vec![output(10, 2, "B")]);
    let tx2 = spend(&owned, &key, vec![output(20, 3, "C")]);
    let block = mined(g_hash, 2_000 * SECOND, vec![coinbase(REWARD, 4, "M"), tx1, tx2]);
    assert_eq!(chain.add_block(block), Err(BtcError::InvalidTransaction));
    assert_eq!(chain.block_height(), 1);
}

#[test]
fn block_spending_an_output_moves_it() {
    let key = PrivateKey::from_seed(b"owner").ok().unwrap();
    let mut chain = Blockchain::new();
    let g = genesis(REWARD, "A");
    let owned = g.transactions[0].outputs[0].clone();
    let g_hash = g.hash();
    chain.add_block(g).unwrap();
    let tx = spend(&owned, &key, vec![output(REWARD - 100, 2, "B")]);
    let block = mined(g_hash, 2_000 * SECOND, vec![coinbase(REWARD + 100, 3, "M"), tx]);
    assert_eq!(chain.add_block(block), Ok(()));
    assert_eq!(chain.block_height(), 2);
    assert_eq!(balance(&chain, "A"), 0);
    assert_eq!(balance(&chain, "B"), REWARD - 100);
    assert_eq!(balance(&chain, "M"), REWARD + 100);
}

#[test]
fn coinbase_paying_too_much_is_refused() {
    let mut chain = Blockchain::new();
    let g = genesis(REWARD, "A");
    let g_hash = g.hash();
    chain.add_block(g).unwrap();
    let block = mined(g_hash, 2_000 * SECOND, vec![coinbase(REWARD + 1, 3, "M")]);
    assert_eq!(chain.add_block(block), Err(BtcError::InvalidTransaction));
}

#[test]
fn wrong_previous_hash_is_invalid_block() {
    let mut chain = Blockchain::new();
    chain.add_block(genesis(REWARD, "A")).unwrap();
    let block = mined(btcnode::hash::Hash::zero(), 2_000 * SECOND, vec![coinbase(REWARD, 3, "M")]);
    assert_eq!(chain.add_block(block), Err(BtcError::InvalidBlock));
}

#[test]
fn wrong_merkle_root_is_reported() {
    let mut chain = Blockchain::new();
    let g = genesis(REWARD, "A");
    let g_hash = g.hash();
    chain.add_block(g).unwrap();
    let target = min_target();
    let mut header = BlockHeader::new(2_000 * SECOND, 0, g_hash, btcnode::hash::Hash::zero(), target);
    while !header.hash().matches_target(&target) {
        header.nonce += 1;
    }
    let block = Block::new(header, vec![coinbase(REWARD, 3, "M")]);
    assert_eq!(chain.add_block(block), Err(BtcError::InvalidMerkleRoot));
}

#[test]
fn earlier_timestamp_is_invalid_block() {
    let mut chain = Blockchain::new();
    let g = genesis(REWARD, "A");
    let g_hash = g.hash();
    chain.add_block(g).unwrap();
    let block = mined(g_hash, 1_000 * SECOND, vec![coinbase(REWARD, 3, "M")]);
    assert_eq!(chain.add_block(block), Err(BtcError::InvalidBlock));
}

#[test]
fn mempool_conflict_replacement() {
    let key = PrivateKey::from_seed(b"owner").ok().unwrap();
    let mut chain = Blockchain::new();
    let g = genesis(REWARD, "A");
    let owned = g.transactions[0].outputs[0].clone();
    chain.add_block(g).unwrap();
    let tx1 = spend(&owned, &key, vec![output(10, 2, "B")]);
    let tx2 = spend(&owned, &key, vec![output(20, 3, "C")]);
    let tx2_hash = tx2.hash();
    assert_eq!(chain.add_to_mempool(tx1), Ok(()));
    assert_eq!(chain.add_to_mempool(tx2), Ok(()));
    assert_eq!(chain.mempool().len(), 1);
    assert_eq!(chain.mempool()[0].1.hash(), tx2_hash);
    assert!(chain.utxos().get(&owned.hash()).unwrap().marked);
}

#[test]
fn mempool_refuses_bad_transactions() {
    let key = PrivateKey::from_seed(b"owner").ok().unwrap();
    let mut chain = Blockchain::new();
    let g = genesis(REWARD, "A");
    let owned = g.transactions[0].outputs[0].clone();
    chain.add_block(g).unwrap();
    let missing = output(5, 99, "Z");
    assert_eq!(chain.add_to_mempool(spend(&missing, &key, vec![])), Err(BtcError::InvalidTransaction));
    assert_eq!(chain.add_to_mempool(spend(&owned, &key, vec![output(REWARD + 1, 2, "B")])), Err(BtcError::InvalidTransaction));
    let mut twice = spend(&owned, &key, vec![]);
    let again = twice.inputs[0].clone();
    twice.inputs.push(again);
    assert_eq!(chain.add_to_mempool(twice), Err(BtcError::InvalidTransaction));
    assert_eq!(chain.mempool().len(), 0);
    assert!(!chain.utxos().get(&owned.hash()).unwrap().marked);
}

#[test]
fn mempool_is_sorted_by_fee() {
    let key = PrivateKey::from_seed(b"owner").ok().unwrap();
    let mut chain = Blockchain::new();
    let g = genesis(REWARD, "A");
    let owned = g.transactions[0].outputs[0].clone();
    let g_hash = g.hash();
    chain.add_block(g).unwrap();
    let split = spend(&owned, &key, vec![output(1000, 10, "A"), output(1000, 11, "A"), output(1000, 12, "A")]);
    let pieces = split.outputs.clone();
    let block = mined(g_hash, 2_000 * SECOND, vec![coinbase(REWARD, 13, "M"), split]);
    chain.add_block(block).unwrap();
    chain.add_to_mempool_at(spend(&pieces[0], &key, vec![output(990, 20, "B")]), 1).unwrap();
    chain.add_to_mempool_at(spend(&pieces[1], &key, vec![output(900, 21, "B")]), 2).unwrap();
    chain.add_to_mempool_at(spend(&pieces[2], &key, vec![output(950, 22, "B")]), 3).unwrap();
    let order: Vec<i64> = chain.mempool().iter().map(|e| e.0).collect();
    assert_eq!(order, vec![2, 3, 1]);
}

#[test]
fn old_mempool_entries_are_dropped() {
    let key = PrivateKey::from_seed(b"owner").ok().unwrap();
    let mut chain = Blockchain::new();
    let g = genesis(REWARD, "A");
    let owned = g.transactions[0].outputs[0].clone();
    chain.add_block(g).unwrap();
    chain.add_to_mempool_at(spend(&owned, &key, vec![output(10, 2, "B")]), 0).unwrap();
    chain.cleanup_mempool_at(600 * SECOND);
    assert_eq!(chain.mempool().len(), 1);
    chain.cleanup_mempool_at(600 * SECOND + 1);
    assert_eq!(chain.mempool().len(), 0);
    assert!(!chain.utxos().get(&owned.hash()).unwrap().marked);
}

#[test]
fn included_transaction_leaves_mempool() {
    let key = PrivateKey::from_seed(b"owner").ok().unwrap();
    let mut chain = Blockchain::new();
    let g = genesis(REWARD, "A");
    let owned = g.transactions[0].outputs[0].clone();
    let g_hash = g.hash();
    chain.add_block(g).unwrap();
    let tx = spend(&owned, &key, vec![output(10, 2, "B")]);
    chain.add_to_mempool(tx.clone()).unwrap();
    let block = mined(g_hash, 2_000 * SECOND, vec![coinbase(REWARD, 3, "M"), tx]);
    chain.add_block(block).unwrap();
    assert_eq!(chain.mempool().len(), 0);
}

#[test]
fn template_pays_reward_and_fees() {
    let key = PrivateKey::from_seed(b"owner").ok().unwrap();
    let mut chain = Blockchain::new();
    let g = genesis(REWARD, "A");
    let owned = g.transactions[0].outputs[0].clone();
    let g_hash = g.hash();
    chain.add_block(g).unwrap();
    chain.add_to_mempool(spend(&owned, &key, vec![output(REWARD - 7, 2, "B")])).unwrap();
    let t = chain.build_template("M".to_string(), 5_000 * SECOND, 77).unwrap();
    assert_eq!(t.transactions.len(), 2);
    assert_eq!(t.transactions[0].inputs.len(), 0);
    assert_eq!(t.transactions[0].outputs[0].value, REWARD + 7);
    assert_eq!(t.transactions[0].outputs[0].address, "M");
    assert_eq!(t.header.prev_block_hash, g_hash);
    assert_eq!(t.header.nonce, 0);
    assert_eq!(t.header.merkle_root, merkle_root(&t.transactions));
}

#[test]
fn crash_recovery_replays_to_same_state() {
    let mut chain = Blockchain::new();
    let g = genesis(REWARD, "A");
    let mut prev = g.hash();
    chain.add_block(g).unwrap();
    for i in 1..3i64 {
        let b = mined(prev, (1_000 + 60 * i) * SECOND, vec![coinbase(REWARD, 100 + i as u128, "M")]);
        prev = b.hash();
        chain.add_block(b).unwrap();
    }
    let saved: Vec<Block> = chain.blocks().clone();
    let mut restored = Blockchain::new();
    for b in saved {
        restored.add_block(b).unwrap();
    }
    let hashes = |c: &Blockchain| c.blocks().iter().map(|b| b.hash()).collect::<Vec<_>>();
    assert_eq!(hashes(&chain), hashes(&restored));
    assert_eq!(chain.target(), restored.target());
    let mut a: Vec<_> = chain.utxos().entries().iter().map(|u| (u.hash.num.w0, u.output.value, u.marked)).collect();
    let mut b: Vec<_> = restored.utxos().entries().iter().map(|u| (u.hash.num.w0, u.output.value, u.marked)).collect();
    a.sort();
    b.sort();
    assert_eq!(a, b);
    restored.rebuild_utxos();
    let mut c: Vec<_> = restored.utxos().entries().iter().map(|u| (u.hash.num.w0, u.output.value, u.marked)).collect();
    c.sort();
    assert_eq!(a, c);
}

#[test]
fn retarget_halves_when_blocks_come_twice_as_fast() {
    let t = u(0, 0, 0, 0x0000_1000_0000_0000);
    let ideal = 10 * 50;
    assert_eq!(scale_clamped(&t, ideal / 2, ideal), u(0, 0, 0, 0x0000_0800_0000_0000));
}

#[test]
fn retarget_is_clamped_to_four_times() {
    let t = u(0, 0, 0, 0x0000_1000_0000_0000);
    let ideal = 10 * 50;
    assert_eq!(scale_clamped(&t, ideal * 10, ideal), u(0, 0, 0, 0x0000_4000_0000_0000));
    assert_eq!(scale_clamped(&t, 0, ideal), u(0, 0, 0, 0x0000_0400_0000_0000));
}

#[test]
fn target_unchanged_between_intervals() {
    let mut chain = Blockchain::new();
    chain.add_block(genesis(REWARD, "A")).unwrap();
    assert_eq!(chain.target(), min_target());
}

#[test]
fn block_reward_halves() {
    assert_eq!(calculate_block_reward(0), 5_000_000_000);
    assert_eq!(calculate_block_reward(209), 5_000_000_000);
    assert_eq!(calculate_block_reward(210), 2_500_000_000);
    assert_eq!(calculate_block_reward(64 * 210), 0);
}

#[test]
fn merkle_root_of_one_and_none() {
    let tx = coinbase(1, 1, "A");
    let h = tx.hash();
    assert_eq!(merkle_root(&vec![tx]), h);
    assert_eq!(merkle_root(&vec![]), btcnode::hash::Hash::zero());
}

#[test]
fn merkle_root_duplicates_odd_leaf() {
    let a = coinbase(1, 1, "A");
    let b = coinbase(2, 2, "B");
    let c = coinbase(3, 3, "C");
    let three = merkle_root(&vec![a.clone(), b.clone(), c.clone()]);
    let four = merkle_root(&vec![a, b, c.clone(), c]);
    assert_eq!(three, four);
}

#[test]
fn hashes_differ_by_unique_id() {
    assert_ne!(output(5, 1, "A").hash(), output(5, 2, "A").hash());
    assert_eq!(output(5, 1, "A").hash(), output(5, 1, "A").hash());
}

#[test]
fn hash_target_comparison() {
    let zero = btcnode::hash::Hash::zero();
    assert!(zero.matches_target(&u(0, 0, 0, 0)));
    let h = btcnode::hash::Hash { num: u(1, 0, 0, 0) };
    assert!(!h.matches_target(&u(0, 0, 0, 0)));
    assert!(h.matches_target(&u(0, 1, 0, 0)));
    assert_eq!(zero.as_bytes(), vec![0u8; 32]);
}

#[test]
fn transactions_need_a_leading_coinbase() {
    let utxos = UtxoSet::new();
    assert!(!verify_transactions(&vec![], 0, &utxos));
    assert!(verify_transactions(&vec![coinbase(REWARD, 1, "A")], 0, &utxos));
    assert!(!verify_transactions(&vec![coinbase(REWARD + 1, 1, "A")], 0, &utxos));
}

#[test]
fn majority_height_rule() {
    assert_eq!(select_majority_height(&vec![]), None);
    assert_eq!(select_majority_height(&vec![3, 5, 5]), Some(5));
    assert_eq!(select_majority_height(&vec![1, 2, 2, 3, 3, 3]), Some(3));
    assert_eq!(height_difference(3, 5), -2);
    assert_eq!(height_difference(7, 0), 7);
}

#[test]
fn contact_lookup() {
    let contacts = vec![
        Recipient { name: "alice".to_string(), address: "1A".to_string() },
        Recipient { name: "bob".to_string(), address: "1B".to_string() },
    ];
    assert_eq!(find_contact_by_name(&contacts, &"bob".to_string()), Some(1));
    assert_eq!(find_contact_by_name(&contacts, &"carol".to_string()), None);
    assert_eq!(find_contact_by_address(&contacts, &"1A".to_string()), Some(0));
    let key = Key { public: "a.pub.pem".to_string(), private: "a.priv.cbor".to_string() };
    assert_eq!(key.public, "a.pub.pem");
    assert_eq!(FeeType::Fixed, FeeType::Fixed);
    assert!(matches!(TransactionResult::Rejected("no".to_string()), TransactionResult::Rejected(_)));
}

#[test]
fn gossip_loop_is_suppressed() {
    let mut a = GossipFilter::new("A".to_string());
    let mut b = GossipFilter::new("B".to_string());
    let mut c = GossipFilter::new("C".to_string());
    let e: u128 = 0xE;
    assert!(!a.accept_envelope(&"A".to_string(), e));
    assert!(a.track_if_new(e));
    assert!(b.accept_envelope(&"A".to_string(), e));
    assert!(c.accept_envelope(&"A".to_string(), e));
    assert!(!a.accept_envelope(&"C".to_string(), e));
    assert!(!b.accept_envelope(&"C".to_string(), e));
    assert_eq!(relay_ttl(8), Some(7));
    assert_eq!(relay_ttl(1), None);
}

#[test]
fn fetched_template_names_the_tip() {
    let mut chain = Blockchain::new();
    let g = genesis(REWARD, "A");
    let g_hash = g.hash();
    chain.add_block(g).unwrap();
    let t = chain.fetch_template("M".to_string()).unwrap();
    assert_eq!(t.header.prev_block_hash, g_hash);
    assert_eq!(t.transactions.len(), 1);
    assert_eq!(t.transactions[0].outputs[0].value, REWARD);
    assert_eq!(t.transactions[0].outputs[0].address, "M");
    assert_eq!(t.header.target, chain.target());
}

#[test]
fn unsolicited_responses_close_and_gossip_is_relayed() {
    assert!(closes_connection(MessageKind::UTXOs));
    assert!(closes_connection(MessageKind::AllBlocks));
    assert!(!closes_connection(MessageKind::FetchBlock));
    assert!(gossips_when_accepted(MessageKind::NewBlock));
    assert!(gossips_when_accepted(MessageKind::SubmitTransaction));
    assert!(!gossips_when_accepted(MessageKind::FetchTemplate));
}

#[test]
fn stale_template_is_reported() {
    let mut chain = Blockchain::new();
    chain.add_block(genesis(REWARD, "A")).unwrap();
    let t = chain.build_template("M".to_string(), 5_000 * SECOND, 1).unwrap();
    assert!(chain.validate_template(&t));
    let mut stale = t.clone();
    stale.header.prev_block_hash = btcnode::hash::Hash::zero();
    assert!(!chain.validate_template(&stale));
}

#[test]
fn utxos_for_an_address() {
    let key = PrivateKey::from_seed(b"owner").ok().unwrap();
    let mut chain = Blockchain::new();
    let g = genesis(REWARD, "A");
    let owned = g.transactions[0].outputs[0].clone();
    chain.add_block(g).unwrap();
    assert_eq!(chain.utxos_for_address(&"B".to_string()).len(), 0);
    let mine = chain.utxos_for_address(&"A".to_string());
    assert_eq!(mine.len(), 1);
    assert_eq!(mine[0].0.value, REWARD);
    assert!(!mine[0].1);
    chain.add_to_mempool(spend(&owned, &key, vec![output(10, 2, "B")])).unwrap();
    assert!(chain.utxos_for_address(&"A".to_string())[0].1);
}

#[test]
fn seen_ids_are_counted() {
    let mut f = GossipFilter::new("N".to_string());
    for id in 0..10u128 {
        assert!(f.track_if_new(id));
    }
    for id in 0..10u128 {
        assert!(!f.track_if_new(id));
    }
}
