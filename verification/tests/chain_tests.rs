use mini_chain::block::{Block, TARGET_HEXT};
use mini_chain::blockchain::Blockchain;
use mini_chain::codec::{push_str_enc, push_tx_list, push_le, push_i32};
use mini_chain::errors::LedgerError;
use mini_chain::hashing::sha256_hex;
use mini_chain::transaction::{Transaction, TXInput, TXOutput};

fn temp_path(name: &str) -> String {
    let millis = std::time::SystemTime::now()
        .duration_since(std::time::SystemTime::UNIX_EPOCH)
        .unwrap()
        .as_nanos();
    format!("/tmp/mini_chain_tests/{}_{}", name, millis)
}

fn spend_tx(txid: String, vout: i32, from: &str, value: i32, to: &str) -> Transaction {
    let mut tx = Transaction {
        id: String::new(),
        vin: vec![TXInput { txid, vout, script_sig: from.to_string() }],
        vout: vec![TXOutput { value, script_pub_key: to.to_string() }],
    };
    tx.set_id().unwrap();
    tx
}

#[test]
fn test_add_block() {
    let path = temp_path("open_iterate");
    let created = Blockchain::create_blockchain("someone".to_string(), &path).unwrap();
    drop(created);
    let b = Blockchain::new(&path).unwrap();

    let mut it = b.iter();
    let mut seen = 0;
    while let Some(item) = it.next().unwrap() {
        println!("item {:?}", item);
        seen += 1;
    }
    assert_eq!(seen, 1);
}

#[test]
fn mined_block_hash_recomputes() {
    let block = Block::new_block(Vec::new(), String::new(), 0).unwrap();
    let mut data: Vec<u8> = Vec::new();
    push_str_enc(&mut data, block.prev_hash.as_str());
    push_tx_list(&mut data, &block.transactions);
    push_le(&mut data, block.timestamp, 16);
    push_le(&mut data, TARGET_HEXT as u128, 8);
    push_i32(&mut data, block.nonce);
    let recomputed = sha256_hex(&data);
    assert_eq!(recomputed, block.hash);
}

#[test]
fn mined_block_hash_meets_difficulty() {
    let block = Block::new_block(Vec::new(), String::new(), 0).unwrap();
    assert_eq!(block.hash.len(), 64);
    assert!(block.hash.chars().take(TARGET_HEXT).all(|c| c == '0'));
}

#[test]
fn append_links_to_parent() {
    let path = temp_path("append_links");
    let mut bc = Blockchain::create_blockchain("miner".to_string(), &path).unwrap();
    let genesis_hash = bc.current_hash.clone();
    bc.add_block(Vec::new()).unwrap();
    let mut it = bc.iter();
    let child = it.next().unwrap().unwrap();
    let parent = it.next().unwrap().unwrap();
    assert_eq!(child.prev_hash, parent.hash);
    assert_eq!(parent.hash, genesis_hash);
}

#[test]
fn iteration_yields_all_blocks_ending_at_genesis() {
    let path = temp_path("iterate_all");
    let mut bc = Blockchain::create_blockchain("miner".to_string(), &path).unwrap();
    let n = 2;
    for _ in 0..n {
        bc.add_block(Vec::new()).unwrap();
    }
    let mut it = bc.iter();
    let mut blocks = Vec::new();
    while let Some(b) = it.next().unwrap() {
        blocks.push(b);
    }
    assert_eq!(blocks.len(), n + 1);
    assert_eq!(blocks.last().unwrap().prev_hash, "");
    for w in blocks.windows(2) {
        assert_eq!(w[0].prev_hash, w[1].hash);
    }
}

#[test]
fn coinbase_is_detected() {
    let tx = Transaction::new_coinbase("alice".to_string(), String::new()).unwrap();
    assert!(tx.is_coinbase());
    assert_eq!(tx.vin.len(), 1);
    assert_eq!(tx.vin[0].txid, "");
    assert_eq!(tx.vin[0].vout, -1);
    assert_eq!(tx.vin[0].script_sig, "Reward to alice");
    assert_eq!(tx.vout.len(), 1);
    assert_eq!(tx.vout[0].value, 100);
    assert_eq!(tx.vout[0].script_pub_key, "alice");
}

#[test]
fn coinbase_memo_is_kept_when_given() {
    let tx = Transaction::new_coinbase("alice".to_string(), "hello".to_string()).unwrap();
    assert!(tx.is_coinbase());
    assert_eq!(tx.vin[0].script_sig, "hello");
}

#[test]
fn non_coinbase_shapes_are_rejected() {
    let two_inputs = Transaction {
        id: String::new(),
        vin: vec![
            TXInput { txid: String::new(), vout: -1, script_sig: String::new() },
            TXInput { txid: String::new(), vout: -1, script_sig: String::new() },
        ],
        vout: Vec::new(),
    };
    assert!(!two_inputs.is_coinbase());
    let real_source = Transaction {
        id: String::new(),
        vin: vec![TXInput { txid: "ab".to_string(), vout: -1, script_sig: String::new() }],
        vout: Vec::new(),
    };
    assert!(!real_source.is_coinbase());
    let zero_index = Transaction {
        id: String::new(),
        vin: vec![TXInput { txid: String::new(), vout: 0, script_sig: String::new() }],
        vout: Vec::new(),
    };
    assert!(!zero_index.is_coinbase());
}

#[test]
fn set_id_is_idempotent() {
    let mut tx = Transaction::new_coinbase("alice".to_string(), String::new()).unwrap();
    tx.set_id().unwrap();
    let first = tx.id.clone();
    assert_eq!(first.len(), 64);
    tx.set_id().unwrap();
    assert_eq!(tx.id, first);
}

#[test]
fn utxo_moves_from_alice_to_bob() {
    let path = temp_path("utxo_scenario");
    let mut bc = Blockchain::create_blockchain("alice".to_string(), &path).unwrap();

    let alice_utxo = bc.find_UTXO("alice").unwrap();
    assert_eq!(alice_utxo.len(), 1);
    assert_eq!(alice_utxo[0].value, 100);
    assert_eq!(alice_utxo[0].script_pub_key, "alice");

    let holders = bc.find_unspent_transaction("alice").unwrap();
    assert_eq!(holders.len(), 1);
    let coinbase_id = holders[0].id.clone();
    assert_eq!(coinbase_id.len(), 64);

    let spend = spend_tx(coinbase_id, 0, "alice", 100, "bob");
    bc.add_block(vec![spend]).unwrap();

    assert!(bc.find_UTXO("alice").unwrap().is_empty());
    let bob_utxo = bc.find_UTXO("bob").unwrap();
    assert_eq!(bob_utxo.len(), 1);
    assert_eq!(bob_utxo[0].value, 100);

    assert!(bc.find_unspent_transaction("alice").unwrap().is_empty());
    assert_eq!(bc.find_unspent_transaction("bob").unwrap().len(), 1);
}

#[test]
fn open_missing_chain_fails_with_chain_state_error() {
    let path = temp_path("open_missing");
    let err = match Blockchain::new(&path) {
        Ok(_) => panic!("opening a missing chain must fail"),
        Err(e) => e,
    };
    assert_eq!(err, LedgerError::ChainStateError);
}

#[test]
fn create_twice_fails_with_chain_state_error() {
    let path = temp_path("create_twice");
    let first = Blockchain::create_blockchain("alice".to_string(), &path).unwrap();
    drop(first);
    let err = match Blockchain::create_blockchain("alice".to_string(), &path) {
        Ok(_) => panic!("creating a chain twice must fail"),
        Err(e) => e,
    };
    assert_eq!(err, LedgerError::ChainStateError);
}

#[test]
fn sha256_digest_matches_known_vector() {
    let digest = sha256_hex(&Vec::new());
    assert_eq!(digest, "e3b0c44298fc1c149afbf4c8996fb92427ae41e4649b934ca495991b7852b855");
}

#[test]
fn stored_blocks_survive_reopen() {
    let path = temp_path("reopen");
    let mut bc = Blockchain::create_blockchain("alice".to_string(), &path).unwrap();
    bc.add_block(Vec::new()).unwrap();
    let head = bc.current_hash.clone();
    drop(bc);
    let again = Blockchain::new(&path).unwrap();
    assert_eq!(again.current_hash, head);
    let mut it = again.iter();
    let mut count = 0;
    while let Some(_) = it.next().unwrap() {
        count += 1;
    }
    assert_eq!(count, 2);
}
