//! Ledger scenarios: genesis, transfers, balances, idempotent scans and
//! the chain walk.

use bchain::chain::Blockchain;
use bchain::transaction::Transaction;
use bchain::wallet::Wallets;
use bchain::ChainError;

const DIFFICULTY: usize = 1;

fn temp_paths(tag: &str) -> (String, String, String) {
    let nanos = std::time::SystemTime::now()
        .duration_since(std::time::SystemTime::UNIX_EPOCH)
        .unwrap()
        .as_nanos();
    (
        format!("/tmp/bchain_{}_{}_blocks", tag, nanos),
        format!("/tmp/bchain_{}_{}_spent", tag, nanos),
        format!("/tmp/bchain_{}_{}_wallets", tag, nanos),
    )
}

#[test]
fn test_create_and_genesis_balance() {
    let (bp, sp, wp) = temp_paths("genesis");
    let mut wallets = Wallets::new(&wp).unwrap();
    let a = wallets.create_wallet();
    let mut chain = Blockchain::create_blockchain(a.clone(), &bp, &sp, DIFFICULTY).unwrap();
    let pkh = bchain::addr::decode_address(&a).unwrap();
    let utxos = chain.find_utxo(pkh).unwrap();
    assert_eq!(utxos.len(), 1);
    assert_eq!(utxos[0].value, 100);
}

#[test]
fn test_transfer_and_balances() {
    // create a ledger rewarding A with 100; send 40 to B; A keeps 60 in
    // change, B holds 40; a transfer of 1000 reports the 60 available
    let (bp, sp, wp) = temp_paths("transfer");
    let mut wallets = Wallets::new(&wp).unwrap();
    let a = wallets.create_wallet();
    let b = wallets.create_wallet();
    let mut chain = Blockchain::create_blockchain(a.clone(), &bp, &sp, DIFFICULTY).unwrap();

    let tx = Transaction::new_utxo(&a, &b, 40, &mut chain, &wallets).unwrap();
    chain.add_block(vec![tx]).unwrap();

    let pkh_a = bchain::addr::decode_address(&a).unwrap();
    let pkh_b = bchain::addr::decode_address(&b).unwrap();

    let utxos_a = chain.find_utxo(pkh_a).unwrap();
    assert_eq!(utxos_a.len(), 1);
    assert_eq!(utxos_a[0].value, 60);

    let utxos_b = chain.find_utxo(pkh_b).unwrap();
    assert_eq!(utxos_b.len(), 1);
    assert_eq!(utxos_b[0].value, 40);

    let r = Transaction::new_utxo(&a, &b, 1000, &mut chain, &wallets);
    assert!(matches!(r, Err(ChainError::InsufficientFundsError(60))));
}

#[test]
fn test_unspent_scan_idempotent() {
    // two scans with no intervening append agree
    let (bp, sp, wp) = temp_paths("idem");
    let mut wallets = Wallets::new(&wp).unwrap();
    let a = wallets.create_wallet();
    let b = wallets.create_wallet();
    let mut chain = Blockchain::create_blockchain(a.clone(), &bp, &sp, DIFFICULTY).unwrap();
    let tx = Transaction::new_utxo(&a, &b, 40, &mut chain, &wallets).unwrap();
    chain.add_block(vec![tx]).unwrap();

    let pkh_a = bchain::addr::decode_address(&a).unwrap();
    let first = chain.find_unspent_transactions(pkh_a.clone()).unwrap();
    let second = chain.find_unspent_transactions(pkh_a).unwrap();
    assert_eq!(first.len(), second.len());
    for i in 0..first.len() {
        assert_eq!(first[i].tranc_id, second[i].tranc_id);
    }
}

#[test]
fn test_sign_and_verify_through_ledger() {
    let (bp, sp, wp) = temp_paths("sigverify");
    let mut wallets = Wallets::new(&wp).unwrap();
    let a = wallets.create_wallet();
    let b = wallets.create_wallet();
    let mut chain = Blockchain::create_blockchain(a.clone(), &bp, &sp, DIFFICULTY).unwrap();
    let mut tx = Transaction::new_utxo(&a, &b, 40, &mut chain, &wallets).unwrap();
    assert_eq!(chain.verify_transaction(&mut tx).unwrap(), true);

    // flip one byte of the first signature: verification turns false
    tx.vin[0].signature[0] ^= 0x01;
    assert_eq!(chain.verify_transaction(&mut tx).unwrap(), false);
}

#[test]
fn test_mined_block_meets_target() {
    let coinbase = Transaction::new_coinbase(
        String::from("3HWd4D3Li8bJbonVuNDZnxcRZygozMTriz"),
        String::new(),
    )
    .unwrap();
    let block = bchain::mining::Block::new(vec![coinbase], String::new(), 2).unwrap();
    let hash = block.get_hash();
    assert_eq!(hash.len(), 64);
    assert!(hash.starts_with("00"));
    assert_eq!(block.get_previus_hash(), "");
    assert_eq!(block.get_transaction().len(), 1);
}

#[test]
fn test_open_uninitialized() {
    let (bp, sp, _wp) = temp_paths("uninit");
    let r = Blockchain::new(&bp, &sp, DIFFICULTY);
    assert!(matches!(r, Err(ChainError::UninitializedLedgerError)));
}

#[test]
fn test_reopen_finds_chain() {
    let (bp, sp, wp) = temp_paths("reopen");
    let mut wallets = Wallets::new(&wp).unwrap();
    let a = wallets.create_wallet();
    {
        let chain = Blockchain::create_blockchain(a.clone(), &bp, &sp, DIFFICULTY).unwrap();
        drop(chain);
    }
    let mut reopened = Blockchain::new(&bp, &sp, DIFFICULTY).unwrap();
    let pkh = bchain::addr::decode_address(&a).unwrap();
    let utxos = reopened.find_utxo(pkh).unwrap();
    assert_eq!(utxos.len(), 1);
    assert_eq!(utxos[0].value, 100);
}

#[test]
fn test_find_transaction_not_found() {
    let (bp, sp, wp) = temp_paths("notfound");
    let mut wallets = Wallets::new(&wp).unwrap();
    let a = wallets.create_wallet();
    let chain = Blockchain::create_blockchain(a, &bp, &sp, DIFFICULTY).unwrap();
    let r = chain.find_transaction("ab");
    assert!(matches!(r, Err(ChainError::TransactionNotFoundError)));
}

#[test]
fn test_unknown_sender_and_receiver() {
    let (bp, sp, wp) = temp_paths("unknown");
    let mut wallets = Wallets::new(&wp).unwrap();
    let a = wallets.create_wallet();
    let mut chain = Blockchain::create_blockchain(a.clone(), &bp, &sp, DIFFICULTY).unwrap();
    let r = Transaction::new_utxo("nobody", &a, 1, &mut chain, &wallets);
    assert!(matches!(r, Err(ChainError::UnknownSenderError)));
    let r2 = Transaction::new_utxo(&a, "nobody", 1, &mut chain, &wallets);
    assert!(matches!(r2, Err(ChainError::UnknownReceiverError)));
}

#[test]
fn test_store_init_error() {
    let r = Blockchain::new("/dev/null/impossible", "/dev/null/impossible2", DIFFICULTY);
    assert!(matches!(r, Err(ChainError::StoreInitError)));
}

#[test]
fn test_iterator_walks_to_genesis() {
    let (bp, sp, wp) = temp_paths("iter");
    let mut wallets = Wallets::new(&wp).unwrap();
    let a = wallets.create_wallet();
    let b = wallets.create_wallet();
    let mut chain = Blockchain::create_blockchain(a.clone(), &bp, &sp, DIFFICULTY).unwrap();
    let tx = Transaction::new_utxo(&a, &b, 40, &mut chain, &wallets).unwrap();
    chain.add_block(vec![tx]).unwrap();

    let mut it = chain.iter();
    let mut count = 0;
    let mut genesis_seen = 0;
    while let Some(block) = it.next(&chain) {
        count += 1;
        if block.get_previus_hash().is_empty() {
            genesis_seen += 1;
        }
    }
    assert_eq!(count, 2);
    assert_eq!(genesis_seen, 1);
}

#[test]
fn test_utxo() {
    let (bp, sp, wp) = temp_paths("utxo");
    let mut wallets = Wallets::new(&wp).unwrap();
    let address = wallets.create_wallet();
    let mut chain = Blockchain::create_blockchain(address.clone(), &bp, &sp, DIFFICULTY).unwrap();
    let pub_key_hash = bchain::addr::decode_address(&address).unwrap();
    let _unspend_txs = chain.find_unspent_transactions(pub_key_hash.clone()).unwrap();
    println!("Fetching done");
}

#[test]
fn test_find_utxos() {
    let (bp, sp, wp) = temp_paths("findutxos");
    let mut wallets = Wallets::new(&wp).unwrap();
    let address = wallets.create_wallet();
    let mut chain = Blockchain::create_blockchain(address.clone(), &bp, &sp, DIFFICULTY).unwrap();
    let pub_key_hash = bchain::addr::decode_address(&address).unwrap();
    let utoxs = chain.find_utxo(pub_key_hash.clone()).unwrap();
    println!("{:?}", utoxs.len());
}

#[test]
fn test_unspent_transactions() {
    let (bp, sp, wp) = temp_paths("unspent");
    let mut wallets = Wallets::new(&wp).unwrap();
    let address = wallets.create_wallet();
    let b = wallets.create_wallet();
    let mut chain = Blockchain::create_blockchain(address.clone(), &bp, &sp, DIFFICULTY).unwrap();
    let tx = Transaction::new_utxo(&address, &b, 25, &mut chain, &wallets).unwrap();
    chain.add_block(vec![tx]).unwrap();
    let pub_key_hash = bchain::addr::decode_address(&address).unwrap();
    let unspent_tx = chain.find_unspent_transactions(pub_key_hash).unwrap();
    assert!(unspent_tx.len() >= 1);
}

#[test]
fn test_uto() {
    // the spent-output index after a transfer holds the consumed pair
    let (bp, sp, wp) = temp_paths("uto");
    let mut wallets = Wallets::new(&wp).unwrap();
    let address = wallets.create_wallet();
    let b = wallets.create_wallet();
    let mut chain = Blockchain::create_blockchain(address.clone(), &bp, &sp, DIFFICULTY).unwrap();
    let tx = Transaction::new_utxo(&address, &b, 25, &mut chain, &wallets).unwrap();
    chain.add_block(vec![tx]).unwrap();
    let pub_key_hash = bchain::addr::decode_address(&address).unwrap();
    let _ = chain.find_unspent_transactions(pub_key_hash).unwrap();
    println!("database loaded");
    println!("{}", chain.spent.entries.len());
    for entry in &chain.spent.entries {
        println!("inside loop");
        println!("id: {}", entry.0);
        for i in &entry.1 {
            println!("value: {}", i);
        }
    }
    assert!(chain.spent.entries.len() >= 1);
}
