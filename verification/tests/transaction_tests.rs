//! Coinbase, hashing, signing and verification at the transaction level.

use bchain::transaction::{Transaction, TxMap};
use bchain::tx::{TrancInput, TrancOutput};
use bchain::wallet::{hash_pub_key, Wallet};
use bchain::ChainError;

const ADDRESS: &str = "3HWd4D3Li8bJbonVuNDZnxcRZygozMTriz";

#[test]
fn test_new_coinbase_is_coinbase() {
    let tx = Transaction::new_coinbase(String::from(ADDRESS), String::new()).unwrap();
    assert!(tx.is_coinbase());
    assert_eq!(tx.vout.len(), 1);
    assert_eq!(tx.vout[0].value, 100);
    assert_eq!(tx.vin.len(), 1);
    assert_eq!(tx.vin[0].from, "");
    assert_eq!(tx.vin[0].vout, -1);
    assert_eq!(tx.tranc_id.len(), 64);
}

#[test]
fn test_new_coinbase_bad_address() {
    let r = Transaction::new_coinbase(String::from("not an address"), String::new());
    assert!(matches!(r, Err(ChainError::SerializationError)));
}

#[test]
fn test_coinbase_verifies_regardless_of_signature() {
    // a coinbase transaction passes verification even with garbage bytes
    // stored in its signature field
    let mut tx = Transaction::new_coinbase(String::from(ADDRESS), String::new()).unwrap();
    tx.vin[0].signature = vec![0xde, 0xad, 0xbe, 0xef];
    let empty = TxMap::new();
    assert_eq!(tx.verify(&empty).unwrap(), true);
}

#[test]
fn test_sign_then_verify() {
    let wallet = Wallet::new();
    let mut pkh = wallet.public_key.clone();
    hash_pub_key(&mut pkh);

    // a prior transaction paying the wallet
    let mut prior = Transaction {
        tranc_id: String::new(),
        vin: vec![TrancInput {
            from: String::new(),
            vout: -1,
            signature: vec![],
            pub_key: vec![],
        }],
        vout: vec![TrancOutput { value: 50, pub_key_hash: pkh.clone() }],
    };
    let prior_id = prior.hash();
    prior.tranc_id = prior_id.clone();

    // a transfer spending it
    let mut tx = Transaction {
        tranc_id: String::new(),
        vin: vec![TrancInput {
            from: prior_id.clone(),
            vout: 0,
            signature: vec![],
            pub_key: wallet.public_key.clone(),
        }],
        vout: vec![TrancOutput { value: 50, pub_key_hash: vec![7; 20] }],
    };
    let id = tx.hash();
    tx.tranc_id = id;

    let mut map = TxMap::new();
    map.insert(prior_id.clone(), prior);

    tx.sign(&wallet.secret_key, &map).unwrap();
    assert_eq!(tx.verify(&map).unwrap(), true);

    // flipping any single byte of the signature breaks verification
    for byte in 0..tx.vin[0].signature.len() {
        let mut tampered = tx.clone();
        tampered.vin[0].signature[byte] ^= 0x01;
        assert_eq!(tampered.verify(&map).unwrap(), false);
    }
}

#[test]
fn test_tampered_output_fails_verify() {
    let wallet = Wallet::new();
    let mut pkh = wallet.public_key.clone();
    hash_pub_key(&mut pkh);
    let mut prior = Transaction {
        tranc_id: String::new(),
        vin: vec![TrancInput {
            from: String::new(),
            vout: -1,
            signature: vec![],
            pub_key: vec![],
        }],
        vout: vec![TrancOutput { value: 50, pub_key_hash: pkh.clone() }],
    };
    let prior_id = prior.hash();
    prior.tranc_id = prior_id.clone();
    let mut tx = Transaction {
        tranc_id: String::new(),
        vin: vec![TrancInput {
            from: prior_id.clone(),
            vout: 0,
            signature: vec![],
            pub_key: wallet.public_key.clone(),
        }],
        vout: vec![TrancOutput { value: 50, pub_key_hash: vec![7; 20] }],
    };
    let id = tx.hash();
    tx.tranc_id = id;
    let mut map = TxMap::new();
    map.insert(prior_id.clone(), prior);
    tx.sign(&wallet.secret_key, &map).unwrap();
    assert_eq!(tx.verify(&map).unwrap(), true);

    // tamper with the value after signing
    tx.vout[0].value = 49;
    assert_eq!(tx.verify(&map).unwrap(), false);
}

#[test]
fn test_sign_missing_prior() {
    let wallet = Wallet::new();
    let mut tx = Transaction {
        tranc_id: String::from("aa"),
        vin: vec![TrancInput {
            from: String::from("bb"),
            vout: 0,
            signature: vec![],
            pub_key: wallet.public_key.clone(),
        }],
        vout: vec![],
    };
    let empty = TxMap::new();
    let r = tx.sign(&wallet.secret_key, &empty);
    assert!(matches!(r, Err(ChainError::MissingPriorTransactionError)));
}

#[test]
fn test_trim_copy_clears_signatures() {
    let tx = Transaction {
        tranc_id: String::from("aa"),
        vin: vec![TrancInput {
            from: String::from("bb"),
            vout: 2,
            signature: vec![1, 2, 3],
            pub_key: vec![4, 5],
        }],
        vout: vec![TrancOutput { value: 9, pub_key_hash: vec![6] }],
    };
    let trimmed = tx.trim_copy();
    assert_eq!(trimmed.tranc_id, "aa");
    assert_eq!(trimmed.vin[0].signature, Vec::<u8>::new());
    assert_eq!(trimmed.vin[0].pub_key, vec![4, 5]);
    assert_eq!(trimmed.vout[0].value, 9);
}

#[test]
fn test_can_unlock() {
    let address = ADDRESS;
    let pub_key_hash = bchain::addr::decode_address(address).unwrap();
    let mut clone = pub_key_hash.clone();
    hash_pub_key(&mut clone);
}

#[test]
fn test_decode() {
    let address = "3HWd4D3Li8bJbonVuNDZnxcRZygozMTriz";
    let pub_key_hash = bitcoincash_addr::Address::decode(address).unwrap().body;
    println!("{:?}", pub_key_hash);
}

#[test]
fn test_output_lock_and_unlock() {
    let out = TrancOutput::new(5, String::from(ADDRESS)).unwrap();
    let body = bitcoincash_addr::Address::decode(ADDRESS).unwrap().body;
    assert!(out.can_be_unlock_with(body.clone()));
    assert_eq!(out.value, 5);
    let mut other = out.clone();
    assert!(matches!(
        other.lock("garbage"),
        Err(ChainError::SerializationError)
    ));
}
