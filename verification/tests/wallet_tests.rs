//! Wallet creation, lookup and persistence.

use bchain::wallet::{hash_pub_key, Wallet, Wallets};

fn temp_path(tag: &str) -> String {
    let nanos = std::time::SystemTime::now()
        .duration_since(std::time::SystemTime::UNIX_EPOCH)
        .unwrap()
        .as_nanos();
    format!("/tmp/bchain_w_{}_{}", tag, nanos)
}

#[test]
fn test_wallet_key_lengths() {
    let w = Wallet::new();
    assert_eq!(w.secret_key.len(), 64);
    assert_eq!(w.public_key.len(), 32);
}

#[test]
fn test_hash_pub_key_length() {
    let w = Wallet::new();
    let mut h = w.public_key.clone();
    hash_pub_key(&mut h);
    assert_eq!(h.len(), 20);
}

#[test]
fn test_address_round_trips_to_hash() {
    let w = Wallet::new();
    let mut h = w.public_key.clone();
    hash_pub_key(&mut h);
    let address = w.get_address();
    let decoded = bchain::addr::decode_address(&address).unwrap();
    assert_eq!(decoded, h);
}

#[test]
fn test_create_get_and_list() {
    let path = temp_path("createget");
    let mut wallets = Wallets::new(&path).unwrap();
    let a = wallets.create_wallet();
    let b = wallets.create_wallet();
    assert_ne!(a, b);
    let all = wallets.get_all_addresses();
    assert_eq!(all.len(), 2);
    assert!(wallets.get_wallet(&a).is_some());
    assert!(wallets.get_wallet(&b).is_some());
    assert!(wallets.get_wallet("missing").is_none());
}

#[test]
fn test_save_and_reload() {
    let path = temp_path("savereload");
    let secret;
    let a;
    {
        let mut wallets = Wallets::new(&path).unwrap();
        a = wallets.create_wallet();
        secret = wallets.get_wallet(&a).unwrap().secret_key.clone();
        wallets.save_all().unwrap();
        drop(wallets);
    }
    let reloaded = Wallets::new(&path).unwrap();
    let w = reloaded.get_wallet(&a).unwrap();
    assert_eq!(w.secret_key, secret);
}
