//! Round-trip and exact-bytes checks for the deterministic codec.

use bchain::codec::{push_bytes, push_le, read_bytes, read_le, read_str};
use bchain::mining::{decode_block, encode_block, Block};
use bchain::transaction::{encode_tx, read_tx, Transaction};
use bchain::tx::{TrancInput, TrancOutput};

fn sample_tx() -> Transaction {
    Transaction {
        tranc_id: String::from("00ff"),
        vin: vec![
            TrancInput {
                from: String::from("abcdef"),
                vout: -1,
                signature: vec![1, 2, 3],
                pub_key: vec![9, 8],
            },
            TrancInput {
                from: String::new(),
                vout: 7,
                signature: vec![],
                pub_key: vec![5],
            },
        ],
        vout: vec![
            TrancOutput { value: 100, pub_key_hash: vec![0xaa; 20] },
            TrancOutput { value: 0, pub_key_hash: vec![] },
        ],
    }
}

#[test]
fn test_le_round_trip() {
    let mut out: Vec<u8> = Vec::new();
    push_le(&mut out, 0x0102030405060708, 8);
    assert_eq!(out, vec![8, 7, 6, 5, 4, 3, 2, 1]);
    let (v, p) = read_le(&out, 0, 8).unwrap();
    assert_eq!(v, 0x0102030405060708);
    assert_eq!(p, 8);
}

#[test]
fn test_bytes_round_trip() {
    let mut out: Vec<u8> = Vec::new();
    push_bytes(&mut out, &[10, 20, 30]);
    assert_eq!(out, vec![3, 0, 0, 0, 0, 0, 0, 0, 10, 20, 30]);
    let (v, p) = read_bytes(&out, 0).unwrap();
    assert_eq!(v, vec![10, 20, 30]);
    assert_eq!(p, out.len());
}

#[test]
fn test_str_rejects_non_hex() {
    // a length-prefixed "G" (0x47), which is no hex digit
    let bytes = vec![1, 0, 0, 0, 0, 0, 0, 0, 0x47];
    assert!(read_str(&bytes, 0).is_none());
}

#[test]
fn test_tx_round_trip() {
    let tx = sample_tx();
    let encoded = encode_tx(&tx);
    let (back, used) = read_tx(&encoded, 0).unwrap();
    assert_eq!(used, encoded.len());
    assert_eq!(back.tranc_id, tx.tranc_id);
    assert_eq!(back.vin.len(), 2);
    assert_eq!(back.vin[0].from, "abcdef");
    assert_eq!(back.vin[0].vout, -1);
    assert_eq!(back.vin[0].signature, vec![1, 2, 3]);
    assert_eq!(back.vin[0].pub_key, vec![9, 8]);
    assert_eq!(back.vin[1].from, "");
    assert_eq!(back.vin[1].vout, 7);
    assert_eq!(back.vout.len(), 2);
    assert_eq!(back.vout[0].value, 100);
    assert_eq!(back.vout[0].pub_key_hash, vec![0xaa; 20]);
    assert_eq!(back.vout[1].value, 0);
}

#[test]
fn test_block_round_trip() {
    let block = Block {
        timestamp: 123456789012345,
        transactions: vec![sample_tx()],
        prev_block_hash: String::from("aa"),
        hash: String::from("bb"),
        height: 1,
        nonce: -5,
    };
    let encoded = encode_block(&block);
    let back = decode_block(&encoded).unwrap();
    assert_eq!(back.timestamp, block.timestamp);
    assert_eq!(back.prev_block_hash, "aa");
    assert_eq!(back.hash, "bb");
    assert_eq!(back.height, 1);
    assert_eq!(back.nonce, -5);
    assert_eq!(back.transactions.len(), 1);
    assert_eq!(back.transactions[0].tranc_id, "00ff");
}

#[test]
fn test_block_rejects_trailing_bytes() {
    let block = Block {
        timestamp: 7,
        transactions: vec![],
        prev_block_hash: String::new(),
        hash: String::from("cc"),
        height: 1,
        nonce: 0,
    };
    let mut encoded = encode_block(&block);
    encoded.push(0);
    assert!(decode_block(&encoded).is_none());
}
