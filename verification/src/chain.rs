//! The ledger: a hash-linked chain of blocks in a durable store, with
//! an append operation, a backward iterator, and the UTXO engine that
//! replays the chain to find unspent outputs.

use vstd::prelude::*;
use crate::codec::{hexish, hex_bytes_string, hex_str_bytes, str_bytes};
use crate::errors::ChainError;
use crate::mining::{dec_block, decode_block, encode_block, block_wf, lemma_dec_enc_block, Block, BlockV};
use crate::spent::SpentIndex;
use crate::store::{store_flush, store_get, store_insert, store_open, store_view};
use crate::transaction::{
    clone_txs, is_coinbase_v, signed_tx, tx_verifies, tx_wf, Transaction, TxMap, TxV,
};
use crate::tx::{unlocks, TrancOutput};

verus! {

/// The store key under which the tip's hash is kept: the bytes of
/// `"LAST"`.
pub open spec fn last_key() -> Seq<u8> {
    seq![76u8, 65u8, 83u8, 84u8]
}

/// The bytes of the `"LAST"` key.
fn last_key_bytes() -> (r: Vec<u8>)
    ensures
        r@ == last_key(),
{
    let mut v: Vec<u8> = Vec::new();
    v.push(76);
    v.push(65);
    v.push(83);
    v.push(84);
    proof {
        assert(v@ =~= last_key());
    }
    v
}

/// The store key a block of the walk sits under: the tip's hash for the
/// first block, then each block's `prev_hash`.
pub open spec fn walk_key(tip: Seq<char>, chain: Seq<BlockV>, i: int) -> Seq<char> {
    if i == 0 {
        tip
    } else {
        chain[i - 1].prev_block_hash
    }
}

/// The chain is exactly what the store says: every block decodes from
/// the value under its walk key, and only the last block may be genesis.
pub open spec fn chain_links(view: Map<Seq<u8>, Seq<u8>>, tip: Seq<char>, chain: Seq<BlockV>) -> bool {
    &&& forall|i: int|
        0 <= i < chain.len() ==> view.contains_key(str_bytes(#[trigger] walk_key(tip, chain, i)))
    &&& forall|i: int|
        0 <= i < chain.len() ==> dec_block(view[str_bytes(#[trigger] walk_key(tip, chain, i))])
            == Some(chain[i])
    &&& forall|i: int| 0 <= i < chain.len() - 1 ==> (#[trigger] chain[i]).prev_block_hash.len() > 0
    &&& forall|i: int| 0 <= i < chain.len() ==> hexish((#[trigger] chain[i]).prev_block_hash)
}

/// The walk ends at a genesis block.
pub open spec fn genesis_terminal(chain: Seq<BlockV>) -> bool {
    chain.len() > 0 && chain[chain.len() - 1].prev_block_hash.len() == 0
}

/// The ledger: the tip's hash, the block store, the spent-output index
/// and the proof-of-work difficulty, together with the chain they hold.
pub struct Blockchain {
    pub inst_hash: String,
    pub db: sled::Db,
    pub spent: SpentIndex,
    pub difficulty: usize,
    pub chain: Ghost<Seq<BlockV>>,
}

impl Blockchain {
    /// The ledger invariant: `"LAST"` names the tip, the ghost chain is
    /// exactly the stored walk from the tip down to a genesis block, and
    /// the spent index matches its store.
    pub open spec fn ledger_wf(self) -> bool {
        &&& hexish(self.inst_hash@)
        &&& self.inst_hash@.len() > 0
        &&& store_view(self.db).contains_key(last_key())
        &&& store_view(self.db)[last_key()] == str_bytes(self.inst_hash@)
        &&& !store_view(self.db).contains_key(str_bytes(Seq::<char>::empty()))
        &&& chain_links(store_view(self.db), self.inst_hash@, self.chain@)
        &&& genesis_terminal(self.chain@)
        &&& forall|i: int| 0 <= i < self.chain@.len() ==> block_wf(#[trigger] self.chain@[i])
        &&& self.spent.inv()
    }
}

/// Walks the chain the ledger invariant describes, from the tip down to
/// genesis, returning exactly those blocks.
fn walk_known(db: &sled::Db, tip: &String, Ghost(gchain): Ghost<Seq<BlockV>>) -> (r: Result<
    Vec<Block>,
    ChainError,
>)
    requires
        hexish(tip@),
        chain_links(store_view(*db), tip@, gchain),
        genesis_terminal(gchain),
    ensures
        match r {
            Ok(blocks) => blocks.deep_view() == gchain,
            Err(e) => e == ChainError::StoreReadError,
        },
{
    let mut blocks: Vec<Block> = Vec::new();
    let mut cur: String = tip.clone();
    loop
        invariant
            hexish(cur@),
            chain_links(store_view(*db), tip@, gchain),
            genesis_terminal(gchain),
            blocks.deep_view().len() <= gchain.len(),
            blocks.deep_view() =~= gchain.take(blocks.deep_view().len() as int),
            blocks.deep_view().len() < gchain.len() ==> cur@ == walk_key(
                tip@,
                gchain,
                blocks.deep_view().len() as int,
            ),
            blocks.deep_view().len() == gchain.len() ==> cur@ == Seq::<char>::empty(),
        decreases gchain.len() - blocks.deep_view().len() + 1,
    {
        let ghost k = blocks.deep_view().len() as int;
        if cur.as_str().is_empty() {
            proof {
                if k < gchain.len() {
                    assert(cur@ == walk_key(tip@, gchain, k));
                    assert(hexish(cur@));
                }
                assert(blocks.deep_view() =~= gchain.take(k));
            }
            if blocks.len() == 0 {
                return Err(ChainError::StoreReadError);
            }
            proof {
                assert(blocks.deep_view() =~= gchain);
            }
            return Ok(blocks);
        }
        proof {
            assert(k < gchain.len());
        }
        let key = hex_str_bytes(&cur);
        let bytes = match store_get(db, key.as_slice()) {
            Err(_) => {
                return Err(ChainError::StoreReadError);
            },
            Ok(None) => {
                proof {
                    if k < gchain.len() {
                        assert(store_view(*db).contains_key(str_bytes(walk_key(tip@, gchain, k))));
                        assert(false);
                    }
                    assert(blocks.deep_view() =~= gchain);
                }
                return Ok(blocks);
            },
            Ok(Some(b)) => b,
        };
        let block = match decode_block(bytes.as_slice()) {
            None => {
                proof {
                    if k < gchain.len() {
                        assert(dec_block(store_view(*db)[str_bytes(walk_key(tip@, gchain, k))])
                            == Some(gchain[k]));
                        assert(false);
                    }
                    assert(blocks.deep_view() =~= gchain);
                }
                return Ok(blocks);
            },
            Some(b) => b,
        };
        proof {
            assert(block@ == gchain[k]);
        }
        let prev = block.get_previus_hash();
        let done = prev.as_str().is_empty();
        let ghost dv_old = blocks.deep_view();
        blocks.push(block);
        proof {
            assert(blocks.deep_view() =~= dv_old.push(gchain[k]));
            assert(blocks.deep_view() =~= gchain.take(k + 1));
        }
        if done {
            proof {
                if k + 1 < gchain.len() {
                    assert(gchain[k].prev_block_hash.len() > 0);
                    assert(false);
                }
                assert(blocks.deep_view() =~= gchain);
            }
            return Ok(blocks);
        }
        cur = prev;
        proof {
            if k + 1 >= gchain.len() {
                assert(gchain[gchain.len() - 1].prev_block_hash.len() == 0);
                assert(false);
            }
            assert(cur@ == walk_key(tip@, gchain, k + 1));
        }
    }
}

/// Walks an unknown store from `tip`, following `prev_hash` until a
/// block with no predecessor, a missing entry, or an undecodable entry
/// ends the walk.
fn walk_discover(db: &sled::Db, tip: &String) -> (r: Result<Vec<Block>, ChainError>)
    requires
        hexish(tip@),
    ensures
        match r {
            Ok(blocks) => chain_links(store_view(*db), tip@, blocks.deep_view()) && forall|i: int|
                0 <= i < blocks.deep_view().len() ==> block_wf(#[trigger] blocks.deep_view()[i]),
            Err(e) => e == ChainError::StoreReadError,
        },
{
    let mut blocks: Vec<Block> = Vec::new();
    let mut cur: String = tip.clone();
    let mut fuel: u64 = u64::MAX;
    loop
        invariant
            hexish(cur@),
            chain_links(store_view(*db), tip@, blocks.deep_view()),
            forall|i: int|
                0 <= i < blocks.deep_view().len() ==> block_wf(#[trigger] blocks.deep_view()[i]),
            forall|i: int|
                0 <= i < blocks.deep_view().len() ==> (#[trigger] blocks.deep_view()[i]).prev_block_hash.len()
                    > 0,
            cur@ == walk_key(tip@, blocks.deep_view(), blocks.deep_view().len() as int),
        decreases fuel,
    {
        if fuel == 0 {
            return Err(ChainError::StoreReadError);
        }
        fuel = fuel - 1;
        let key = hex_str_bytes(&cur);
        let bytes = match store_get(db, key.as_slice()) {
            Err(_) => {
                return Err(ChainError::StoreReadError);
            },
            Ok(None) => {
                return Ok(blocks);
            },
            Ok(Some(b)) => b,
        };
        let block = match decode_block(bytes.as_slice()) {
            None => {
                return Ok(blocks);
            },
            Some(b) => b,
        };
        let prev = block.get_previus_hash();
        let done = prev.as_str().is_empty();
        let ghost dv_old = blocks.deep_view();
        let ghost bv = block@;
        blocks.push(block);
        proof {
            assert(blocks.deep_view() =~= dv_old.push(bv));
            let dv = blocks.deep_view();
            let n = dv.len();
            assert forall|i: int|
                0 <= i < n implies store_view(*db).contains_key(
                str_bytes(#[trigger] walk_key(tip@, dv, i)),
            ) && dec_block(store_view(*db)[str_bytes(walk_key(tip@, dv, i))]) == Some(dv[i]) by {
                if i < n - 1 {
                    assert(walk_key(tip@, dv, i) == walk_key(tip@, dv_old, i));
                } else {
                    assert(walk_key(tip@, dv, i) == cur@);
                }
            }
        }
        if done {
            return Ok(blocks);
        }
        cur = prev;
        proof {
            assert(cur@ == walk_key(tip@, blocks.deep_view(), blocks.deep_view().len() as int));
        }
    }
}

/// A restartable backward cursor over the chain: it remembers the hash
/// it will read next.
pub struct BlockchainIterator {
    pub inst_hash: String,
}

impl BlockchainIterator {
    /// The next block of the walk: the block stored under the cursor's
    /// hash, after which the cursor moves to that block's predecessor
    /// (and goes empty at genesis). A missing or undecodable entry ends
    /// the walk.
    pub fn next(&mut self, chain: &Blockchain) -> (r: Option<Block>)
        requires
            hexish(old(self).inst_hash@),
        ensures
            hexish(final(self).inst_hash@),
            chain.ledger_wf() && old(self).inst_hash@.len() == 0 ==> r is None,
            match r {
                Some(b) => {
                    &&& store_view(chain.db).contains_key(str_bytes(old(self).inst_hash@))
                    &&& dec_block(store_view(chain.db)[str_bytes(old(self).inst_hash@)]) == Some(
                        b@,
                    )
                    &&& block_wf(b@)
                    &&& final(self).inst_hash@ == if b@.prev_block_hash.len() == 0 {
                        Seq::<char>::empty()
                    } else {
                        b@.prev_block_hash
                    }
                },
                None => final(self).inst_hash@ == old(self).inst_hash@,
            },
    {
        let key = hex_str_bytes(&self.inst_hash);
        let bytes = match store_get(&chain.db, key.as_slice()) {
            Err(_) => {
                return None;
            },
            Ok(None) => {
                return None;
            },
            Ok(Some(b)) => b,
        };
        let block = match decode_block(bytes.as_slice()) {
            None => {
                return None;
            },
            Some(b) => b,
        };
        proof {
            if chain.ledger_wf() && old(self).inst_hash@.len() == 0 {
                assert(str_bytes(old(self).inst_hash@) =~= str_bytes(Seq::<char>::empty()));
                assert(false);
            }
        }
        if block.prev_block_hash.as_str().is_empty() {
            self.inst_hash = String::new();
        } else {
            self.inst_hash = block.get_previus_hash();
        }
        Some(block)
    }
}


impl Blockchain {
    /// Creates the ledger: mines a genesis block holding one coinbase
    /// transaction rewarding `address`, persists it, and points `"LAST"`
    /// at it. The stores are opened at the two given paths.
    pub fn create_blockchain(
        address: String,
        path: &str,
        spent_path: &str,
        difficulty: usize,
    ) -> (r: Result<Blockchain, ChainError>)
        ensures
            match r {
                Ok(bc) => {
                    &&& bc.ledger_wf()
                    &&& bc.chain@.len() == 1
                    &&& bc.chain@[0].transactions.len() == 1
                    &&& bc.chain@[0].transactions[0] == crate::transaction::coinbase_tx(
                        address@,
                        "Default coinbase"@,
                        crate::addr::address_payload(address@).unwrap(),
                    )
                    &&& is_coinbase_v(bc.chain@[0].transactions[0])
                    &&& bc.chain@[0].transactions[0].vout.len() == 1
                    &&& bc.chain@[0].transactions[0].vout[0].value == 100
                    &&& crate::addr::address_payload(address@) == Some(
                        bc.chain@[0].transactions[0].vout[0].pub_key_hash,
                    )
                    &&& bc.chain@[0].prev_block_hash.len() == 0
                    &&& crate::mining::block_sealed(bc.chain@[0], difficulty)
                    &&& bc.difficulty == difficulty
                },
                Err(e) => e == ChainError::StoreInitError || e == ChainError::StoreReadError
                    || e == ChainError::SerializationError || e == ChainError::ClockError || e
                    == ChainError::MiningError || e == ChainError::StoreWriteError,
            },
    {
        let mut db = match store_open(path) {
            Err(_) => {
                return Err(ChainError::StoreInitError);
            },
            Ok(d) => d,
        };
        let spent_db = match store_open(spent_path) {
            Err(_) => {
                return Err(ChainError::StoreInitError);
            },
            Ok(d) => d,
        };
        let spent = SpentIndex::load(spent_db)?;
        let empty_key: Vec<u8> = Vec::new();
        match store_get(&db, empty_key.as_slice()) {
            Ok(None) => (),
            Ok(Some(_)) => {
                return Err(ChainError::StoreReadError);
            },
            Err(_) => {
                return Err(ChainError::StoreReadError);
            },
        }
        proof {
            assert(str_bytes(Seq::<char>::empty()) =~= empty_key@);
        }
        let coinbase = Transaction::new_coinbase(address, String::from_str("Default coinbase"))?;
        let default_block = match Block::default(coinbase, difficulty) {
            Err(e) => {
                return Err(e);
            },
            Ok(b) => b,
        };
        let hash_str = default_block.get_hash();
        proof {
            assert(block_wf(default_block@));
        }
        let hash_key = hex_str_bytes(&hash_str);
        crate::mining::block_bounds(&default_block);
        let encoded = encode_block(&default_block);
        if store_insert(&mut db, hash_key.as_slice(), encoded.as_slice()).is_err() {
            return Err(ChainError::StoreWriteError);
        }
        let lk = last_key_bytes();
        if store_insert(&mut db, lk.as_slice(), hash_key.as_slice()).is_err() {
            return Err(ChainError::StoreWriteError);
        }
        if store_flush(&mut db).is_err() {
            return Err(ChainError::StoreWriteError);
        }
        let ghost gchain = seq![default_block@];
        let blockchain = Blockchain {
            inst_hash: hash_str,
            db,
            spent,
            difficulty,
            chain: Ghost(gchain),
        };
        proof {
            lemma_dec_enc_block(default_block@);
            let view = store_view(blockchain.db);
            assert(str_bytes(blockchain.inst_hash@).len() == 64);
            assert(last_key().len() == 4);
            assert(view[last_key()] == str_bytes(blockchain.inst_hash@));
            assert(walk_key(blockchain.inst_hash@, gchain, 0) == blockchain.inst_hash@);
            assert(view.contains_key(str_bytes(blockchain.inst_hash@)));
            assert(view[str_bytes(blockchain.inst_hash@)] == encoded@);
            assert forall|i: int|
                0 <= i < gchain.len() implies view.contains_key(
                str_bytes(#[trigger] walk_key(blockchain.inst_hash@, gchain, i)),
            ) && dec_block(view[str_bytes(walk_key(blockchain.inst_hash@, gchain, i))]) == Some(
                gchain[i],
            ) by {
                assert(i == 0);
            }
        }
        Ok(blockchain)
    }

    /// Opens an existing ledger: reads the tip from `"LAST"` and walks
    /// the chain to check that it ends at a genesis block. Fails with
    /// `UninitializedLedgerError` when no `"LAST"` entry exists.
    pub fn new(path: &str, spent_path: &str, difficulty: usize) -> (r: Result<
        Blockchain,
        ChainError,
    >)
        ensures
            match r {
                Ok(bc) => bc.ledger_wf() && bc.difficulty == difficulty,
                Err(e) => e == ChainError::StoreInitError || e == ChainError::StoreReadError || e
                    == ChainError::UninitializedLedgerError,
            },
    {
        let db = match store_open(path) {
            Err(_) => {
                return Err(ChainError::StoreInitError);
            },
            Ok(d) => d,
        };
        let spent_db = match store_open(spent_path) {
            Err(_) => {
                return Err(ChainError::StoreInitError);
            },
            Ok(d) => d,
        };
        let spent = SpentIndex::load(spent_db)?;
        let empty_key: Vec<u8> = Vec::new();
        match store_get(&db, empty_key.as_slice()) {
            Ok(None) => (),
            Ok(Some(_)) => {
                return Err(ChainError::StoreReadError);
            },
            Err(_) => {
                return Err(ChainError::StoreReadError);
            },
        }
        proof {
            assert(str_bytes(Seq::<char>::empty()) =~= empty_key@);
        }
        let lk = last_key_bytes();
        let last_bytes = match store_get(&db, lk.as_slice()) {
            Err(_) => {
                return Err(ChainError::StoreReadError);
            },
            Ok(None) => {
                return Err(ChainError::UninitializedLedgerError);
            },
            Ok(Some(v)) => v,
        };
        let inst_hash = match hex_bytes_string(last_bytes.as_slice()) {
            None => {
                return Err(ChainError::StoreReadError);
            },
            Some(s) => s,
        };
        if inst_hash.as_str().is_empty() {
            return Err(ChainError::StoreReadError);
        }
        let blocks = walk_discover(&db, &inst_hash)?;
        if blocks.len() == 0 {
            return Err(ChainError::StoreReadError);
        }
        let tail_prev_empty = blocks[blocks.len() - 1].prev_block_hash.as_str().is_empty();
        if !tail_prev_empty {
            return Err(ChainError::StoreReadError);
        }
        let ghost gchain = blocks.deep_view();
        proof {
            assert(blocks.deep_view()[blocks@.len() - 1] == blocks@[blocks@.len() - 1]@);
            assert(genesis_terminal(gchain));
        }
        Ok(Blockchain { inst_hash, db, spent, difficulty, chain: Ghost(gchain) })
    }

    /// Mines a block holding `transaction`, linked to the current tip,
    /// persists it under its hash, and points `"LAST"` at it. The new
    /// block stands in front of the chain; nothing else changes.
    pub fn add_block(&mut self, transaction: Vec<Transaction>) -> (r: Result<(), ChainError>)
        requires
            old(self).ledger_wf(),
            transaction@.len() > 0,
            forall|i: int|
                0 <= i < transaction.deep_view().len() ==> tx_wf(
                    #[trigger] transaction.deep_view()[i],
                ),
        ensures
            match r {
                Ok(()) => {
                    &&& final(self).ledger_wf()
                    &&& final(self).chain@.len() == old(self).chain@.len() + 1
                    &&& final(self).chain@.skip(1) == old(self).chain@
                    &&& final(self).chain@[0].transactions == transaction.deep_view()
                    &&& final(self).chain@[0].prev_block_hash == old(self).inst_hash@
                    &&& crate::mining::block_sealed(final(self).chain@[0], old(self).difficulty)
                    &&& final(self).inst_hash@ == final(self).chain@[0].hash
                    &&& store_view(final(self).db) == store_view(old(self).db).insert(
                        str_bytes(final(self).chain@[0].hash),
                        crate::mining::enc_block(final(self).chain@[0]),
                    ).insert(last_key(), str_bytes(final(self).chain@[0].hash))
                    &&& final(self).spent == old(self).spent
                    &&& final(self).difficulty == old(self).difficulty
                },
                Err(e) => e == ChainError::ClockError || e == ChainError::MiningError || e
                    == ChainError::StoreWriteError || e == ChainError::StoreReadError,
            },
    {
        let lasthash = self.inst_hash.clone();
        let new_block = match Block::new(transaction, lasthash, self.difficulty) {
            Err(e) => {
                return Err(e);
            },
            Ok(b) => b,
        };
        let hash_str = new_block.get_hash();
        let hash_key = hex_str_bytes(&hash_str);
        match store_get(&self.db, hash_key.as_slice()) {
            Err(_) => {
                return Err(ChainError::StoreReadError);
            },
            Ok(Some(_)) => {
                return Err(ChainError::StoreWriteError);
            },
            Ok(None) => (),
        }
        crate::mining::block_bounds(&new_block);
        let encoded = encode_block(&new_block);
        if store_insert(&mut self.db, hash_key.as_slice(), encoded.as_slice()).is_err() {
            return Err(ChainError::StoreWriteError);
        }
        if store_insert(&mut self.db, last_key_bytes().as_slice(), hash_key.as_slice()).is_err() {
            return Err(ChainError::StoreWriteError);
        }
        if store_flush(&mut self.db).is_err() {
            return Err(ChainError::StoreWriteError);
        }
        let ghost old_chain = self.chain@;
        let ghost old_tip = old(self).inst_hash@;
        let ghost bv = new_block@;
        proof {
            self.chain@ = seq![bv] + old_chain;
        }
        self.inst_hash = hash_str;
        proof {
            lemma_dec_enc_block(bv);
            let gchain = self.chain@;
            let view = store_view(self.db);
            let view0 = store_view(old(self).db);
            assert(bv.hash.len() == 64);
            assert(str_bytes(bv.hash).len() == 64);
            assert(last_key().len() == 4);
            assert(str_bytes(Seq::<char>::empty()).len() == 0);
            assert(!view.contains_key(str_bytes(Seq::<char>::empty())));
            assert(view == view0.insert(str_bytes(bv.hash), encoded@).insert(
                last_key(),
                str_bytes(bv.hash),
            ));
            assert(gchain.skip(1) =~= old_chain);
            assert forall|i: int|
                0 <= i < gchain.len() implies view.contains_key(
                str_bytes(#[trigger] walk_key(self.inst_hash@, gchain, i)),
            ) && dec_block(view[str_bytes(walk_key(self.inst_hash@, gchain, i))]) == Some(
                gchain[i],
            ) by {
                if i == 0 {
                    assert(walk_key(self.inst_hash@, gchain, 0) == bv.hash);
                    assert(view[str_bytes(bv.hash)] == encoded@);
                } else {
                    let k_old = walk_key(old_tip, old_chain, i - 1);
                    assert(walk_key(self.inst_hash@, gchain, i) == k_old) by {
                        if i == 1 {
                            assert(gchain[0].prev_block_hash == old_tip);
                        } else {
                            assert(gchain[i - 1] == old_chain[i - 2]);
                        }
                    }
                    assert(view0.contains_key(str_bytes(k_old)));
                    assert(dec_block(view0[str_bytes(k_old)]) == Some(old_chain[i - 1]));
                    assert(!view0.contains_key(str_bytes(bv.hash)));
                    assert(str_bytes(k_old) != str_bytes(bv.hash));
                    assert(str_bytes(k_old) != last_key());
                    assert(view[str_bytes(k_old)] == view0[str_bytes(k_old)]);
                    assert(gchain[i] == old_chain[i - 1]);
                }
            }
            assert forall|i: int| 0 <= i < gchain.len() - 1 implies (
            #[trigger] gchain[i]).prev_block_hash.len() > 0 by {
                if i > 0 {
                    assert(gchain[i] == old_chain[i - 1]);
                }
            }
            assert forall|i: int| 0 <= i < gchain.len() implies hexish(
                (#[trigger] gchain[i]).prev_block_hash,
            ) && block_wf(gchain[i]) by {
                if i > 0 {
                    assert(gchain[i] == old_chain[i - 1]);
                    assert(block_wf(old_chain[i - 1]));
                }
            }
            assert(gchain[gchain.len() - 1] == old_chain[old_chain.len() - 1]);
        }
        Ok(())
    }

    /// A fresh cursor starting at the current tip.
    pub fn iter(&self) -> (r: BlockchainIterator)
        requires
            self.ledger_wf(),
        ensures
            r.inst_hash@ == self.inst_hash@,
            hexish(r.inst_hash@),
    {
        BlockchainIterator { inst_hash: self.inst_hash.clone() }
    }
}

// ---------------------------------------------------------------------
// The UTXO model
// ---------------------------------------------------------------------

/// The transactions of a chain, tip first, in block order.
pub open spec fn chain_txs(chain: Seq<BlockV>) -> Seq<TxV>
    decreases chain.len(),
{
    if chain.len() == 0 {
        Seq::empty()
    } else {
        chain[0].transactions + chain_txs(chain.drop_first())
    }
}

/// The spent pairs the inputs of `t` before index `j` mark for an owner
/// of `pkh`: a coinbase transaction marks nothing.
pub open spec fn tx_marks_upto(t: TxV, pkh: Seq<u8>, j: int) -> Set<(Seq<char>, int)>
    decreases j,
{
    if j <= 0 || is_coinbase_v(t) {
        Set::empty()
    } else {
        tx_marks_upto(t, pkh, j - 1).union(
            if unlocks(t.vin[j - 1], pkh) {
                set![(t.vin[j - 1].from, t.vin[j - 1].vout as int)]
            } else {
                Set::empty()
            },
        )
    }
}

/// All the spent pairs the inputs of `t` mark.
pub open spec fn tx_marks(t: TxV, pkh: Seq<u8>) -> Set<(Seq<char>, int)> {
    tx_marks_upto(t, pkh, t.vin.len() as int)
}

/// The spent pairs marked by the first `k` transactions of the scan.
pub open spec fn marks_upto(txs: Seq<TxV>, pkh: Seq<u8>, k: int) -> Set<(Seq<char>, int)>
    decreases k,
{
    if k <= 0 {
        Set::empty()
    } else {
        marks_upto(txs, pkh, k - 1).union(tx_marks(txs[k - 1], pkh))
    }
}

/// The copies of `t` the scan records for its outputs from `j` on: one
/// copy for each output locked to `pkh` and not in `spent`.
pub open spec fn contrib_from(t: TxV, spent: Set<(Seq<char>, int)>, pkh: Seq<u8>, j: int) -> Seq<
    TxV,
>
    decreases t.vout.len() - j,
{
    if j < 0 || j >= t.vout.len() {
        Seq::empty()
    } else {
        (if !spent.contains((t.tranc_id, j)) && t.vout[j].pub_key_hash == pkh {
            seq![t]
        } else {
            Seq::empty()
        }) + contrib_from(t, spent, pkh, j + 1)
    }
}

/// All the copies of `t` the scan records.
pub open spec fn contribution(t: TxV, spent: Set<(Seq<char>, int)>, pkh: Seq<u8>) -> Seq<TxV> {
    contrib_from(t, spent, pkh, 0)
}

/// The unspent-transaction list the scan produces from transaction `k`
/// on, given the starting index `s0`: each transaction's outputs are
/// judged against what was spent before it in the same pass.
pub open spec fn unspent_from(txs: Seq<TxV>, s0: Set<(Seq<char>, int)>, pkh: Seq<u8>, k: int) -> Seq<
    TxV,
>
    decreases txs.len() - k,
{
    if k < 0 || k >= txs.len() {
        Seq::empty()
    } else {
        contribution(txs[k], s0.union(marks_upto(txs, pkh, k)), pkh) + unspent_from(
            txs,
            s0,
            pkh,
            k + 1,
        )
    }
}

/// What one full scan returns.
pub open spec fn unspent_txs_spec(txs: Seq<TxV>, s0: Set<(Seq<char>, int)>, pkh: Seq<u8>) -> Seq<
    TxV,
> {
    unspent_from(txs, s0, pkh, 0)
}

/// Flattening one more block appends its transactions.
proof fn lemma_chain_txs_snoc(chain: Seq<BlockV>, i: int)
    requires
        0 < i <= chain.len(),
    ensures
        chain_txs(chain.take(i)) == chain_txs(chain.take(i - 1)) + chain[i - 1].transactions,
    decreases i,
{
    if i == 1 {
        assert(chain.take(1).drop_first() =~= Seq::<BlockV>::empty());
        assert(chain.take(0) =~= Seq::<BlockV>::empty());
        assert(chain.take(1)[0] == chain[0]);
        assert(chain_txs(Seq::<BlockV>::empty()) =~= Seq::<TxV>::empty());
        assert(chain_txs(chain.take(1)) =~= chain[0].transactions + Seq::<TxV>::empty());
        assert(chain_txs(chain.take(1)) =~= chain[0].transactions);
        assert(chain_txs(chain.take(0)) + chain[0].transactions =~= chain[0].transactions);
    } else {
        lemma_chain_txs_snoc(chain.drop_first(), i - 1);
        assert(chain.take(i).drop_first() =~= chain.drop_first().take(i - 1));
        assert(chain.take(i - 1).drop_first() =~= chain.drop_first().take(i - 2));
        assert(chain.take(i)[0] == chain[0]);
        assert(chain.take(i - 1)[0] == chain[0]);
        assert(chain.drop_first()[i - 2] == chain[i - 1]);
        assert(chain_txs(chain.take(i)) == chain[0].transactions + chain_txs(
            chain.drop_first().take(i - 1),
        ));
        assert(chain[0].transactions + (chain_txs(chain.drop_first().take(i - 2)) + chain[i
            - 1].transactions) =~= (chain[0].transactions + chain_txs(
            chain.drop_first().take(i - 2),
        )) + chain[i - 1].transactions);
        assert(chain_txs(chain.take(i - 1)) == chain[0].transactions + chain_txs(
            chain.drop_first().take(i - 2),
        ));
    }
}

/// The transactions of the walked blocks, as one flat list.
fn flatten_txs(blocks: &Vec<Block>) -> (r: Vec<Transaction>)
    ensures
        r.deep_view() == chain_txs(blocks.deep_view()),
{
    let mut all: Vec<Transaction> = Vec::new();
    let mut i: usize = 0;
    proof {
        assert(all.deep_view() =~= chain_txs(blocks.deep_view().take(0)));
    }
    while i < blocks.len()
        invariant
            0 <= i <= blocks@.len(),
            all.deep_view() == chain_txs(blocks.deep_view().take(i as int)),
        decreases blocks@.len() - i,
    {
        let mut part = clone_txs(&blocks[i].transactions);
        let ghost all_old = all.deep_view();
        all.append(&mut part);
        i = i + 1;
        proof {
            assert(blocks.deep_view()[i - 1] == blocks@[i - 1]@);
            lemma_chain_txs_snoc(blocks.deep_view(), i as int);
            assert(all.deep_view() =~= all_old + blocks.deep_view()[i - 1].transactions);
            assert(all.deep_view() =~= chain_txs(blocks.deep_view().take(i as int)));
        }
    }
    proof {
        assert(blocks.deep_view().take(blocks@.len() as int) =~= blocks.deep_view());
    }
    all
}

/// Records one copy of `tx` for each of its outputs that is locked to
/// `pkh` and not yet marked spent in `spent`.
fn scan_outputs(
    spent: &SpentIndex,
    tx: &Transaction,
    address: &Vec<u8>,
    result: &mut Vec<Transaction>,
)
    ensures
        final(result).deep_view() == old(result).deep_view() + contribution(
            tx@,
            spent.view_set(),
            address@,
        ),
{
    let n = tx.vout.len();
    let mut j: usize = 0;
    while j < n
        invariant
            0 <= j <= n,
            n == tx.vout@.len(),
            old(result).deep_view() + contribution(tx@, spent.view_set(), address@)
                == result.deep_view() + contrib_from(tx@, spent.view_set(), address@, j as int),
        decreases n - j,
    {
        let mut skip_this = false;
        if j <= (i32::MAX as usize) {
            if spent.contains(&tx.tranc_id, j as i32) {
                skip_this = true;
            }
        } else {
            proof {
                lemma_spent_pairs_small(spent.view_set(), (tx@.tranc_id, j as int));
            }
        }
        proof {
            assert(skip_this == spent.view_set().contains((tx@.tranc_id, j as int)));
        }
        let ghost r_old = result.deep_view();
        if !skip_this && tx.vout[j].can_be_unlock_with(crate::tx::clone_bytes(address)) {
            result.push(tx.clone());
            proof {
                assert(result.deep_view() =~= r_old.push(tx@));
            }
        }
        j = j + 1;
        proof {
            assert(tx@.vout[j - 1] == tx.vout@[j - 1]@);
            assert(contrib_from(tx@, spent.view_set(), address@, j - 1) == (if !spent.view_set().contains(
                (tx@.tranc_id, j - 1),
            ) && tx@.vout[j - 1].pub_key_hash == address@ {
                seq![tx@]
            } else {
                Seq::<TxV>::empty()
            }) + contrib_from(tx@, spent.view_set(), address@, j as int));
            assert(old(result).deep_view() + contribution(tx@, spent.view_set(), address@)
                =~= result.deep_view() + contrib_from(tx@, spent.view_set(), address@, j as int));
        }
    }
    proof {
        assert(contrib_from(tx@, spent.view_set(), address@, n as int) =~= Seq::<TxV>::empty());
        assert(final(result).deep_view() =~= old(result).deep_view() + contribution(
            tx@,
            spent.view_set(),
            address@,
        ));
    }
}

/// Every pair a spent index can hold carries an index in `i32` range.
proof fn lemma_spent_pairs_small(s: Set<(Seq<char>, int)>, p: (Seq<char>, int))
    requires
        p.1 > i32::MAX,
    ensures
        forall|entries: Seq<(Seq<char>, Seq<i32>)>|
            s == crate::spent::pairs_of(entries) ==> !s.contains(p),
{
    assert forall|entries: Seq<(Seq<char>, Seq<i32>)>|
        s == crate::spent::pairs_of(entries) implies !s.contains(p) by {
        if crate::spent::pairs_of(entries).contains(p) {
            let i = choose|i: int|
                0 <= i < entries.len() && (#[trigger] entries[i]).0 == p.0
                    && crate::spent::list_has(entries[i].1, p.1);
            let j = choose|j: int|
                0 <= j < entries[i].1.len() && #[trigger] entries[i].1[j] == p.1;
            assert(entries[i].1[j] <= i32::MAX);
            assert(false);
        }
    }
}

/// Marks every prior output consumed by `tx`'s inputs that are
/// unlockable by `address`, persisting each mark at once.
fn mark_inputs(spent: &mut SpentIndex, tx: &Transaction, address: &Vec<u8>) -> (r: Result<
    (),
    ChainError,
>)
    requires
        old(spent).inv(),
        tx_wf(tx@),
    ensures
        match r {
            Ok(()) => final(spent).inv() && final(spent).view_set() == old(spent).view_set().union(
                tx_marks(tx@, address@),
            ),
            Err(e) => e == ChainError::StoreWriteError && old(spent).view_set().subset_of(
                final(spent).view_set(),
            ),
        },
{
    if tx.is_coinbase() {
        proof {
            assert(old(spent).view_set().union(tx_marks(tx@, address@)) =~= old(
                spent,
            ).view_set());
        }
        return Ok(());
    }
    let n = tx.vin.len();
    let mut i: usize = 0;
    while i < n
        invariant
            0 <= i <= n,
            n == tx.vin@.len(),
            tx_wf(tx@),
            !is_coinbase_v(tx@),
            spent.inv(),
            spent.view_set() == old(spent).view_set().union(tx_marks_upto(tx@, address@, i as int)),
        decreases n - i,
    {
        let inp = &tx.vin[i];
        proof {
            assert(tx@.vin[i as int] == tx.vin@[i as int]@);
        }
        let ghost s_before = spent.view_set();
        if inp.can_unlock_output_with(crate::tx::clone_bytes(address)) {
            if spent.mark(&inp.from, inp.vout).is_err() {
                proof {
                    assert forall|p: (Seq<char>, int)|
                        old(spent).view_set().contains(p) implies spent.view_set().contains(
                        p,
                    ) by {
                        assert(s_before.contains(p));
                    }
                }
                return Err(ChainError::StoreWriteError);
            }
            proof {
                assert(spent.view_set() =~= s_before.union(
                    set![(tx@.vin[i as int].from, tx@.vin[i as int].vout as int)],
                ));
            }
        }
        i = i + 1;
        proof {
            assert(spent.view_set() =~= old(spent).view_set().union(
                tx_marks_upto(tx@, address@, i as int),
            ));
        }
    }
    proof {
        assert(tx_marks(tx@, address@) == tx_marks_upto(tx@, address@, n as int));
    }
    Ok(())
}

impl Blockchain {
    /// The scan at the heart of the UTXO engine: walks the chain from
    /// the tip, records each transaction once per output not yet marked
    /// spent and locked to `address`, and durably marks every prior
    /// output consumed by an input unlockable by `address`. The read and
    /// the spent-index writes are one coupled pass.
    pub fn find_unspent_transactions(&mut self, address: Vec<u8>) -> (r: Result<
        Vec<Transaction>,
        ChainError,
    >)
        requires
            old(self).ledger_wf(),
        ensures
            final(self).db == old(self).db,
            final(self).inst_hash == old(self).inst_hash,
            final(self).chain == old(self).chain,
            final(self).difficulty == old(self).difficulty,
            match r {
                Ok(txs) => {
                    &&& final(self).ledger_wf()
                    &&& txs.deep_view() == unspent_txs_spec(
                        chain_txs(old(self).chain@),
                        old(self).spent.view_set(),
                        address@,
                    )
                    &&& final(self).spent.view_set() == old(self).spent.view_set().union(
                        marks_upto(
                            chain_txs(old(self).chain@),
                            address@,
                            chain_txs(old(self).chain@).len() as int,
                        ),
                    )
                },
                Err(e) => (e == ChainError::StoreReadError || e == ChainError::StoreWriteError)
                    && old(self).spent.view_set().subset_of(final(self).spent.view_set()),
            },
    {
        let blocks = match walk_known(&self.db, &self.inst_hash, Ghost(self.chain@)) {
            Err(e) => {
                proof {
                    assert(old(self).spent.view_set().subset_of(self.spent.view_set()));
                }
                return Err(e);
            },
            Ok(b) => b,
        };
        let txs = flatten_txs(&blocks);
        let ghost txsv = txs.deep_view();
        let ghost s0 = self.spent.view_set();
        let ghost pkh = address@;
        proof {
            lemma_chain_txs_wf(old(self).chain@);
        }
        let mut result: Vec<Transaction> = Vec::new();
        let mut k: usize = 0;
        let n = txs.len();
        proof {
            assert(unspent_txs_spec(txsv, s0, pkh) =~= result.deep_view() + unspent_from(
                txsv,
                s0,
                pkh,
                0,
            ));
            assert(s0.union(marks_upto(txsv, pkh, 0)) =~= s0);
        }
        while k < n
            invariant
                0 <= k <= n,
                n == txs@.len(),
                txsv == txs.deep_view(),
                txsv.len() == n,
                forall|q: int| 0 <= q < txsv.len() ==> tx_wf(#[trigger] txsv[q]),
                self.db == old(self).db,
                self.inst_hash == old(self).inst_hash,
                self.chain == old(self).chain,
                self.difficulty == old(self).difficulty,
                self.spent.inv(),
                self.spent.view_set() == s0.union(marks_upto(txsv, pkh, k as int)),
                unspent_txs_spec(txsv, s0, pkh) == result.deep_view() + unspent_from(
                    txsv,
                    s0,
                    pkh,
                    k as int,
                ),
                old(self).ledger_wf(),
                s0 == old(self).spent.view_set(),
                pkh == address@,
            decreases n - k,
        {
            let tx = &txs[k];
            proof {
                assert(txsv[k as int] == txs@[k as int]@);
                assert(tx_wf(tx@));
            }
            let ghost r_old = result.deep_view();
            let ghost s_at_k = self.spent.view_set();
            scan_outputs(&self.spent, tx, &address, &mut result);
            if mark_inputs(&mut self.spent, tx, &address).is_err() {
                proof {
                    assert forall|p: (Seq<char>, int)|
                        old(self).spent.view_set().contains(p) implies self.spent.view_set().contains(
                        p,
                    ) by {
                        assert(s_at_k.contains(p));
                    }
                }
                return Err(ChainError::StoreWriteError);
            }
            k = k + 1;
            proof {
                assert(marks_upto(txsv, pkh, k as int) == marks_upto(txsv, pkh, k - 1).union(
                    tx_marks(txsv[k - 1], pkh),
                ));
                assert(self.spent.view_set() =~= s0.union(marks_upto(txsv, pkh, k as int)));
                assert(unspent_from(txsv, s0, pkh, k - 1) == contribution(
                    txsv[k - 1],
                    s0.union(marks_upto(txsv, pkh, k - 1)),
                    pkh,
                ) + unspent_from(txsv, s0, pkh, k as int));
                assert(unspent_txs_spec(txsv, s0, pkh) =~= result.deep_view() + unspent_from(
                    txsv,
                    s0,
                    pkh,
                    k as int,
                ));
            }
        }
        proof {
            assert(unspent_from(txsv, s0, pkh, n as int) =~= Seq::<TxV>::empty());
            assert(result.deep_view() =~= unspent_txs_spec(txsv, s0, pkh));
        }
        Ok(result)
    }
}

// ---------------------------------------------------------------------
// Queries over the unspent list
// ---------------------------------------------------------------------

/// The outputs of `t` from index `j` on that are locked to `pkh`.
pub open spec fn outs_from(t: TxV, pkh: Seq<u8>, j: int) -> Seq<crate::tx::OutV>
    decreases t.vout.len() - j,
{
    if j < 0 || j >= t.vout.len() {
        Seq::empty()
    } else {
        (if t.vout[j].pub_key_hash == pkh {
            seq![t.vout[j]]
        } else {
            Seq::empty()
        }) + outs_from(t, pkh, j + 1)
    }
}

/// All the `pkh`-locked outputs of the transactions from `k` on.
pub open spec fn utxo_from(txs: Seq<TxV>, pkh: Seq<u8>, k: int) -> Seq<crate::tx::OutV>
    decreases txs.len() - k,
{
    if k < 0 || k >= txs.len() {
        Seq::empty()
    } else {
        outs_from(txs[k], pkh, 0) + utxo_from(txs, pkh, k + 1)
    }
}

/// Collects the `pkh`-locked outputs of one transaction.
fn collect_outs(tx: &Transaction, address: &Vec<u8>, result: &mut Vec<TrancOutput>)
    ensures
        final(result).deep_view() == old(result).deep_view() + outs_from(tx@, address@, 0),
{
    let n = tx.vout.len();
    let mut j: usize = 0;
    while j < n
        invariant
            0 <= j <= n,
            n == tx.vout@.len(),
            old(result).deep_view() + outs_from(tx@, address@, 0) == result.deep_view()
                + outs_from(tx@, address@, j as int),
        decreases n - j,
    {
        let ghost r_old = result.deep_view();
        let out = &tx.vout[j];
        if out.can_be_unlock_with(crate::tx::clone_bytes(address)) {
            result.push(out.clone());
            proof {
                assert(result.deep_view() =~= r_old.push(tx@.vout[j as int]));
            }
        }
        j = j + 1;
        proof {
            assert(tx@.vout[j - 1] == tx.vout@[j - 1]@);
            assert(old(result).deep_view() + outs_from(tx@, address@, 0) =~= result.deep_view()
                + outs_from(tx@, address@, j as int));
        }
    }
    proof {
        assert(outs_from(tx@, address@, n as int) =~= Seq::<crate::tx::OutV>::empty());
        assert(final(result).deep_view() =~= old(result).deep_view() + outs_from(
            tx@,
            address@,
            0,
        ));
    }
}

// ---------------------------------------------------------------------
// The fund-selection scan
// ---------------------------------------------------------------------

/// The value accumulated over one transaction's outputs: each output
/// locked to `pkh` is taken while the total is still below `amount`.
pub open spec fn scan_tx_value(t: TxV, pkh: Seq<u8>, amount: int, acc: int, j: int) -> int
    decreases t.vout.len() - j,
{
    if j < 0 || j >= t.vout.len() {
        acc
    } else {
        scan_tx_value(
            t,
            pkh,
            amount,
            if t.vout[j].pub_key_hash == pkh && acc < amount {
                acc + t.vout[j].value
            } else {
                acc
            },
            j + 1,
        )
    }
}

/// The value the scan accumulates from transaction `k` on.
pub open spec fn scan_value(txs: Seq<TxV>, pkh: Seq<u8>, amount: int, acc: int, k: int) -> int
    decreases txs.len() - k,
{
    if k < 0 || k >= txs.len() {
        acc
    } else {
        scan_value(txs, pkh, amount, scan_tx_value(txs[k], pkh, amount, acc, 0), k + 1)
    }
}

/// What `find_spendable_outputs` accumulates over an unspent list.
pub open spec fn spendable_value(txs: Seq<TxV>, pkh: Seq<u8>, amount: int) -> int {
    scan_value(txs, pkh, amount, 0, 0)
}

/// The total value locked to `pkh` in `t`'s outputs from `j` on.
pub open spec fn locked_total_tx(t: TxV, pkh: Seq<u8>, j: int) -> int
    decreases t.vout.len() - j,
{
    if j < 0 || j >= t.vout.len() {
        0
    } else {
        (if t.vout[j].pub_key_hash == pkh {
            t.vout[j].value as int
        } else {
            0
        }) + locked_total_tx(t, pkh, j + 1)
    }
}

/// The total value locked to `pkh` over the transactions from `k` on.
pub open spec fn locked_total(txs: Seq<TxV>, pkh: Seq<u8>, k: int) -> int
    decreases txs.len() - k,
{
    if k < 0 || k >= txs.len() {
        0
    } else {
        locked_total_tx(txs[k], pkh, 0) + locked_total(txs, pkh, k + 1)
    }
}

proof fn lemma_scan_tx_props(t: TxV, pkh: Seq<u8>, amount: int, acc: int, j: int)
    requires
        tx_wf(t),
        acc >= 0,
    ensures
        acc <= scan_tx_value(t, pkh, amount, acc, j),
        scan_tx_value(t, pkh, amount, acc, j) < amount ==> scan_tx_value(t, pkh, amount, acc, j)
            == acc + locked_total_tx(t, pkh, j),
        acc >= amount ==> scan_tx_value(t, pkh, amount, acc, j) == acc,
    decreases t.vout.len() - j,
{
    if 0 <= j < t.vout.len() {
        assert(out_wf_at(t, j));
        if t.vout[j].pub_key_hash == pkh && acc < amount {
            lemma_scan_tx_props(t, pkh, amount, acc + t.vout[j].value, j + 1);
        } else {
            lemma_scan_tx_props(t, pkh, amount, acc, j + 1);
        }
    }
}

/// An output of a well-formed transaction has a non-negative value.
pub open spec fn out_wf_at(t: TxV, j: int) -> bool {
    0 <= j < t.vout.len() ==> t.vout[j].value >= 0
}

proof fn lemma_scan_props(txs: Seq<TxV>, pkh: Seq<u8>, amount: int, acc: int, k: int)
    requires
        forall|q: int| 0 <= q < txs.len() ==> tx_wf(#[trigger] txs[q]),
        acc >= 0,
    ensures
        acc <= scan_value(txs, pkh, amount, acc, k),
        scan_value(txs, pkh, amount, acc, k) < amount ==> scan_value(txs, pkh, amount, acc, k)
            == acc + locked_total(txs, pkh, k),
        acc >= amount ==> scan_value(txs, pkh, amount, acc, k) == acc,
    decreases txs.len() - k,
{
    if 0 <= k < txs.len() {
        lemma_scan_tx_props(txs[k], pkh, amount, acc, 0);
        lemma_scan_props(txs, pkh, amount, scan_tx_value(txs[k], pkh, amount, acc, 0), k + 1);
        if acc >= amount {
            lemma_scan_props(txs, pkh, amount, acc, k + 1);
        }
    }
}

/// Fund selection never reports less than the requested amount unless
/// the whole value locked to the key hash over the unspent list is less
/// than that amount: whatever it accumulates short of `amount` is the
/// full locked total.
pub proof fn lemma_spendable_sufficient(txs: Seq<TxV>, pkh: Seq<u8>, amount: int)
    requires
        forall|q: int| 0 <= q < txs.len() ==> tx_wf(#[trigger] txs[q]),
    ensures
        spendable_value(txs, pkh, amount) < amount ==> spendable_value(txs, pkh, amount)
            == locked_total(txs, pkh, 0),
        spendable_value(txs, pkh, amount) >= 0,
{
    lemma_scan_props(txs, pkh, amount, 0, 0);
}

/// Transactions of the list bearing one id are one transaction: true of
/// every scan result, whose duplicate entries are copies of one value.
pub open spec fn uniform_ids(txs: Seq<TxV>) -> bool {
    forall|a: int, b: int|
        0 <= a < txs.len() && 0 <= b < txs.len() && (#[trigger] txs[a]).tranc_id == (
        #[trigger] txs[b]).tranc_id ==> txs[a] == txs[b]
}

/// The value a pick names: the referenced output of the transaction of
/// the list bearing the pick's id.
pub open spec fn pick_value(txs: Seq<TxV>, id: Seq<char>, v: int) -> int {
    match find_tx_spec(txs, id) {
        Some(t) => if 0 <= v < t.vout.len() {
            t.vout[v].value as int
        } else {
            0
        },
        None => 0,
    }
}

/// The sum of one entry's picked values, from index `x` on.
pub open spec fn entry_sum(txs: Seq<TxV>, id: Seq<char>, l: Seq<i32>, x: int) -> int
    decreases l.len() - x,
{
    if x < 0 || x >= l.len() {
        0
    } else {
        pick_value(txs, id, l[x] as int) + entry_sum(txs, id, l, x + 1)
    }
}

/// The sum of all selected outputs' values, from entry `e` on.
pub open spec fn sel_sum(txs: Seq<TxV>, sel: Seq<(Seq<char>, Seq<i32>)>, e: int) -> int
    decreases sel.len() - e,
{
    if e < 0 || e >= sel.len() {
        0
    } else {
        entry_sum(txs, sel[e].0, sel[e].1, 0) + sel_sum(txs, sel, e + 1)
    }
}

/// One more pick in an entry adds its value to the entry's sum.
proof fn lemma_entry_sum_snoc(txs: Seq<TxV>, id: Seq<char>, l: Seq<i32>, v: i32, x: int)
    requires
        0 <= x <= l.len(),
    ensures
        entry_sum(txs, id, l.push(v), x) == entry_sum(txs, id, l, x) + pick_value(
            txs,
            id,
            v as int,
        ),
    decreases l.len() - x,
{
    if x < l.len() {
        lemma_entry_sum_snoc(txs, id, l, v, x + 1);
        assert(l.push(v)[x] == l[x]);
    } else {
        assert(l.push(v)[x] == v);
        assert(entry_sum(txs, id, l.push(v), x + 1) == 0);
        assert(entry_sum(txs, id, l, x) == 0);
    }
}

/// One more entry adds its sum to the selection's sum.
proof fn lemma_sel_sum_snoc(
    txs: Seq<TxV>,
    sel: Seq<(Seq<char>, Seq<i32>)>,
    en: (Seq<char>, Seq<i32>),
    e: int,
)
    requires
        0 <= e <= sel.len(),
    ensures
        sel_sum(txs, sel.push(en), e) == sel_sum(txs, sel, e) + entry_sum(txs, en.0, en.1, 0),
    decreases sel.len() - e,
{
    if e < sel.len() {
        lemma_sel_sum_snoc(txs, sel, en, e + 1);
        assert(sel.push(en)[e] == sel[e]);
    } else {
        assert(sel.push(en)[e] == en);
        assert(sel_sum(txs, sel.push(en), e + 1) == 0);
        assert(sel_sum(txs, sel, e) == 0);
    }
}

/// A list holding a transaction with `id` finds one bearing `id`.
proof fn lemma_find_tx_some(txs: Seq<TxV>, id: Seq<char>)
    requires
        exists|k: int| 0 <= k < txs.len() && (#[trigger] txs[k]).tranc_id == id,
    ensures
        find_tx_spec(txs, id) matches Some(t) && t.tranc_id == id && exists|q: int|
            0 <= q < txs.len() && #[trigger] txs[q] == t,
    decreases txs.len(),
{
    let k = choose|k: int| 0 <= k < txs.len() && (#[trigger] txs[k]).tranc_id == id;
    if txs[0].tranc_id == id {
        assert(txs[0] == txs[0]);
    } else {
        assert(txs.drop_first()[k - 1] == txs[k]);
        lemma_find_tx_some(txs.drop_first(), id);
        let t = find_tx_spec(txs.drop_first(), id).unwrap();
        let q = choose|q: int| 0 <= q < txs.drop_first().len() && #[trigger] txs.drop_first()[q] == t;
        assert(txs[q + 1] == t);
    }
}

/// One selected output index: it names a `pkh`-locked output of a
/// transaction in the unspent list.
pub open spec fn pick_valid(id: Seq<char>, v: int, txs: Seq<TxV>, pkh: Seq<u8>) -> bool {
    exists|q: int|
        0 <= q < txs.len() && (#[trigger] txs[q]).tranc_id == id && 0 <= v < txs[q].vout.len()
            && txs[q].vout[v].pub_key_hash == pkh
}

/// Every index of every entry of a selection is a valid pick.
pub open spec fn sel_valid(
    sel: Seq<(Seq<char>, Seq<i32>)>,
    txs: Seq<TxV>,
    pkh: Seq<u8>,
) -> bool {
    forall|e: int, x: int|
        #![trigger sel[e].1[x]]
        0 <= e < sel.len() && 0 <= x < sel[e].1.len() ==> pick_valid(
            sel[e].0,
            sel[e].1[x] as int,
            txs,
            pkh,
        )
}

// ---------------------------------------------------------------------
// Transaction lookup
// ---------------------------------------------------------------------

/// The first transaction of the list bearing `id`.
pub open spec fn find_tx_spec(txs: Seq<TxV>, id: Seq<char>) -> Option<TxV>
    decreases txs.len(),
{
    if txs.len() == 0 {
        None
    } else if txs[0].tranc_id == id {
        Some(txs[0])
    } else {
        find_tx_spec(txs.drop_first(), id)
    }
}

/// A lookup skips any prefix with no match.
proof fn lemma_find_tx_prefix(txs: Seq<TxV>, id: Seq<char>, k: int)
    requires
        0 <= k <= txs.len(),
        forall|q: int| 0 <= q < k ==> (#[trigger] txs[q]).tranc_id != id,
    ensures
        find_tx_spec(txs, id) == find_tx_spec(txs.skip(k), id),
    decreases k,
{
    if k > 0 {
        lemma_find_tx_prefix(txs.drop_first(), id, k - 1);
        assert(txs.drop_first().skip(k - 1) =~= txs.skip(k));
        assert(txs[0].tranc_id != id);
    } else {
        assert(txs.skip(0) =~= txs);
    }
}

/// Every prior transaction an input set names, keyed by the id it was
/// found under; inputs whose reference resolves to nothing add no entry.
pub open spec fn prior_map_spec(txs: Seq<TxV>, vin: Seq<crate::tx::InV>) -> Map<Seq<char>, TxV>
    decreases vin.len(),
{
    if vin.len() == 0 {
        Map::empty()
    } else {
        match find_tx_spec(txs, vin.last().from) {
            Some(t) => prior_map_spec(txs, vin.drop_last()).insert(t.tranc_id, t),
            None => prior_map_spec(txs, vin.drop_last()),
        }
    }
}

/// Every input's reference resolves in the chain.
pub open spec fn all_priors_found(txs: Seq<TxV>, vin: Seq<crate::tx::InV>) -> bool {
    forall|k: int| 0 <= k < vin.len() ==> find_tx_spec(txs, (#[trigger] vin[k]).from) is Some
}

impl Blockchain {
    /// The first transaction of the chain walk bearing `id`.
    pub fn find_transaction(&self, id: &str) -> (r: Result<Transaction, ChainError>)
        requires
            self.ledger_wf(),
        ensures
            match r {
                Ok(t) => find_tx_spec(chain_txs(self.chain@), id@) == Some(t@) && tx_wf(t@),
                Err(e) => (e == ChainError::TransactionNotFoundError && find_tx_spec(
                    chain_txs(self.chain@),
                    id@,
                ) is None) || e == ChainError::StoreReadError,
            },
    {
        let blocks = match walk_known(&self.db, &self.inst_hash, Ghost(self.chain@)) {
            Err(e) => {
                return Err(e);
            },
            Ok(b) => b,
        };
        let txs = flatten_txs(&blocks);
        let ghost txsv = txs.deep_view();
        proof {
            lemma_chain_txs_wf(self.chain@);
        }
        let id_s: String = id.to_owned();
        let n = txs.len();
        let mut k: usize = 0;
        while k < n
            invariant
                0 <= k <= n,
                n == txs@.len(),
                txsv == txs.deep_view(),
                txsv == chain_txs(self.chain@),
                id_s@ == id@,
                forall|q: int| 0 <= q < txsv.len() ==> tx_wf(#[trigger] txsv[q]),
                forall|q: int| 0 <= q < k ==> (#[trigger] txsv[q]).tranc_id != id@,
            decreases n - k,
        {
            let t = &txs[k];
            proof {
                assert(txsv[k as int] == txs@[k as int]@);
            }
            if t.tranc_id == id_s {
                proof {
                    lemma_find_tx_prefix(txsv, id@, k as int);
                    assert(txsv.skip(k as int)[0] == txsv[k as int]);
                    assert(txsv.skip(k as int).len() > 0);
                }
                return Ok(t.clone());
            }
            k = k + 1;
        }
        proof {
            lemma_find_tx_prefix(txsv, id@, n as int);
            assert(txsv.skip(n as int) =~= Seq::<TxV>::empty());
        }
        Err(ChainError::TransactionNotFoundError)
    }

    /// Resolves every prior transaction the inputs of `tx` reference.
    fn get_previus_txs(&self, tx: &Transaction) -> (r: Result<TxMap, ChainError>)
        requires
            self.ledger_wf(),
        ensures
            match r {
                Ok(m) => all_priors_found(chain_txs(self.chain@), tx@.vin) && m@ == prior_map_spec(
                    chain_txs(self.chain@),
                    tx@.vin,
                ),
                Err(e) => (e == ChainError::PriorTransactionLookupError && !all_priors_found(
                    chain_txs(self.chain@),
                    tx@.vin,
                )) || e == ChainError::StoreReadError,
            },
    {
        let mut prev_txs = TxMap::new();
        let n = tx.vin.len();
        let mut k: usize = 0;
        proof {
            assert(tx@.vin.take(0) =~= Seq::<crate::tx::InV>::empty());
        }
        while k < n
            invariant
                0 <= k <= n,
                n == tx.vin@.len(),
                self.ledger_wf(),
                forall|q: int|
                    0 <= q < k ==> find_tx_spec(
                        chain_txs(self.chain@),
                        (#[trigger] tx@.vin[q]).from,
                    ) is Some,
                prev_txs@ == prior_map_spec(chain_txs(self.chain@), tx@.vin.take(k as int)),
            decreases n - k,
        {
            let vin = &tx.vin[k];
            proof {
                assert(tx@.vin[k as int] == tx.vin@[k as int]@);
            }
            let prev_tx = match self.find_transaction(vin.from.as_str()) {
                Err(ChainError::StoreReadError) => {
                    return Err(ChainError::StoreReadError);
                },
                Err(_) => {
                    return Err(ChainError::PriorTransactionLookupError);
                },
                Ok(t) => t,
            };
            let key = prev_tx.tranc_id.clone();
            prev_txs.insert(key, prev_tx);
            k = k + 1;
            proof {
                assert(tx@.vin.take(k as int).drop_last() =~= tx@.vin.take(k - 1));
                assert(tx@.vin.take(k as int).last() == tx@.vin[k - 1]);
            }
        }
        proof {
            assert(tx@.vin.take(n as int) =~= tx@.vin);
        }
        Ok(prev_txs)
    }

    /// Resolves the priors, then signs every input of `tx` in place.
    pub fn sign_transaction(&self, tx: &mut Transaction, private_key: &[u8]) -> (r: Result<
        (),
        ChainError,
    >)
        requires
            self.ledger_wf(),
            tx_wf(old(tx)@),
            private_key@.len() == 64,
        ensures
            match r {
                Ok(()) => {
                    &&& all_priors_found(chain_txs(self.chain@), old(tx)@.vin)
                    &&& if is_coinbase_v(old(tx)@) {
                        final(tx)@ == old(tx)@
                    } else {
                        final(tx)@ == signed_tx(
                            old(tx)@,
                            prior_map_spec(chain_txs(self.chain@), old(tx)@.vin),
                            private_key@,
                        )
                    }
                },
                Err(e) => {
                    &&& final(tx)@ == old(tx)@
                    &&& ((e == ChainError::PriorTransactionLookupError && !all_priors_found(
                        chain_txs(self.chain@),
                        old(tx)@.vin,
                    )) || e == ChainError::StoreReadError || e
                        == ChainError::MissingPriorTransactionError)
                },
            },
    {
        let prev_txs = match self.get_previus_txs(tx) {
            Err(e) => {
                return Err(e);
            },
            Ok(m) => m,
        };
        match tx.sign(private_key, &prev_txs) {
            Err(e) => Err(e),
            Ok(()) => Ok(()),
        }
    }

    /// Resolves the priors, then checks every input's signature of `tx`:
    /// a coinbase transaction passes trivially; an invalid signature is
    /// the value `false`, not an error.
    pub fn verify_transaction(&self, tx: &mut Transaction) -> (r: Result<bool, ChainError>)
        requires
            self.ledger_wf(),
            tx_wf(old(tx)@),
        ensures
            final(tx)@ == old(tx)@,
            match r {
                Ok(b) => {
                    &&& all_priors_found(chain_txs(self.chain@), old(tx)@.vin)
                    &&& if is_coinbase_v(old(tx)@) {
                        b == true
                    } else {
                        b == tx_verifies(
                            old(tx)@,
                            prior_map_spec(chain_txs(self.chain@), old(tx)@.vin),
                        )
                    }
                },
                Err(e) => (e == ChainError::PriorTransactionLookupError && !all_priors_found(
                    chain_txs(self.chain@),
                    old(tx)@.vin,
                )) || e == ChainError::StoreReadError || e
                    == ChainError::MissingPriorTransactionError,
            },
    {
        let prev_txs = match self.get_previus_txs(tx) {
            Err(e) => {
                return Err(e);
            },
            Ok(m) => m,
        };
        tx.verify(&prev_txs)
    }

    /// All currently unspent outputs locked to `address`: the outputs of
    /// the recorded unspent transactions that carry exactly that hash.
    pub fn find_utxo(&mut self, address: Vec<u8>) -> (r: Result<Vec<TrancOutput>, ChainError>)
        requires
            old(self).ledger_wf(),
        ensures
            final(self).db == old(self).db,
            final(self).inst_hash == old(self).inst_hash,
            final(self).chain == old(self).chain,
            final(self).difficulty == old(self).difficulty,
            match r {
                Ok(outs) => final(self).ledger_wf() && outs.deep_view() == utxo_from(
                    unspent_txs_spec(
                        chain_txs(old(self).chain@),
                        old(self).spent.view_set(),
                        address@,
                    ),
                    address@,
                    0,
                ),
                Err(e) => e == ChainError::StoreReadError || e == ChainError::StoreWriteError,
            },
    {
        let address2 = crate::tx::clone_bytes(&address);
        let unspend_txs = match self.find_unspent_transactions(address) {
            Err(e) => {
                return Err(e);
            },
            Ok(t) => t,
        };
        let ghost uv = unspend_txs.deep_view();
        let mut utxos: Vec<TrancOutput> = Vec::new();
        let n = unspend_txs.len();
        let mut k: usize = 0;
        proof {
            assert(utxos.deep_view() + utxo_from(uv, address2@, 0) =~= utxo_from(uv, address2@, 0));
        }
        while k < n
            invariant
                0 <= k <= n,
                n == unspend_txs@.len(),
                uv == unspend_txs.deep_view(),
                utxos.deep_view() + utxo_from(uv, address2@, k as int) == utxo_from(
                    uv,
                    address2@,
                    0,
                ),
            decreases n - k,
        {
            let tx = &unspend_txs[k];
            proof {
                assert(uv[k as int] == unspend_txs@[k as int]@);
            }
            let ghost before = utxos.deep_view();
            collect_outs(tx, &address2, &mut utxos);
            k = k + 1;
            proof {
                assert(utxos.deep_view() + utxo_from(uv, address2@, k as int) =~= utxo_from(
                    uv,
                    address2@,
                    0,
                ));
            }
        }
        proof {
            assert(utxo_from(uv, address2@, n as int) =~= Seq::<crate::tx::OutV>::empty());
            assert(utxos.deep_view() =~= utxo_from(uv, address2@, 0));
        }
        Ok(utxos)
    }
}

impl Blockchain {
    /// Scans the unspent transactions for outputs locked to `address`,
    /// accumulating value and recording `(id, index)` picks until the
    /// total reaches `amount`; whatever was accumulated is returned even
    /// when the chain runs out first. The accumulated total equals the
    /// sum of the selected outputs' values whenever transactions of the
    /// list bearing one id are one transaction — `lemma_unspent_uniform`
    /// reduces that hypothesis to the chain's own transaction list. As in
    /// the scan of `unspent_transactions`, a transaction recurs in the
    /// list once per qualifying output, so its outputs are revisited per
    /// copy.
    pub fn find_spendable_outputs(&mut self, address: Vec<u8>, amount: i32) -> (r: Result<
        (i64, Vec<(String, Vec<i32>)>),
        ChainError,
    >)
        requires
            old(self).ledger_wf(),
        ensures
            final(self).db == old(self).db,
            final(self).inst_hash == old(self).inst_hash,
            final(self).chain == old(self).chain,
            final(self).difficulty == old(self).difficulty,
            match r {
                Ok(p) => {
                    &&& final(self).ledger_wf()
                    &&& p.0 == spendable_value(
                        unspent_txs_spec(
                            chain_txs(old(self).chain@),
                            old(self).spent.view_set(),
                            address@,
                        ),
                        address@,
                        amount as int,
                    )
                    &&& 0 <= p.0
                    &&& p.0 > 0 ==> p.0 < amount + 0x8000_0000
                    &&& sel_valid(
                        p.1.deep_view(),
                        unspent_txs_spec(
                            chain_txs(old(self).chain@),
                            old(self).spent.view_set(),
                            address@,
                        ),
                        address@,
                    )
                    &&& forall|e: int|
                        0 <= e < p.1.deep_view().len() ==> hexish(
                            (#[trigger] p.1.deep_view()[e]).0,
                        )
                    &&& uniform_ids(
                        unspent_txs_spec(
                            chain_txs(old(self).chain@),
                            old(self).spent.view_set(),
                            address@,
                        ),
                    ) ==> p.0 == sel_sum(
                        unspent_txs_spec(
                            chain_txs(old(self).chain@),
                            old(self).spent.view_set(),
                            address@,
                        ),
                        p.1.deep_view(),
                        0,
                    )
                    &&& amount <= 0 ==> p.0 == 0 && p.1.deep_view().len() == 0
                },
                Err(e) => e == ChainError::StoreReadError || e == ChainError::StoreWriteError,
            },
    {
        let address2 = crate::tx::clone_bytes(&address);
        let unspent_txs = match self.find_unspent_transactions(address) {
            Err(e) => {
                return Err(e);
            },
            Ok(t) => t,
        };
        let ghost uv = unspent_txs.deep_view();
        let ghost pkh = address2@;
        let ghost am = amount as int;
        proof {
            lemma_chain_txs_wf(old(self).chain@);
            crate::chain::lemma_unspent_wf(
                chain_txs(old(self).chain@),
                old(self).spent.view_set(),
                pkh,
                0,
            );
            assert(sel_valid(Seq::<(Seq<char>, Seq<i32>)>::empty(), uv, pkh));
        }
        let mut unspent_outputs: Vec<(String, Vec<i32>)> = Vec::new();
        let mut accumulated: i64 = 0;
        let n = unspent_txs.len();
        let mut k: usize = 0;
        proof {
            assert(unspent_outputs.deep_view() =~= Seq::<(Seq<char>, Seq<i32>)>::empty());
        }
        while k < n
            invariant
                0 <= k <= n,
                n == unspent_txs@.len(),
                uv == unspent_txs.deep_view(),
                uv == unspent_txs_spec(
                    chain_txs(old(self).chain@),
                    old(self).spent.view_set(),
                    pkh,
                ),
                pkh == address2@,
                pkh == address@,
                am == amount as int,
                self.db == old(self).db,
                self.inst_hash == old(self).inst_hash,
                self.chain == old(self).chain,
                self.difficulty == old(self).difficulty,
                self.ledger_wf(),
                forall|q: int| 0 <= q < uv.len() ==> tx_wf(#[trigger] uv[q]),
                0 <= accumulated,
                accumulated > 0 ==> accumulated < am + 0x8000_0000,
                scan_value(uv, pkh, am, accumulated as int, k as int) == spendable_value(
                    uv,
                    pkh,
                    am,
                ),
                sel_valid(unspent_outputs.deep_view(), uv, pkh),
                forall|e: int|
                    0 <= e < unspent_outputs.deep_view().len() ==> hexish(
                        (#[trigger] unspent_outputs.deep_view()[e]).0,
                    ),
                uniform_ids(uv) ==> accumulated as int == sel_sum(
                    uv,
                    unspent_outputs.deep_view(),
                    0,
                ),
                am <= 0 ==> accumulated == 0 && unspent_outputs.deep_view().len() == 0,
            decreases n - k,
        {
            let tx = &unspent_txs[k];
            proof {
                assert(uv[k as int] == unspent_txs@[k as int]@);
                assert(tx_wf(tx@));
                assert(scan_value(uv, pkh, am, accumulated as int, k as int) == scan_value(
                    uv,
                    pkh,
                    am,
                    scan_tx_value(uv[k as int], pkh, am, accumulated as int, 0),
                    k + 1,
                ));
            }
            let m = tx.vout.len();
            let mut j: usize = 0;
            while j < m
                invariant
                    0 <= j <= m,
                    k < n,
                    m == tx.vout@.len(),
                    n == unspent_txs@.len(),
                    uv == unspent_txs.deep_view(),
                    uv == unspent_txs_spec(
                        chain_txs(old(self).chain@),
                        old(self).spent.view_set(),
                        pkh,
                    ),
                    tx == &unspent_txs@[k as int],
                    tx@ == uv[k as int],
                    tx_wf(tx@),
                    pkh == address2@,
                    pkh == address@,
                    am == amount as int,
                    self.db == old(self).db,
                    self.inst_hash == old(self).inst_hash,
                    self.chain == old(self).chain,
                    self.difficulty == old(self).difficulty,
                    self.ledger_wf(),
                    forall|q: int| 0 <= q < uv.len() ==> tx_wf(#[trigger] uv[q]),
                    0 <= accumulated,
                    accumulated > 0 ==> accumulated < am + 0x8000_0000,
                    scan_value(
                        uv,
                        pkh,
                        am,
                        scan_tx_value(tx@, pkh, am, accumulated as int, j as int),
                        k + 1,
                    ) == spendable_value(uv, pkh, am),
                    sel_valid(unspent_outputs.deep_view(), uv, pkh),
                    forall|e: int|
                        0 <= e < unspent_outputs.deep_view().len() ==> hexish(
                            (#[trigger] unspent_outputs.deep_view()[e]).0,
                        ),
                    uniform_ids(uv) ==> accumulated as int == sel_sum(
                        uv,
                        unspent_outputs.deep_view(),
                        0,
                    ),
                    am <= 0 ==> accumulated == 0 && unspent_outputs.deep_view().len() == 0,
                decreases m - j,
            {
                proof {
                    assert(tx@.vout[j as int] == tx.vout@[j as int]@);
                }
                let lockable = tx.vout[j].can_be_unlock_with(crate::tx::clone_bytes(&address2));
                if lockable && accumulated < amount as i64 {
                    if j > i32::MAX as usize {
                        // an output index beyond i32 range cannot be referenced
                        return Err(ChainError::StoreReadError);
                    }
                    proof {
                        assert(pick_valid(tx@.tranc_id, j as int, uv, pkh)) by {
                            assert(uv[k as int].tranc_id == tx@.tranc_id);
                            assert(uv[k as int].vout[j as int].pub_key_hash == pkh);
                        }
                        assert((j as i32) as int == j as int);
                        assert(hexish(tx@.tranc_id));
                        if uniform_ids(uv) {
                            assert(uv[k as int].tranc_id == tx@.tranc_id);
                            lemma_find_tx_some(uv, tx@.tranc_id);
                            let t = find_tx_spec(uv, tx@.tranc_id).unwrap();
                            let q = choose|q: int| 0 <= q < uv.len() && #[trigger] uv[q] == t;
                            assert(uv[q].tranc_id == uv[k as int].tranc_id);
                            assert(t == uv[k as int]);
                            assert(pick_value(uv, tx@.tranc_id, j as int) == tx@.vout[j as int].value as int);
                        }
                    }
                    push_pick(&mut unspent_outputs, &tx.tranc_id, j as i32, Ghost(uv), Ghost(pkh));
                    accumulated = accumulated + (tx.vout[j].value as i64);
                    if accumulated >= amount as i64 {
                        proof {
                            lemma_scan_tx_saturated(tx@, pkh, am, accumulated as int, j + 1);
                            lemma_scan_saturated(uv, pkh, am, accumulated as int, k + 1);
                        }
                        return Ok((accumulated, unspent_outputs));
                    }
                }
                j = j + 1;
            }
            proof {
                assert(scan_tx_value(tx@, pkh, am, accumulated as int, m as int) == accumulated as int);
            }
            k = k + 1;
        }
        proof {
            assert(scan_value(uv, pkh, am, accumulated as int, n as int) == accumulated as int);
        }
        Ok((accumulated, unspent_outputs))
    }
}

/// Appends one `(id, index)` pick, merging it into the last entry when
/// that entry already carries the same id; validity of the selection
/// against the scanned list is preserved.
fn push_pick(
    sel: &mut Vec<(String, Vec<i32>)>,
    id: &String,
    v: i32,
    Ghost(uv): Ghost<Seq<TxV>>,
    Ghost(pkh): Ghost<Seq<u8>>,
)
    requires
        sel_valid(old(sel).deep_view(), uv, pkh),
        pick_valid(id@, v as int, uv, pkh),
        hexish(id@),
        forall|e: int|
            0 <= e < old(sel).deep_view().len() ==> hexish((#[trigger] old(sel).deep_view()[e]).0),
    ensures
        sel_valid(final(sel).deep_view(), uv, pkh),
        forall|e: int|
            0 <= e < final(sel).deep_view().len() ==> hexish(
                (#[trigger] final(sel).deep_view()[e]).0,
            ),
        sel_sum(uv, final(sel).deep_view(), 0) == sel_sum(uv, old(sel).deep_view(), 0)
            + pick_value(uv, id@, v as int),
        final(sel).deep_view().len() >= 1,
{
    let mut merged = false;
    if sel.len() > 0 {
        let lastpos = sel.len() - 1;
        let pair = &sel[lastpos];
        if pair.0 == *id {
            merged = true;
        }
    }
    let ghost dv0 = sel.deep_view();
    if merged {
        let lastpos = sel.len() - 1;
        let (key, mut l) = sel.remove(lastpos);
        let ghost lv0 = l@;
        proof {
            assert(lv0 =~= dv0[dv0.len() - 1].1);
            assert(dv0[dv0.len() - 1].0 == id@);
        }
        l.push(v);
        sel.push((key, l));
        proof {
            let dv2 = sel.deep_view();
            assert(dv2 =~~= dv0.take(dv0.len() - 1).push((dv0[dv0.len() - 1].0, lv0.push(v))));
            assert forall|e: int, x: int|
                #![trigger dv2[e].1[x]]
                0 <= e < dv2.len() && 0 <= x < dv2[e].1.len() implies pick_valid(
                dv2[e].0,
                dv2[e].1[x] as int,
                uv,
                pkh,
            ) by {
                if e < dv2.len() - 1 {
                    assert(dv2[e] == dv0[e]);
                    assert(pick_valid(dv0[e].0, dv0[e].1[x] as int, uv, pkh));
                } else {
                    if x < lv0.len() {
                        let e0 = dv0.len() - 1;
                        assert(dv2[e].0 == dv0[e0].0 && dv2[e].1[x] == dv0[e0].1[x]);
                        assert(pick_valid(dv0[e0].0, dv0[e0].1[x] as int, uv, pkh));
                    } else {
                        assert(dv2[e].0 == id@ && dv2[e].1[x] == v);
                    }
                }
            }
            assert forall|e: int| 0 <= e < dv2.len() implies hexish((#[trigger] dv2[e]).0) by {
                if e < dv2.len() - 1 {
                    assert(dv2[e] == dv0[e]);
                } else {
                    assert(dv2[e].0 == dv0[dv0.len() - 1].0);
                }
            }
            let head = dv0.take(dv0.len() - 1);
            let last0 = dv0[dv0.len() - 1];
            assert(dv0 =~~= head.push(last0));
            lemma_sel_sum_snoc(uv, head, last0, 0);
            lemma_sel_sum_snoc(uv, head, (last0.0, lv0.push(v)), 0);
            lemma_entry_sum_snoc(uv, last0.0, lv0, v, 0);
            assert(last0.0 == id@);
            assert(sel_sum(uv, dv2, 0) == sel_sum(uv, dv0, 0) + pick_value(uv, id@, v as int));
        }
    } else {
        let mut l: Vec<i32> = Vec::new();
        l.push(v);
        let ghost lv = l@;
        sel.push((id.clone(), l));
        proof {
            let dv2 = sel.deep_view();
            assert(dv2 =~~= dv0.push((id@, lv)));
            assert forall|e: int, x: int|
                #![trigger dv2[e].1[x]]
                0 <= e < dv2.len() && 0 <= x < dv2[e].1.len() implies pick_valid(
                dv2[e].0,
                dv2[e].1[x] as int,
                uv,
                pkh,
            ) by {
                if e < dv2.len() - 1 {
                    assert(dv2[e] == dv0[e]);
                    assert(pick_valid(dv0[e].0, dv0[e].1[x] as int, uv, pkh));
                } else {
                    assert(dv2[e].0 == id@ && dv2[e].1[x] == v);
                }
            }
            assert forall|e: int| 0 <= e < dv2.len() implies hexish((#[trigger] dv2[e]).0) by {
                if e < dv2.len() - 1 {
                    assert(dv2[e] == dv0[e]);
                } else {
                    assert(dv2[e].0 == id@);
                }
            }
            lemma_sel_sum_snoc(uv, dv0, (id@, lv), 0);
            assert(entry_sum(uv, id@, lv, 0) == pick_value(uv, id@, v as int) + entry_sum(
                uv,
                id@,
                lv,
                1,
            ));
            assert(entry_sum(uv, id@, lv, 1) == 0);
            assert(sel_sum(uv, dv2, 0) == sel_sum(uv, dv0, 0) + pick_value(uv, id@, v as int));
        }
    }
}

/// A saturated scan adds nothing more within one transaction.
proof fn lemma_scan_tx_saturated(t: TxV, pkh: Seq<u8>, amount: int, acc: int, j: int)
    requires
        acc >= amount,
    ensures
        scan_tx_value(t, pkh, amount, acc, j) == acc,
    decreases t.vout.len() - j,
{
    if 0 <= j < t.vout.len() {
        lemma_scan_tx_saturated(t, pkh, amount, acc, j + 1);
    }
}

/// A saturated scan adds nothing more over the remaining transactions.
proof fn lemma_scan_saturated(txs: Seq<TxV>, pkh: Seq<u8>, amount: int, acc: int, k: int)
    requires
        acc >= amount,
    ensures
        scan_value(txs, pkh, amount, acc, k) == acc,
    decreases txs.len() - k,
{
    if 0 <= k < txs.len() {
        lemma_scan_tx_saturated(txs[k], pkh, amount, acc, 0);
        lemma_scan_saturated(txs, pkh, amount, acc, k + 1);
    }
}

/// Every transaction the scan records comes from the scanned list, so
/// it is well formed when the list is.
pub proof fn lemma_unspent_wf(txs: Seq<TxV>, s0: Set<(Seq<char>, int)>, pkh: Seq<u8>, k: int)
    requires
        forall|q: int| 0 <= q < txs.len() ==> tx_wf(#[trigger] txs[q]),
    ensures
        forall|q: int|
            0 <= q < unspent_from(txs, s0, pkh, k).len() ==> tx_wf(
                #[trigger] unspent_from(txs, s0, pkh, k)[q],
            ),
    decreases txs.len() - k,
{
    if 0 <= k < txs.len() {
        lemma_unspent_wf(txs, s0, pkh, k + 1);
        lemma_contrib_element(txs[k], s0.union(marks_upto(txs, pkh, k)), pkh, 0);
        assert forall|q: int|
            0 <= q < unspent_from(txs, s0, pkh, k).len() implies tx_wf(
            #[trigger] unspent_from(txs, s0, pkh, k)[q],
        ) by {
            let c = contribution(txs[k], s0.union(marks_upto(txs, pkh, k)), pkh);
            if q < c.len() {
                assert(unspent_from(txs, s0, pkh, k)[q] == c[q]);
                assert(c[q] == txs[k]);
            } else {
                assert(unspent_from(txs, s0, pkh, k)[q] == unspent_from(txs, s0, pkh, k + 1)[q
                    - c.len()]);
            }
        }
    }
}

/// Every element the output scan of one transaction records is that
/// transaction itself.
proof fn lemma_contrib_element(t: TxV, spent: Set<(Seq<char>, int)>, pkh: Seq<u8>, j: int)
    ensures
        forall|q: int|
            0 <= q < contrib_from(t, spent, pkh, j).len() ==> #[trigger] contrib_from(
                t,
                spent,
                pkh,
                j,
            )[q] == t,
    decreases t.vout.len() - j,
{
    if 0 <= j < t.vout.len() {
        lemma_contrib_element(t, spent, pkh, j + 1);
        let whole = contrib_from(t, spent, pkh, j);
        let tail = contrib_from(t, spent, pkh, j + 1);
        assert forall|q: int| 0 <= q < whole.len() implies #[trigger] whole[q] == t by {
            let head_len = whole.len() - tail.len();
            if q >= head_len {
                assert(whole[q] == tail[q - head_len]);
            }
        }
    }
}

// ---------------------------------------------------------------------
// Laws: chain integrity and scan idempotence
// ---------------------------------------------------------------------

/// Chain integrity: starting from the tip named by `"LAST"` and
/// following `prev_hash`, the walk reaches exactly one block with an
/// empty `prev_hash` — the last — and no other.
pub proof fn lemma_chain_integrity(view: Map<Seq<u8>, Seq<u8>>, tip: Seq<char>, chain: Seq<BlockV>)
    requires
        chain_links(view, tip, chain),
        genesis_terminal(chain),
    ensures
        forall|i: int|
            0 <= i < chain.len() ==> (((#[trigger] chain[i]).prev_block_hash.len() == 0) <==> i
                == chain.len() - 1),
{
}

/// Every spend of `pkh` sits strictly before the transaction it spends
/// in the tip-first scan order: references point backward in time.
pub open spec fn spends_precede(txs: Seq<TxV>, pkh: Seq<u8>) -> bool {
    forall|m: int, k: int, j: int|
        #![trigger txs[m].vin[j], txs[k]]
        0 <= k <= m < txs.len() && 0 <= j < txs[m].vin.len() && !is_coinbase_v(txs[m]) && unlocks(
            txs[m].vin[j],
            pkh,
        ) ==> txs[m].vin[j].from != txs[k].tranc_id
}

/// Membership in one transaction's marks: pairs of its unlockable,
/// non-coinbase inputs.
proof fn lemma_tx_marks_member(t: TxV, pkh: Seq<u8>, j: int, p: (Seq<char>, int))
    requires
        0 <= j <= t.vin.len(),
    ensures
        tx_marks_upto(t, pkh, j).contains(p) <==> (!is_coinbase_v(t) && exists|jj: int|
            0 <= jj < j && unlocks(#[trigger] t.vin[jj], pkh) && p == (
                t.vin[jj].from,
                t.vin[jj].vout as int,
            )),
    decreases j,
{
    if j > 0 && !is_coinbase_v(t) {
        lemma_tx_marks_member(t, pkh, j - 1, p);
        if tx_marks_upto(t, pkh, j).contains(p) && !tx_marks_upto(t, pkh, j - 1).contains(p) {
            assert(unlocks(t.vin[j - 1], pkh) && p == (t.vin[j - 1].from, t.vin[j - 1].vout as int));
        }
    }
}

/// Membership in the scan's marks up to `k`: some earlier transaction
/// marked the pair.
proof fn lemma_marks_member(txs: Seq<TxV>, pkh: Seq<u8>, k: int, p: (Seq<char>, int))
    requires
        0 <= k <= txs.len(),
    ensures
        marks_upto(txs, pkh, k).contains(p) <==> exists|m: int|
            0 <= m < k && tx_marks(#[trigger] txs[m], pkh).contains(p),
    decreases k,
{
    if k > 0 {
        lemma_marks_member(txs, pkh, k - 1, p);
        if marks_upto(txs, pkh, k).contains(p) && !marks_upto(txs, pkh, k - 1).contains(p) {
            assert(tx_marks(txs[k - 1], pkh).contains(p));
        }
        if exists|m: int| 0 <= m < k && tx_marks(#[trigger] txs[m], pkh).contains(p) {
            let m = choose|m: int| 0 <= m < k && tx_marks(#[trigger] txs[m], pkh).contains(p);
            if m == k - 1 {
                assert(marks_upto(txs, pkh, k).contains(p));
            }
        }
    }
}

/// Two spent sets that agree on every pair naming `t`'s own id give the
/// same output scan.
proof fn lemma_contrib_agree(
    t: TxV,
    s1: Set<(Seq<char>, int)>,
    s2: Set<(Seq<char>, int)>,
    pkh: Seq<u8>,
    j: int,
)
    requires
        forall|v: int| s1.contains((t.tranc_id, v)) == s2.contains((t.tranc_id, v)),
    ensures
        contrib_from(t, s1, pkh, j) == contrib_from(t, s2, pkh, j),
    decreases t.vout.len() - j,
{
    if 0 <= j < t.vout.len() {
        lemma_contrib_agree(t, s1, s2, pkh, j + 1);
        assert(s1.contains((t.tranc_id, j)) == s2.contains((t.tranc_id, j)));
    }
}

/// Starting the scan from the index a full pass leaves behind changes
/// nothing, provided spends precede what they spend.
proof fn lemma_unspent_from_eq(txs: Seq<TxV>, s0: Set<(Seq<char>, int)>, pkh: Seq<u8>, k: int)
    requires
        spends_precede(txs, pkh),
        0 <= k <= txs.len(),
    ensures
        unspent_from(txs, s0.union(marks_upto(txs, pkh, txs.len() as int)), pkh, k)
            == unspent_from(txs, s0, pkh, k),
    decreases txs.len() - k,
{
    if k < txs.len() {
        lemma_unspent_from_eq(txs, s0, pkh, k + 1);
        let big = marks_upto(txs, pkh, txs.len() as int);
        let s1 = s0.union(marks_upto(txs, pkh, k));
        let s2 = s0.union(big).union(marks_upto(txs, pkh, k));
        let t = txs[k];
        assert forall|v: int| s1.contains((t.tranc_id, v)) == s2.contains((t.tranc_id, v)) by {
            if s2.contains((t.tranc_id, v)) && !s1.contains((t.tranc_id, v)) {
                assert(big.contains((t.tranc_id, v)));
                lemma_marks_member(txs, pkh, txs.len() as int, (t.tranc_id, v));
                let m = choose|m: int|
                    0 <= m < txs.len() && tx_marks(#[trigger] txs[m], pkh).contains(
                        (t.tranc_id, v),
                    );
                lemma_tx_marks_member(txs[m], pkh, txs[m].vin.len() as int, (t.tranc_id, v));
                let jj = choose|jj: int|
                    0 <= jj < txs[m].vin.len() && unlocks(#[trigger] txs[m].vin[jj], pkh) && (
                    t.tranc_id,
                    v,
                ) == (txs[m].vin[jj].from, txs[m].vin[jj].vout as int);
                if m >= k {
                    assert(txs[m].vin[jj].from != txs[k].tranc_id);
                    assert(false);
                }
                lemma_marks_member(txs, pkh, k, (t.tranc_id, v));
                assert(marks_upto(txs, pkh, k).contains((t.tranc_id, v)));
                assert(false);
            }
        }
        lemma_contrib_agree(t, s1, s2, pkh, 0);
        assert(s0.union(big).union(marks_upto(txs, pkh, k)) =~= s2);
        assert(contribution(t, s0.union(big).union(marks_upto(txs, pkh, k)), pkh) == contribution(
            t,
            s1,
            pkh,
        ));
    }
}

/// Idempotence: with no intervening append, a second scan — started
/// from the spent index the first scan left behind — returns the same
/// unspent list, and the index has converged, provided every spend sits
/// strictly before the transaction it spends in scan order.
pub proof fn lemma_unspent_idempotent(txs: Seq<TxV>, s0: Set<(Seq<char>, int)>, pkh: Seq<u8>)
    requires
        spends_precede(txs, pkh),
    ensures
        unspent_txs_spec(txs, s0.union(marks_upto(txs, pkh, txs.len() as int)), pkh)
            == unspent_txs_spec(txs, s0, pkh),
        s0.union(marks_upto(txs, pkh, txs.len() as int)).union(
            marks_upto(txs, pkh, txs.len() as int),
        ) == s0.union(marks_upto(txs, pkh, txs.len() as int)),
{
    lemma_unspent_from_eq(txs, s0, pkh, 0);
    assert(s0.union(marks_upto(txs, pkh, txs.len() as int)).union(
        marks_upto(txs, pkh, txs.len() as int),
    ) =~= s0.union(marks_upto(txs, pkh, txs.len() as int)));
}

/// The total value a transfer's inputs name: each input's `(from, vout)`
/// pick, valued against the scanned list, from input `k` on.
pub open spec fn vin_picks_value(vin: Seq<crate::tx::InV>, txs: Seq<TxV>, k: int) -> int
    decreases vin.len() - k,
{
    if k < 0 || k >= vin.len() {
        0
    } else {
        pick_value(txs, vin[k].from, vin[k].vout as int) + vin_picks_value(vin, txs, k + 1)
    }
}

/// One more input adds its pick's value.
proof fn lemma_vin_picks_snoc(vin: Seq<crate::tx::InV>, x: crate::tx::InV, txs: Seq<TxV>, k: int)
    requires
        0 <= k <= vin.len(),
    ensures
        vin_picks_value(vin.push(x), txs, k) == vin_picks_value(vin, txs, k) + pick_value(
            txs,
            x.from,
            x.vout as int,
        ),
    decreases vin.len() - k,
{
    if k < vin.len() {
        lemma_vin_picks_snoc(vin, x, txs, k + 1);
        assert(vin.push(x)[k] == vin[k]);
    } else {
        assert(vin.push(x)[k] == x);
        assert(vin_picks_value(vin.push(x), txs, k + 1) == 0);
        assert(vin_picks_value(vin, txs, k) == 0);
    }
}

/// Input lists that agree on every reference name the same total.
proof fn lemma_vin_picks_congruent(
    v1: Seq<crate::tx::InV>,
    v2: Seq<crate::tx::InV>,
    txs: Seq<TxV>,
    k: int,
)
    requires
        v1.len() == v2.len(),
        forall|j: int|
            0 <= j < v1.len() ==> (#[trigger] v1[j]).from == v2[j].from && v1[j].vout
                == v2[j].vout,
    ensures
        vin_picks_value(v1, txs, k) == vin_picks_value(v2, txs, k),
    decreases v1.len() - k,
{
    if 0 <= k < v1.len() {
        lemma_vin_picks_congruent(v1, v2, txs, k + 1);
    }
}

/// Every transaction the scan records is a transaction of the scanned
/// list.
proof fn lemma_unspent_element(txs: Seq<TxV>, s0: Set<(Seq<char>, int)>, pkh: Seq<u8>, k: int)
    ensures
        forall|q: int|
            0 <= q < unspent_from(txs, s0, pkh, k).len() ==> exists|m: int|
                0 <= m < txs.len() && #[trigger] unspent_from(txs, s0, pkh, k)[q] == txs[m],
    decreases txs.len() - k,
{
    if 0 <= k < txs.len() {
        lemma_unspent_element(txs, s0, pkh, k + 1);
        lemma_contrib_element(txs[k], s0.union(marks_upto(txs, pkh, k)), pkh, 0);
        assert forall|q: int|
            0 <= q < unspent_from(txs, s0, pkh, k).len() implies exists|m: int|
            0 <= m < txs.len() && #[trigger] unspent_from(txs, s0, pkh, k)[q] == txs[m] by {
            let c = contribution(txs[k], s0.union(marks_upto(txs, pkh, k)), pkh);
            if q < c.len() {
                assert(unspent_from(txs, s0, pkh, k)[q] == c[q]);
                assert(c[q] == txs[k]);
            } else {
                assert(unspent_from(txs, s0, pkh, k)[q] == unspent_from(txs, s0, pkh, k + 1)[q
                    - c.len()]);
            }
        }
    }
}

/// The scan result inherits id-uniformity from the scanned list: its
/// duplicate entries are copies of one transaction, so when the chain's
/// transactions bear distinct ids (one value per id), so does every
/// unspent list drawn from them.
pub proof fn lemma_unspent_uniform(txs: Seq<TxV>, s0: Set<(Seq<char>, int)>, pkh: Seq<u8>)
    requires
        uniform_ids(txs),
    ensures
        uniform_ids(unspent_txs_spec(txs, s0, pkh)),
{
    lemma_unspent_element(txs, s0, pkh, 0);
    let u = unspent_txs_spec(txs, s0, pkh);
    assert forall|a: int, b: int|
        0 <= a < u.len() && 0 <= b < u.len() && (#[trigger] u[a]).tranc_id == (
        #[trigger] u[b]).tranc_id implies u[a] == u[b] by {
        let ma = choose|m: int| 0 <= m < txs.len() && u[a] == #[trigger] txs[m];
        let mb = choose|m: int| 0 <= m < txs.len() && u[b] == #[trigger] txs[m];
        assert(txs[ma].tranc_id == txs[mb].tranc_id);
    }
}

/// The total the fund scan accumulates for the owner of `pk` against a
/// requested amount.
pub open spec fn sender_spendable(bc: Blockchain, pk: Seq<u8>, amount: int) -> int {
    spendable_value(
        unspent_txs_spec(
            chain_txs(bc.chain@),
            bc.spent.view_set(),
            crate::wallet::pub_key_hash_of(pk),
        ),
        crate::wallet::pub_key_hash_of(pk),
        amount,
    )
}

impl Transaction {
    /// Builds and signs a transfer of `amount` units from one known
    /// address to another: funds are gathered from the sender's unspent
    /// outputs, one input per selected output — the inputs' picks carry
    /// exactly the accumulated value — and the receiver gets one output
    /// of `amount`, with any excess returned to the sender as change,
    /// after which every input is signed with the sender's key.
    pub fn new_utxo(
        from: &str,
        to: &str,
        amount: i32,
        blockchain: &mut Blockchain,
        wallets: &crate::wallet::Wallets,
    ) -> (r: Result<Transaction, ChainError>)
        requires
            old(blockchain).ledger_wf(),
            wallets.wallets_wf(),
            amount >= 0,
        ensures
            final(blockchain).db == old(blockchain).db,
            final(blockchain).inst_hash == old(blockchain).inst_hash,
            final(blockchain).chain == old(blockchain).chain,
            final(blockchain).difficulty == old(blockchain).difficulty,
            (forall|i: int|
                0 <= i < wallets.wallets@.len() ==> (#[trigger] wallets.wallets@[i]).0@ != from@)
                ==> r == Result::<Transaction, ChainError>::Err(ChainError::UnknownSenderError),
            ((exists|i: int|
                0 <= i < wallets.wallets@.len() && (#[trigger] wallets.wallets@[i]).0@ == from@)
                && (forall|i: int|
                0 <= i < wallets.wallets@.len() ==> (#[trigger] wallets.wallets@[i]).0@ != to@))
                ==> r == Result::<Transaction, ChainError>::Err(ChainError::UnknownReceiverError),
            match r {
                Ok(t) => {
                    &&& tx_wf(t@)
                    &&& !is_coinbase_v(t@)
                    &&& crate::addr::address_payload(to@) is Some
                    &&& 1 <= t@.vout.len() <= 2
                    &&& t@.vout[0].value == amount
                    &&& t@.vout[0].pub_key_hash == crate::addr::address_payload(to@).unwrap()
                    &&& t@.vout.len() == 2 ==> crate::addr::address_payload(from@) is Some
                        && t@.vout[1].pub_key_hash == crate::addr::address_payload(from@).unwrap()
                    &&& t@.tranc_id == crate::transaction::tx_digest(
                        crate::transaction::trim_spec(t@),
                    )
                    &&& exists|i: int|
                        #![trigger wallets.wallets@[i]]
                        0 <= i < wallets.wallets@.len() && wallets.wallets@[i].0@ == from@ && {
                            let pkh = crate::wallet::pub_key_hash_of(
                                wallets.wallets@[i].1.public_key@,
                            );
                            let sv = sender_spendable(
                                *old(blockchain),
                                wallets.wallets@[i].1.public_key@,
                                amount as int,
                            );
                            &&& sv >= amount
                            &&& (t@.vout.len() == 2 <==> sv > amount)
                            &&& (t@.vout.len() == 2 ==> t@.vout[1].value == sv - amount)
                            &&& forall|k: int|
                                0 <= k < t@.vin.len() ==> (#[trigger] t@.vin[k]).pub_key
                                    == wallets.wallets@[i].1.public_key@
                            &&& forall|k: int|
                                0 <= k < t@.vin.len() ==> pick_valid(
                                    (#[trigger] t@.vin[k]).from,
                                    t@.vin[k].vout as int,
                                    unspent_txs_spec(
                                        chain_txs(old(blockchain).chain@),
                                        old(blockchain).spent.view_set(),
                                        pkh,
                                    ),
                                    pkh,
                                )
                            &&& t@ == signed_tx(
                                crate::transaction::trim_spec(t@),
                                prior_map_spec(
                                    chain_txs(old(blockchain).chain@),
                                    crate::transaction::trim_spec(t@).vin,
                                ),
                                wallets.wallets@[i].1.secret_key@,
                            )
                            &&& uniform_ids(chain_txs(old(blockchain).chain@))
                                ==> vin_picks_value(
                                t@.vin,
                                unspent_txs_spec(
                                    chain_txs(old(blockchain).chain@),
                                    old(blockchain).spent.view_set(),
                                    pkh,
                                ),
                                0,
                            ) == sv
                        }
                },
                Err(e) => {
                    &&& (e == ChainError::UnknownSenderError ==> forall|i: int|
                        0 <= i < wallets.wallets@.len() ==> (#[trigger] wallets.wallets@[i]).0@
                            != from@)
                    &&& (e == ChainError::UnknownReceiverError ==> forall|i: int|
                        0 <= i < wallets.wallets@.len() ==> (#[trigger] wallets.wallets@[i]).0@
                            != to@)
                    &&& (e matches ChainError::InsufficientFundsError(avail) ==> avail < amount
                        && exists|i: int|
                        #![trigger wallets.wallets@[i]]
                        0 <= i < wallets.wallets@.len() && wallets.wallets@[i].0@ == from@ && avail
                            == sender_spendable(
                            *old(blockchain),
                            wallets.wallets@[i].1.public_key@,
                            amount as int,
                        ))
                },
            },
    {
        let wallet = match wallets.get_wallet(from) {
            None => {
                return Err(ChainError::UnknownSenderError);
            },
            Some(w) => w,
        };
        let ghost widx = choose|i: int|
            0 <= i < wallets.wallets@.len() && (#[trigger] wallets.wallets@[i]).0@ == from@
                && wallet.secret_key@ == wallets.wallets@[i].1.secret_key@ && wallet.public_key@
                == wallets.wallets@[i].1.public_key@;
        if wallets.get_wallet(to).is_none() {
            proof {
                assert(wallets.wallets@[widx].0@ == from@);
            }
            return Err(ChainError::UnknownReceiverError);
        }
        let mut pub_key_hash = crate::tx::clone_bytes(&wallet.public_key);
        crate::wallet::hash_pub_key(&mut pub_key_hash);
        let ghost pub_key_hash_ghost = pub_key_hash@;
        proof {
            assert(pub_key_hash_ghost == crate::wallet::pub_key_hash_of(
                wallets.wallets@[widx].1.public_key@,
            ));
        }
        let (accumulated, selection) = match blockchain.find_spendable_outputs(
            pub_key_hash,
            amount,
        ) {
            Err(e) => {
                proof {
                    assert(wallets.wallets@[widx].0@ == from@);
                }
                return Err(e);
            },
            Ok(p) => p,
        };
        let ghost sv = sender_spendable(
            *old(blockchain),
            wallets.wallets@[widx].1.public_key@,
            amount as int,
        );
        proof {
            assert(accumulated as int == sv);
        }
        if accumulated < amount as i64 {
            proof {
                assert(wallets.wallets@[widx].0@ == from@);
            }
            return Err(ChainError::InsufficientFundsError(accumulated));
        }
        let ghost uv_sel = unspent_txs_spec(
            chain_txs(old(blockchain).chain@),
            old(blockchain).spent.view_set(),
            pub_key_hash_ghost,
        );
        let ghost pkh_sel = pub_key_hash_ghost;
        let mut vin: Vec<crate::tx::TrancInput> = Vec::new();
        let mut e: usize = 0;
        while e < selection.len()
            invariant
                0 <= e <= selection@.len(),
                vin_picks_value(vin.deep_view(), uv_sel, 0) + sel_sum(
                    uv_sel,
                    selection.deep_view(),
                    e as int,
                ) == sel_sum(uv_sel, selection.deep_view(), 0),
                sel_valid(selection.deep_view(), uv_sel, pkh_sel),
                forall|q: int|
                    0 <= q < selection.deep_view().len() ==> hexish(
                        (#[trigger] selection.deep_view()[q]).0,
                    ),
                forall|k: int|
                    0 <= k < vin.deep_view().len() ==> {
                        &&& (#[trigger] vin.deep_view()[k]).pub_key == wallet.public_key@
                        &&& hexish(vin.deep_view()[k].from)
                        &&& vin.deep_view()[k].signature.len() == 0
                        &&& vin.deep_view()[k].vout >= 0
                        &&& pick_valid(
                            vin.deep_view()[k].from,
                            vin.deep_view()[k].vout as int,
                            uv_sel,
                            pkh_sel,
                        )
                    },
            decreases selection@.len() - e,
        {
            let entry = &selection[e];
            proof {
                assert(selection.deep_view()[e as int].0 == entry.0@);
                assert(hexish(entry.0@));
                assert(selection.deep_view()[e as int].1 =~= entry.1@);
                assert(sel_sum(uv_sel, selection.deep_view(), e as int) == entry_sum(
                    uv_sel,
                    entry.0@,
                    entry.1@,
                    0,
                ) + sel_sum(uv_sel, selection.deep_view(), e + 1));
            }
            let mut x: usize = 0;
            while x < entry.1.len()
                invariant
                    0 <= x <= entry.1@.len(),
                    e < selection@.len(),
                    entry == &selection@[e as int],
                    hexish(entry.0@),
                    selection.deep_view()[e as int].1 =~= entry.1@,
                    selection.deep_view()[e as int].0 == entry.0@,
                    vin_picks_value(vin.deep_view(), uv_sel, 0) + entry_sum(
                        uv_sel,
                        entry.0@,
                        entry.1@,
                        x as int,
                    ) + sel_sum(uv_sel, selection.deep_view(), e + 1) == sel_sum(
                        uv_sel,
                        selection.deep_view(),
                        0,
                    ),
                    sel_valid(selection.deep_view(), uv_sel, pkh_sel),
                    forall|k: int|
                        0 <= k < vin.deep_view().len() ==> {
                            &&& (#[trigger] vin.deep_view()[k]).pub_key == wallet.public_key@
                            &&& hexish(vin.deep_view()[k].from)
                            &&& vin.deep_view()[k].signature.len() == 0
                            &&& vin.deep_view()[k].vout >= 0
                            &&& pick_valid(
                                vin.deep_view()[k].from,
                                vin.deep_view()[k].vout as int,
                                uv_sel,
                                pkh_sel,
                            )
                        },
                decreases entry.1@.len() - x,
            {
                proof {
                    assert(selection.deep_view()[e as int].1[x as int] == entry.1@[x as int]);
                    assert(pick_valid(
                        selection.deep_view()[e as int].0,
                        selection.deep_view()[e as int].1[x as int] as int,
                        uv_sel,
                        pkh_sel,
                    ));
                }
                let inp = crate::tx::TrancInput {
                    from: entry.0.clone(),
                    vout: entry.1[x],
                    signature: Vec::new(),
                    pub_key: crate::tx::clone_bytes(&wallet.public_key),
                };
                let ghost inpv = inp@;
                let ghost dv_old = vin.deep_view();
                vin.push(inp);
                proof {
                    assert(vin.deep_view() =~= dv_old.push(inpv));
                    lemma_vin_picks_snoc(dv_old, inpv, uv_sel, 0);
                    assert(inpv.from == entry.0@ && inpv.vout == entry.1@[x as int]);
                    assert(entry_sum(uv_sel, entry.0@, entry.1@, x as int) == pick_value(
                        uv_sel,
                        entry.0@,
                        entry.1@[x as int] as int,
                    ) + entry_sum(uv_sel, entry.0@, entry.1@, x + 1));
                }
                x = x + 1;
            }
            proof {
                assert(entry_sum(uv_sel, entry.0@, entry.1@, entry.1@.len() as int) == 0);
                assert(sel_sum(uv_sel, selection.deep_view(), e + 1) == sel_sum(
                    uv_sel,
                    selection.deep_view(),
                    (e + 1) as int,
                ));
            }
            e = e + 1;
        }
        let ghost vin_dv = vin.deep_view();
        proof {
            assert(sel_sum(uv_sel, selection.deep_view(), selection@.len() as int) == 0);
            assert(vin_picks_value(vin_dv, uv_sel, 0) == sel_sum(uv_sel, selection.deep_view(), 0));
        }
        let ghost no_sender_missing = wallets.wallets@[widx].0@ == from@;
        let out0 = match TrancOutput::new(amount, to.to_owned()) {
            Err(e2) => {
                proof {
                    assert(wallets.wallets@[widx].0@ == from@);
                }
                return Err(e2);
            },
            Ok(o) => o,
        };
        let mut vout: Vec<TrancOutput> = vec![out0];
        if accumulated > amount as i64 {
            let change: i32 = (accumulated - amount as i64) as i32;
            let out1 = match TrancOutput::new(change, from.to_owned()) {
                Err(e2) => {
                    proof {
                        assert(wallets.wallets@[widx].0@ == from@);
                    }
                    return Err(e2);
                },
                Ok(o) => o,
            };
            vout.push(out1);
        }
        let ghost voutv = vout.deep_view();
        let mut transaction = Transaction { tranc_id: String::new(), vin, vout };
        proof {
            assert forall|k: int|
                0 <= k < transaction@.vin.len() implies crate::tx::in_wf(
                #[trigger] transaction@.vin[k],
            ) by {
                assert(hexish(transaction@.vin[k].from));
            }
        }
        let id = transaction.hash();
        transaction.tranc_id = id;
        let ghost pre = transaction@;
        match blockchain.sign_transaction(&mut transaction, wallet.secret_key.as_slice()) {
            Err(e2) => {
                proof {
                    assert(wallets.wallets@[widx].0@ == from@);
                }
                Err(e2)
            },
            Ok(()) => {
                proof {
                    let t = transaction@;
                    let pm = prior_map_spec(chain_txs(old(blockchain).chain@), pre.vin);
                    assert(t == signed_tx(pre, pm, wallet.secret_key@));
                    // the trimmed shape of the result is the unsigned transaction
                    assert forall|j: int|
                        0 <= j < t.vin.len() implies #[trigger] crate::transaction::trim_spec(
                        t,
                    ).vin[j] =~= pre.vin[j] by {
                        assert(pre.vin[j].signature =~= Seq::<u8>::empty());
                    }
                    assert(crate::transaction::trim_spec(t).vin =~= pre.vin);
                    assert(crate::transaction::trim_spec(t) =~= pre);
                    // the id is the digest of that trimmed shape
                    assert((TxV {
                        tranc_id: Seq::empty(),
                        ..pre
                    }) =~= (TxV {
                        tranc_id: Seq::empty(),
                        vin: pre.vin,
                        vout: pre.vout,
                    }));
                    assert(t.tranc_id == crate::transaction::tx_digest(pre));
                    assert(!is_coinbase_v(t)) by {
                        if t.vin.len() == 1 {
                            assert(t.vin[0].vout >= 0);
                        }
                    }
                    // the outputs are kept by signing
                    assert(t.vout == pre.vout);
                    assert(pre.vout == voutv);
                    assert(wallets.wallets@[widx].0@ == from@);
                    assert forall|k: int|
                        0 <= k < t.vin.len() implies (#[trigger] t.vin[k]).pub_key
                        == wallets.wallets@[widx].1.public_key@ && pick_valid(
                        t.vin[k].from,
                        t.vin[k].vout as int,
                        uv_sel,
                        pkh_sel,
                    ) by {
                        assert(pre.vin[k].pub_key == wallet.public_key@);
                        assert(pick_valid(pre.vin[k].from, pre.vin[k].vout as int, uv_sel, pkh_sel));
                        assert(t.vin[k].from == pre.vin[k].from && t.vin[k].vout == pre.vin[k].vout
                            && t.vin[k].pub_key == pre.vin[k].pub_key);
                    }
                    assert(tx_wf(t)) by {
                        assert forall|k: int|
                            0 <= k < t.vin.len() implies crate::tx::in_wf(#[trigger] t.vin[k]) by {
                            assert(hexish(pre.vin[k].from));
                        }
                        assert forall|k: int|
                            0 <= k < t.vout.len() implies crate::tx::out_wf(
                            #[trigger] t.vout[k],
                        ) by {
                            assert(voutv[k].value >= 0);
                        }
                    }
                    if uniform_ids(chain_txs(old(blockchain).chain@)) {
                        lemma_unspent_uniform(
                            chain_txs(old(blockchain).chain@),
                            old(blockchain).spent.view_set(),
                            pkh_sel,
                        );
                        assert(accumulated as int == sel_sum(uv_sel, selection.deep_view(), 0));
                        assert(pre.vin == vin_dv);
                        lemma_vin_picks_congruent(t.vin, pre.vin, uv_sel, 0);
                        assert(vin_picks_value(t.vin, uv_sel, 0) == sv);
                    }
                }
                Ok(transaction)
            },
        }
    }
}

/// Every transaction of a well-formed chain is well formed.
proof fn lemma_chain_txs_wf(chain: Seq<BlockV>)
    requires
        forall|i: int| 0 <= i < chain.len() ==> block_wf(#[trigger] chain[i]),
    ensures
        forall|q: int| 0 <= q < chain_txs(chain).len() ==> tx_wf(#[trigger] chain_txs(chain)[q]),
    decreases chain.len(),
{
    if chain.len() > 0 {
        lemma_chain_txs_wf(chain.drop_first());
        assert(block_wf(chain[0]));
        assert forall|q: int| 0 <= q < chain_txs(chain).len() implies tx_wf(
            #[trigger] chain_txs(chain)[q],
        ) by {
            if q < chain[0].transactions.len() {
                assert(chain_txs(chain)[q] == chain[0].transactions[q]);
            } else {
                assert(chain_txs(chain)[q] == chain_txs(chain.drop_first())[q
                    - chain[0].transactions.len()]);
            }
        }
    }
}

} // verus!
