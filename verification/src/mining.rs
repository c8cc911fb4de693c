//! Blocks and mining. A block's hash is the hex SHA-256 digest of the
//! deterministic encoding of `(prev_hash, transactions, timestamp,
//! difficulty, nonce)`, found by searching nonces from zero until the
//! digest starts with the required count of `'0'` characters.

use vstd::prelude::*;
use crate::clock::now_millis;
use crate::codec::{
    dec_le, dec_str, enc_str, hexish, le_bytes, lemma_dec_enc_str, lemma_dec_le_enc,
    lemma_pow256_u64, push_le, push_str, read_le, read_str,
};
use crate::crypto::{sha256_hex, sha256_hex_of};
use crate::errors::ChainError;
use crate::transaction::{
    clone_inputs, clone_outputs, dec_tx, enc_tx, read_tx, tx_bounded, tx_wf, Transaction, TxV,
};
use crate::tx::{dec_i32, enc_i32, lemma_dec_enc_i32, push_i32, read_i32};

verus! {

/// A block of the chain: transactions sealed by a proof-of-work hash
/// that links back to the previous block.
pub struct Block {
    pub timestamp: u128,
    pub transactions: Vec<Transaction>,
    pub prev_block_hash: String,
    pub hash: String,
    pub height: usize,
    pub nonce: i32,
}

/// The mathematical model of a block.
#[verifier::ext_equal]
pub ghost struct BlockV {
    pub timestamp: u128,
    pub transactions: Seq<TxV>,
    pub prev_block_hash: Seq<char>,
    pub hash: Seq<char>,
    pub height: usize,
    pub nonce: i32,
}

impl View for Block {
    type V = BlockV;

    open spec fn view(&self) -> BlockV {
        BlockV {
            timestamp: self.timestamp,
            transactions: self.transactions.deep_view(),
            prev_block_hash: self.prev_block_hash@,
            hash: self.hash@,
            height: self.height,
            nonce: self.nonce,
        }
    }
}

impl DeepView for Block {
    type V = BlockV;

    open spec fn deep_view(&self) -> BlockV {
        self.view()
    }
}

/// A well-formed block: hex hashes and well-formed transactions.
pub open spec fn block_wf(b: BlockV) -> bool {
    &&& hexish(b.prev_block_hash)
    &&& hexish(b.hash)
    &&& forall|i: int| 0 <= i < b.transactions.len() ==> tx_wf(#[trigger] b.transactions[i])
}

/// A block whose sequences are views of executable values.
pub open spec fn block_bounded(b: BlockV) -> bool {
    &&& b.prev_block_hash.len() <= usize::MAX
    &&& b.hash.len() <= usize::MAX
    &&& b.transactions.len() <= usize::MAX
    &&& forall|i: int| 0 <= i < b.transactions.len() ==> tx_bounded(#[trigger] b.transactions[i])
}

// ---------------------------------------------------------------------
// Codec
// ---------------------------------------------------------------------

/// The transactions of a block, one after the other.
pub open spec fn enc_txs(s: Seq<TxV>) -> Seq<u8>
    decreases s.len(),
{
    if s.len() == 0 {
        Seq::empty()
    } else {
        enc_tx(s[0]) + enc_txs(s.drop_first())
    }
}

/// Decodes `n` transactions.
pub open spec fn dec_txs(s: Seq<u8>, n: nat) -> Option<(Seq<TxV>, Seq<u8>)>
    decreases n,
{
    if n == 0 {
        Some((Seq::empty(), s))
    } else {
        match dec_tx(s) {
            None => None,
            Some((t, r)) => match dec_txs(r, (n - 1) as nat) {
                None => None,
                Some((rest, r2)) => Some((seq![t] + rest, r2)),
            },
        }
    }
}

pub proof fn lemma_dec_enc_txs(s: Seq<TxV>, rest: Seq<u8>)
    requires
        forall|i: int| 0 <= i < s.len() ==> tx_wf(#[trigger] s[i]) && tx_bounded(s[i]),
    ensures
        dec_txs(enc_txs(s) + rest, s.len()) == Some((s, rest)),
    decreases s.len(),
{
    if s.len() == 0 {
        assert(enc_txs(s) + rest =~= rest);
    } else {
        let tail = s.drop_first();
        assert(enc_txs(s) + rest =~= enc_tx(s[0]) + (enc_txs(tail) + rest));
        crate::transaction::lemma_dec_enc_tx(s[0], enc_txs(tail) + rest);
        lemma_dec_enc_txs(tail, rest);
        assert(seq![s[0]] + tail =~= s);
    }
}

/// Encoding one more transaction appends its bytes.
proof fn lemma_enc_txs_snoc(s: Seq<TxV>, i: int)
    requires
        0 < i <= s.len(),
    ensures
        enc_txs(s.take(i)) == enc_txs(s.take(i - 1)) + enc_tx(s[i - 1]),
    decreases i,
{
    if i == 1 {
        assert(s.take(1).drop_first() =~= Seq::<TxV>::empty());
        assert(s.take(0) =~= Seq::<TxV>::empty());
        assert(s.take(1).len() == 1);
        assert(s.take(1)[0] == s[0]);
        assert(enc_txs(Seq::<TxV>::empty()) =~= Seq::<u8>::empty());
        assert(enc_txs(s.take(1)) =~= enc_tx(s.take(1)[0]) + enc_txs(s.take(1).drop_first()));
        assert(enc_txs(s.take(1)) =~= enc_tx(s[0]) + Seq::<u8>::empty());
        assert(enc_txs(s.take(0)) + enc_tx(s[0]) =~= enc_tx(s[0]));
    } else {
        lemma_enc_txs_snoc(s.drop_first(), i - 1);
        assert(s.take(i).drop_first() =~= s.drop_first().take(i - 1));
        assert(s.take(i - 1).drop_first() =~= s.drop_first().take(i - 2));
        assert(s.take(i)[0] == s[0]);
        assert(s.take(i - 1)[0] == s[0]);
        assert(s.drop_first()[i - 2] == s[i - 1]);
        assert(enc_txs(s.take(i)) == enc_tx(s[0]) + enc_txs(s.drop_first().take(i - 1)));
        assert(enc_tx(s[0]) + (enc_txs(s.drop_first().take(i - 2)) + enc_tx(s[i - 1])) =~= (enc_tx(
            s[0],
        ) + enc_txs(s.drop_first().take(i - 2))) + enc_tx(s[i - 1]));
        assert(enc_txs(s.take(i - 1)) == enc_tx(s[0]) + enc_txs(s.drop_first().take(i - 2)));
    }
}

/// Appends the transactions of a block, length first.
fn push_txs(out: &mut Vec<u8>, txs: &Vec<Transaction>)
    requires
        forall|i: int| 0 <= i < txs.deep_view().len() ==> tx_wf(#[trigger] txs.deep_view()[i]),
    ensures
        final(out)@ == old(out)@ + le_bytes(txs.deep_view().len() as int, 8) + enc_txs(
            txs.deep_view(),
        ),
{
    proof {
        lemma_pow256_u64();
    }
    push_le(out, txs.len() as u128, 8);
    let ghost base = out@;
    let mut i: usize = 0;
    while i < txs.len()
        invariant
            0 <= i <= txs@.len(),
            forall|q: int| 0 <= q < txs.deep_view().len() ==> tx_wf(#[trigger] txs.deep_view()[q]),
            txs.deep_view().len() == txs@.len(),
            out@ == base + enc_txs(txs.deep_view().take(i as int)),
        decreases txs@.len() - i,
    {
        proof {
            assert(txs.deep_view()[i as int] == txs@[i as int]@);
            assert(tx_wf(txs.deep_view()[i as int]));
        }
        crate::transaction::push_tx(out, &txs[i]);
        i = i + 1;
        proof {
            lemma_enc_txs_snoc(txs.deep_view(), i as int);
        }
    }
    proof {
        assert(txs.deep_view().take(txs@.len() as int) =~= txs.deep_view());
        assert(out@ =~= old(out)@ + le_bytes(txs.deep_view().len() as int, 8) + enc_txs(
            txs.deep_view(),
        ));
    }
}

/// The content a block's hash commits to: the previous hash, the
/// transactions, the timestamp, the difficulty and the nonce.
pub open spec fn enc_content(
    prev: Seq<char>,
    txs: Seq<TxV>,
    timestamp: u128,
    difficulty: usize,
    nonce: i32,
) -> Seq<u8> {
    enc_str(prev) + le_bytes(txs.len() as int, 8) + enc_txs(txs) + le_bytes(timestamp as int, 16)
        + le_bytes(difficulty as int, 8) + enc_i32(nonce)
}

/// The bytes a block's hash commits to.
fn content_bytes(
    prev: &String,
    txs: &Vec<Transaction>,
    timestamp: u128,
    difficulty: usize,
    nonce: i32,
) -> (r: Vec<u8>)
    requires
        hexish(prev@),
        forall|i: int| 0 <= i < txs.deep_view().len() ==> tx_wf(#[trigger] txs.deep_view()[i]),
    ensures
        r@ == enc_content(prev@, txs.deep_view(), timestamp, difficulty, nonce),
{
    let mut out: Vec<u8> = Vec::new();
    push_str(&mut out, prev);
    push_txs(&mut out, txs);
    proof {
        lemma_pow256_u64();
        crate::codec::lemma_pow256_mono(8, 16);
    }
    push_le(&mut out, timestamp, 16);
    push_le(&mut out, difficulty as u128, 8);
    push_i32(&mut out, nonce);
    proof {
        assert(out@ =~= enc_content(prev@, txs.deep_view(), timestamp, difficulty, nonce));
    }
    out
}

/// The stored encoding of a block: its fixed fields, then its hashes,
/// then its transactions.
pub open spec fn enc_block(b: BlockV) -> Seq<u8> {
    le_bytes(b.timestamp as int, 16) + le_bytes(b.height as int, 8) + enc_i32(b.nonce) + enc_str(
        b.prev_block_hash,
    ) + enc_str(b.hash) + le_bytes(b.transactions.len() as int, 8) + enc_txs(b.transactions)
}

/// Decodes a stored block, requiring every byte to be consumed.
pub open spec fn dec_block(s: Seq<u8>) -> Option<BlockV> {
    match dec_le(s, 16) {
        None => None,
        Some((ts, s1)) => match dec_le(s1, 8) {
            None => None,
            Some((height, s2)) => if height > usize::MAX as int {
                None
            } else {
                match dec_i32(s2) {
                    None => None,
                    Some((nonce, s3)) => match dec_str(s3) {
                        None => None,
                        Some((prev, s4)) => match dec_str(s4) {
                            None => None,
                            Some((hash, s5)) => match dec_le(s5, 8) {
                                None => None,
                                Some((n_tx, s6)) => if n_tx > usize::MAX as int {
                                    None
                                } else {
                                    match dec_txs(s6, n_tx as nat) {
                                        None => None,
                                        Some((transactions, s7)) => if s7.len() == 0 {
                                            Some(
                                                BlockV {
                                                    timestamp: ts as u128,
                                                    transactions,
                                                    prev_block_hash: prev,
                                                    hash,
                                                    height: height as usize,
                                                    nonce,
                                                },
                                            )
                                        } else {
                                            None
                                        },
                                    }
                                },
                            },
                        },
                    },
                }
            },
        },
    }
}

/// Decoding a stored block inverts encoding it.
pub proof fn lemma_dec_enc_block(b: BlockV)
    requires
        block_wf(b),
        block_bounded(b),
    ensures
        dec_block(enc_block(b)) == Some(b),
{
    lemma_pow256_u64();
    let r6 = enc_txs(b.transactions);
    let r5 = le_bytes(b.transactions.len() as int, 8) + r6;
    let r4 = enc_str(b.hash) + r5;
    let r3 = enc_str(b.prev_block_hash) + r4;
    let r2 = enc_i32(b.nonce) + r3;
    let r1 = le_bytes(b.height as int, 8) + r2;
    assert(enc_block(b) =~= le_bytes(b.timestamp as int, 16) + r1);
    lemma_dec_le_enc(b.timestamp as int, 16, r1);
    lemma_dec_le_enc(b.height as int, 8, r2);
    lemma_dec_enc_i32(b.nonce, r3);
    lemma_dec_enc_str(b.prev_block_hash, r4);
    lemma_dec_enc_str(b.hash, r5);
    lemma_dec_le_enc(b.transactions.len() as int, 8, r6);
    lemma_dec_enc_txs(b.transactions, Seq::empty());
    assert(enc_txs(b.transactions) + Seq::<u8>::empty() =~= enc_txs(b.transactions));
}

/// The stored bytes of a block.
pub fn encode_block(b: &Block) -> (r: Vec<u8>)
    requires
        block_wf(b@),
    ensures
        r@ == enc_block(b@),
{
    proof {
        lemma_pow256_u64();
        crate::codec::lemma_pow256_mono(8, 16);
    }
    let mut out: Vec<u8> = Vec::new();
    push_le(&mut out, b.timestamp, 16);
    push_le(&mut out, b.height as u128, 8);
    push_i32(&mut out, b.nonce);
    push_str(&mut out, &b.prev_block_hash);
    push_str(&mut out, &b.hash);
    proof {
        assert forall|i: int|
            0 <= i < b.transactions.deep_view().len() implies tx_wf(
            #[trigger] b.transactions.deep_view()[i],
        ) by {
            assert(tx_wf(b@.transactions[i]));
        }
    }
    push_txs(&mut out, &b.transactions);
    proof {
        assert(out@ =~= enc_block(b@));
    }
    out
}

/// Decodes a stored block, refusing trailing bytes.
pub fn decode_block(bytes: &[u8]) -> (r: Option<Block>)
    ensures
        match r {
            Some(b) => dec_block(bytes@) == Some(b@) && block_wf(b@),
            None => dec_block(bytes@) is None,
        },
{
    proof {
        assert(bytes@.skip(0) =~= bytes@);
    }
    let (ts, p1) = match read_le(bytes, 0, 16) {
        None => {
            return None;
        },
        Some(p) => p,
    };
    let (height128, p2) = match read_le(bytes, p1, 8) {
        None => {
            return None;
        },
        Some(p) => p,
    };
    if height128 > usize::MAX as u128 {
        return None;
    }
    let (nonce, p3) = match read_i32(bytes, p2) {
        None => {
            return None;
        },
        Some(p) => p,
    };
    let (prev_block_hash, p4) = match read_str(bytes, p3) {
        None => {
            return None;
        },
        Some(p) => p,
    };
    let (hash, p5) = match read_str(bytes, p4) {
        None => {
            return None;
        },
        Some(p) => p,
    };
    let (n_tx128, p6) = match read_le(bytes, p5, 8) {
        None => {
            return None;
        },
        Some(p) => p,
    };
    if n_tx128 > usize::MAX as u128 {
        return None;
    }
    let n_tx: usize = n_tx128 as usize;
    let (transactions, p7) = match crate::transaction::read_txs(bytes, p6, n_tx) {
        None => {
            return None;
        },
        Some(p) => p,
    };
    if p7 != bytes.len() {
        proof {
            assert(bytes@.skip(p7 as int).len() != 0);
        }
        return None;
    }
    proof {
        assert(bytes@.skip(p7 as int).len() == 0);
    }
    Some(
        Block {
            timestamp: ts,
            transactions,
            prev_block_hash,
            hash,
            height: height128 as usize,
            nonce,
        },
    )
}

// ---------------------------------------------------------------------
// Proof of work
// ---------------------------------------------------------------------

/// The proof-of-work predicate: the hex digest starts with `difficulty`
/// `'0'` characters.
pub open spec fn pow_ok(h: Seq<char>, difficulty: usize) -> bool {
    &&& h.len() >= difficulty
    &&& forall|i: int| 0 <= i < difficulty ==> h[i] == '0'
}

/// A sealed block: its hash is the digest of exactly its own content at
/// the given difficulty, and meets the proof-of-work target.
pub open spec fn block_sealed(b: BlockV, difficulty: usize) -> bool {
    &&& b.hash == sha256_hex_of(
        enc_content(b.prev_block_hash, b.transactions, b.timestamp, difficulty, b.nonce),
    )
    &&& pow_ok(b.hash, difficulty)
}

/// Whether a digest meets the proof-of-work target.
fn pow_check(h: &String, difficulty: usize) -> (r: bool)
    ensures
        r == pow_ok(h@, difficulty),
{
    if h.as_str().unicode_len() < difficulty {
        return false;
    }
    let mut i: usize = 0;
    while i < difficulty
        invariant
            0 <= i <= difficulty,
            difficulty <= h@.len(),
            forall|j: int| 0 <= j < i ==> h@[j] == '0',
        decreases difficulty - i,
    {
        if h.as_str().get_char(i) != '0' {
            return false;
        }
        i = i + 1;
    }
    true
}

impl Block {
    /// Mines a block holding `data`, linked to `prev_block_hash`, at the
    /// given difficulty: the timestamp is read once, then the first nonce
    /// from zero whose digest meets the target seals the block. Fails
    /// only when no timestamp is available or the nonce space runs out.
    pub fn new(data: Vec<Transaction>, prev_block_hash: String, difficulty: usize) -> (r: Result<
        Block,
        ChainError,
    >)
        requires
            hexish(prev_block_hash@),
            forall|i: int| 0 <= i < data.deep_view().len() ==> tx_wf(#[trigger] data.deep_view()[i]),
        ensures
            match r {
                Ok(b) => {
                    &&& b@.transactions == data.deep_view()
                    &&& b@.prev_block_hash == prev_block_hash@
                    &&& b@.height == difficulty
                    &&& b@.hash.len() == 64
                    &&& 0 <= b@.nonce
                    &&& block_sealed(b@, difficulty)
                    &&& forall|m: i32|
                        0 <= m < b@.nonce ==> !pow_ok(
                            sha256_hex_of(
                                enc_content(
                                    prev_block_hash@,
                                    data.deep_view(),
                                    b@.timestamp,
                                    difficulty,
                                    m,
                                ),
                            ),
                            difficulty,
                        )
                    &&& block_wf(b@)
                },
                Err(e) => e == ChainError::ClockError || e == ChainError::MiningError,
            },
    {
        let timestamp: u128 = match now_millis() {
            None => {
                return Err(ChainError::ClockError);
            },
            Some(t) => t,
        };
        let mut nonce: i32 = 0;
        loop
            invariant
                0 <= nonce,
                hexish(prev_block_hash@),
                forall|i: int|
                    0 <= i < data.deep_view().len() ==> tx_wf(#[trigger] data.deep_view()[i]),
                forall|m: i32|
                    0 <= m < nonce ==> !pow_ok(
                        sha256_hex_of(
                            enc_content(prev_block_hash@, data.deep_view(), timestamp, difficulty, m),
                        ),
                        difficulty,
                    ),
            decreases i32::MAX - nonce,
        {
            let bytes = content_bytes(&prev_block_hash, &data, timestamp, difficulty, nonce);
            let digest = sha256_hex(bytes.as_slice());
            if pow_check(&digest, difficulty) {
                return Ok(
                    Block {
                        timestamp,
                        transactions: data,
                        prev_block_hash,
                        hash: digest,
                        height: difficulty,
                        nonce,
                    },
                );
            }
            if nonce == i32::MAX {
                return Err(ChainError::MiningError);
            }
            nonce = nonce + 1;
        }
    }

    /// The genesis construction: a single coinbase transaction and no
    /// previous block.
    pub fn default(coinbase: Transaction, difficulty: usize) -> (r: Result<Block, ChainError>)
        requires
            tx_wf(coinbase@),
        ensures
            match r {
                Ok(b) => {
                    &&& b@.transactions =~= seq![coinbase@]
                    &&& b@.prev_block_hash == Seq::<char>::empty()
                    &&& b@.hash.len() == 64
                    &&& b@.height == difficulty
                    &&& block_sealed(b@, difficulty)
                    &&& block_wf(b@)
                },
                Err(e) => e == ChainError::ClockError || e == ChainError::MiningError,
            },
    {
        let data: Vec<Transaction> = vec![coinbase];
        proof {
            assert(data.deep_view() =~= seq![data@[0]@]);
        }
        Block::new(data, String::new(), difficulty)
    }

    /// The hash of the previous block, empty for genesis.
    pub fn get_previus_hash(&self) -> (r: String)
        ensures
            r@ == self@.prev_block_hash,
    {
        self.prev_block_hash.clone()
    }

    /// The block's own sealed hash.
    pub fn get_hash(&self) -> (r: String)
        ensures
            r@ == self@.hash,
    {
        self.hash.clone()
    }

    /// The block's transactions, as a fresh vector.
    pub fn get_transaction(&self) -> (r: Vec<Transaction>)
        ensures
            r.deep_view() == self@.transactions,
    {
        crate::transaction::clone_txs(&self.transactions)
    }
}

/// Measures a block once, so that its model is known to fit in
/// executable bounds.
pub fn block_bounds(b: &Block)
    ensures
        block_bounded(b@),
{
    let _h: usize = b.hash.as_str().unicode_len();
    let _p: usize = b.prev_block_hash.as_str().unicode_len();
    let _n: usize = b.transactions.len();
    let mut i: usize = 0;
    while i < b.transactions.len()
        invariant
            0 <= i <= b.transactions@.len(),
            b@.hash.len() <= usize::MAX,
            b@.prev_block_hash.len() <= usize::MAX,
            b@.transactions.len() <= usize::MAX,
            forall|q: int| 0 <= q < i ==> tx_bounded(#[trigger] b@.transactions[q]),
        decreases b.transactions@.len() - i,
    {
        crate::transaction::tx_bounds(&b.transactions[i]);
        proof {
            assert(b@.transactions[i as int] == b.transactions@[i as int]@);
        }
        i = i + 1;
    }
}

} // verus!
