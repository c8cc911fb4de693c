//! Wallets: key pairs and their human-readable addresses. A public key
//! locks nothing directly; outputs are locked to its 20-byte hash.

use vstd::prelude::*;
use crate::addr::{address_encoded, encode_address};
use crate::crypto::{ed25519_keypair, random_seed, ripemd160_digest, ripemd160_of, sha256_digest, sha256_of};

verus! {

/// A key pair: the ed25519 secret and public key of one user.
pub struct Wallet {
    pub secret_key: Vec<u8>,
    pub public_key: Vec<u8>,
}

impl Clone for Wallet {
    /// A wallet equal to this one in both keys.
    fn clone(&self) -> (r: Self)
        ensures
            r.secret_key@ == self.secret_key@,
            r.public_key@ == self.public_key@,
    {
        Wallet {
            secret_key: crate::tx::clone_bytes(&self.secret_key),
            public_key: crate::tx::clone_bytes(&self.public_key),
        }
    }
}

/// The 20-byte hash that locks outputs: RIPEMD-160 of SHA-256 of a
/// public key.
pub open spec fn pub_key_hash_of(pub_key: Seq<u8>) -> Seq<u8> {
    ripemd160_of(sha256_of(pub_key))
}

/// Replaces a public key by its 20-byte locking hash.
pub fn hash_pub_key(pub_key: &mut Vec<u8>)
    ensures
        final(pub_key)@ == pub_key_hash_of(old(pub_key)@),
        final(pub_key)@.len() == 20,
{
    let sha = sha256_digest(pub_key.as_slice());
    let ripemd = ripemd160_digest(sha.as_slice());
    *pub_key = ripemd;
}

impl Wallet {
    /// A fresh wallet: an ed25519 key pair from 32 random bytes.
    pub fn new() -> (r: Wallet)
        ensures
            r.secret_key@.len() == 64,
            r.public_key@.len() == 32,
    {
        let seed = random_seed();
        let (secret_key, public_key) = ed25519_keypair(seed.as_slice());
        Wallet { secret_key, public_key }
    }

    /// The wallet's address: its hashed public key, in Base58 text.
    pub fn get_address(&self) -> (r: String)
        ensures
            r@ == address_encoded(pub_key_hash_of(self.public_key@)),
    {
        let mut pub_hash = crate::tx::clone_bytes(&self.public_key);
        hash_pub_key(&mut pub_hash);
        encode_address(&pub_hash)
    }
}

// ---------------------------------------------------------------------
// The wallet store
// ---------------------------------------------------------------------

/// The stored bytes of a wallet: its two keys, length-prefixed.
pub open spec fn enc_wallet(secret: Seq<u8>, public: Seq<u8>) -> Seq<u8> {
    crate::codec::enc_bytes(secret) + crate::codec::enc_bytes(public)
}

/// The stored bytes of a wallet.
fn write_wallet(w: &Wallet) -> (r: Vec<u8>)
    ensures
        r@ == enc_wallet(w.secret_key@, w.public_key@),
{
    let mut out: Vec<u8> = Vec::new();
    crate::codec::push_bytes(&mut out, w.secret_key.as_slice());
    crate::codec::push_bytes(&mut out, w.public_key.as_slice());
    proof {
        assert(out@ =~= enc_wallet(w.secret_key@, w.public_key@));
    }
    out
}

/// Decodes a stored wallet: two byte fields of the key-pair lengths,
/// nothing after them.
pub open spec fn dec_wallet(v: Seq<u8>) -> Option<(Seq<u8>, Seq<u8>)> {
    match crate::codec::dec_bytes(v) {
        None => None,
        Some((secret, r1)) => match crate::codec::dec_bytes(r1) {
            None => None,
            Some((public, r2)) => if r2.len() == 0 && secret.len() == 64 && public.len() == 32 {
                Some((secret, public))
            } else {
                None
            },
        },
    }
}

/// Reads a stored wallet.
fn read_wallet(bytes: &[u8]) -> (r: Option<Wallet>)
    ensures
        match r {
            Some(w) => dec_wallet(bytes@) == Some((w.secret_key@, w.public_key@))
                && w.secret_key@.len() == 64 && w.public_key@.len() == 32,
            None => dec_wallet(bytes@) is None,
        },
{
    proof {
        assert(bytes@.skip(0) =~= bytes@);
    }
    let (secret_key, p1) = match crate::codec::read_bytes(bytes, 0) {
        None => {
            return None;
        },
        Some(p) => p,
    };
    let (public_key, p2) = match crate::codec::read_bytes(bytes, p1) {
        None => {
            return None;
        },
        Some(p) => p,
    };
    if p2 != bytes.len() {
        proof {
            assert(bytes@.skip(p2 as int).len() != 0);
        }
        return None;
    }
    proof {
        assert(bytes@.skip(p2 as int).len() == 0);
    }
    if secret_key.len() != 64 || public_key.len() != 32 {
        return None;
    }
    Some(Wallet { secret_key, public_key })
}

/// The first index of the wallet list bearing `addr`, if any.
pub open spec fn wallet_at(ws: Seq<(String, Wallet)>, addr: Seq<char>) -> Option<int>
    decreases ws.len(),
{
    if ws.len() == 0 {
        None
    } else if ws[0].0@ == addr {
        Some(0)
    } else {
        match wallet_at(ws.drop_first(), addr) {
            Some(i) => Some(i + 1),
            None => None,
        }
    }
}

/// The first match is at `i` when nothing before `i` matches.
proof fn lemma_wallet_at_first(ws: Seq<(String, Wallet)>, addr: Seq<char>, i: int)
    requires
        0 <= i < ws.len(),
        ws[i].0@ == addr,
        forall|q: int| 0 <= q < i ==> (#[trigger] ws[q]).0@ != addr,
    ensures
        wallet_at(ws, addr) matches Some(j) && 0 <= j <= i && ws[j].0@ == addr,
    decreases i,
{
    if i > 0 {
        assert(ws.drop_first()[i - 1] == ws[i]);
        lemma_wallet_at_first(ws.drop_first(), addr, i - 1);
        let j = wallet_at(ws.drop_first(), addr).unwrap();
        assert(ws[j + 1] == ws.drop_first()[j]);
    }
}

/// No match anywhere means no first match.
proof fn lemma_wallet_at_none(ws: Seq<(String, Wallet)>, addr: Seq<char>)
    requires
        forall|q: int| 0 <= q < ws.len() ==> (#[trigger] ws[q]).0@ != addr,
    ensures
        wallet_at(ws, addr) is None,
    decreases ws.len(),
{
    if ws.len() > 0 {
        assert(forall|q: int|
            0 <= q < ws.drop_first().len() ==> (#[trigger] ws.drop_first()[q]).0@ != addr)
            by {
            assert(forall|q: int|
                0 <= q < ws.drop_first().len() ==> ws.drop_first()[q] == ws[q + 1]);
        }
        lemma_wallet_at_none(ws.drop_first(), addr);
    }
}

/// A first match bears the address.
pub proof fn lemma_wallet_at_found(ws: Seq<(String, Wallet)>, addr: Seq<char>)
    requires
        wallet_at(ws, addr) is Some,
    ensures
        0 <= wallet_at(ws, addr).unwrap() < ws.len(),
        ws[wallet_at(ws, addr).unwrap()].0@ == addr,
    decreases ws.len(),
{
    if ws.len() > 0 && ws[0].0@ != addr {
        lemma_wallet_at_found(ws.drop_first(), addr);
        let j = wallet_at(ws.drop_first(), addr).unwrap();
        assert(ws.drop_first()[j] == ws[j + 1]);
    }
}

/// The loading invariant: after the first `i` store entries, the list
/// holds exactly those that decoded to a key pair stored under its own
/// address — each listed entry comes from the store, each qualifying
/// store entry is listed, and no address is listed twice.
/// Entry `q` of the list comes from one of the first `i` store entries.
pub open spec fn listed_from(
    raw: Seq<(Vec<u8>, Vec<u8>)>,
    ws: Seq<(String, Wallet)>,
    i: int,
    q: int,
) -> bool {
    exists|a: int|
        0 <= a < i && #[trigger] raw[a].0@ == vstd::utf8::encode_utf8(ws[q].0@) && dec_wallet(
            raw[a].1@,
        ) == Some((ws[q].1.secret_key@, ws[q].1.public_key@))
}

pub open spec fn load_inv(raw: Seq<(Vec<u8>, Vec<u8>)>, ws: Seq<(String, Wallet)>, i: int) -> bool {
    &&& forall|q: int|
        0 <= q < ws.len() ==> {
            &&& (#[trigger] ws[q]).1.secret_key@.len() == 64
            &&& ws[q].1.public_key@.len() == 32
            &&& ws[q].0@ == address_encoded(pub_key_hash_of(ws[q].1.public_key@))
        }
    &&& forall|q: int| 0 <= q < ws.len() ==> #[trigger] listed_from(raw, ws, i, q)
    &&& forall|a: int|
        0 <= a < i ==> match dec_wallet(#[trigger] raw[a].1@) {
            Some(keys) => raw[a].0@ == vstd::utf8::encode_utf8(
                address_encoded(pub_key_hash_of(keys.1)),
            ) ==> exists|q: int|
                0 <= q < ws.len() && vstd::utf8::encode_utf8((#[trigger] ws[q]).0@) == raw[a].0@,
            None => true,
        }
    &&& forall|q1: int, q2: int|
        0 <= q1 < q2 < ws.len() ==> (#[trigger] ws[q1]).0@ != (#[trigger] ws[q2]).0@
}

/// A store entry that is skipped — undecodable, or not stored under its
/// own address — leaves the loading invariant standing.
proof fn lemma_load_inv_skip(raw: Seq<(Vec<u8>, Vec<u8>)>, ws: Seq<(String, Wallet)>, i: int)
    requires
        0 <= i < raw.len(),
        load_inv(raw, ws, i),
        match dec_wallet(raw[i].1@) {
            Some(keys) => raw[i].0@ != vstd::utf8::encode_utf8(
                address_encoded(pub_key_hash_of(keys.1)),
            ),
            None => true,
        },
    ensures
        load_inv(raw, ws, i + 1),
{
    assert forall|q: int| 0 <= q < ws.len() implies #[trigger] listed_from(raw, ws, i + 1, q) by {
        assert(listed_from(raw, ws, i, q));
        let a0 = choose|a0: int|
            0 <= a0 < i && #[trigger] raw[a0].0@ == vstd::utf8::encode_utf8(ws[q].0@)
                && dec_wallet(raw[a0].1@) == Some((ws[q].1.secret_key@, ws[q].1.public_key@));
        assert(0 <= a0 < i + 1 && raw[a0].0@ == vstd::utf8::encode_utf8(ws[q].0@) && dec_wallet(
            raw[a0].1@,
        ) == Some((ws[q].1.secret_key@, ws[q].1.public_key@)));
    }
}

/// A store entry that decodes to a key pair stored under its own address
/// extends the list and keeps the loading invariant.
proof fn lemma_load_inv_push(
    raw: Seq<(Vec<u8>, Vec<u8>)>,
    ws_old: Seq<(String, Wallet)>,
    ws_new: Seq<(String, Wallet)>,
    i: int,
    entry_addr: Seq<char>,
    entry_sk: Seq<u8>,
    entry_pk: Seq<u8>,
)
    requires
        0 <= i < raw.len(),
        load_inv(raw, ws_old, i),
        forall|a: int, b: int| 0 <= a < b < raw.len() ==> raw[a].0@ != raw[b].0@,
        ws_new.len() == ws_old.len() + 1,
        forall|q: int| 0 <= q < ws_old.len() ==> #[trigger] ws_new[q] == ws_old[q],
        ws_new.last().0@ == entry_addr,
        ws_new.last().1.secret_key@ == entry_sk,
        ws_new.last().1.public_key@ == entry_pk,
        raw[i].0@ == vstd::utf8::encode_utf8(entry_addr),
        dec_wallet(raw[i].1@) == Some((entry_sk, entry_pk)),
        entry_addr == address_encoded(pub_key_hash_of(entry_pk)),
        entry_sk.len() == 64,
        entry_pk.len() == 32,
    ensures
        load_inv(raw, ws_new, i + 1),
{
    let n = ws_new.len() as int;
    assert(ws_new[n - 1] == ws_new.last());
    assert forall|q: int| 0 <= q < n implies #[trigger] listed_from(raw, ws_new, i + 1, q) by {
        if q < n - 1 {
            assert(ws_new[q] == ws_old[q]);
            assert(listed_from(raw, ws_old, i, q));
            let a0 = choose|a0: int|
                0 <= a0 < i && #[trigger] raw[a0].0@ == vstd::utf8::encode_utf8(ws_old[q].0@)
                    && dec_wallet(raw[a0].1@) == Some(
                    (ws_old[q].1.secret_key@, ws_old[q].1.public_key@),
                );
            assert(0 <= a0 < i + 1 && raw[a0].0@ == vstd::utf8::encode_utf8(ws_new[q].0@)
                && dec_wallet(raw[a0].1@) == Some(
                (ws_new[q].1.secret_key@, ws_new[q].1.public_key@),
            ));
        } else {
            assert(0 <= i < i + 1 && raw[i].0@ == vstd::utf8::encode_utf8(ws_new[q].0@)
                && dec_wallet(raw[i].1@) == Some(
                (ws_new[q].1.secret_key@, ws_new[q].1.public_key@),
            ));
        }
    }
    assert forall|a: int|
        0 <= a < i + 1 implies match dec_wallet(#[trigger] raw[a].1@) {
        Some(keys) => raw[a].0@ == vstd::utf8::encode_utf8(
            address_encoded(pub_key_hash_of(keys.1)),
        ) ==> exists|q: int|
            0 <= q < ws_new.len() && vstd::utf8::encode_utf8((#[trigger] ws_new[q]).0@)
                == raw[a].0@,
        None => true,
    } by {
        if a < i {
            if let Some(keys) = dec_wallet(raw[a].1@) {
                if raw[a].0@ == vstd::utf8::encode_utf8(
                    address_encoded(pub_key_hash_of(keys.1)),
                ) {
                    let q0 = choose|q0: int|
                        0 <= q0 < ws_old.len() && vstd::utf8::encode_utf8(
                            (#[trigger] ws_old[q0]).0@,
                        ) == raw[a].0@;
                    assert(ws_new[q0] == ws_old[q0]);
                }
            }
        } else {
            assert(vstd::utf8::encode_utf8(ws_new[n - 1].0@) == raw[a].0@);
        }
    }
    assert forall|q1: int, q2: int|
        0 <= q1 < q2 < n implies (#[trigger] ws_new[q1]).0@ != (#[trigger] ws_new[q2]).0@ by {
        if q2 == n - 1 {
            assert(ws_new[q1] == ws_old[q1]);
            assert(listed_from(raw, ws_old, i, q1));
            let a1 = choose|a1: int|
                0 <= a1 < i && #[trigger] raw[a1].0@ == vstd::utf8::encode_utf8(ws_old[q1].0@)
                    && dec_wallet(raw[a1].1@) == Some(
                    (ws_old[q1].1.secret_key@, ws_old[q1].1.public_key@),
                );
            if ws_new[q1].0@ == ws_new[q2].0@ {
                assert(raw[a1].0@ == raw[i].0@);
                assert(false);
            }
        } else {
            assert(ws_new[q1] == ws_old[q1]);
            assert(ws_new[q2] == ws_old[q2]);
        }
    }
}

/// Once every store entry is processed, the list says exactly what the
/// store says.
proof fn lemma_load_inv_closes(
    raw: Seq<(Vec<u8>, Vec<u8>)>,
    ws: Seq<(String, Wallet)>,
    view: Map<Seq<u8>, Seq<u8>>,
)
    requires
        load_inv(raw, ws, raw.len() as int),
        forall|a: int|
            0 <= a < raw.len() ==> view.contains_key(#[trigger] raw[a].0@) && view[raw[a].0@]
                == raw[a].1@,
        forall|k: Seq<u8>|
            view.dom().contains(k) ==> exists|a: int| 0 <= a < raw.len() && #[trigger] raw[a].0@
                == k,
    ensures
        forall|q: int|
            0 <= q < ws.len() ==> {
                &&& view.contains_key(vstd::utf8::encode_utf8((#[trigger] ws[q]).0@))
                &&& dec_wallet(view[vstd::utf8::encode_utf8(ws[q].0@)]) == Some(
                    (ws[q].1.secret_key@, ws[q].1.public_key@),
                )
            },
        forall|k: Seq<u8>|
            view.dom().contains(k) ==> match dec_wallet(#[trigger] view[k]) {
                Some(keys) => k == vstd::utf8::encode_utf8(
                    address_encoded(pub_key_hash_of(keys.1)),
                ) ==> exists|q: int|
                    0 <= q < ws.len() && (#[trigger] ws[q]).0@ == address_encoded(
                        pub_key_hash_of(keys.1),
                    ) && ws[q].1.secret_key@ == keys.0 && ws[q].1.public_key@ == keys.1,
                None => true,
            },
{
    assert forall|q: int|
        0 <= q < ws.len() implies {
        &&& view.contains_key(vstd::utf8::encode_utf8((#[trigger] ws[q]).0@))
        &&& dec_wallet(view[vstd::utf8::encode_utf8(ws[q].0@)]) == Some(
            (ws[q].1.secret_key@, ws[q].1.public_key@),
        )
    } by {
        assert(listed_from(raw, ws, raw.len() as int, q));
        let a = choose|a: int|
            0 <= a < raw.len() && #[trigger] raw[a].0@ == vstd::utf8::encode_utf8(ws[q].0@)
                && dec_wallet(raw[a].1@) == Some((ws[q].1.secret_key@, ws[q].1.public_key@));
        assert(view[raw[a].0@] == raw[a].1@);
    }
    assert forall|k: Seq<u8>|
        view.dom().contains(k) implies match dec_wallet(#[trigger] view[k]) {
        Some(keys) => k == vstd::utf8::encode_utf8(address_encoded(pub_key_hash_of(keys.1)))
            ==> exists|q: int|
            0 <= q < ws.len() && (#[trigger] ws[q]).0@ == address_encoded(
                pub_key_hash_of(keys.1),
            ) && ws[q].1.secret_key@ == keys.0 && ws[q].1.public_key@ == keys.1,
        None => true,
    } by {
        let a = choose|a: int| 0 <= a < raw.len() && #[trigger] raw[a].0@ == k;
        assert(view[k] == raw[a].1@);
        if let Some(keys) = dec_wallet(raw[a].1@) {
            if k == vstd::utf8::encode_utf8(address_encoded(pub_key_hash_of(keys.1))) {
                let q = choose|q: int|
                    0 <= q < ws.len() && vstd::utf8::encode_utf8((#[trigger] ws[q]).0@) == raw[a].0@;
                assert(view[vstd::utf8::encode_utf8(ws[q].0@)] == raw[a].1@);
                assert(dec_wallet(raw[a].1@) == Some(
                    (ws[q].1.secret_key@, ws[q].1.public_key@),
                ));
                vstd::utf8::encode_utf8_decode_utf8(ws[q].0@);
                vstd::utf8::encode_utf8_decode_utf8(address_encoded(pub_key_hash_of(keys.1)));
                assert(ws[q].0@ == address_encoded(pub_key_hash_of(keys.1)));
            }
        }
    }
}

/// The wallet store: every known key pair, keyed by its address, backed
/// by a durable store.
pub struct Wallets {
    pub db: sled::Db,
    pub wallets: Vec<(String, Wallet)>,
}

impl Wallets {
    /// Every wallet holds an ed25519 key pair of the right lengths, under
    /// the address its public key hashes to, and no address occurs twice.
    pub open spec fn wallets_wf(self) -> bool {
        &&& forall|i: int|
            0 <= i < self.wallets@.len() ==> {
                &&& (#[trigger] self.wallets@[i]).1.secret_key@.len() == 64
                &&& self.wallets@[i].1.public_key@.len() == 32
                &&& self.wallets@[i].0@ == address_encoded(
                    pub_key_hash_of(self.wallets@[i].1.public_key@),
                )
            }
        &&& forall|i: int, j: int|
            0 <= i < j < self.wallets@.len() ==> (#[trigger] self.wallets@[i]).0@ != (
            #[trigger] self.wallets@[j]).0@
    }

    /// Opens the wallet store and loads exactly the entries that decode
    /// to a key pair stored under its own address; anything else in the
    /// store is ignored.
    #[verifier::rlimit(100)]
    pub fn new(path: &str) -> (r: Result<Wallets, crate::errors::ChainError>)
        ensures
            match r {
                Ok(ws) => {
                    &&& ws.wallets_wf()
                    &&& forall|q: int|
                        0 <= q < ws.wallets@.len() ==> {
                            &&& crate::store::store_view(ws.db).contains_key(
                                vstd::utf8::encode_utf8((#[trigger] ws.wallets@[q]).0@),
                            )
                            &&& dec_wallet(
                                crate::store::store_view(ws.db)[vstd::utf8::encode_utf8(
                                    ws.wallets@[q].0@,
                                )],
                            ) == Some(
                                (ws.wallets@[q].1.secret_key@, ws.wallets@[q].1.public_key@),
                            )
                        }
                    &&& forall|k: Seq<u8>|
                        crate::store::store_view(ws.db).dom().contains(k)
                            ==> match dec_wallet(#[trigger] crate::store::store_view(ws.db)[k]) {
                            Some(keys) => k == vstd::utf8::encode_utf8(
                                address_encoded(pub_key_hash_of(keys.1)),
                            ) ==> exists|q: int|
                                0 <= q < ws.wallets@.len() && (#[trigger] ws.wallets@[q]).0@
                                    == address_encoded(pub_key_hash_of(keys.1))
                                    && ws.wallets@[q].1.secret_key@ == keys.0
                                    && ws.wallets@[q].1.public_key@ == keys.1,
                            None => true,
                        }
                },
                Err(e) => e == crate::errors::ChainError::StoreInitError || e
                    == crate::errors::ChainError::StoreReadError,
            },
    {
        let db = match crate::store::store_open(path) {
            Err(_) => {
                return Err(crate::errors::ChainError::StoreInitError);
            },
            Ok(d) => d,
        };
        let raw = match crate::store::store_entries(&db) {
            Err(_) => {
                return Err(crate::errors::ChainError::StoreReadError);
            },
            Ok(v) => v,
        };
        let ghost dview = crate::store::store_view(db);
        let mut wallets: Vec<(String, Wallet)> = Vec::new();
        let mut i: usize = 0;
        proof {
            assert(load_inv(raw@, wallets@, 0));
        }
        while i < raw.len()
            invariant
                0 <= i <= raw@.len(),
                dview == crate::store::store_view(db),
                forall|a: int|
                    0 <= a < raw@.len() ==> dview.contains_key(#[trigger] raw@[a].0@)
                        && dview[raw@[a].0@] == raw@[a].1@,
                forall|a: int, b: int| 0 <= a < b < raw@.len() ==> raw@[a].0@ != raw@[b].0@,
                load_inv(raw@, wallets@, i as int),
            decreases raw@.len() - i,
        {
            let pair = &raw[i];
            proof {
                assert(pair.0@ == raw@[i as int].0@);
                assert(pair.1@ == raw@[i as int].1@);
            }
            let w = match read_wallet(pair.1.as_slice()) {
                None => {
                    proof {
                        lemma_load_inv_skip(raw@, wallets@, i as int);
                    }
                    i = i + 1;
                    continue;
                },
                Some(w) => w,
            };
            let address = w.get_address();
            let addr_bytes = address.as_str().as_bytes_vec();
            proof {
                assert(addr_bytes@ == vstd::utf8::encode_utf8(address@));
                assert(dec_wallet(raw@[i as int].1@) == Some((w.secret_key@, w.public_key@)));
                assert(address@ == address_encoded(pub_key_hash_of(w.public_key@)));
            }
            if crate::tx::bytes_eq(addr_bytes.as_slice(), pair.0.as_slice()) {
                let ghost ws_old = wallets@;
                let ghost entry_addr = address@;
                let ghost entry_sk = w.secret_key@;
                let ghost entry_pk = w.public_key@;
                wallets.push((address, w));
                i = i + 1;
                proof {
                    lemma_load_inv_push(
                        raw@,
                        ws_old,
                        wallets@,
                        (i - 1) as int,
                        entry_addr,
                        entry_sk,
                        entry_pk,
                    );
                }
            } else {
                proof {
                    assert(raw@[i as int].0@ != vstd::utf8::encode_utf8(address@));
                    lemma_load_inv_skip(raw@, wallets@, i as int);
                }
                i = i + 1;
            }
        }
        let ws = Wallets { db, wallets };
        proof {
            lemma_load_inv_closes(raw@, ws.wallets@, dview);
            assert(crate::store::store_view(ws.db) == dview);
        }
        Ok(ws)
    }

    /// The position of the wallet held under `address`, if any.
    fn find_wallet_pos(&self, address: &String) -> (r: Option<usize>)
        ensures
            match r {
                Some(p) => p < self.wallets@.len() && self.wallets@[p as int].0@ == address@,
                None => forall|q: int|
                    0 <= q < self.wallets@.len() ==> (#[trigger] self.wallets@[q]).0@ != address@,
            },
    {
        let mut i: usize = 0;
        while i < self.wallets.len()
            invariant
                0 <= i <= self.wallets@.len(),
                forall|q: int| 0 <= q < i ==> (#[trigger] self.wallets@[q]).0@ != address@,
            decreases self.wallets@.len() - i,
        {
            let pair = &self.wallets[i];
            if pair.0 == *address {
                return Some(i);
            }
            i = i + 1;
        }
        None
    }

    /// Creates a fresh wallet and stores it in memory under its address,
    /// replacing any wallet already held under that address, and returns
    /// the address.
    pub fn create_wallet(&mut self) -> (r: String)
        requires
            old(self).wallets_wf(),
        ensures
            final(self).wallets_wf(),
            final(self).wallets@.len() >= 1,
            final(self).wallets@.last().0@ == r@,
            r@ == address_encoded(pub_key_hash_of(final(self).wallets@.last().1.public_key@)),
            wallet_at(final(self).wallets@, r@) is Some,
            forall|q: int|
                0 <= q < old(self).wallets@.len() && (#[trigger] old(self).wallets@[q]).0@ != r@
                    ==> exists|j: int|
                    0 <= j < final(self).wallets@.len() && (#[trigger] final(self).wallets@[j]).0@
                        == old(self).wallets@[q].0@ && final(self).wallets@[j].1.secret_key@ == old(
                        self,
                    ).wallets@[q].1.secret_key@ && final(self).wallets@[j].1.public_key@ == old(
                        self,
                    ).wallets@[q].1.public_key@,
    {
        let wallet = Wallet::new();
        let address = wallet.get_address();
        let r = address.clone();
        let ghost dv0 = self.wallets@;
        let pos: Option<usize> = self.find_wallet_pos(&address);
        let ghost dv1: Seq<(String, Wallet)>;
        match pos {
            Some(p) => {
                let _old_entry = self.wallets.remove(p);
                proof {
                    dv1 = self.wallets@;
                    assert(dv1 == dv0.remove(p as int));
                    assert forall|q: int| 0 <= q < dv1.len() implies (#[trigger] dv1[q]).0@
                        != address@ by {
                        if q < p {
                            assert(dv1[q] == dv0[q]);
                        } else {
                            assert(dv1[q] == dv0[q + 1]);
                            if dv1[q].0@ == address@ {
                                assert(dv0[p as int].0@ == address@);
                                assert(false);
                            }
                        }
                    }
                }
            },
            None => {
                proof {
                    dv1 = self.wallets@;
                    assert(forall|q: int| 0 <= q < dv1.len() ==> (#[trigger] dv1[q]).0@ != address@);
                }
            },
        }
        let ghost pk_v = wallet.public_key@;
        self.wallets.push((address, wallet));
        proof {
            let n = self.wallets@.len() as int;
            assert(self.wallets@[n - 1].0@ == r@);
            assert(self.wallets@[n - 1].1.public_key@ == pk_v);
            assert(forall|q: int| 0 <= q < n - 1 ==> self.wallets@[q] == dv1[q]);
            lemma_wallet_at_first(self.wallets@, r@, n - 1);
            assert forall|q: int|
                0 <= q < dv0.len() && (#[trigger] dv0[q]).0@ != r@ implies exists|j: int|
                0 <= j < self.wallets@.len() && (#[trigger] self.wallets@[j]).0@ == dv0[q].0@
                    && self.wallets@[j].1.secret_key@ == dv0[q].1.secret_key@
                    && self.wallets@[j].1.public_key@ == dv0[q].1.public_key@ by {
                match pos {
                    Some(p) => {
                        if q < p {
                            assert(self.wallets@[q] == dv0[q]);
                        } else {
                            assert(q != p);
                            assert(self.wallets@[q - 1] == dv1[q - 1]);
                            assert(dv1[q - 1] == dv0[q]);
                        }
                    },
                    None => {
                        assert(self.wallets@[q] == dv0[q]);
                    },
                }
            }
        }
        r
    }

    /// Every known address, in store order.
    pub fn get_all_addresses(&self) -> (r: Vec<String>)
        ensures
            r@.len() == self.wallets@.len(),
            forall|i: int| 0 <= i < r@.len() ==> (#[trigger] r@[i])@ == self.wallets@[i].0@,
    {
        let mut addresses: Vec<String> = Vec::new();
        let mut i: usize = 0;
        while i < self.wallets.len()
            invariant
                0 <= i <= self.wallets@.len(),
                addresses@.len() == i,
                forall|q: int|
                    0 <= q < i ==> (#[trigger] addresses@[q])@ == self.wallets@[q].0@,
            decreases self.wallets@.len() - i,
        {
            let pair = &self.wallets[i];
            addresses.push(pair.0.clone());
            i = i + 1;
        }
        addresses
    }

    /// The wallet stored under `address`, if any: a fresh copy of the
    /// first entry bearing it.
    pub fn get_wallet(&self, address: &str) -> (r: Option<Wallet>)
        ensures
            match r {
                Some(w) => exists|i: int|
                    0 <= i < self.wallets@.len() && (#[trigger] self.wallets@[i]).0@ == address@
                        && w.secret_key@ == self.wallets@[i].1.secret_key@ && w.public_key@
                        == self.wallets@[i].1.public_key@,
                None => forall|i: int|
                    0 <= i < self.wallets@.len() ==> (#[trigger] self.wallets@[i]).0@ != address@,
            },
    {
        let addr_s: String = address.to_owned();
        let mut i: usize = 0;
        while i < self.wallets.len()
            invariant
                0 <= i <= self.wallets@.len(),
                addr_s@ == address@,
                forall|q: int|
                    0 <= q < i ==> (#[trigger] self.wallets@[q]).0@ != address@,
            decreases self.wallets@.len() - i,
        {
            let pair = &self.wallets[i];
            if pair.0 == addr_s {
                return Some(pair.1.clone());
            }
            i = i + 1;
        }
        None
    }

    /// Persists every wallet under its address and flushes: an entry
    /// not shadowed by a later one with the same address is durably the
    /// encoding of its key pair.
    pub fn save_all(&mut self) -> (r: Result<(), crate::errors::ChainError>)
        ensures
            final(self).wallets == old(self).wallets,
            match r {
                Ok(()) => forall|i: int|
                    #![trigger final(self).wallets@[i]]
                    0 <= i < final(self).wallets@.len() && (forall|j: int|
                        i < j < final(self).wallets@.len()
                            ==> (#[trigger] final(self).wallets@[j]).0@
                            != final(self).wallets@[i].0@) ==> {
                        &&& crate::store::store_view(final(self).db).contains_key(
                            vstd::utf8::encode_utf8(final(self).wallets@[i].0@),
                        )
                        &&& crate::store::store_view(final(self).db)[vstd::utf8::encode_utf8(
                            final(self).wallets@[i].0@,
                        )] == enc_wallet(
                            final(self).wallets@[i].1.secret_key@,
                            final(self).wallets@[i].1.public_key@,
                        )
                    },
                Err(e) => e == crate::errors::ChainError::StoreWriteError,
            },
    {
        let n = self.wallets.len();
        let mut i: usize = 0;
        while i < n
            invariant
                0 <= i <= n,
                n == self.wallets@.len(),
                self.wallets == old(self).wallets,
                forall|q: int|
                    0 <= q < i && (forall|j: int|
                        q < j < i ==> (#[trigger] self.wallets@[j]).0@ != self.wallets@[q].0@)
                        ==> {
                        &&& crate::store::store_view(self.db).contains_key(
                            vstd::utf8::encode_utf8((#[trigger] self.wallets@[q]).0@),
                        )
                        &&& crate::store::store_view(self.db)[vstd::utf8::encode_utf8(
                            self.wallets@[q].0@,
                        )] == enc_wallet(
                            self.wallets@[q].1.secret_key@,
                            self.wallets@[q].1.public_key@,
                        )
                    },
            decreases n - i,
        {
            let pair = &self.wallets[i];
            let data = write_wallet(&pair.1);
            let key = pair.0.as_str().as_bytes_vec();
            proof {
                assert(key@ == vstd::utf8::encode_utf8(self.wallets@[i as int].0@));
            }
            if crate::store::store_insert(&mut self.db, key.as_slice(), data.as_slice()).is_err() {
                return Err(crate::errors::ChainError::StoreWriteError);
            }
            i = i + 1;
            proof {
                assert forall|q: int|
                    0 <= q < i && (forall|j: int|
                        q < j < i ==> (#[trigger] self.wallets@[j]).0@ != self.wallets@[q].0@)
                        implies {
                    &&& crate::store::store_view(self.db).contains_key(
                        vstd::utf8::encode_utf8((#[trigger] self.wallets@[q]).0@),
                    )
                    &&& crate::store::store_view(self.db)[vstd::utf8::encode_utf8(
                        self.wallets@[q].0@,
                    )] == enc_wallet(
                        self.wallets@[q].1.secret_key@,
                        self.wallets@[q].1.public_key@,
                    )
                } by {
                    if q < i - 1 {
                        assert(self.wallets@[i - 1].0@ != self.wallets@[q].0@);
                        vstd::utf8::encode_utf8_decode_utf8(self.wallets@[q].0@);
                        vstd::utf8::encode_utf8_decode_utf8(self.wallets@[i - 1].0@);
                        if vstd::utf8::encode_utf8(self.wallets@[q].0@) == vstd::utf8::encode_utf8(
                            self.wallets@[i - 1].0@,
                        ) {
                            assert(false);
                        }
                    }
                }
            }
        }
        if crate::store::store_flush(&mut self.db).is_err() {
            return Err(crate::errors::ChainError::StoreWriteError);
        }
        Ok(())
    }
}

} // verus!
