//! The spent-output index: a durable mapping from transaction id to the
//! output indices already consumed. Entries only grow; the in-memory
//! index and the persistent store are kept saying exactly the same thing.

use vstd::prelude::*;
use crate::codec::{
    all_hex, bytes_chars, dec_le, hexish, hex_bytes_string, hex_str_bytes, is_hex_byte, le_bytes,
    lemma_dec_le_enc, lemma_hex_ascii, lemma_pow256_u64, push_le, read_le, str_bytes,
};
use crate::errors::ChainError;
use crate::store::{store_entries, store_flush, store_insert, store_view};
use crate::tx::{dec_i32, enc_i32, lemma_dec_enc_i32, push_i32, read_i32};

verus! {

// ---------------------------------------------------------------------
// The stored shape of one entry: a counted list of output indices
// ---------------------------------------------------------------------

/// The indices of one entry, one after the other.
pub open spec fn enc_i32s(s: Seq<i32>) -> Seq<u8>
    decreases s.len(),
{
    if s.len() == 0 {
        Seq::empty()
    } else {
        enc_i32(s[0]) + enc_i32s(s.drop_first())
    }
}

/// Decodes `n` indices.
pub open spec fn dec_i32s(s: Seq<u8>, n: nat) -> Option<(Seq<i32>, Seq<u8>)>
    decreases n,
{
    if n == 0 {
        Some((Seq::empty(), s))
    } else {
        match dec_i32(s) {
            None => None,
            Some((x, r)) => match dec_i32s(r, (n - 1) as nat) {
                None => None,
                Some((rest, r2)) => Some((seq![x] + rest, r2)),
            },
        }
    }
}

/// The stored value of one entry: its count, then its indices.
pub open spec fn enc_spent_list(s: Seq<i32>) -> Seq<u8> {
    le_bytes(s.len() as int, 8) + enc_i32s(s)
}

/// Decodes a stored entry, requiring every byte to be consumed.
pub open spec fn dec_spent_list(s: Seq<u8>) -> Option<Seq<i32>> {
    match dec_le(s, 8) {
        None => None,
        Some((n, s1)) => if n > usize::MAX as int {
            None
        } else {
            match dec_i32s(s1, n as nat) {
                None => None,
                Some((l, s2)) => if s2.len() == 0 {
                    Some(l)
                } else {
                    None
                },
            }
        },
    }
}

proof fn lemma_dec_enc_i32s(s: Seq<i32>, rest: Seq<u8>)
    ensures
        dec_i32s(enc_i32s(s) + rest, s.len()) == Some((s, rest)),
    decreases s.len(),
{
    if s.len() == 0 {
        assert(enc_i32s(s) + rest =~= rest);
    } else {
        let tail = s.drop_first();
        assert(enc_i32s(s) + rest =~= enc_i32(s[0]) + (enc_i32s(tail) + rest));
        lemma_dec_enc_i32(s[0], enc_i32s(tail) + rest);
        lemma_dec_enc_i32s(tail, rest);
        assert(seq![s[0]] + tail =~= s);
    }
}

/// Decoding a stored entry inverts encoding it.
pub proof fn lemma_dec_enc_spent_list(s: Seq<i32>)
    requires
        s.len() <= usize::MAX,
    ensures
        dec_spent_list(enc_spent_list(s)) == Some(s),
{
    lemma_pow256_u64();
    assert(enc_spent_list(s) =~= le_bytes(s.len() as int, 8) + enc_i32s(s));
    lemma_dec_le_enc(s.len() as int, 8, enc_i32s(s));
    lemma_dec_enc_i32s(s, Seq::empty());
    assert(enc_i32s(s) + Seq::<u8>::empty() =~= enc_i32s(s));
}

/// Encoding one more index appends its bytes.
proof fn lemma_enc_i32s_snoc(s: Seq<i32>, i: int)
    requires
        0 < i <= s.len(),
    ensures
        enc_i32s(s.take(i)) == enc_i32s(s.take(i - 1)) + enc_i32(s[i - 1]),
    decreases i,
{
    if i == 1 {
        assert(s.take(1).drop_first() =~= Seq::<i32>::empty());
        assert(s.take(0) =~= Seq::<i32>::empty());
        assert(s.take(1).len() == 1);
        assert(s.take(1)[0] == s[0]);
        assert(enc_i32s(Seq::<i32>::empty()) =~= Seq::<u8>::empty());
        assert(enc_i32s(s.take(1)) =~= enc_i32(s.take(1)[0]) + enc_i32s(s.take(1).drop_first()));
        assert(enc_i32s(s.take(1)) =~= enc_i32(s[0]) + Seq::<u8>::empty());
        assert(enc_i32s(s.take(0)) + enc_i32(s[0]) =~= enc_i32(s[0]));
    } else {
        lemma_enc_i32s_snoc(s.drop_first(), i - 1);
        assert(s.take(i).drop_first() =~= s.drop_first().take(i - 1));
        assert(s.take(i - 1).drop_first() =~= s.drop_first().take(i - 2));
        assert(s.take(i)[0] == s[0]);
        assert(s.take(i - 1)[0] == s[0]);
        assert(s.drop_first()[i - 2] == s[i - 1]);
        assert(enc_i32s(s.take(i)) == enc_i32(s[0]) + enc_i32s(s.drop_first().take(i - 1)));
        assert(enc_i32(s[0]) + (enc_i32s(s.drop_first().take(i - 2)) + enc_i32(s[i - 1])) =~= (
        enc_i32(s[0]) + enc_i32s(s.drop_first().take(i - 2))) + enc_i32(s[i - 1]));
        assert(enc_i32s(s.take(i - 1)) == enc_i32(s[0]) + enc_i32s(s.drop_first().take(i - 2)));
    }
}

/// The stored bytes of one entry.
fn write_spent_list(l: &Vec<i32>) -> (r: Vec<u8>)
    ensures
        r@ == enc_spent_list(l@),
{
    proof {
        lemma_pow256_u64();
    }
    let mut out: Vec<u8> = Vec::new();
    push_le(&mut out, l.len() as u128, 8);
    let ghost base = out@;
    let mut i: usize = 0;
    while i < l.len()
        invariant
            0 <= i <= l@.len(),
            out@ == base + enc_i32s(l@.take(i as int)),
        decreases l@.len() - i,
    {
        push_i32(&mut out, l[i]);
        i = i + 1;
        proof {
            lemma_enc_i32s_snoc(l@, i as int);
        }
    }
    proof {
        assert(l@.take(l@.len() as int) =~= l@);
        assert(out@ =~= enc_spent_list(l@));
    }
    out
}

/// Reads a stored entry, refusing trailing bytes.
fn read_spent_list(bytes: &[u8]) -> (r: Option<Vec<i32>>)
    ensures
        match r {
            Some(l) => dec_spent_list(bytes@) == Some(l@),
            None => dec_spent_list(bytes@) is None,
        },
{
    proof {
        assert(bytes@.skip(0) =~= bytes@);
    }
    let (n128, p1) = match read_le(bytes, 0, 8) {
        None => {
            return None;
        },
        Some(p) => p,
    };
    if n128 > usize::MAX as u128 {
        return None;
    }
    let n: usize = n128 as usize;
    let mut l: Vec<i32> = Vec::new();
    let mut p: usize = p1;
    let mut i: usize = 0;
    proof {
        if let Some((rest, r2)) = dec_i32s(bytes@.skip(p1 as int), n as nat) {
            assert(l@ + rest =~= rest);
        }
    }
    while i < n
        invariant
            0 <= i <= n,
            p1 <= p <= bytes@.len(),
            l@.len() == i,
            dec_le(bytes@, 8) == Some((n as int, bytes@.skip(p1 as int))),
            n <= usize::MAX,
            dec_i32s(bytes@.skip(p1 as int), n as nat) == match dec_i32s(
                bytes@.skip(p as int),
                (n - i) as nat,
            ) {
                None => None::<(Seq<i32>, Seq<u8>)>,
                Some((rest, r2)) => Some((l@ + rest, r2)),
            },
        decreases n - i,
    {
        let (x, np) = match read_i32(bytes, p) {
            None => {
                proof {
                    assert(dec_i32s(bytes@.skip(p as int), (n - i) as nat) is None);
                }
                return None;
            },
            Some(q) => q,
        };
        let ghost l_old = l@;
        l.push(x);
        proof {
            if let Some((rest, r2)) = dec_i32s(bytes@.skip(np as int), (n - i - 1) as nat) {
                assert(l_old + (seq![x] + rest) =~= l@ + rest);
            }
        }
        p = np;
        i = i + 1;
    }
    proof {
        assert(dec_i32s(bytes@.skip(p as int), 0) == Some((Seq::<i32>::empty(), bytes@.skip(p as int))));
        assert(l@ + Seq::<i32>::empty() =~= l@);
    }
    if p != bytes.len() {
        proof {
            assert(bytes@.skip(p as int).len() != 0);
        }
        return None;
    }
    proof {
        assert(bytes@.skip(p as int).len() == 0);
    }
    Some(l)
}

// ---------------------------------------------------------------------
// The index
// ---------------------------------------------------------------------

/// Whether a list of indices holds `x`.
pub open spec fn list_has(l: Seq<i32>, x: int) -> bool {
    exists|j: int| 0 <= j < l.len() && #[trigger] l[j] == x
}

/// The spent pairs named by a sequence of entries: `(id, index)` is
/// spent when some entry for `id` lists `index`.
pub open spec fn pairs_of(entries: Seq<(Seq<char>, Seq<i32>)>) -> Set<(Seq<char>, int)> {
    Set::new(
        |p: (Seq<char>, int)|
            exists|i: int|
                0 <= i < entries.len() && (#[trigger] entries[i]).0 == p.0 && list_has(
                    entries[i].1,
                    p.1,
                ),
    )
}

/// The spent pairs a store holds: every decodable entry under a hex key.
pub open spec fn spent_of_store(view: Map<Seq<u8>, Seq<u8>>) -> Set<(Seq<char>, int)> {
    Set::new(
        |p: (Seq<char>, int)|
            {
                &&& hexish(p.0)
                &&& view.dom().contains(str_bytes(p.0))
                &&& match dec_spent_list(view[str_bytes(p.0)]) {
                    Some(l) => list_has(l, p.1),
                    None => false,
                }
            },
    )
}

/// The in-memory spent-output index, kept synchronized with its store.
pub struct SpentIndex {
    pub db: sled::Db,
    pub entries: Vec<(String, Vec<i32>)>,
}

impl SpentIndex {
    /// The set of spent `(id, index)` pairs the index holds.
    pub open spec fn view_set(self) -> Set<(Seq<char>, int)> {
        pairs_of(self.entries.deep_view())
    }

    /// Well-formed: hex ids, no id twice, and the store says the same.
    pub open spec fn inv(self) -> bool {
        &&& forall|i: int|
            0 <= i < self.entries.deep_view().len() ==> hexish(
                (#[trigger] self.entries.deep_view()[i]).0,
            )
        &&& forall|i: int, j: int|
            0 <= i < j < self.entries.deep_view().len() ==> self.entries.deep_view()[i].0
                != self.entries.deep_view()[j].0
        &&& self.view_set() == spent_of_store(store_view(self.db))
        &&& forall|i: int|
            0 <= i < self.entries.deep_view().len() ==> {
                let e = #[trigger] self.entries.deep_view()[i];
                store_view(self.db).contains_key(str_bytes(e.0)) && dec_spent_list(
                    store_view(self.db)[str_bytes(e.0)],
                ) == Some(e.1)
            }
    }
}

/// Hex ids and their byte keys determine one another.
pub proof fn lemma_str_bytes_injective(a: Seq<char>, b: Seq<char>)
    requires
        hexish(a),
        hexish(b),
        str_bytes(a) == str_bytes(b),
    ensures
        a == b,
{
    lemma_hex_ascii(a);
    lemma_hex_ascii(b);
    assert(a =~= b);
}

impl SpentIndex {
    /// Loads the whole index from its store: exactly the decodable
    /// entries under hex keys; anything else in the store is ignored.
    #[verifier::rlimit(100)]
    pub fn load(db: sled::Db) -> (r: Result<SpentIndex, ChainError>)
        ensures
            match r {
                Ok(idx) => idx.inv() && idx.db == db,
                Err(e) => e == ChainError::StoreReadError,
            },
    {
        let raw = match store_entries(&db) {
            Err(_) => {
                return Err(ChainError::StoreReadError);
            },
            Ok(v) => v,
        };
        let mut entries: Vec<(String, Vec<i32>)> = Vec::new();
        let mut i: usize = 0;
        while i < raw.len()
            invariant
                0 <= i <= raw@.len(),
                forall|a: int|
                    0 <= a < raw@.len() ==> store_view(db).contains_key(#[trigger] raw@[a].0@)
                        && store_view(db)[raw@[a].0@] == raw@[a].1@,
                forall|a: int, b: int| 0 <= a < b < raw@.len() ==> raw@[a].0@ != raw@[b].0@,
                forall|e: int|
                    0 <= e < entries.deep_view().len() ==> hexish(
                        (#[trigger] entries.deep_view()[e]).0,
                    ),
                forall|e1: int, e2: int|
                    0 <= e1 < e2 < entries.deep_view().len() ==> entries.deep_view()[e1].0
                        != entries.deep_view()[e2].0,
                forall|e: int|
                    0 <= e < entries.deep_view().len() ==> {
                        let en = #[trigger] entries.deep_view()[e];
                        exists|a: int|
                            0 <= a < i && #[trigger] raw@[a].0@ == str_bytes(en.0)
                                && dec_spent_list(raw@[a].1@) == Some(en.1)
                    },
                forall|a: int|
                    0 <= a < i ==> (all_hex(#[trigger] raw@[a].0@) && dec_spent_list(raw@[a].1@) is Some)
                        ==> exists|e: int|
                        0 <= e < entries.deep_view().len()
                            && str_bytes((#[trigger] entries.deep_view()[e]).0) == raw@[a].0@,
            decreases raw@.len() - i,
        {
            let pair = &raw[i];
            proof {
                assert(pair.0@ == raw@[i as int].0@);
                assert(pair.1@ == raw@[i as int].1@);
            }
            let id = match hex_bytes_string(pair.0.as_slice()) {
                None => {
                    i = i + 1;
                    continue;
                },
                Some(s) => s,
            };
            let list = match read_spent_list(pair.1.as_slice()) {
                None => {
                    i = i + 1;
                    continue;
                },
                Some(l) => l,
            };
            let ghost idv = id@;
            let ghost ldv = list@;
            let ghost dv_old = entries.deep_view();
            entries.push((id, list));
            i = i + 1;
            proof {
                assert(entries.deep_view() =~~= dv_old.push((idv, ldv)));
                crate::codec::lemma_hex_bytes_chars(raw@[i - 1].0@);
                let n = entries.deep_view().len();
                assert(entries.deep_view()[n - 1] == (idv, ldv));
                assert(str_bytes(idv) == raw@[i - 1].0@);
                assert(dec_spent_list(raw@[i - 1].1@) == Some(ldv));
                assert forall|e: int| 0 <= e < n implies {
                    let en = #[trigger] entries.deep_view()[e];
                    exists|a: int|
                        0 <= a < i && #[trigger] raw@[a].0@ == str_bytes(en.0) && dec_spent_list(
                            raw@[a].1@,
                        ) == Some(en.1)
                } by {
                    if e < n - 1 {
                        assert(entries.deep_view()[e] == dv_old[e]);
                    } else {
                        assert(raw@[i - 1].0@ == str_bytes(entries.deep_view()[e].0));
                    }
                }
                assert forall|e1: int, e2: int|
                    0 <= e1 < e2 < entries.deep_view().len() implies entries.deep_view()[e1].0
                    != entries.deep_view()[e2].0 by {
                    if e2 == n - 1 {
                        assert(entries.deep_view()[e1] == dv_old[e1]);
                        let a1 = choose|a1: int|
                            0 <= a1 < i - 1 && #[trigger] raw@[a1].0@ == str_bytes(dv_old[e1].0)
                                && dec_spent_list(raw@[a1].1@) == Some(dv_old[e1].1);
                        if entries.deep_view()[e1].0 == idv {
                            assert(raw@[a1].0@ == str_bytes(idv));
                            assert(raw@[a1].0@ == raw@[i - 1].0@);
                            assert(false);
                        }
                    } else {
                        assert(entries.deep_view()[e1] == dv_old[e1]);
                        assert(entries.deep_view()[e2] == dv_old[e2]);
                    }
                }
                assert forall|a: int|
                    0 <= a < i && (all_hex(#[trigger] raw@[a].0@) && dec_spent_list(raw@[a].1@) is Some)
                        implies exists|e: int|
                        0 <= e < entries.deep_view().len()
                            && str_bytes((#[trigger] entries.deep_view()[e]).0) == raw@[a].0@ by {
                    if a < i - 1 {
                        let e0 = choose|e0: int|
                            0 <= e0 < dv_old.len() && str_bytes((#[trigger] dv_old[e0]).0)
                                == raw@[a].0@;
                        assert(entries.deep_view()[e0] == dv_old[e0]);
                    } else {
                        assert(str_bytes(entries.deep_view()[n - 1].0) == raw@[a].0@);
                    }
                }
            }
        }
        let idx = SpentIndex { db, entries };
        proof {
            let dv = idx.entries.deep_view();
            let view = store_view(db);
            assert forall|p: (Seq<char>, int)| idx.view_set().contains(p) implies spent_of_store(
                view,
            ).contains(p) by {
                let e = choose|e: int|
                    0 <= e < dv.len() && (#[trigger] dv[e]).0 == p.0 && exists|j: int|
                        0 <= j < dv[e].1.len() && dv[e].1[j] == p.1;
                let a = choose|a: int|
                    0 <= a < raw@.len() && #[trigger] raw@[a].0@ == str_bytes(dv[e].0)
                        && dec_spent_list(raw@[a].1@) == Some(dv[e].1);
                lemma_hex_ascii(dv[e].0);
                assert(hexish(p.0));
                assert(str_bytes(p.0) == raw@[a].0@);
                assert(view.contains_key(str_bytes(p.0)));
                assert(view[str_bytes(p.0)] == raw@[a].1@);
                assert(dec_spent_list(view[str_bytes(p.0)]) == Some(dv[e].1));
                assert(list_has(dv[e].1, p.1));
                assert(spent_of_store(view).contains(p));
            }
            assert forall|p: (Seq<char>, int)| spent_of_store(view).contains(p) implies idx.view_set().contains(
                p,
            ) by {
                lemma_hex_ascii(p.0);
                let a = choose|a: int|
                    0 <= a < raw@.len() && #[trigger] raw@[a].0@ == str_bytes(p.0);
                assert(view[raw@[a].0@] == raw@[a].1@);
                assert(dec_spent_list(raw@[a].1@) is Some);
                assert(forall|c: int|
                    0 <= c < raw@[a].0@.len() ==> is_hex_byte(#[trigger] raw@[a].0@[c]));
                let e = choose|e: int|
                    0 <= e < dv.len() && str_bytes((#[trigger] dv[e]).0) == raw@[a].0@;
                let a2 = choose|a2: int|
                    0 <= a2 < raw@.len() && #[trigger] raw@[a2].0@ == str_bytes(dv[e].0)
                        && dec_spent_list(raw@[a2].1@) == Some(dv[e].1);
                assert(raw@[a2].0@ == raw@[a].0@);
                assert(a2 == a);
                lemma_str_bytes_injective(dv[e].0, p.0);
                assert(dv[e].0 == p.0);
                assert(dec_spent_list(view[str_bytes(p.0)]) == Some(dv[e].1));
                assert(list_has(dv[e].1, p.1));
                assert(idx.view_set().contains(p));
            }
            assert(idx.view_set() =~= spent_of_store(view));
        }
        Ok(idx)
    }

    /// Whether the index holds the pair `(id, v)`.
    pub fn contains(&self, id: &String, v: i32) -> (r: bool)
        ensures
            r == self.view_set().contains((id@, v as int)),
    {
        let mut i: usize = 0;
        while i < self.entries.len()
            invariant
                0 <= i <= self.entries@.len(),
                forall|a: int|
                    0 <= a < i ==> !((#[trigger] self.entries.deep_view()[a]).0 == id@
                        && list_has(self.entries.deep_view()[a].1, v as int)),
            decreases self.entries@.len() - i,
        {
            let pair = &self.entries[i];
            proof {
                assert(self.entries.deep_view()[i as int].0 == pair.0@);
                assert(self.entries.deep_view()[i as int].1 =~= pair.1@.map(
                    |q: int, x: i32| x,
                ));
                assert(self.entries.deep_view()[i as int].1 =~= pair.1@);
            }
            if pair.0 == *id {
                let mut j: usize = 0;
                while j < pair.1.len()
                    invariant
                        0 <= j <= pair.1@.len(),
                        i < self.entries@.len(),
                        pair == &self.entries@[i as int],
                        self.entries.deep_view()[i as int].0 == id@,
                        self.entries.deep_view()[i as int].1 =~= pair.1@,
                        forall|b: int| 0 <= b < j ==> pair.1@[b] != v,
                    decreases pair.1@.len() - j,
                {
                    if pair.1[j] == v {
                        proof {
                            assert(self.entries.deep_view()[i as int].1[j as int] == v as int);
                            assert(list_has(self.entries.deep_view()[i as int].1, v as int));
                        }
                        return true;
                    }
                    j = j + 1;
                }
                proof {
                    assert forall|jj: int|
                        0 <= jj < self.entries.deep_view()[i as int].1.len() implies #[trigger] self.entries.deep_view()[i as int].1[jj]
                        != v as int by {
                        assert(pair.1@[jj] != v);
                    }
                    assert(!list_has(self.entries.deep_view()[i as int].1, v as int));
                }
            }
            i = i + 1;
        }
        proof {
            if self.view_set().contains((id@, v as int)) {
                let w = choose|a: int|
                    0 <= a < self.entries.deep_view().len() && (#[trigger] self.entries.deep_view()[a]).0
                        == id@ && list_has(self.entries.deep_view()[a].1, v as int);
                assert(false);
            }
        }
        false
    }

    /// The position of the entry for `id`, if one exists.
    fn find_pos(&self, id: &String) -> (r: Option<usize>)
        ensures
            match r {
                Some(pos) => pos < self.entries.deep_view().len()
                    && self.entries.deep_view()[pos as int].0 == id@,
                None => forall|a: int|
                    0 <= a < self.entries.deep_view().len() ==> (
                    #[trigger] self.entries.deep_view()[a]).0 != id@,
            },
    {
        let mut i: usize = 0;
        while i < self.entries.len()
            invariant
                0 <= i <= self.entries@.len(),
                forall|a: int| 0 <= a < i ==> (#[trigger] self.entries.deep_view()[a]).0 != id@,
            decreases self.entries@.len() - i,
        {
            let pair = &self.entries[i];
            proof {
                assert(self.entries.deep_view()[i as int].0 == pair.0@);
            }
            if pair.0 == *id {
                return Some(i);
            }
            i = i + 1;
        }
        None
    }

    /// Marks `(id, v)` spent: grows the id's entry, persists it, and
    /// flushes before returning. The in-memory index records the mark in
    /// every case — entries are never removed — but after a store error
    /// the store's own contents are unspecified.
    #[verifier::rlimit(100)]
    pub fn mark(&mut self, id: &String, v: i32) -> (r: Result<(), ChainError>)
        requires
            old(self).inv(),
            hexish(id@),
        ensures
            final(self).view_set() == old(self).view_set().insert((id@, v as int)),
            match r {
                Ok(()) => final(self).inv(),
                Err(e) => e == ChainError::StoreWriteError,
            },
    {
        let ghost old_set = self.view_set();
        let mut list: Vec<i32>;
        let found: Option<usize> = self.find_pos(id);
        let ghost dv0 = self.entries.deep_view();
        match found {
            Some(pos) => {
                let (_k, l) = self.entries.remove(pos);
                list = l;
                proof {
                    assert(self.entries.deep_view() =~~= dv0.remove(pos as int));
                    assert(list@ =~= dv0[pos as int].1);
                }
            },
            None => {
                list = Vec::new();
                proof {
                    assert(self.entries.deep_view() =~~= dv0);
                    assert(list@ =~= Seq::<i32>::empty());
                }
            },
        }
        list.push(v);
        let llen: usize = list.len();
        proof {
            assert(list@.len() == llen);
        }
        let key = hex_str_bytes(id);
        let value = write_spent_list(&list);
        let mut stored = store_insert(&mut self.db, key.as_slice(), value.as_slice()).is_ok();
        if stored {
            stored = store_flush(&mut self.db).is_ok();
        }
        let ghost dv1 = self.entries.deep_view();
        let ghost lv = list@;
        self.entries.push((id.clone(), list));
        proof {
            let dv2 = self.entries.deep_view();
            assert(dv2 =~~= dv1.push((id@, lv)));
            let view0 = store_view(old(self).db);
            let view1 = store_view(self.db);
            if stored {
                assert(view1 == view0.insert(str_bytes(id@), enc_spent_list(lv)));
            }
            lemma_dec_enc_spent_list(lv);
            lemma_hex_ascii(id@);
            // every entry besides the last keeps its id, list and store slot
            assert forall|e: int| 0 <= e < dv1.len() implies (#[trigger] dv1[e]).0 != id@
                && str_bytes(dv1[e].0) != str_bytes(id@) by {
                match found {
                    Some(pos) => {
                        if e < pos {
                            assert(dv1[e] == dv0[e]);
                        } else {
                            assert(dv1[e] == dv0[e + 1]);
                        }
                        if dv1[e].0 == id@ {
                            assert(dv0[pos as int].0 == id@);
                            assert(false);
                        }
                    },
                    None => {
                        assert(dv1[e] == dv0[e]);
                    },
                }
                if str_bytes(dv1[e].0) == str_bytes(id@) {
                    lemma_str_bytes_injective(dv1[e].0, id@);
                }
            };
            // the new pair set is the old one plus (id, v)
            assert forall|p: (Seq<char>, int)| self.view_set().contains(p) implies old(
                self,
            ).view_set().insert((id@, v as int)).contains(p) by {
                let e = choose|e: int|
                    0 <= e < dv2.len() && (#[trigger] dv2[e]).0 == p.0 && list_has(dv2[e].1, p.1);
                if e == dv2.len() - 1 {
                    assert(p.0 == id@);
                    if p.1 != v as int {
                        assert(list_has(lv, p.1));
                        let j = choose|j: int| 0 <= j < lv.len() && #[trigger] lv[j] == p.1;
                        match found {
                            Some(pos) => {
                                assert(j < lv.len() - 1);
                                assert(dv0[pos as int].1[j] == p.1);
                                assert(dv0[pos as int].0 == p.0);
                                assert(list_has(dv0[pos as int].1, p.1));
                                assert(old(self).view_set().contains(p));
                            },
                            None => {
                                assert(lv =~= seq![v]);
                                assert(false);
                            },
                        }
                    }
                } else {
                    assert(dv2[e] == dv1[e]);
                    match found {
                        Some(pos) => {
                            if e < pos {
                                assert(dv1[e] == dv0[e]);
                            } else {
                                assert(dv1[e] == dv0[e + 1]);
                            }
                        },
                        None => {
                            assert(dv1[e] == dv0[e]);
                        },
                    }
                    assert(old(self).view_set().contains(p));
                }
            };
            assert forall|p: (Seq<char>, int)| old(self).view_set().insert(
                (id@, v as int),
            ).contains(p) implies self.view_set().contains(p) by {
                if p == (id@, v as int) {
                    assert(dv2[dv2.len() - 1].0 == id@);
                    assert(lv[lv.len() - 1] == v);
                    assert(dv2[dv2.len() - 1].1[lv.len() - 1] == p.1);
                    assert(list_has(dv2[dv2.len() - 1].1, p.1));
                    assert(self.view_set().contains(p));
                } else {
                    let e = choose|e: int|
                        0 <= e < dv0.len() && (#[trigger] dv0[e]).0 == p.0 && list_has(
                            dv0[e].1,
                            p.1,
                        );
                    match found {
                        Some(pos) => {
                            if e == pos {
                                assert(p.0 == id@);
                                let j = choose|j: int|
                                    0 <= j < dv0[e].1.len() && #[trigger] dv0[e].1[j] == p.1;
                                assert(lv[j] == p.1);
                                assert(dv2[dv2.len() - 1].0 == p.0);
                                assert(list_has(dv2[dv2.len() - 1].1, p.1));
                                assert(self.view_set().contains(p));
                            } else if e < pos {
                                assert(dv1[e] == dv0[e]);
                                assert(dv2[e] == dv1[e]);
                                assert(self.view_set().contains(p));
                            } else {
                                assert(dv1[e - 1] == dv0[e]);
                                assert(dv2[e - 1] == dv1[e - 1]);
                                assert(self.view_set().contains(p));
                            }
                        },
                        None => {
                            assert(dv1[e] == dv0[e]);
                            assert(dv2[e] == dv1[e]);
                            assert(self.view_set().contains(p));
                        },
                    }
                }
            };
            assert(self.view_set() =~= old(self).view_set().insert((id@, v as int)));
            if stored {
                // the store still says exactly what the index says
                assert forall|p: (Seq<char>, int)| self.view_set().contains(p) implies spent_of_store(
                view1,
            ).contains(p) by {
                let e = choose|e: int|
                    0 <= e < dv2.len() && (#[trigger] dv2[e]).0 == p.0 && list_has(dv2[e].1, p.1);
                if e == dv2.len() - 1 {
                    assert(p.0 == id@);
                    assert(view1[str_bytes(p.0)] == enc_spent_list(lv));
                    assert(dec_spent_list(view1[str_bytes(p.0)]) == Some(lv));
                    assert(list_has(lv, p.1));
                    assert(spent_of_store(view1).contains(p));
                } else {
                    assert(dv2[e] == dv1[e]);
                    assert(str_bytes(dv1[e].0) != str_bytes(id@));
                    match found {
                        Some(pos) => {
                            if e < pos {
                                assert(dv1[e] == dv0[e]);
                            } else {
                                assert(dv1[e] == dv0[e + 1]);
                            }
                        },
                        None => {
                            assert(dv1[e] == dv0[e]);
                        },
                    }
                    assert(view0.contains_key(str_bytes(dv1[e].0)) && dec_spent_list(
                        view0[str_bytes(dv1[e].0)],
                    ) == Some(dv1[e].1));
                    assert(view1[str_bytes(dv1[e].0)] == view0[str_bytes(dv1[e].0)]);
                    assert(hexish(p.0));
                    assert(spent_of_store(view1).contains(p));
                }
            };
            assert forall|p: (Seq<char>, int)| spent_of_store(view1).contains(p) implies self.view_set().contains(
                p,
            ) by {
                if str_bytes(p.0) == str_bytes(id@) {
                    lemma_str_bytes_injective(p.0, id@);
                    assert(view1[str_bytes(p.0)] == enc_spent_list(lv));
                    assert(dv2[dv2.len() - 1].0 == p.0);
                } else {
                    assert(view0.contains_key(str_bytes(p.0)));
                    assert(spent_of_store(view0).contains(p));
                    assert(old(self).view_set().contains(p));
                }
            };
            assert(self.view_set() =~= spent_of_store(view1));
            // each entry still matches its stored slot
            assert forall|e: int| 0 <= e < dv2.len() implies {
                let en = #[trigger] dv2[e];
                store_view(self.db).contains_key(str_bytes(en.0)) && dec_spent_list(
                    store_view(self.db)[str_bytes(en.0)],
                ) == Some(en.1)
            } by {
                if e == dv2.len() - 1 {
                    assert(view1[str_bytes(id@)] == enc_spent_list(lv));
                } else {
                    assert(dv2[e] == dv1[e]);
                    match found {
                        Some(pos) => {
                            if e < pos {
                                assert(dv1[e] == dv0[e]);
                            } else {
                                assert(dv1[e] == dv0[e + 1]);
                            }
                        },
                        None => {
                            assert(dv1[e] == dv0[e]);
                        },
                    }
                    assert(str_bytes(dv1[e].0) != str_bytes(id@));
                }
                };
            }
        }
        if stored {
            Ok(())
        } else {
            Err(ChainError::StoreWriteError)
        }
    }
}

} // verus!
