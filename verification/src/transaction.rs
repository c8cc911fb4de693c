//! The transaction model: UTXO-referencing inputs and outputs, canonical
//! hashing, coinbase construction, per-input signing and verification.

use vstd::prelude::*;
use crate::codec::{
    dec_le, dec_str, enc_str, hexish, le_bytes, lemma_dec_enc_str, lemma_dec_le_enc,
    lemma_pow256_u64, push_le, push_str, read_le, read_str, str_bytes,
};
use crate::crypto::{
    ed25519_sig_of, ed25519_sign, ed25519_check, ed25519_verify_of, sha256_hex, sha256_hex_of,
};
use crate::errors::ChainError;
use crate::tx::{
    clone_bytes, dec_input, dec_output, enc_input, enc_output, in_bounded, in_wf, out_bounded,
    out_wf, push_input, push_output, read_input, read_output, InV, OutV, TrancInput, TrancOutput,
};

verus! {

/// A transaction: inputs spending prior outputs, and fresh outputs.
pub struct Transaction {
    pub tranc_id: String,
    pub vin: Vec<TrancInput>,
    pub vout: Vec<TrancOutput>,
}

/// The mathematical model of a transaction.
#[verifier::ext_equal]
pub ghost struct TxV {
    pub tranc_id: Seq<char>,
    pub vin: Seq<InV>,
    pub vout: Seq<OutV>,
}

impl View for Transaction {
    type V = TxV;

    open spec fn view(&self) -> TxV {
        TxV { tranc_id: self.tranc_id@, vin: self.vin.deep_view(), vout: self.vout.deep_view() }
    }
}

impl DeepView for Transaction {
    type V = TxV;

    open spec fn deep_view(&self) -> TxV {
        self.view()
    }
}

/// A well-formed transaction: hex ids and non-negative output values.
pub open spec fn tx_wf(t: TxV) -> bool {
    &&& hexish(t.tranc_id)
    &&& forall|i: int| 0 <= i < t.vin.len() ==> in_wf(#[trigger] t.vin[i])
    &&& forall|j: int| 0 <= j < t.vout.len() ==> out_wf(#[trigger] t.vout[j])
}

/// A transaction whose sequences are views of executable values.
pub open spec fn tx_bounded(t: TxV) -> bool {
    &&& t.tranc_id.len() <= usize::MAX
    &&& t.vin.len() <= usize::MAX
    &&& t.vout.len() <= usize::MAX
    &&& forall|i: int| 0 <= i < t.vin.len() ==> in_bounded(#[trigger] t.vin[i])
    &&& forall|j: int| 0 <= j < t.vout.len() ==> out_bounded(#[trigger] t.vout[j])
}

// ---------------------------------------------------------------------
// Codec
// ---------------------------------------------------------------------

/// The inputs of a transaction, one after the other.
pub open spec fn enc_inputs(s: Seq<InV>) -> Seq<u8>
    decreases s.len(),
{
    if s.len() == 0 {
        Seq::empty()
    } else {
        enc_input(s[0]) + enc_inputs(s.drop_first())
    }
}

/// Decodes `n` inputs.
pub open spec fn dec_inputs(s: Seq<u8>, n: nat) -> Option<(Seq<InV>, Seq<u8>)>
    decreases n,
{
    if n == 0 {
        Some((Seq::empty(), s))
    } else {
        match dec_input(s) {
            None => None,
            Some((i, r)) => match dec_inputs(r, (n - 1) as nat) {
                None => None,
                Some((rest, r2)) => Some((seq![i] + rest, r2)),
            },
        }
    }
}

/// The outputs of a transaction, one after the other.
pub open spec fn enc_outputs(s: Seq<OutV>) -> Seq<u8>
    decreases s.len(),
{
    if s.len() == 0 {
        Seq::empty()
    } else {
        enc_output(s[0]) + enc_outputs(s.drop_first())
    }
}

/// Decodes `n` outputs.
pub open spec fn dec_outputs(s: Seq<u8>, n: nat) -> Option<(Seq<OutV>, Seq<u8>)>
    decreases n,
{
    if n == 0 {
        Some((Seq::empty(), s))
    } else {
        match dec_output(s) {
            None => None,
            Some((o, r)) => match dec_outputs(r, (n - 1) as nat) {
                None => None,
                Some((rest, r2)) => Some((seq![o] + rest, r2)),
            },
        }
    }
}

pub proof fn lemma_dec_enc_inputs(s: Seq<InV>, rest: Seq<u8>)
    requires
        forall|i: int| 0 <= i < s.len() ==> in_wf(#[trigger] s[i]) && in_bounded(s[i]),
    ensures
        dec_inputs(enc_inputs(s) + rest, s.len()) == Some((s, rest)),
    decreases s.len(),
{
    if s.len() == 0 {
        assert(enc_inputs(s) + rest =~= rest);
    } else {
        let tail = s.drop_first();
        assert(enc_inputs(s) + rest =~= enc_input(s[0]) + (enc_inputs(tail) + rest));
        crate::tx::lemma_dec_enc_input(s[0], enc_inputs(tail) + rest);
        lemma_dec_enc_inputs(tail, rest);
        assert(seq![s[0]] + tail =~= s);
    }
}

pub proof fn lemma_dec_enc_outputs(s: Seq<OutV>, rest: Seq<u8>)
    requires
        forall|i: int| 0 <= i < s.len() ==> out_wf(#[trigger] s[i]) && out_bounded(s[i]),
    ensures
        dec_outputs(enc_outputs(s) + rest, s.len()) == Some((s, rest)),
    decreases s.len(),
{
    if s.len() == 0 {
        assert(enc_outputs(s) + rest =~= rest);
    } else {
        let tail = s.drop_first();
        assert(enc_outputs(s) + rest =~= enc_output(s[0]) + (enc_outputs(tail) + rest));
        crate::tx::lemma_dec_enc_output(s[0], enc_outputs(tail) + rest);
        lemma_dec_enc_outputs(tail, rest);
        assert(seq![s[0]] + tail =~= s);
    }
}

/// The canonical encoding of a transaction: its id, then its inputs and
/// outputs, each sequence with its length first.
pub open spec fn enc_tx(t: TxV) -> Seq<u8> {
    enc_str(t.tranc_id) + le_bytes(t.vin.len() as int, 8) + enc_inputs(t.vin) + le_bytes(
        t.vout.len() as int,
        8,
    ) + enc_outputs(t.vout)
}

/// Decodes a transaction.
pub open spec fn dec_tx(s: Seq<u8>) -> Option<(TxV, Seq<u8>)> {
    match dec_str(s) {
        None => None,
        Some((tranc_id, s1)) => match dec_le(s1, 8) {
            None => None,
            Some((n_in, s2)) => if n_in > usize::MAX as int {
                None
            } else {
                match dec_inputs(s2, n_in as nat) {
                    None => None,
                    Some((vin, s3)) => match dec_le(s3, 8) {
                        None => None,
                        Some((n_out, s4)) => if n_out > usize::MAX as int {
                            None
                        } else {
                            match dec_outputs(s4, n_out as nat) {
                                None => None,
                                Some((vout, s5)) => Some((TxV { tranc_id, vin, vout }, s5)),
                            }
                        },
                    },
                }
            },
        },
    }
}

/// Decoding a transaction inverts encoding it.
pub proof fn lemma_dec_enc_tx(t: TxV, rest: Seq<u8>)
    requires
        tx_wf(t),
        tx_bounded(t),
    ensures
        dec_tx(enc_tx(t) + rest) == Some((t, rest)),
{
    lemma_pow256_u64();
    let r4 = enc_outputs(t.vout) + rest;
    let r3 = le_bytes(t.vout.len() as int, 8) + r4;
    let r2 = enc_inputs(t.vin) + r3;
    let r1 = le_bytes(t.vin.len() as int, 8) + r2;
    assert(enc_tx(t) + rest =~= enc_str(t.tranc_id) + r1);
    lemma_dec_enc_str(t.tranc_id, r1);
    lemma_dec_le_enc(t.vin.len() as int, 8, r2);
    lemma_dec_enc_inputs(t.vin, r3);
    lemma_dec_le_enc(t.vout.len() as int, 8, r4);
    lemma_dec_enc_outputs(t.vout, rest);
}

/// The encoded bytes of a transaction.
pub fn encode_tx(t: &Transaction) -> (r: Vec<u8>)
    requires
        tx_wf(t@),
    ensures
        r@ == enc_tx(t@),
{
    let mut out: Vec<u8> = Vec::new();
    push_tx(&mut out, t);
    proof {
        assert(out@ =~= enc_tx(t@));
    }
    out
}

/// Appends the encoding of a transaction to `out`.
pub fn push_tx(out: &mut Vec<u8>, t: &Transaction)
    requires
        tx_wf(t@),
    ensures
        final(out)@ == old(out)@ + enc_tx(t@),
{
    push_str(out, &t.tranc_id);
    proof {
        lemma_pow256_u64();
    }
    push_le(out, t.vin.len() as u128, 8);
    let ghost base = out@;
    let mut i: usize = 0;
    while i < t.vin.len()
        invariant
            0 <= i <= t.vin@.len(),
            tx_wf(t@),
            t@.vin.len() == t.vin@.len(),
            out@ == base + enc_inputs(t@.vin.take(i as int)),
        decreases t.vin@.len() - i,
    {
        proof {
            assert(t@.vin[i as int] == t.vin@[i as int]@);
            assert(in_wf(t@.vin[i as int]));
        }
        push_input(out, &t.vin[i]);
        i = i + 1;
        proof {
            lemma_enc_inputs_snoc(t@.vin, i as int);
        }
    }
    proof {
        assert(t@.vin.take(t.vin@.len() as int) =~= t@.vin);
    }
    push_le(out, t.vout.len() as u128, 8);
    let ghost base2 = out@;
    let mut j: usize = 0;
    while j < t.vout.len()
        invariant
            0 <= j <= t.vout@.len(),
            t@.vout.len() == t.vout@.len(),
            out@ == base2 + enc_outputs(t@.vout.take(j as int)),
        decreases t.vout@.len() - j,
    {
        push_output(out, &t.vout[j]);
        j = j + 1;
        proof {
            lemma_enc_outputs_snoc(t@.vout, j as int);
        }
    }
    proof {
        assert(t@.vout.take(t.vout@.len() as int) =~= t@.vout);
        assert(out@ =~= old(out)@ + enc_tx(t@));
    }
}

/// Encoding one more input appends its bytes.
proof fn lemma_enc_inputs_snoc(s: Seq<InV>, i: int)
    requires
        0 < i <= s.len(),
    ensures
        enc_inputs(s.take(i)) == enc_inputs(s.take(i - 1)) + enc_input(s[i - 1]),
    decreases i,
{
    if i == 1 {
        assert(s.take(1).drop_first() =~= Seq::<InV>::empty());
        assert(s.take(0) =~= Seq::<InV>::empty());
        assert(s.take(1).len() == 1);
        assert(s.take(1)[0] == s[0]);
        assert(enc_inputs(Seq::<InV>::empty()) =~= Seq::<u8>::empty());
        assert(enc_inputs(s.take(1)) =~= enc_input(s.take(1)[0]) + enc_inputs(s.take(1).drop_first()));
        assert(enc_inputs(s.take(1)) =~= enc_input(s[0]) + Seq::<u8>::empty());
        assert(enc_inputs(s.take(0)) + enc_input(s[0]) =~= enc_input(s[0]));
    } else {
        lemma_enc_inputs_snoc(s.drop_first(), i - 1);
        assert(s.take(i).drop_first() =~= s.drop_first().take(i - 1));
        assert(s.take(i - 1).drop_first() =~= s.drop_first().take(i - 2));
        assert(s.take(i)[0] == s[0]);
        assert(s.take(i - 1)[0] == s[0]);
        assert(s.drop_first()[i - 2] == s[i - 1]);
        assert(enc_inputs(s.take(i)) == enc_input(s[0]) + enc_inputs(s.drop_first().take(i - 1)));
        assert(enc_input(s[0]) + (enc_inputs(s.drop_first().take(i - 2)) + enc_input(s[i - 1]))
            =~= (enc_input(s[0]) + enc_inputs(s.drop_first().take(i - 2))) + enc_input(s[i - 1]));
        assert(enc_inputs(s.take(i - 1)) == enc_input(s[0]) + enc_inputs(
            s.drop_first().take(i - 2),
        ));
    }
}

/// Encoding one more output appends its bytes.
proof fn lemma_enc_outputs_snoc(s: Seq<OutV>, i: int)
    requires
        0 < i <= s.len(),
    ensures
        enc_outputs(s.take(i)) == enc_outputs(s.take(i - 1)) + enc_output(s[i - 1]),
    decreases i,
{
    if i == 1 {
        assert(s.take(1).drop_first() =~= Seq::<OutV>::empty());
        assert(s.take(0) =~= Seq::<OutV>::empty());
        assert(s.take(1).len() == 1);
        assert(s.take(1)[0] == s[0]);
        assert(enc_outputs(Seq::<OutV>::empty()) =~= Seq::<u8>::empty());
        assert(enc_outputs(s.take(1)) =~= enc_output(s.take(1)[0]) + enc_outputs(s.take(1).drop_first()));
        assert(enc_outputs(s.take(1)) =~= enc_output(s[0]) + Seq::<u8>::empty());
        assert(enc_outputs(s.take(0)) + enc_output(s[0]) =~= enc_output(s[0]));
    } else {
        lemma_enc_outputs_snoc(s.drop_first(), i - 1);
        assert(s.take(i).drop_first() =~= s.drop_first().take(i - 1));
        assert(s.take(i - 1).drop_first() =~= s.drop_first().take(i - 2));
        assert(s.take(i)[0] == s[0]);
        assert(s.take(i - 1)[0] == s[0]);
        assert(s.drop_first()[i - 2] == s[i - 1]);
        assert(enc_outputs(s.take(i)) == enc_output(s[0]) + enc_outputs(
            s.drop_first().take(i - 1),
        ));
        assert(enc_output(s[0]) + (enc_outputs(s.drop_first().take(i - 2)) + enc_output(s[i - 1]))
            =~= (enc_output(s[0]) + enc_outputs(s.drop_first().take(i - 2))) + enc_output(
            s[i - 1],
        ));
        assert(enc_outputs(s.take(i - 1)) == enc_output(s[0]) + enc_outputs(
            s.drop_first().take(i - 2),
        ));
    }
}

/// Reads `n` inputs at `pos`.
fn read_inputs(bytes: &[u8], pos: usize, n: usize) -> (r: Option<(Vec<TrancInput>, usize)>)
    requires
        pos <= bytes@.len(),
    ensures
        match r {
            Some(p) => {
                &&& dec_inputs(bytes@.skip(pos as int), n as nat) == Some(
                    (p.0.deep_view(), bytes@.skip(p.1 as int)),
                )
                &&& pos <= p.1 <= bytes@.len()
                &&& forall|q: int| 0 <= q < p.0.deep_view().len() ==> in_wf(#[trigger] p.0.deep_view()[q])
            },
            None => dec_inputs(bytes@.skip(pos as int), n as nat) is None,
        },
{
    let mut vin: Vec<TrancInput> = Vec::new();
    let mut p3: usize = pos;
    let mut i: usize = 0;
    proof {
        if let Some((rest, r2)) = dec_inputs(bytes@.skip(pos as int), n as nat) {
            assert(vin.deep_view() + rest =~= rest);
        }
    }
    while i < n
        invariant
            0 <= i <= n,
            p3 <= bytes@.len(),
            pos <= p3,
            vin@.len() == i,
            forall|q: int| 0 <= q < i ==> in_wf(#[trigger] vin.deep_view()[q]),
            dec_inputs(bytes@.skip(pos as int), n as nat) == match dec_inputs(
                bytes@.skip(p3 as int),
                (n - i) as nat,
            ) {
                None => None::<(Seq<InV>, Seq<u8>)>,
                Some((rest, r2)) => Some((vin.deep_view() + rest, r2)),
            },
        decreases n - i,
    {
        let (inp, np) = match read_input(bytes, p3) {
            None => {
                proof {
                    assert(dec_inputs(bytes@.skip(p3 as int), (n - i) as nat) is None);
                }
                return None;
            },
            Some(p) => p,
        };
        let ghost dv_old = vin.deep_view();
        vin.push(inp);
        proof {
            assert(vin.deep_view() =~= dv_old.push(inp@));
            if let Some((rest, r2)) = dec_inputs(bytes@.skip(np as int), (n - i - 1) as nat) {
                assert(dv_old + (seq![inp@] + rest) =~= vin.deep_view() + rest);
            }
        }
        p3 = np;
        i = i + 1;
    }
    proof {
        assert(dec_inputs(bytes@.skip(p3 as int), 0) == Some(
            (Seq::<InV>::empty(), bytes@.skip(p3 as int)),
        ));
        assert(vin.deep_view() + Seq::<InV>::empty() =~= vin.deep_view());
    }
    Some((vin, p3))
}

/// Reads `n` outputs at `pos`.
fn read_outputs(bytes: &[u8], pos: usize, n: usize) -> (r: Option<(Vec<TrancOutput>, usize)>)
    requires
        pos <= bytes@.len(),
    ensures
        match r {
            Some(p) => {
                &&& dec_outputs(bytes@.skip(pos as int), n as nat) == Some(
                    (p.0.deep_view(), bytes@.skip(p.1 as int)),
                )
                &&& pos <= p.1 <= bytes@.len()
                &&& forall|q: int| 0 <= q < p.0.deep_view().len() ==> out_wf(#[trigger] p.0.deep_view()[q])
            },
            None => dec_outputs(bytes@.skip(pos as int), n as nat) is None,
        },
{
    let mut vout: Vec<TrancOutput> = Vec::new();
    let mut p5: usize = pos;
    let mut j: usize = 0;
    proof {
        if let Some((rest, r2)) = dec_outputs(bytes@.skip(pos as int), n as nat) {
            assert(vout.deep_view() + rest =~= rest);
        }
    }
    while j < n
        invariant
            0 <= j <= n,
            p5 <= bytes@.len(),
            pos <= p5,
            vout@.len() == j,
            forall|q: int| 0 <= q < j ==> out_wf(#[trigger] vout.deep_view()[q]),
            dec_outputs(bytes@.skip(pos as int), n as nat) == match dec_outputs(
                bytes@.skip(p5 as int),
                (n - j) as nat,
            ) {
                None => None::<(Seq<OutV>, Seq<u8>)>,
                Some((rest, r2)) => Some((vout.deep_view() + rest, r2)),
            },
        decreases n - j,
    {
        let (o, np) = match read_output(bytes, p5) {
            None => {
                proof {
                    assert(dec_outputs(bytes@.skip(p5 as int), (n - j) as nat) is None);
                }
                return None;
            },
            Some(p) => p,
        };
        let ghost dv_old = vout.deep_view();
        vout.push(o);
        proof {
            assert(vout.deep_view() =~= dv_old.push(o@));
            if let Some((rest, r2)) = dec_outputs(bytes@.skip(np as int), (n - j - 1) as nat) {
                assert(dv_old + (seq![o@] + rest) =~= vout.deep_view() + rest);
            }
        }
        p5 = np;
        j = j + 1;
    }
    proof {
        assert(dec_outputs(bytes@.skip(p5 as int), 0) == Some(
            (Seq::<OutV>::empty(), bytes@.skip(p5 as int)),
        ));
        assert(vout.deep_view() + Seq::<OutV>::empty() =~= vout.deep_view());
    }
    Some((vout, p5))
}

/// Reads a transaction at `pos`.
pub fn read_tx(bytes: &[u8], pos: usize) -> (r: Option<(Transaction, usize)>)
    requires
        pos <= bytes@.len(),
    ensures
        match r {
            Some(p) => {
                &&& dec_tx(bytes@.skip(pos as int)) == Some((p.0@, bytes@.skip(p.1 as int)))
                &&& pos <= p.1 <= bytes@.len()
                &&& tx_wf(p.0@)
            },
            None => dec_tx(bytes@.skip(pos as int)) is None,
        },
{
    let (tranc_id, p1) = match read_str(bytes, pos) {
        None => {
            return None;
        },
        Some(p) => p,
    };
    let (n_in128, p2) = match read_le(bytes, p1, 8) {
        None => {
            return None;
        },
        Some(p) => p,
    };
    if n_in128 > usize::MAX as u128 {
        return None;
    }
    let n_in: usize = n_in128 as usize;
    let (vin, p3) = match read_inputs(bytes, p2, n_in) {
        None => {
            return None;
        },
        Some(p) => p,
    };
    let (n_out128, p4) = match read_le(bytes, p3, 8) {
        None => {
            return None;
        },
        Some(p) => p,
    };
    if n_out128 > usize::MAX as u128 {
        return None;
    }
    let n_out: usize = n_out128 as usize;
    let (vout, p5) = match read_outputs(bytes, p4, n_out) {
        None => {
            return None;
        },
        Some(p) => p,
    };
    Some((Transaction { tranc_id, vin, vout }, p5))
}

// ---------------------------------------------------------------------
// Hashing and construction
// ---------------------------------------------------------------------

/// The canonical digest of a transaction: the hex SHA-256 of its
/// encoding with the id itself cleared first.
pub open spec fn tx_digest(t: TxV) -> Seq<char> {
    sha256_hex_of(enc_tx(TxV { tranc_id: Seq::empty(), ..t }))
}

/// A coinbase transaction: exactly one input, bound to no transaction
/// and to output index -1.
pub open spec fn is_coinbase_v(t: TxV) -> bool {
    &&& t.vin.len() == 1
    &&& t.vin[0].from.len() == 0
    &&& t.vin[0].vout == -1
}

/// A fresh copy of a vector of inputs.
pub fn clone_inputs(v: &Vec<TrancInput>) -> (r: Vec<TrancInput>)
    ensures
        r.deep_view() == v.deep_view(),
{
    let mut out: Vec<TrancInput> = Vec::new();
    let mut i: usize = 0;
    while i < v.len()
        invariant
            0 <= i <= v@.len(),
            out.deep_view() =~= v.deep_view().take(i as int),
        decreases v@.len() - i,
    {
        let ghost dv_old = out.deep_view();
        out.push(v[i].clone());
        i = i + 1;
        proof {
            assert(out.deep_view() =~= dv_old.push(v@[i - 1]@));
            assert(out.deep_view() =~= v.deep_view().take(i as int));
        }
    }
    proof {
        assert(out.deep_view() =~= v.deep_view());
    }
    out
}

/// A fresh copy of a vector of outputs.
pub fn clone_outputs(v: &Vec<TrancOutput>) -> (r: Vec<TrancOutput>)
    ensures
        r.deep_view() == v.deep_view(),
{
    let mut out: Vec<TrancOutput> = Vec::new();
    let mut i: usize = 0;
    while i < v.len()
        invariant
            0 <= i <= v@.len(),
            out.deep_view() =~= v.deep_view().take(i as int),
        decreases v@.len() - i,
    {
        let ghost dv_old = out.deep_view();
        out.push(v[i].clone());
        i = i + 1;
        proof {
            assert(out.deep_view() =~= dv_old.push(v@[i - 1]@));
            assert(out.deep_view() =~= v.deep_view().take(i as int));
        }
    }
    proof {
        assert(out.deep_view() =~= v.deep_view());
    }
    out
}

impl Clone for Transaction {
    /// A transaction equal to this one in every field.
    fn clone(&self) -> (r: Self)
        ensures
            r@ == self@,
    {
        Transaction {
            tranc_id: self.tranc_id.clone(),
            vin: clone_inputs(&self.vin),
            vout: clone_outputs(&self.vout),
        }
    }
}

impl Transaction {
    /// Whether this is the reward-minting transaction with no real
    /// predecessor: one input, bound to no id, with index -1.
    pub fn is_coinbase(&self) -> (r: bool)
        ensures
            r == is_coinbase_v(self@),
    {
        if self.vin.len() != 1 {
            return false;
        }
        let first = &self.vin[0];
        proof {
            assert(self@.vin[0] == self.vin@[0]@);
        }
        first.from.as_str().is_empty() && first.vout == -1
    }

    /// Clears the id and returns the canonical digest of what remains.
    pub fn hash(&mut self) -> (r: String)
        requires
            tx_wf(old(self)@),
        ensures
            final(self)@ == (TxV { tranc_id: Seq::empty(), ..old(self)@ }),
            r@ == tx_digest(old(self)@),
            r@.len() == 64,
            hexish(r@),
            tx_wf(final(self)@),
    {
        self.tranc_id = String::new();
        let data = encode_tx(self);
        sha256_hex(data.as_slice())
    }

    /// The trimmed copy used as the base of every signing message: the
    /// same transaction with every input's signature cleared.
    pub fn trim_copy(&self) -> (r: Transaction)
        ensures
            r@ == trim_spec(self@),
    {
        let mut vin: Vec<TrancInput> = Vec::new();
        let mut i: usize = 0;
        while i < self.vin.len()
            invariant
                0 <= i <= self.vin@.len(),
                vin.deep_view() =~= trim_spec(self@).vin.take(i as int),
                self@.vin.len() == self.vin@.len(),
            decreases self.vin@.len() - i,
        {
            let ghost dv_old = vin.deep_view();
            let v = &self.vin[i];
            vin.push(
                TrancInput {
                    from: v.from.clone(),
                    vout: v.vout,
                    signature: Vec::new(),
                    pub_key: clone_bytes(&v.pub_key),
                },
            );
            i = i + 1;
            proof {
                assert(self@.vin[i - 1] == self.vin@[i - 1]@);
                assert(vin.deep_view() =~= dv_old.push(
                    (InV { signature: Seq::empty(), ..self@.vin[i - 1] }),
                ));
                assert(vin.deep_view() =~= trim_spec(self@).vin.take(i as int));
            }
        }
        let vout = clone_outputs(&self.vout);
        let r = Transaction { tranc_id: self.tranc_id.clone(), vin, vout };
        proof {
            assert(trim_spec(self@).vin.take(self.vin@.len() as int) =~= trim_spec(self@).vin);
        }
        r
    }

    /// A new coinbase transaction: one predecessor-free input whose key
    /// bytes carry the memo (or a default naming the miner), and one
    /// output of the fixed 100-unit reward locked to `to`.
    pub fn new_coinbase(to: String, data: String) -> (r: Result<Transaction, ChainError>)
        ensures
            match crate::addr::address_payload(to@) {
                Some(b) => r matches Ok(t) && t@ == coinbase_tx(to@, data@, b) && is_coinbase_v(t@)
                    && tx_wf(t@),
                None => r matches Err(e) && e == ChainError::SerializationError,
            },
    {
        let memo: String = if data.as_str().is_empty() {
            String::from_str("Reward to ").concat(to.as_str())
        } else {
            data
        };
        let pub_key = memo.as_str().as_bytes_vec();
        let out0 = TrancOutput::new(100, to)?;
        let vin_entry = TrancInput { from: String::new(), vout: -1, signature: Vec::new(), pub_key };
        let mut transaction = Transaction {
            tranc_id: String::new(),
            vin: vec![vin_entry],
            vout: vec![out0],
        };
        proof {
            let ghost t = transaction@;
            assert(t.vin =~= seq![t.vin[0]]);
            assert(t.vout =~= seq![t.vout[0]]);
        }
        let id = transaction.hash();
        transaction.tranc_id = id;
        proof {
            let ghost b = crate::addr::address_payload(to@).unwrap();
            assert(transaction@.vin =~= coinbase_tx(to@, data@, b).vin);
            assert(transaction@.vout =~= coinbase_tx(to@, data@, b).vout);
        }
        Ok(transaction)
    }
}

/// The memo carried by a coinbase input: the given text, or a default
/// naming the reward address.
pub open spec fn coinbase_memo(to: Seq<char>, data: Seq<char>) -> Seq<char> {
    if data.len() == 0 {
        "Reward to "@ + to
    } else {
        data
    }
}

/// The coinbase transaction rewarding `payload` with 100 units.
pub open spec fn coinbase_tx(to: Seq<char>, data: Seq<char>, payload: Seq<u8>) -> TxV {
    let body = TxV {
        tranc_id: Seq::empty(),
        vin: seq![
            InV {
                from: Seq::empty(),
                vout: (-1) as i32,
                signature: Seq::empty(),
                pub_key: vstd::utf8::encode_utf8(coinbase_memo(to, data)),
            },
        ],
        vout: seq![OutV { value: 100, pub_key_hash: payload }],
    };
    TxV { tranc_id: sha256_hex_of(enc_tx(body)), ..body }
}

// ---------------------------------------------------------------------
// Prior-transaction maps
// ---------------------------------------------------------------------

/// A mapping from transaction ids to the prior transactions they name,
/// as signing and verification consume it. A later insertion under the
/// same id wins.
pub struct TxMap {
    pub entries: Vec<(String, Transaction)>,
}

/// The map described by a sequence of insertions.
pub open spec fn entries_map(s: Seq<(String, Transaction)>) -> Map<Seq<char>, TxV>
    decreases s.len(),
{
    if s.len() == 0 {
        Map::empty()
    } else {
        entries_map(s.drop_last()).insert(s.last().0@, s.last().1@)
    }
}

impl View for TxMap {
    type V = Map<Seq<char>, TxV>;

    open spec fn view(&self) -> Map<Seq<char>, TxV> {
        entries_map(self.entries@)
    }
}

/// Entries at or past `i` never bind `k`, so dropping them leaves what
/// the map says of `k` unchanged.
proof fn lemma_entries_map_suffix(s: Seq<(String, Transaction)>, i: int, k: Seq<char>)
    requires
        0 <= i <= s.len(),
        forall|j: int| i <= j < s.len() ==> #[trigger] s[j].0@ != k,
    ensures
        entries_map(s).contains_key(k) == entries_map(s.take(i)).contains_key(k),
        entries_map(s).contains_key(k) ==> entries_map(s)[k] == entries_map(s.take(i))[k],
    decreases s.len(),
{
    if i == s.len() {
        assert(s.take(i) =~= s);
    } else {
        assert(s[s.len() - 1].0@ != k);
        lemma_entries_map_suffix(s.drop_last(), i, k);
        assert(s.drop_last().take(i) =~= s.take(i));
    }
}

impl TxMap {
    /// An empty map.
    pub fn new() -> (r: TxMap)
        ensures
            r@ == Map::<Seq<char>, TxV>::empty(),
    {
        TxMap { entries: Vec::new() }
    }

    /// Binds `key` to `tx`, shadowing any earlier binding.
    pub fn insert(&mut self, key: String, tx: Transaction)
        ensures
            final(self)@ == old(self)@.insert(key@, tx@),
    {
        self.entries.push((key, tx));
        proof {
            assert(self.entries@.drop_last() =~= old(self).entries@);
        }
    }

    /// The transaction bound to `key`, if any.
    pub fn get(&self, key: &String) -> (r: Option<&Transaction>)
        ensures
            match r {
                Some(tx) => self@.contains_key(key@) && tx@ == self@[key@],
                None => !self@.contains_key(key@),
            },
    {
        let mut i: usize = self.entries.len();
        while i > 0
            invariant
                0 <= i <= self.entries@.len(),
                forall|j: int| i <= j < self.entries@.len() ==> #[trigger] self.entries@[j].0@
                    != key@,
            decreases i,
        {
            i = i - 1;
            let pair = &self.entries[i];
            if pair.0 == *key {
                proof {
                    lemma_entries_map_suffix(self.entries@, i + 1, key@);
                    assert(self.entries@.take(i + 1).drop_last() =~= self.entries@.take(i as int));
                    assert(self.entries@.take(i + 1).last() == self.entries@[i as int]);
                }
                return Some(&pair.1);
            }
        }
        proof {
            lemma_entries_map_suffix(self.entries@, 0, key@);
            assert(self.entries@.take(0) =~= Seq::<(String, Transaction)>::empty());
        }
        None
    }
}

// ---------------------------------------------------------------------
// Signing and verification
// ---------------------------------------------------------------------

/// Every input of `t` resolves in `prior`: the referenced transaction is
/// present under a usable (non-empty) id, and the referenced output
/// index exists in it.
pub open spec fn prior_ok(t: TxV, prior: Map<Seq<char>, TxV>) -> bool {
    forall|k: int| 0 <= k < t.vin.len() ==> {
        &&& prior.contains_key(#[trigger] t.vin[k].from)
        &&& prior[t.vin[k].from].tranc_id.len() > 0
        &&& 0 <= t.vin[k].vout < prior[t.vin[k].from].vout.len()
    }
}

/// The hash locking the output that input `k` spends.
pub open spec fn spent_pkh(t: TxV, prior: Map<Seq<char>, TxV>, k: int) -> Seq<u8> {
    prior[t.vin[k].from].vout[t.vin[k].vout as int].pub_key_hash
}

/// The trimmed shape whose digest is input `k`'s signing message: the
/// id and every signature cleared, the keys of already-handled inputs
/// cleared, input `k`'s key replaced by `pkh`, later keys kept.
pub open spec fn trimmed_with(t: TxV, k: int, pkh: Seq<u8>) -> TxV {
    TxV {
        tranc_id: Seq::empty(),
        vin: Seq::new(
            t.vin.len(),
            |j: int|
                InV {
                    from: t.vin[j].from,
                    vout: t.vin[j].vout,
                    signature: Seq::empty(),
                    pub_key: if j < k {
                        Seq::empty()
                    } else if j == k {
                        pkh
                    } else {
                        t.vin[j].pub_key
                    },
                },
        ),
        vout: t.vout,
    }
}

/// The byte message signed for input `k`: the hex digest of the trimmed
/// shape, with the hash locking the spent output standing in for the key.
pub open spec fn signing_message(t: TxV, prior: Map<Seq<char>, TxV>, k: int) -> Seq<u8> {
    str_bytes(sha256_hex_of(enc_tx(trimmed_with(t, k, spent_pkh(t, prior, k)))))
}

/// The transaction as signing leaves it: each input carries the
/// signature of its own message; all else is kept.
pub open spec fn signed_tx(t: TxV, prior: Map<Seq<char>, TxV>, sk: Seq<u8>) -> TxV {
    TxV {
        tranc_id: t.tranc_id,
        vin: Seq::new(
            t.vin.len(),
            |k: int|
                InV { signature: ed25519_sig_of(signing_message(t, prior, k), sk), ..t.vin[k] },
        ),
        vout: t.vout,
    }
}

/// Input `k` carries a signature that checks out against the input's own
/// public key for input `k`'s message.
pub open spec fn input_sig_valid(t: TxV, prior: Map<Seq<char>, TxV>, k: int) -> bool {
    &&& t.vin[k].pub_key.len() == 32
    &&& t.vin[k].signature.len() == 64
    &&& ed25519_verify_of(signing_message(t, prior, k), t.vin[k].pub_key, t.vin[k].signature)
}

/// Every input's signature checks out.
pub open spec fn tx_verifies(t: TxV, prior: Map<Seq<char>, TxV>) -> bool {
    forall|k: int| 0 <= k < t.vin.len() ==> input_sig_valid(t, prior, k)
}

impl Transaction {
    /// The trimmed transaction for input `k`, with `pkh` standing in as
    /// that input's key.
    fn build_trimmed(&self, k: usize, pkh: &Vec<u8>) -> (r: Transaction)
        requires
            k < self.vin@.len(),
            tx_wf(self@),
        ensures
            r@ == trimmed_with(self@, k as int, pkh@),
            tx_wf(r@),
    {
        let ghost goal = trimmed_with(self@, k as int, pkh@);
        let mut vin: Vec<TrancInput> = Vec::new();
        let mut j: usize = 0;
        while j < self.vin.len()
            invariant
                0 <= j <= self.vin@.len(),
                k < self.vin@.len(),
                tx_wf(self@),
                goal == trimmed_with(self@, k as int, pkh@),
                self@.vin.len() == self.vin@.len(),
                vin.deep_view() =~= goal.vin.take(j as int),
            decreases self.vin@.len() - j,
        {
            let v = &self.vin[j];
            let new_key: Vec<u8> = if j < k {
                Vec::new()
            } else if j == k {
                clone_bytes(pkh)
            } else {
                clone_bytes(&v.pub_key)
            };
            let ghost dv_old = vin.deep_view();
            vin.push(
                TrancInput {
                    from: v.from.clone(),
                    vout: v.vout,
                    signature: Vec::new(),
                    pub_key: new_key,
                },
            );
            j = j + 1;
            proof {
                assert(self@.vin[j - 1] == self.vin@[j - 1]@);
                assert(vin.deep_view() =~= dv_old.push(goal.vin[j - 1]));
                assert(vin.deep_view() =~= goal.vin.take(j as int));
            }
        }
        let r = Transaction {
            tranc_id: String::new(),
            vin,
            vout: clone_outputs(&self.vout),
        };
        proof {
            assert(goal.vin.take(self.vin@.len() as int) =~= goal.vin);
            assert(r@ =~= goal);
        }
        r
    }

    /// Resolves each input's prior transaction and hands back the hash
    /// locking the output it spends, or says why it cannot.
    fn resolve_priors(&self, prev_txs: &TxMap) -> (r: Result<Vec<Vec<u8>>, ChainError>)
        ensures
            match r {
                Ok(pkhs) => prior_ok(self@, prev_txs@) && pkhs.deep_view().len()
                    == self@.vin.len() && forall|k: int|
                    0 <= k < self@.vin.len() ==> #[trigger] pkhs.deep_view()[k] == spent_pkh(
                        self@,
                        prev_txs@,
                        k,
                    ),
                Err(e) => e == ChainError::MissingPriorTransactionError && !prior_ok(
                    self@,
                    prev_txs@,
                ),
            },
    {
        let mut pkhs: Vec<Vec<u8>> = Vec::new();
        let mut k: usize = 0;
        while k < self.vin.len()
            invariant
                0 <= k <= self.vin@.len(),
                self@.vin.len() == self.vin@.len(),
                pkhs.deep_view().len() == k,
                forall|j: int|
                    0 <= j < k ==> {
                        &&& prev_txs@.contains_key(#[trigger] self@.vin[j].from)
                        &&& prev_txs@[self@.vin[j].from].tranc_id.len() > 0
                        &&& 0 <= self@.vin[j].vout < prev_txs@[self@.vin[j].from].vout.len()
                    },
                forall|j: int|
                    0 <= j < k ==> #[trigger] pkhs.deep_view()[j] == spent_pkh(
                        self@,
                        prev_txs@,
                        j,
                    ),
            decreases self.vin@.len() - k,
        {
            let inp = &self.vin[k];
            proof {
                assert(self@.vin[k as int] == self.vin@[k as int]@);
            }
            let pt = match prev_txs.get(&inp.from) {
                None => {
            proof {
                assert(!(prev_txs@.contains_key(self@.vin[k as int].from)
                    && prev_txs@[self@.vin[k as int].from].tranc_id.len() > 0
                    && 0 <= self@.vin[k as int].vout
                    < prev_txs@[self@.vin[k as int].from].vout.len()));
                assert(!prior_ok(self@, prev_txs@));
            }
                    return Err(ChainError::MissingPriorTransactionError);
                },
                Some(pt) => pt,
            };
            if pt.tranc_id.as_str().is_empty() {
            proof {
                assert(!(prev_txs@.contains_key(self@.vin[k as int].from)
                    && prev_txs@[self@.vin[k as int].from].tranc_id.len() > 0
                    && 0 <= self@.vin[k as int].vout
                    < prev_txs@[self@.vin[k as int].from].vout.len()));
                assert(!prior_ok(self@, prev_txs@));
            }
                return Err(ChainError::MissingPriorTransactionError);
            }
            if inp.vout < 0 {
            proof {
                assert(!(prev_txs@.contains_key(self@.vin[k as int].from)
                    && prev_txs@[self@.vin[k as int].from].tranc_id.len() > 0
                    && 0 <= self@.vin[k as int].vout
                    < prev_txs@[self@.vin[k as int].from].vout.len()));
                assert(!prior_ok(self@, prev_txs@));
            }
                return Err(ChainError::MissingPriorTransactionError);
            }
            let idx = inp.vout as usize;
            if idx >= pt.vout.len() {
            proof {
                assert(!(prev_txs@.contains_key(self@.vin[k as int].from)
                    && prev_txs@[self@.vin[k as int].from].tranc_id.len() > 0
                    && 0 <= self@.vin[k as int].vout
                    < prev_txs@[self@.vin[k as int].from].vout.len()));
                assert(!prior_ok(self@, prev_txs@));
            }
                return Err(ChainError::MissingPriorTransactionError);
            }
            proof {
                assert(pt@.vout[idx as int] == pt.vout@[idx as int]@);
            }
            let ghost dv_old = pkhs.deep_view();
            let cb = clone_bytes(&pt.vout[idx].pub_key_hash);
            proof {
                assert(cb@ == spent_pkh(self@, prev_txs@, k as int));
            }
            pkhs.push(cb);
            k = k + 1;
            proof {
                assert(pkhs.deep_view() =~~= dv_old.push(spent_pkh(self@, prev_txs@, k - 1)));
            }
        }
        Ok(pkhs)
    }

    /// Signs every input in order: a no-op on a coinbase transaction;
    /// otherwise each input receives the signature of its own per-input
    /// message under `private_key`, and nothing else changes. Fails, and
    /// changes nothing, exactly when some input cannot be resolved.
    pub fn sign(&mut self, private_key: &[u8], prev_txs: &TxMap) -> (r: Result<(), ChainError>)
        requires
            tx_wf(old(self)@),
            private_key@.len() == 64,
        ensures
            is_coinbase_v(old(self)@) ==> r is Ok && final(self)@ == old(self)@,
            !is_coinbase_v(old(self)@) ==> match r {
                Ok(()) => prior_ok(old(self)@, prev_txs@) && final(self)@ == signed_tx(
                    old(self)@,
                    prev_txs@,
                    private_key@,
                ),
                Err(e) => e == ChainError::MissingPriorTransactionError && !prior_ok(
                    old(self)@,
                    prev_txs@,
                ) && final(self)@ == old(self)@,
            },
    {
        if self.is_coinbase() {
            return Ok(());
        }
        let pkhs = match self.resolve_priors(prev_txs) {
            Err(e) => {
                return Err(e);
            },
            Ok(p) => p,
        };
        let ghost goal = signed_tx(self@, prev_txs@, private_key@);
        let mut new_vin: Vec<TrancInput> = Vec::new();
        let mut k: usize = 0;
        while k < self.vin.len()
            invariant
                0 <= k <= self.vin@.len(),
                self@ == old(self)@,
                tx_wf(self@),
                private_key@.len() == 64,
                self@.vin.len() == self.vin@.len(),
                goal == signed_tx(self@, prev_txs@, private_key@),
                pkhs.deep_view().len() == self@.vin.len(),
                forall|j: int|
                    0 <= j < self@.vin.len() ==> #[trigger] pkhs.deep_view()[j] == spent_pkh(
                        self@,
                        prev_txs@,
                        j,
                    ),
                new_vin.deep_view() =~= goal.vin.take(k as int),
            decreases self.vin@.len() - k,
        {
            proof {
                assert(pkhs.deep_view()[k as int] == pkhs@[k as int]@);
            }
            let mut trimmed = self.build_trimmed(k, &pkhs[k]);
            let digest = trimmed.hash();
            proof {
                assert((TxV { tranc_id: Seq::empty(), ..trimmed@ }) =~= trimmed_with(
                    self@,
                    k as int,
                    pkhs.deep_view()[k as int],
                ));
            }
            let msg = crate::codec::hex_str_bytes(&digest);
            let sig = ed25519_sign(msg.as_slice(), private_key);
            let inp = &self.vin[k];
            let ghost dv_old = new_vin.deep_view();
            new_vin.push(
                TrancInput {
                    from: inp.from.clone(),
                    vout: inp.vout,
                    signature: sig,
                    pub_key: clone_bytes(&inp.pub_key),
                },
            );
            k = k + 1;
            proof {
                assert(self@.vin[k - 1] == self.vin@[k - 1]@);
                assert(new_vin.deep_view() =~= dv_old.push(goal.vin[k - 1]));
                assert(new_vin.deep_view() =~= goal.vin.take(k as int));
            }
        }
        self.vin = new_vin;
        proof {
            assert(goal.vin.take(goal.vin.len() as int) =~= goal.vin);
            assert(self@ =~= goal);
        }
        Ok(())
    }

    /// Checks every input's signature in order against the input's own
    /// public key: trivially true for a coinbase transaction; false as a
    /// value, never an error, when some signature does not check out.
    /// Fails exactly when some input cannot be resolved.
    pub fn verify(&mut self, prev_txs: &TxMap) -> (r: Result<bool, ChainError>)
        requires
            tx_wf(old(self)@),
        ensures
            final(self)@ == old(self)@,
            is_coinbase_v(old(self)@) ==> r == Result::<bool, ChainError>::Ok(true),
            !is_coinbase_v(old(self)@) ==> match r {
                Ok(b) => prior_ok(old(self)@, prev_txs@) && b == tx_verifies(
                    old(self)@,
                    prev_txs@,
                ),
                Err(e) => e == ChainError::MissingPriorTransactionError && !prior_ok(
                    old(self)@,
                    prev_txs@,
                ),
            },
    {
        if self.is_coinbase() {
            return Ok(true);
        }
        let pkhs = match self.resolve_priors(prev_txs) {
            Err(e) => {
                return Err(e);
            },
            Ok(p) => p,
        };
        let mut k: usize = 0;
        while k < self.vin.len()
            invariant
                0 <= k <= self.vin@.len(),
                self@ == old(self)@,
                tx_wf(self@),
                prior_ok(self@, prev_txs@),
                self@.vin.len() == self.vin@.len(),
                pkhs.deep_view().len() == self@.vin.len(),
                forall|j: int|
                    0 <= j < self@.vin.len() ==> #[trigger] pkhs.deep_view()[j] == spent_pkh(
                        self@,
                        prev_txs@,
                        j,
                    ),
                forall|j: int| 0 <= j < k ==> input_sig_valid(self@, prev_txs@, j),
            decreases self.vin@.len() - k,
        {
            proof {
                assert(pkhs.deep_view()[k as int] == pkhs@[k as int]@);
            }
            let mut trimmed = self.build_trimmed(k, &pkhs[k]);
            let digest = trimmed.hash();
            proof {
                assert((TxV { tranc_id: Seq::empty(), ..trimmed@ }) =~= trimmed_with(
                    self@,
                    k as int,
                    pkhs.deep_view()[k as int],
                ));
            }
            let msg = crate::codec::hex_str_bytes(&digest);
            let inp = &self.vin[k];
            proof {
                assert(self@.vin[k as int] == self.vin@[k as int]@);
            }
            if inp.pub_key.len() != 32 || inp.signature.len() != 64 {
                proof {
                    assert(!input_sig_valid(self@, prev_txs@, k as int));
                }
                return Ok(false);
            }
            if !ed25519_check(msg.as_slice(), inp.pub_key.as_slice(), inp.signature.as_slice()) {
                proof {
                    assert(!input_sig_valid(self@, prev_txs@, k as int));
                }
                return Ok(false);
            }
            k = k + 1;
        }
        Ok(true)
    }
}

/// A transaction with every signature cleared, all else kept.
pub open spec fn trim_spec(t: TxV) -> TxV {
    TxV {
        tranc_id: t.tranc_id,
        vin: Seq::new(
            t.vin.len(),
            |j: int| InV { signature: Seq::empty(), ..t.vin[j] },
        ),
        vout: t.vout,
    }
}


/// Reads `n` transactions at `pos`.
pub fn read_txs(bytes: &[u8], pos: usize, n: usize) -> (r: Option<(Vec<Transaction>, usize)>)
    requires
        pos <= bytes@.len(),
    ensures
        match r {
            Some(p) => {
                &&& crate::mining::dec_txs(bytes@.skip(pos as int), n as nat) == Some(
                    (p.0.deep_view(), bytes@.skip(p.1 as int)),
                )
                &&& pos <= p.1 <= bytes@.len()
                &&& forall|q: int|
                    0 <= q < p.0.deep_view().len() ==> tx_wf(#[trigger] p.0.deep_view()[q])
            },
            None => crate::mining::dec_txs(bytes@.skip(pos as int), n as nat) is None,
        },
{
    let mut txs: Vec<Transaction> = Vec::new();
    let mut p: usize = pos;
    let mut i: usize = 0;
    proof {
        if let Some((rest, r2)) = crate::mining::dec_txs(bytes@.skip(pos as int), n as nat) {
            assert(txs.deep_view() + rest =~= rest);
        }
    }
    while i < n
        invariant
            0 <= i <= n,
            pos <= p <= bytes@.len(),
            txs@.len() == i,
            forall|q: int| 0 <= q < i ==> tx_wf(#[trigger] txs.deep_view()[q]),
            crate::mining::dec_txs(bytes@.skip(pos as int), n as nat) == match crate::mining::dec_txs(
                bytes@.skip(p as int),
                (n - i) as nat,
            ) {
                None => None::<(Seq<TxV>, Seq<u8>)>,
                Some((rest, r2)) => Some((txs.deep_view() + rest, r2)),
            },
        decreases n - i,
    {
        let (t, np) = match read_tx(bytes, p) {
            None => {
                proof {
                    assert(crate::mining::dec_txs(bytes@.skip(p as int), (n - i) as nat) is None);
                }
                return None;
            },
            Some(q) => q,
        };
        let ghost dv_old = txs.deep_view();
        txs.push(t);
        proof {
            assert(txs.deep_view() =~= dv_old.push(txs@[i as int]@));
            if let Some((rest, r2)) = crate::mining::dec_txs(
                bytes@.skip(np as int),
                (n - i - 1) as nat,
            ) {
                assert(dv_old + (seq![txs@[i as int]@] + rest) =~= txs.deep_view() + rest);
            }
        }
        p = np;
        i = i + 1;
    }
    proof {
        assert(crate::mining::dec_txs(bytes@.skip(p as int), 0) == Some(
            (Seq::<TxV>::empty(), bytes@.skip(p as int)),
        ));
        assert(txs.deep_view() + Seq::<TxV>::empty() =~= txs.deep_view());
    }
    Some((txs, p))
}

/// A fresh copy of a vector of transactions.
pub fn clone_txs(v: &Vec<Transaction>) -> (r: Vec<Transaction>)
    ensures
        r.deep_view() == v.deep_view(),
{
    let mut out: Vec<Transaction> = Vec::new();
    let mut i: usize = 0;
    while i < v.len()
        invariant
            0 <= i <= v@.len(),
            out.deep_view() =~= v.deep_view().take(i as int),
        decreases v@.len() - i,
    {
        let ghost dv_old = out.deep_view();
        out.push(v[i].clone());
        i = i + 1;
        proof {
            assert(out.deep_view() =~= dv_old.push(v@[i - 1]@));
            assert(out.deep_view() =~= v.deep_view().take(i as int));
        }
    }
    proof {
        assert(out.deep_view() =~= v.deep_view());
    }
    out
}

/// Measures a transaction once, so that its model is known to fit in
/// executable bounds.
pub fn tx_bounds(t: &Transaction)
    ensures
        tx_bounded(t@),
{
    let _d: usize = t.tranc_id.as_str().unicode_len();
    let mut i: usize = 0;
    while i < t.vin.len()
        invariant
            0 <= i <= t.vin@.len(),
            forall|q: int| 0 <= q < i ==> in_bounded(#[trigger] t@.vin[q]),
        decreases t.vin@.len() - i,
    {
        let v = &t.vin[i];
        let _f: usize = v.from.as_str().unicode_len();
        let _s: usize = v.signature.len();
        let _p: usize = v.pub_key.len();
        proof {
            assert(t@.vin[i as int] == t.vin@[i as int]@);
        }
        i = i + 1;
    }
    let mut j: usize = 0;
    while j < t.vout.len()
        invariant
            0 <= j <= t.vout@.len(),
            forall|q: int| 0 <= q < j ==> out_bounded(#[trigger] t@.vout[q]),
        decreases t.vout@.len() - j,
    {
        let o = &t.vout[j];
        let _k: usize = o.pub_key_hash.len();
        proof {
            assert(t@.vout[j as int] == t.vout@[j as int]@);
        }
        j = j + 1;
    }
    let _vi: usize = t.vin.len();
    let _vo: usize = t.vout.len();
}

} // verus!
