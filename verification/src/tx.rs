//! Transaction inputs and outputs. An input references a prior
//! transaction's output by `(from, vout)` and carries the spender's
//! signature and public key; an output locks a value to a 20-byte
//! public key hash.

use vstd::prelude::*;
use crate::addr::{address_payload, decode_address};
use crate::codec::{
    bytes_chars, dec_bytes, dec_le, dec_str, enc_bytes, enc_str, hexish, le_bytes,
    lemma_dec_enc_bytes, lemma_dec_enc_str, lemma_dec_le_enc, lemma_pow256_u64, push_bytes,
    push_le, push_str, read_bytes, read_le, read_str,
};
use crate::crypto::{ripemd160_of, sha256_of};
use crate::errors::ChainError;

verus! {

/// A transaction input: spends output `vout` of the transaction whose
/// id is `from`.
pub struct TrancInput {
    pub from: String,
    pub vout: i32,
    pub signature: Vec<u8>,
    pub pub_key: Vec<u8>,
}

/// A transaction output: `value` units locked to a public key hash.
pub struct TrancOutput {
    pub value: i32,
    pub pub_key_hash: Vec<u8>,
}

/// The mathematical model of an input.
#[verifier::ext_equal]
pub ghost struct InV {
    pub from: Seq<char>,
    pub vout: i32,
    pub signature: Seq<u8>,
    pub pub_key: Seq<u8>,
}

/// The mathematical model of an output.
#[verifier::ext_equal]
pub ghost struct OutV {
    pub value: i32,
    pub pub_key_hash: Seq<u8>,
}

impl View for TrancInput {
    type V = InV;

    open spec fn view(&self) -> InV {
        InV {
            from: self.from@,
            vout: self.vout,
            signature: self.signature@,
            pub_key: self.pub_key@,
        }
    }
}

impl DeepView for TrancInput {
    type V = InV;

    open spec fn deep_view(&self) -> InV {
        self.view()
    }
}

impl View for TrancOutput {
    type V = OutV;

    open spec fn view(&self) -> OutV {
        OutV { value: self.value, pub_key_hash: self.pub_key_hash@ }
    }
}

impl DeepView for TrancOutput {
    type V = OutV;

    open spec fn deep_view(&self) -> OutV {
        self.view()
    }
}

/// A well-formed input: its transaction reference is hex text.
pub open spec fn in_wf(i: InV) -> bool {
    hexish(i.from)
}

/// A well-formed output: a non-negative value.
pub open spec fn out_wf(o: OutV) -> bool {
    o.value >= 0
}

/// An input whose sequences are views of executable values.
pub open spec fn in_bounded(i: InV) -> bool {
    &&& i.from.len() <= usize::MAX
    &&& i.signature.len() <= usize::MAX
    &&& i.pub_key.len() <= usize::MAX
}

/// An output whose sequences are views of executable values.
pub open spec fn out_bounded(o: OutV) -> bool {
    o.pub_key_hash.len() <= usize::MAX
}

// ---------------------------------------------------------------------
// Codec
// ---------------------------------------------------------------------

/// A 32-bit integer field, in two's complement.
pub open spec fn enc_i32(x: i32) -> Seq<u8> {
    le_bytes((x as u32) as int, 4)
}

/// Decodes a 32-bit integer field.
pub open spec fn dec_i32(s: Seq<u8>) -> Option<(i32, Seq<u8>)> {
    match dec_le(s, 4) {
        None => None,
        Some((n, r)) => Some(((n as u32) as i32, r)),
    }
}

pub proof fn lemma_dec_enc_i32(x: i32, rest: Seq<u8>)
    ensures
        dec_i32(enc_i32(x) + rest) == Some((x, rest)),
{
    lemma_pow256_u64();
    lemma_dec_le_enc((x as u32) as int, 4, rest);
    assert(((x as u32) as i32) == x) by (bit_vector);
}

/// Appends a 32-bit integer field to `out`.
pub fn push_i32(out: &mut Vec<u8>, x: i32)
    ensures
        final(out)@ == old(out)@ + enc_i32(x),
{
    proof {
        lemma_pow256_u64();
    }
    push_le(out, (x as u32) as u128, 4);
}

/// Reads a 32-bit integer field at `pos`.
pub fn read_i32(bytes: &[u8], pos: usize) -> (r: Option<(i32, usize)>)
    requires
        pos <= bytes@.len(),
    ensures
        match r {
            Some(p) => {
                &&& dec_i32(bytes@.skip(pos as int)) == Some((p.0, bytes@.skip(p.1 as int)))
                &&& pos <= p.1 <= bytes@.len()
            },
            None => dec_i32(bytes@.skip(pos as int)) is None,
        },
{
    match read_le(bytes, pos, 4) {
        None => None,
        Some((v, np)) => {
            proof {
                crate::codec::lemma_le_val_bound(bytes@.skip(pos as int).take(4));
                lemma_pow256_u64();
            }
            let x: u32 = v as u32;
            Some((x as i32, np))
        },
    }
}

/// The encoding of an input: its reference, index, signature and key.
pub open spec fn enc_input(i: InV) -> Seq<u8> {
    enc_str(i.from) + enc_i32(i.vout) + enc_bytes(i.signature) + enc_bytes(i.pub_key)
}

/// Decodes an input.
pub open spec fn dec_input(s: Seq<u8>) -> Option<(InV, Seq<u8>)> {
    match dec_str(s) {
        None => None,
        Some((from, s1)) => match dec_i32(s1) {
            None => None,
            Some((vout, s2)) => match dec_bytes(s2) {
                None => None,
                Some((signature, s3)) => match dec_bytes(s3) {
                    None => None,
                    Some((pub_key, s4)) => Some((InV { from, vout, signature, pub_key }, s4)),
                },
            },
        },
    }
}

pub proof fn lemma_dec_enc_input(i: InV, rest: Seq<u8>)
    requires
        in_wf(i),
        in_bounded(i),
    ensures
        dec_input(enc_input(i) + rest) == Some((i, rest)),
{
    let r3 = enc_bytes(i.pub_key) + rest;
    let r2 = enc_bytes(i.signature) + r3;
    let r1 = enc_i32(i.vout) + r2;
    assert(enc_input(i) + rest =~= enc_str(i.from) + r1);
    lemma_dec_enc_str(i.from, r1);
    assert(r1 =~= enc_i32(i.vout) + r2);
    lemma_dec_enc_i32(i.vout, r2);
    lemma_dec_enc_bytes(i.signature, r3);
    lemma_dec_enc_bytes(i.pub_key, rest);
}

/// Appends the encoding of an input to `out`.
pub fn push_input(out: &mut Vec<u8>, i: &TrancInput)
    requires
        in_wf(i@),
    ensures
        final(out)@ == old(out)@ + enc_input(i@),
{
    push_str(out, &i.from);
    push_i32(out, i.vout);
    push_bytes(out, i.signature.as_slice());
    push_bytes(out, i.pub_key.as_slice());
    proof {
        assert(out@ =~= old(out)@ + enc_input(i@));
    }
}

/// Reads an input at `pos`.
pub fn read_input(bytes: &[u8], pos: usize) -> (r: Option<(TrancInput, usize)>)
    requires
        pos <= bytes@.len(),
    ensures
        match r {
            Some(p) => {
                &&& dec_input(bytes@.skip(pos as int)) == Some((p.0@, bytes@.skip(p.1 as int)))
                &&& pos <= p.1 <= bytes@.len()
                &&& in_wf(p.0@)
            },
            None => dec_input(bytes@.skip(pos as int)) is None,
        },
{
    let (from, p1) = match read_str(bytes, pos) {
        None => {
            return None;
        },
        Some(p) => p,
    };
    let (vout, p2) = match read_i32(bytes, p1) {
        None => {
            return None;
        },
        Some(p) => p,
    };
    let (signature, p3) = match read_bytes(bytes, p2) {
        None => {
            return None;
        },
        Some(p) => p,
    };
    let (pub_key, p4) = match read_bytes(bytes, p3) {
        None => {
            return None;
        },
        Some(p) => p,
    };
    Some((TrancInput { from, vout, signature, pub_key }, p4))
}

/// The encoding of an output: its value and the hash that locks it.
pub open spec fn enc_output(o: OutV) -> Seq<u8> {
    enc_i32(o.value) + enc_bytes(o.pub_key_hash)
}

/// Decodes an output; a negative value is malformed.
pub open spec fn dec_output(s: Seq<u8>) -> Option<(OutV, Seq<u8>)> {
    match dec_i32(s) {
        None => None,
        Some((value, s1)) => if value < 0 {
            None
        } else {
            match dec_bytes(s1) {
                None => None,
                Some((pub_key_hash, s2)) => Some((OutV { value, pub_key_hash }, s2)),
            }
        },
    }
}

pub proof fn lemma_dec_enc_output(o: OutV, rest: Seq<u8>)
    requires
        out_wf(o),
        out_bounded(o),
    ensures
        dec_output(enc_output(o) + rest) == Some((o, rest)),
{
    let r1 = enc_bytes(o.pub_key_hash) + rest;
    assert(enc_output(o) + rest =~= enc_i32(o.value) + r1);
    lemma_dec_enc_i32(o.value, r1);
    lemma_dec_enc_bytes(o.pub_key_hash, rest);
}

/// Appends the encoding of an output to `out`.
pub fn push_output(out: &mut Vec<u8>, o: &TrancOutput)
    ensures
        final(out)@ == old(out)@ + enc_output(o@),
{
    push_i32(out, o.value);
    push_bytes(out, o.pub_key_hash.as_slice());
    proof {
        assert(out@ =~= old(out)@ + enc_output(o@));
    }
}

/// Reads an output at `pos`.
pub fn read_output(bytes: &[u8], pos: usize) -> (r: Option<(TrancOutput, usize)>)
    requires
        pos <= bytes@.len(),
    ensures
        match r {
            Some(p) => {
                &&& dec_output(bytes@.skip(pos as int)) == Some((p.0@, bytes@.skip(p.1 as int)))
                &&& pos <= p.1 <= bytes@.len()
                &&& out_wf(p.0@)
            },
            None => dec_output(bytes@.skip(pos as int)) is None,
        },
{
    let (value, p1) = match read_i32(bytes, pos) {
        None => {
            return None;
        },
        Some(p) => p,
    };
    if value < 0 {
        return None;
    }
    let (pub_key_hash, p2) = match read_bytes(bytes, p1) {
        None => {
            return None;
        },
        Some(p) => p,
    };
    Some((TrancOutput { value, pub_key_hash }, p2))
}

// ---------------------------------------------------------------------
// Behavior
// ---------------------------------------------------------------------

/// Byte-vector equality, used wherever keys and hashes are compared.
pub fn bytes_eq(a: &[u8], b: &[u8]) -> (r: bool)
    ensures
        r == (a@ == b@),
{
    if a.len() != b.len() {
        return false;
    }
    let mut i: usize = 0;
    while i < a.len()
        invariant
            0 <= i <= a@.len(),
            a@.len() == b@.len(),
            forall|j: int| 0 <= j < i ==> a@[j] == b@[j],
        decreases a@.len() - i,
    {
        if a[i] != b[i] {
            return false;
        }
        i = i + 1;
    }
    proof {
        assert(a@ =~= b@);
    }
    true
}

/// A fresh copy of a byte vector.
pub fn clone_bytes(v: &Vec<u8>) -> (r: Vec<u8>)
    ensures
        r@ == v@,
{
    let mut out: Vec<u8> = Vec::new();
    let mut i: usize = 0;
    while i < v.len()
        invariant
            0 <= i <= v@.len(),
            out@ == v@.take(i as int),
        decreases v@.len() - i,
    {
        out.push(v[i]);
        i = i + 1;
        proof {
            assert(out@ =~= v@.take(i as int));
        }
    }
    proof {
        assert(out@ =~= v@);
    }
    out
}

/// Whether an input is unlockable by `pkh`: the hash of the input's
/// public key.
pub open spec fn unlocks(i: InV, pkh: Seq<u8>) -> bool {
    ripemd160_of(sha256_of(i.pub_key)) == pkh
}

impl Clone for TrancInput {
    /// An input equal to this one in every field.
    fn clone(&self) -> (r: Self)
        ensures
            r@ == self@,
    {
        TrancInput {
            from: self.from.clone(),
            vout: self.vout,
            signature: clone_bytes(&self.signature),
            pub_key: clone_bytes(&self.pub_key),
        }
    }
}

impl Clone for TrancOutput {
    /// An output equal to this one in every field.
    fn clone(&self) -> (r: Self)
        ensures
            r@ == self@,
    {
        TrancOutput { value: self.value, pub_key_hash: clone_bytes(&self.pub_key_hash) }
    }
}

impl TrancInput {
    /// Whether this input was made by the owner of `unlocking_data`:
    /// hashing the input's public key must give exactly those bytes.
    pub fn can_unlock_output_with(&self, unlocking_data: Vec<u8>) -> (r: bool)
        ensures
            r == unlocks(self@, unlocking_data@),
    {
        let mut pubkeyhash = clone_bytes(&self.pub_key);
        crate::wallet::hash_pub_key(&mut pubkeyhash);
        bytes_eq(pubkeyhash.as_slice(), unlocking_data.as_slice())
    }
}

impl TrancOutput {
    /// Whether this output is locked to exactly `unlocking_data`.
    pub fn can_be_unlock_with(&self, unlocking_data: Vec<u8>) -> (r: bool)
        ensures
            r == (self.pub_key_hash@ == unlocking_data@),
    {
        bytes_eq(self.pub_key_hash.as_slice(), unlocking_data.as_slice())
    }

    /// Locks this output to the payload of `address`; a string that is
    /// no address is an encode/decode mismatch and changes nothing.
    pub fn lock(&mut self, address: &str) -> (r: Result<(), ChainError>)
        ensures
            match address_payload(address@) {
                Some(b) => r is Ok && final(self)@ == (OutV {
                    value: old(self)@.value,
                    pub_key_hash: b,
                }),
                None => r == Result::<(), ChainError>::Err(ChainError::SerializationError)
                    && final(self)@ == old(self)@,
            },
    {
        match decode_address(address) {
            Some(body) => {
                self.pub_key_hash = body;
                Ok(())
            },
            None => Err(ChainError::SerializationError),
        }
    }

    /// A new output of `value` units locked to `address`.
    pub fn new(value: i32, address: String) -> (r: Result<TrancOutput, ChainError>)
        requires
            value >= 0,
        ensures
            match address_payload(address@) {
                Some(b) => r matches Ok(o) && o@ == (OutV { value, pub_key_hash: b }),
                None => r matches Err(e) && e == ChainError::SerializationError,
            },
    {
        let mut trancoutput = TrancOutput { value, pub_key_hash: Vec::new() };
        trancoutput.lock(address.as_str())?;
        Ok(trancoutput)
    }
}

} // verus!
