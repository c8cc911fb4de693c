//! Trusted wrappers around the `bitcoincash_addr` crate: human-readable
//! addresses are decoded to, and encoded from, the 20-byte public key
//! hash that locks an output.

use vstd::prelude::*;

verus! {

/// The payload bytes of an address string, when it decodes: a function
/// of the string alone.
pub uninterp spec fn address_payload(s: Seq<char>) -> Option<Seq<u8>>;

/// The Base58 script-hash address of a payload: a function of the bytes
/// alone.
pub uninterp spec fn address_encoded(body: Seq<u8>) -> Seq<char>;

/// Relies on bitcoincash_addr::Address::decode: deterministic in the
/// address string; yields the payload bytes exactly when it succeeds.
/// Strings holding `':'` are refused before the call: they select the
/// cashaddr codec, whose decode indexes past the payload of a short
/// crafted string and panics, while every address this ledger consumes
/// is Base58 text, which never holds `':'`.
#[verifier::external_body]
pub fn decode_address(addr: &str) -> (r: Option<Vec<u8>>)
    ensures
        match r {
            Some(v) => address_payload(addr@) == Some(v@),
            None => address_payload(addr@) is None,
        },
{
    if addr.contains(':') {
        return None;
    }
    match bitcoincash_addr::Address::decode(addr) {
        Ok(a) => Some(a.body),
        Err(_) => None,
    }
}

/// Relies on bitcoincash_addr::Address::encode under the Base58 scheme,
/// which is infallible and deterministic; Base58 text is ASCII. Encoding
/// a 20-byte body decodes back to it: the codec frames the body with one
/// version byte and a 4-byte checksum, 25 bytes in all, exactly what its
/// decoder accepts and strips; the Base58 text holds no `':'`, so the
/// decode wrapper passes it through.
#[verifier::external_body]
pub fn encode_address(body: &Vec<u8>) -> (r: String)
    ensures
        r@ == address_encoded(body@),
        vstd::utf8::is_ascii_chars(r@),
        body@.len() == 20 ==> address_payload(r@) == Some(body@),
{
    let address = bitcoincash_addr::Address {
        body: body.clone(),
        scheme: bitcoincash_addr::Scheme::Base58,
        hash_type: bitcoincash_addr::HashType::Script,
        ..Default::default()
    };
    match address.encode() {
        Ok(s) => s,
        Err(_) => String::new(),
    }
}

} // verus!
