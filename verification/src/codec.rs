//! The deterministic binary encoding of the ledger's values: blocks,
//! transactions and spent-output lists. Every persisted value and every
//! hash preimage goes through this order-preserving format, so encoding
//! and decoding are verified to invert one another.

use vstd::prelude::*;

verus! {

// ---------------------------------------------------------------------
// Little-endian integers
// ---------------------------------------------------------------------

/// The `width` little-endian bytes of `n`.
pub open spec fn le_bytes(n: int, width: nat) -> Seq<u8>
    decreases width,
{
    if width == 0 {
        Seq::empty()
    } else {
        seq![(n % 256) as u8] + le_bytes(n / 256, (width - 1) as nat)
    }
}

/// The value of a little-endian byte sequence.
pub open spec fn le_val(bytes: Seq<u8>) -> int
    decreases bytes.len(),
{
    if bytes.len() == 0 {
        0
    } else {
        bytes[0] + 256 * le_val(bytes.skip(1))
    }
}

pub proof fn lemma_le_bytes_len(n: int, width: nat)
    ensures
        le_bytes(n, width).len() == width,
    decreases width,
{
    if width > 0 {
        lemma_le_bytes_len(n / 256, (width - 1) as nat);
    }
}

/// Decoding inverts encoding for values in range.
pub proof fn lemma_le_round_trip(n: int, width: nat)
    requires
        0 <= n < pow256(width),
    ensures
        le_bytes(n, width).len() == width,
        le_val(le_bytes(n, width)) == n,
    decreases width,
{
    lemma_le_bytes_len(n, width);
    if width > 0 {
        let rest = le_bytes(n / 256, (width - 1) as nat);
        assert(le_bytes(n, width).skip(1) =~= rest);
        assert(0 <= n / 256 < pow256((width - 1) as nat)) by {
            assert(pow256(width) == 256 * pow256((width - 1) as nat));
        }
        lemma_le_round_trip(n / 256, (width - 1) as nat);
        assert(n == n % 256 + 256 * (n / 256));
    }
}

/// 256 to the power `width`.
pub open spec fn pow256(width: nat) -> int
    decreases width,
{
    if width == 0 {
        1
    } else {
        256 * pow256((width - 1) as nat)
    }
}

pub proof fn lemma_pow256_u64()
    ensures
        pow256(8) == 0x1_0000_0000_0000_0000,
        pow256(4) == 0x1_0000_0000,
        pow256(16) == 0x1_0000_0000_0000_0000_0000_0000_0000_0000,
{
    assert(pow256(0) == 1);
    assert(pow256(1) == 0x100);
    assert(pow256(2) == 0x1_0000);
    assert(pow256(3) == 0x100_0000);
    assert(pow256(4) == 0x1_0000_0000);
    assert(pow256(5) == 0x100_0000_0000);
    assert(pow256(6) == 0x1_0000_0000_0000);
    assert(pow256(7) == 0x100_0000_0000_0000);
    assert(pow256(8) == 0x1_0000_0000_0000_0000);
    assert(pow256(9) == 0x100_0000_0000_0000_0000);
    assert(pow256(10) == 0x1_0000_0000_0000_0000_0000);
    assert(pow256(11) == 0x100_0000_0000_0000_0000_0000);
    assert(pow256(12) == 0x1_0000_0000_0000_0000_0000_0000);
    assert(pow256(13) == 0x100_0000_0000_0000_0000_0000_0000);
    assert(pow256(14) == 0x1_0000_0000_0000_0000_0000_0000_0000);
    assert(pow256(15) == 0x100_0000_0000_0000_0000_0000_0000_0000);
    assert(pow256(16) == 0x1_0000_0000_0000_0000_0000_0000_0000_0000);
}

pub proof fn lemma_pow256_positive(width: nat)
    ensures
        pow256(width) >= 1,
    decreases width,
{
    if width > 0 {
        lemma_pow256_positive((width - 1) as nat);
    }
}

pub proof fn lemma_pow256_mono(a: nat, b: nat)
    requires
        a <= b,
    ensures
        pow256(a) <= pow256(b),
    decreases b,
{
    lemma_pow256_positive(a);
    if a < b {
        lemma_pow256_mono(a, (b - 1) as nat);
    }
}

/// A little-endian byte sequence is the value of a number below
/// 256 to its length.
pub proof fn lemma_le_val_bound(s: Seq<u8>)
    ensures
        0 <= le_val(s) < pow256(s.len()),
    decreases s.len(),
{
    if s.len() > 0 {
        lemma_le_val_bound(s.skip(1));
    }
}

/// Appends the `width` little-endian bytes of `v` to `out`.
pub fn push_le(out: &mut Vec<u8>, v: u128, width: usize)
    requires
        (v as int) < pow256(width as nat),
    ensures
        final(out)@ == old(out)@ + le_bytes(v as int, width as nat),
{
    let mut cur: u128 = v;
    let mut i: usize = 0;
    while i < width
        invariant
            0 <= i <= width,
            (v as int) < pow256(width as nat),
            out@ == old(out)@ + le_bytes(v as int, width as nat).take(i as int),
            cur == remainder_after(v as int, i as nat),
            cur >= 0,
        decreases width - i,
    {
        proof {
            lemma_le_bytes_split(v as int, width as nat, i as nat);
        }
        out.push((cur % 256) as u8);
        cur = cur / 256;
        i = i + 1;
        proof {
            assert(out@ =~= old(out)@ + le_bytes(v as int, width as nat).take(i as int));
        }
    }
    proof {
        lemma_le_bytes_len(v as int, width as nat);
        assert(out@ =~= old(out)@ + le_bytes(v as int, width as nat));
    }
}

/// Decodes a `width`-byte little-endian integer from the front of `s`.
pub open spec fn dec_le(s: Seq<u8>, width: nat) -> Option<(int, Seq<u8>)> {
    if s.len() < width {
        None
    } else {
        Some((le_val(s.take(width as int)), s.skip(width as int)))
    }
}

/// Decoding inverts encoding, whatever follows the encoded bytes.
pub proof fn lemma_dec_le_enc(n: int, width: nat, rest: Seq<u8>)
    requires
        0 <= n < pow256(width),
    ensures
        dec_le(le_bytes(n, width) + rest, width) == Some((n, rest)),
{
    lemma_le_round_trip(n, width);
    assert((le_bytes(n, width) + rest).take(width as int) =~= le_bytes(n, width));
    assert((le_bytes(n, width) + rest).skip(width as int) =~= rest);
}

/// Reads a `width`-byte little-endian integer at `pos`.
pub fn read_le(bytes: &[u8], pos: usize, width: usize) -> (r: Option<(u128, usize)>)
    requires
        pos <= bytes@.len(),
        width <= 16,
    ensures
        match r {
            Some(p) => {
                &&& dec_le(bytes@.skip(pos as int), width as nat) == Some(
                    (p.0 as int, bytes@.skip(p.1 as int)),
                )
                &&& p.1 == pos + width
                &&& p.1 <= bytes@.len()
            },
            None => dec_le(bytes@.skip(pos as int), width as nat) is None,
        },
{
    let blen: usize = bytes.len();
    if blen - pos < width {
        return None;
    }
    let ghost whole = bytes@.skip(pos as int);
    let mut v: u128 = 0;
    let mut i: usize = width;
    proof {
        assert(bytes@.subrange(pos + i, pos + width) =~= Seq::<u8>::empty());
    }
    while i > 0
        invariant
            i <= width <= 16,
            pos + width <= bytes@.len() <= usize::MAX,
            v as int == le_val(bytes@.subrange(pos + i, pos + width)),
            (v as int) < pow256((width - i) as nat),
        decreases i,
    {
        i = i - 1;
        let ghost pre = bytes@.subrange(pos + i + 1, pos + width);
        let b = bytes[pos + i];
        proof {
            assert(bytes@.subrange(pos + i, pos + width) =~= seq![b] + pre);
            assert(le_val(seq![b] + pre) == b + 256 * le_val(pre)) by {
                assert((seq![b] + pre).skip(1) =~= pre);
                assert((seq![b] + pre)[0] == b);
            }
            lemma_pow256_mono((width - i) as nat, 16);
            lemma_pow256_u64();
        }
        v = v * 256 + (b as u128);
    }
    proof {
        assert(bytes@.subrange(pos as int, pos + width) =~= whole.take(width as int));
        assert(bytes@.skip(pos + width) =~= whole.skip(width as int));
    }
    Some((v, pos + width))
}

// ---------------------------------------------------------------------
// Length-prefixed byte fields
// ---------------------------------------------------------------------

/// A byte field: its length as 8 little-endian bytes, then the bytes.
pub open spec fn enc_bytes(b: Seq<u8>) -> Seq<u8> {
    le_bytes(b.len() as int, 8) + b
}

/// Decodes a byte field from the front of `s`.
pub open spec fn dec_bytes(s: Seq<u8>) -> Option<(Seq<u8>, Seq<u8>)> {
    match dec_le(s, 8) {
        None => None,
        Some((n, r)) => if n > usize::MAX as int || r.len() < n {
            None
        } else {
            Some((r.take(n), r.skip(n)))
        },
    }
}

pub proof fn lemma_dec_enc_bytes(b: Seq<u8>, rest: Seq<u8>)
    requires
        b.len() <= usize::MAX,
    ensures
        dec_bytes(enc_bytes(b) + rest) == Some((b, rest)),
{
    lemma_pow256_u64();
    assert(enc_bytes(b) + rest =~= le_bytes(b.len() as int, 8) + (b + rest));
    lemma_dec_le_enc(b.len() as int, 8, b + rest);
    assert((b + rest).take(b.len() as int) =~= b);
    assert((b + rest).skip(b.len() as int) =~= rest);
}

/// Appends a length-prefixed byte field to `out`.
pub fn push_bytes(out: &mut Vec<u8>, src: &[u8])
    ensures
        final(out)@ == old(out)@ + enc_bytes(src@),
{
    proof {
        lemma_pow256_u64();
        lemma_pow256_mono(8, 16);
    }
    push_le(out, src.len() as u128, 8);
    let mut i: usize = 0;
    while i < src.len()
        invariant
            0 <= i <= src@.len(),
            out@ == old(out)@ + le_bytes(src@.len() as int, 8) + src@.take(i as int),
        decreases src@.len() - i,
    {
        out.push(src[i]);
        i = i + 1;
        proof {
            assert(out@ =~= old(out)@ + le_bytes(src@.len() as int, 8) + src@.take(i as int));
        }
    }
    proof {
        assert(out@ =~= old(out)@ + enc_bytes(src@));
    }
}

/// Reads a length-prefixed byte field at `pos`.
pub fn read_bytes(bytes: &[u8], pos: usize) -> (r: Option<(Vec<u8>, usize)>)
    requires
        pos <= bytes@.len(),
    ensures
        match r {
            Some(p) => {
                &&& dec_bytes(bytes@.skip(pos as int)) == Some((p.0@, bytes@.skip(p.1 as int)))
                &&& pos <= p.1 <= bytes@.len()
            },
            None => dec_bytes(bytes@.skip(pos as int)) is None,
        },
{
    let ghost whole = bytes@.skip(pos as int);
    let (n128, mid) = match read_le(bytes, pos, 8) {
        None => {
            return None;
        },
        Some(p) => p,
    };
    if n128 > usize::MAX as u128 {
        return None;
    }
    let n: usize = n128 as usize;
    let blen: usize = bytes.len();
    if blen - mid < n {
        proof {
            assert(whole.skip(8).len() == whole.len() - 8);
        }
        return None;
    }
    let mut v: Vec<u8> = Vec::new();
    let mut i: usize = 0;
    while i < n
        invariant
            0 <= i <= n,
            mid + n <= bytes@.len() <= usize::MAX,
            v@ == bytes@.subrange(mid as int, mid + i),
        decreases n - i,
    {
        v.push(bytes[mid + i]);
        i = i + 1;
        proof {
            assert(v@ =~= bytes@.subrange(mid as int, mid + i));
        }
    }
    proof {
        assert(bytes@.skip(mid as int).take(n as int) =~= bytes@.subrange(mid as int, mid + n));
        assert(bytes@.skip(mid as int).skip(n as int) =~= bytes@.skip(mid + n));
    }
    Some((v, mid + n))
}

/// What remains of `n` after shifting away `i` low bytes.
pub open spec fn remainder_after(n: int, i: nat) -> int
    decreases i,
{
    if i == 0 {
        n
    } else {
        remainder_after(n, (i - 1) as nat) / 256
    }
}

/// Byte `i` of the encoding is the low byte of the remainder at `i`.
proof fn lemma_le_bytes_split(n: int, width: nat, i: nat)
    requires
        i < width,
    ensures
        le_bytes(n, width).take(i + 1 as int) =~= le_bytes(n, width).take(i as int) + seq![
            (remainder_after(n, i) % 256) as u8,
        ],
        remainder_after(n, i + 1) == remainder_after(n, i) / 256,
    decreases i,
{
    lemma_le_bytes_len(n, width);
    lemma_le_bytes_index(n, width, i);
}

/// Byte `i` of `le_bytes(n, width)`.
proof fn lemma_le_bytes_index(n: int, width: nat, i: nat)
    requires
        i < width,
    ensures
        le_bytes(n, width)[i as int] == (remainder_after(n, i) % 256) as u8,
    decreases i,
{
    lemma_le_bytes_len(n, width);
    if i == 0 {
    } else {
        lemma_le_bytes_len(n / 256, (width - 1) as nat);
        lemma_le_bytes_index(n / 256, (width - 1) as nat, (i - 1) as nat);
        lemma_remainder_after_step(n, (i - 1) as nat);
    }
}

/// Shifting first and stepping commute.
proof fn lemma_remainder_after_step(n: int, i: nat)
    ensures
        remainder_after(n / 256, i) == remainder_after(n, i + 1),
    decreases i,
{
    assert(remainder_after(n, i + 1) == remainder_after(n, ((i + 1) - 1) as nat) / 256);
    if i > 0 {
        lemma_remainder_after_step(n, (i - 1) as nat);
        assert(remainder_after(n / 256, i) == remainder_after(n / 256, (i - 1) as nat) / 256);
    }
}

// ---------------------------------------------------------------------
// Hex strings
// ---------------------------------------------------------------------

/// A lowercase hexadecimal digit, as a byte of ASCII text.
pub open spec fn is_hex_byte(b: u8) -> bool {
    (48 <= b <= 57) || (97 <= b <= 102)
}

/// Every byte a lowercase hex digit.
pub open spec fn all_hex(b: Seq<u8>) -> bool {
    forall|i: int| 0 <= i < b.len() ==> is_hex_byte(#[trigger] b[i])
}

/// A lowercase hexadecimal digit.
pub open spec fn is_hex_char(c: char) -> bool {
    ('0' <= c <= '9') || ('a' <= c <= 'f')
}

/// Every hash, transaction id and previous-block reference in this
/// library is a lowercase hex string, or empty.
pub open spec fn hexish(s: Seq<char>) -> bool {
    forall|i: int| 0 <= i < s.len() ==> is_hex_char(#[trigger] s[i])
}

/// The bytes of an ASCII string, character by character.
pub open spec fn str_bytes(s: Seq<char>) -> Seq<u8> {
    Seq::new(s.len(), |i: int| s[i] as u8)
}

/// The characters of an ASCII byte sequence.
pub open spec fn bytes_chars(b: Seq<u8>) -> Seq<char> {
    Seq::new(b.len(), |i: int| b[i] as char)
}

/// A string field: the length-prefixed bytes of its characters.
pub open spec fn enc_str(s: Seq<char>) -> Seq<u8> {
    enc_bytes(str_bytes(s))
}

/// Decodes a string field from the front of `s`: a byte field whose
/// bytes must all be hex digits.
pub open spec fn dec_str(s: Seq<u8>) -> Option<(Seq<char>, Seq<u8>)> {
    match dec_bytes(s) {
        None => None,
        Some((b, r)) => if forall|i: int| 0 <= i < b.len() ==> is_hex_byte(#[trigger] b[i]) {
            Some((bytes_chars(b), r))
        } else {
            None
        },
    }
}

/// Hex digits are ASCII, and casting them to bytes and back is lossless.
pub proof fn lemma_hex_ascii(s: Seq<char>)
    requires
        hexish(s),
    ensures
        vstd::utf8::is_ascii_chars(s),
        forall|i: int| 0 <= i < s.len() ==> is_hex_byte(#[trigger] str_bytes(s)[i]),
        bytes_chars(str_bytes(s)) =~= s,
{
    assert forall|i: int| 0 <= i < s.len() implies '\0' <= #[trigger] s[i] <= '\u{7f}' by {
        assert(is_hex_char(s[i]));
    }
    assert forall|i: int| 0 <= i < s.len() implies is_hex_byte(#[trigger] str_bytes(s)[i]) by {
        assert(is_hex_char(s[i]));
    }
}

pub proof fn lemma_dec_enc_str(s: Seq<char>, rest: Seq<u8>)
    requires
        hexish(s),
        s.len() <= usize::MAX,
    ensures
        dec_str(enc_str(s) + rest) == Some((s, rest)),
{
    lemma_hex_ascii(s);
    lemma_dec_enc_bytes(str_bytes(s), rest);
    assert(enc_str(s) + rest =~= enc_bytes(str_bytes(s)) + rest);
}

/// Appends a string field to `out`. The string must hold only hex
/// digits, so its UTF-8 bytes are exactly its characters.
pub fn push_str(out: &mut Vec<u8>, s: &String)
    requires
        hexish(s@),
    ensures
        final(out)@ == old(out)@ + enc_str(s@),
{
    proof {
        lemma_hex_ascii(s@);
        vstd::utf8::is_ascii_chars_encode_utf8(s@);
    }
    let b = s.as_str().as_bytes_vec();
    proof {
        assert(b@ =~= str_bytes(s@));
    }
    push_bytes(out, b.as_slice());
}

/// Hex bytes are the byte encoding of their own characters.
pub proof fn lemma_hex_bytes_chars(b: Seq<u8>)
    requires
        all_hex(b),
    ensures
        hexish(bytes_chars(b)),
        str_bytes(bytes_chars(b)) =~= b,
{
    assert forall|i: int| 0 <= i < bytes_chars(b).len() implies is_hex_char(
        #[trigger] bytes_chars(b)[i],
    ) by {
        assert(is_hex_byte(b[i]));
    }
}

/// The string spelled by raw hex bytes, or nothing if any byte is no
/// hex digit.
pub fn hex_bytes_string(b: &[u8]) -> (r: Option<String>)
    ensures
        match r {
            Some(s) => {
                &&& all_hex(b@)
                &&& s@ == bytes_chars(b@)
                &&& hexish(s@)
                &&& str_bytes(s@) == b@
            },
            None => !all_hex(b@),
        },
{
    let mut i: usize = 0;
    while i < b.len()
        invariant
            0 <= i <= b@.len(),
            forall|j: int| 0 <= j < i ==> is_hex_byte(#[trigger] b@[j]),
        decreases b@.len() - i,
    {
        let x = b[i];
        if !((48 <= x && x <= 57) || (97 <= x && x <= 102)) {
            proof {
                assert(!is_hex_byte(b@[i as int]));
            }
            return None;
        }
        i = i + 1;
    }
    let mut s = String::new();
    let mut k: usize = 0;
    while k < b.len()
        invariant
            0 <= k <= b@.len(),
            forall|j: int| 0 <= j < b@.len() ==> is_hex_byte(#[trigger] b@[j]),
            s@ =~= bytes_chars(b@).take(k as int),
        decreases b@.len() - k,
    {
        let piece = hex_byte_str(b[k]);
        s.append(piece);
        k = k + 1;
        proof {
            assert(s@ =~= bytes_chars(b@).take(k as int));
        }
    }
    proof {
        assert(s@ =~= bytes_chars(b@));
        lemma_hex_bytes_chars(b@);
    }
    Some(s)
}

/// The bytes of a hex string, character by character.
pub fn hex_str_bytes(s: &String) -> (r: Vec<u8>)
    requires
        hexish(s@),
    ensures
        r@ == str_bytes(s@),
{
    proof {
        lemma_hex_ascii(s@);
        vstd::utf8::is_ascii_chars_encode_utf8(s@);
    }
    let b = s.as_str().as_bytes_vec();
    proof {
        assert(b@ =~= str_bytes(s@));
    }
    b
}

/// The one-character string of a hex digit given as its ASCII byte.
fn hex_byte_str(x: u8) -> (r: &'static str)
    requires
        is_hex_byte(x),
    ensures
        r@ =~= seq![x as char],
{
    proof {
        reveal_strlit("0");
        reveal_strlit("1");
        reveal_strlit("2");
        reveal_strlit("3");
        reveal_strlit("4");
        reveal_strlit("5");
        reveal_strlit("6");
        reveal_strlit("7");
        reveal_strlit("8");
        reveal_strlit("9");
        reveal_strlit("a");
        reveal_strlit("b");
        reveal_strlit("c");
        reveal_strlit("d");
        reveal_strlit("e");
        reveal_strlit("f");
    }
    if x == 48 {
        "0"
    } else if x == 49 {
        "1"
    } else if x == 50 {
        "2"
    } else if x == 51 {
        "3"
    } else if x == 52 {
        "4"
    } else if x == 53 {
        "5"
    } else if x == 54 {
        "6"
    } else if x == 55 {
        "7"
    } else if x == 56 {
        "8"
    } else if x == 57 {
        "9"
    } else if x == 97 {
        "a"
    } else if x == 98 {
        "b"
    } else if x == 99 {
        "c"
    } else if x == 100 {
        "d"
    } else if x == 101 {
        "e"
    } else {
        "f"
    }
}

/// Reads a string field at `pos`.
pub fn read_str(bytes: &[u8], pos: usize) -> (r: Option<(String, usize)>)
    requires
        pos <= bytes@.len(),
    ensures
        match r {
            Some(p) => {
                &&& dec_str(bytes@.skip(pos as int)) == Some((p.0@, bytes@.skip(p.1 as int)))
                &&& pos <= p.1 <= bytes@.len()
                &&& hexish(p.0@)
            },
            None => dec_str(bytes@.skip(pos as int)) is None,
        },
{
    let (b, newpos) = match read_bytes(bytes, pos) {
        None => {
            return None;
        },
        Some(p) => p,
    };
    let mut i: usize = 0;
    while i < b.len()
        invariant
            0 <= i <= b@.len(),
            pos <= bytes@.len(),
            dec_bytes(bytes@.skip(pos as int)) == Some((b@, bytes@.skip(newpos as int))),
            forall|j: int| 0 <= j < i ==> is_hex_byte(#[trigger] b@[j]),
        decreases b@.len() - i,
    {
        let x = b[i];
        if !((48 <= x && x <= 57) || (97 <= x && x <= 102)) {
            proof {
                assert(!is_hex_byte(b@[i as int]));
                assert(!(forall|j: int|
                    0 <= j < b@.len() ==> is_hex_byte(#[trigger] b@[j])));
            }
            return None;
        }
        i = i + 1;
    }
    let mut s = String::new();
    let mut k: usize = 0;
    while k < b.len()
        invariant
            0 <= k <= b@.len(),
            forall|j: int| 0 <= j < b@.len() ==> is_hex_byte(#[trigger] b@[j]),
            s@ =~= bytes_chars(b@).take(k as int),
        decreases b@.len() - k,
    {
        let piece = hex_byte_str(b[k]);
        s.append(piece);
        k = k + 1;
        proof {
            assert(s@ =~= bytes_chars(b@).take(k as int));
        }
    }
    proof {
        assert(s@ =~= bytes_chars(b@));
        assert forall|i2: int| 0 <= i2 < s@.len() implies is_hex_char(#[trigger] s@[i2]) by {
            assert(is_hex_byte(b@[i2]));
        }
    }
    Some((s, newpos))
}

} // verus!
