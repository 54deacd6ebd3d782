//! Content hashes: bytes to hash, and BLAKE3 digests of them.

use vstd::prelude::*;
use vstd::utf8::encode_utf8;
use crate::text::push_char;

verus! {

/// The BLAKE3 hash of the bytes.
pub uninterp spec fn blake3_of(data: Seq<u8>) -> Seq<u8>;

/// The key that BLAKE3 derives from the bytes, in a context of its own.
pub uninterp spec fn blake3_key(context: Seq<char>, data: Seq<u8>) -> Seq<u8>;

/// `blake3::hash`: thirty-two bytes that depend on the data alone. Which ones is left to `blake3_of`.
#[verifier::external_body]
pub(crate) fn hash(data: &Vec<u8>) -> (r: Vec<u8>)
    ensures
        r@ == blake3_of(data@),
        r@.len() == 32,
{
    blake3::hash(data).as_bytes().to_vec()
}

/// `blake3::derive_key`: thirty-two bytes that depend on the context and the data alone. Which ones is
/// left to `blake3_key`.
#[verifier::external_body]
pub(crate) fn derive_key(context: &str, data: &Vec<u8>) -> (r: Vec<u8>)
    ensures
        r@ == blake3_key(context@, data@),
        r@.len() == 32,
{
    blake3::derive_key(context, data).to_vec()
}

pub open spec fn nibble(n: int) -> char {
    if n < 10 {
        (n + '0' as int) as char
    } else {
        (n - 10 + 'a' as int) as char
    }
}

/// The first `k` bytes, two lower-case digits each.
pub open spec fn hex_upto(b: Seq<u8>, k: int) -> Seq<char>
    decreases k,
{
    if k <= 0 || k > b.len() {
        Seq::empty()
    } else {
        hex_upto(b, k - 1).push(nibble(b[k - 1] as int / 16)).push(nibble(b[k - 1] as int % 16))
    }
}

pub open spec fn hex_of(b: Seq<u8>) -> Seq<char> {
    hex_upto(b, b.len() as int)
}

fn hex_digit(n: u8) -> (c: char)
    requires
        n < 16,
    ensures
        c == nibble(n as int),
{
    if n < 10 {
        (n + 48) as char
    } else {
        (n - 10 + 97) as char
    }
}

pub proof fn lemma_hex_len(b: Seq<u8>, k: int)
    requires
        0 <= k <= b.len(),
    ensures
        hex_upto(b, k).len() == 2 * k,
    decreases k,
{
    if k > 0 {
        lemma_hex_len(b, k - 1);
    }
}

/// The bytes, two lower-case digits each.
pub fn to_hex(b: &Vec<u8>) -> (r: String)
    ensures
        r@ == hex_of(b@),
        r@.len() == 2 * b@.len(),
{
    let mut r = String::new();
    let mut k: usize = 0;
    while k < b.len()
        invariant
            k <= b@.len(),
            r@ == hex_upto(b@, k as int),
        decreases b@.len() - k,
    {
        push_char(&mut r, hex_digit(b[k] / 16));
        push_char(&mut r, hex_digit(b[k] % 16));
        k += 1;
    }
    proof {
        lemma_hex_len(b@, b@.len() as int);
    }
    r
}

/// Adds the text, in UTF-8.
pub fn add_text(out: &mut Vec<u8>, s: &str)
    ensures
        final(out)@ == old(out)@ + encode_utf8(s@),
{
    let bytes = s.as_bytes();
    let mut k: usize = 0;
    while k < bytes.len()
        invariant
            bytes@ == encode_utf8(s@),
            k <= bytes@.len(),
            out@ == old(out)@ + bytes@.take(k as int),
        decreases bytes@.len() - k,
    {
        out.push(bytes[k]);
        assert(bytes@.take(k + 1) =~= bytes@.take(k as int).push(bytes@[k as int]));
        k += 1;
    }
    assert(bytes@.take(bytes@.len() as int) =~= bytes@);
}

pub fn add_bytes(out: &mut Vec<u8>, b: &Vec<u8>)
    ensures
        final(out)@ == old(out)@ + b@,
{
    let mut k: usize = 0;
    while k < b.len()
        invariant
            k <= b@.len(),
            out@ == old(out)@ + b@.take(k as int),
        decreases b@.len() - k,
    {
        out.push(b[k]);
        assert(b@.take(k + 1) =~= b@.take(k as int).push(b@[k as int]));
        k += 1;
    }
    assert(b@.take(b@.len() as int) =~= b@);
}

} // verus!
