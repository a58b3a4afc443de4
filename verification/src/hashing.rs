//! Node identifiers: the lower-case hexadecimal SHA-256 digest of a name.

use vstd::prelude::*;

verus! {

/// What SHA-256 gives for a byte sequence.
pub uninterp spec fn sha256_digest(data: Seq<u8>) -> Seq<u8>;

/// Calls `sha2::Sha256::digest` (through the `Digest` trait). Trusted: the
/// result is the SHA-256 digest of `data`, which is a function of the bytes
/// alone, and it is 32 bytes long (`Sha256`'s output size is `U32`).
#[verifier::external_body]
fn sha256(data: &[u8]) -> (r: Vec<u8>)
    ensures
        r@ == sha256_digest(data@),
        r@.len() == 32,
{
    <sha2::Sha256 as sha2::Digest>::digest(data).to_vec()
}

/// Calls `String::push`, which appends one character to the string.
#[verifier::external_body]
pub(crate) fn push_char(s: &mut String, c: char)
    ensures
        final(s)@ == old(s)@.push(c),
{
    s.push(c)
}

/// The lower-case hexadecimal digit for a value below 16.
pub open spec fn hex_digit(v: int) -> char {
    if v < 10 {
        (('0' as int) + v) as char
    } else {
        (('a' as int) + (v - 10)) as char
    }
}

/// Two lower-case hexadecimal digits per byte, most significant first, as
/// `format!("{:02x}", b)` writes them.
pub open spec fn hex_lower(data: Seq<u8>) -> Seq<char>
    decreases data.len(),
{
    if data.len() == 0 {
        Seq::empty()
    } else {
        hex_lower(data.drop_last()) + seq![
            hex_digit(data.last() as int / 16),
            hex_digit(data.last() as int % 16),
        ]
    }
}

fn hex_digit_exec(v: u8) -> (c: char)
    requires
        v < 16,
    ensures
        c == hex_digit(v as int),
{
    if v < 10 {
        let code: u32 = 48u32 + v as u32;
        char_from_code(code)
    } else {
        let code: u32 = 97u32 + (v as u32 - 10);
        char_from_code(code)
    }
}

fn char_from_code(code: u32) -> (c: char)
    requires
        48 <= code <= 57 || 97 <= code <= 102,
    ensures
        c == code as char,
{
    if code == 48 { '0' }
    else if code == 49 { '1' }
    else if code == 50 { '2' }
    else if code == 51 { '3' }
    else if code == 52 { '4' }
    else if code == 53 { '5' }
    else if code == 54 { '6' }
    else if code == 55 { '7' }
    else if code == 56 { '8' }
    else if code == 57 { '9' }
    else if code == 97 { 'a' }
    else if code == 98 { 'b' }
    else if code == 99 { 'c' }
    else if code == 100 { 'd' }
    else if code == 101 { 'e' }
    else { 'f' }
}

/// Lower-case hexadecimal text of a byte sequence.
pub fn to_hex_lower(data: &[u8]) -> (s: String)
    ensures
        s@ == hex_lower(data@),
{
    let mut s = String::new();
    let mut i: usize = 0;
    while i < data.len()
        invariant
            i <= data@.len(),
            s@ == hex_lower(data@.subrange(0, i as int)),
        decreases data.len() - i,
    {
        let b = data[i];
        push_char(&mut s, hex_digit_exec(b / 16));
        push_char(&mut s, hex_digit_exec(b % 16));
        proof {
            let next = data@.subrange(0, i + 1);
            assert(next.drop_last() =~= data@.subrange(0, i as int));
            assert(next.last() == b);
            assert(s@ =~= hex_lower(next));
        }
        i = i + 1;
    }
    assert(data@.subrange(0, data@.len() as int) =~= data@);
    s
}

/// The identifier of a node with the given name: the hexadecimal SHA-256
/// digest of its UTF-8 bytes.
pub open spec fn node_hash(name: Seq<char>) -> Seq<char> {
    hex_lower(sha256_digest(vstd::utf8::encode_utf8(name)))
}

/// Hashes a node name into its identifier.
pub fn hash_name(name: &str) -> (h: String)
    ensures
        h@ == node_hash(name@),
        h@.len() == 64,
{
    let digest = sha256(name.as_bytes());
    let h = to_hex_lower(digest.as_slice());
    proof {
        lemma_hex_lower_len(digest@);
    }
    h
}

proof fn lemma_hex_lower_len(data: Seq<u8>)
    ensures
        hex_lower(data).len() == 2 * data.len(),
    decreases data.len(),
{
    if data.len() > 0 {
        lemma_hex_lower_len(data.drop_last());
    }
}

} // verus!
