//! Content hashing: a file body is fingerprinted as the lowercase
//! hexadecimal rendering of its MD5 digest.

use vstd::prelude::*;

verus! {

/// The MD5 digest of a byte sequence, as the `md5` crate computes it.
/// Left uninterpreted: the digest is a pure function of the input bytes,
/// and nothing is assumed of it here beyond its 16-byte width.
pub uninterp spec fn md5_of(data: Seq<u8>) -> Seq<u8>;

/// The character for one hexadecimal digit value (lowercase).
pub open spec fn hex_digit(n: int) -> char {
    if n == 0 {
        '0'
    } else if n == 1 {
        '1'
    } else if n == 2 {
        '2'
    } else if n == 3 {
        '3'
    } else if n == 4 {
        '4'
    } else if n == 5 {
        '5'
    } else if n == 6 {
        '6'
    } else if n == 7 {
        '7'
    } else if n == 8 {
        '8'
    } else if n == 9 {
        '9'
    } else if n == 10 {
        'a'
    } else if n == 11 {
        'b'
    } else if n == 12 {
        'c'
    } else if n == 13 {
        'd'
    } else if n == 14 {
        'e'
    } else {
        'f'
    }
}

/// Lowercase hexadecimal rendering of a byte sequence: two digits per byte,
/// high nibble first.
pub open spec fn hex_of(data: Seq<u8>) -> Seq<char> {
    Seq::new(
        data.len() * 2,
        |i: int|
            if i % 2 == 0 {
                hex_digit(data[i / 2] as int / 16)
            } else {
                hex_digit(data[i / 2] as int % 16)
            },
    )
}

/// The digest string that a file body fingerprints to.
pub open spec fn digest_of(content: Seq<u8>) -> Seq<char> {
    hex_of(md5_of(content))
}

/// Relies on `md5::Digest::digest` of the `md-5` crate: it hashes the whole
/// input in one pass, returns the fixed 16-byte MD5 digest, and the result
/// depends on the input bytes alone.
#[verifier::external_body]
fn md5_digest(data: &Vec<u8>) -> (r: Vec<u8>)
    ensures
        r@ == md5_of(data@),
        r@.len() == 16,
{
    <md5::Md5 as md5::Digest>::digest(data.as_slice()).to_vec()
}

/// Relies on `String::push`: it appends exactly the one character.
#[verifier::external_body]
pub(crate) fn push_char(s: &mut String, c: char)
    ensures
        final(s)@ == old(s)@.push(c),
{
    s.push(c);
}

/// The character for one nibble, as `hex_digit` gives it.
fn nibble_char(n: u8) -> (c: char)
    requires
        n < 16,
    ensures
        c == hex_digit(n as int),
{
    if n == 0 {
        '0'
    } else if n == 1 {
        '1'
    } else if n == 2 {
        '2'
    } else if n == 3 {
        '3'
    } else if n == 4 {
        '4'
    } else if n == 5 {
        '5'
    } else if n == 6 {
        '6'
    } else if n == 7 {
        '7'
    } else if n == 8 {
        '8'
    } else if n == 9 {
        '9'
    } else if n == 10 {
        'a'
    } else if n == 11 {
        'b'
    } else if n == 12 {
        'c'
    } else if n == 13 {
        'd'
    } else if n == 14 {
        'e'
    } else {
        'f'
    }
}

/// Renders a byte sequence as lowercase hexadecimal, two digits per byte.
pub fn hex_encode(data: &Vec<u8>) -> (r: String)
    ensures
        r@ == hex_of(data@),
{
    let mut r = String::new();
    let mut i: usize = 0;
    while i < data.len()
        invariant
            i <= data.len(),
            r@ =~= hex_of(data@).subrange(0, 2 * i as int),
        decreases data.len() - i,
    {
        let b = data[i];
        push_char(&mut r, nibble_char(b / 16));
        push_char(&mut r, nibble_char(b % 16));
        proof {
            assert(r@ =~= hex_of(data@).subrange(0, 2 * (i + 1) as int));
        }
        i += 1;
    }
    proof {
        assert(hex_of(data@).subrange(0, 2 * data@.len() as int) =~= hex_of(data@));
    }
    r
}

/// Content fingerprint of one file body: the digest string is a function of
/// the bytes alone (the same content gives the same digest wherever the file
/// lives), and it is always exactly 32 characters long.
pub fn digest_string(content: &Vec<u8>) -> (r: String)
    ensures
        r@ == digest_of(content@),
        r@.len() == 32,
{
    let digest = md5_digest(content);
    hex_encode(&digest)
}

} // verus!
