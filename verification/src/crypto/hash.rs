//! SHA-256 content hashing and its lowercase hexadecimal rendering.

use vstd::prelude::*;
use vstd::utf8::*;
use sha2::Digest;

verus! {

/// The SHA-256 digest of `data`, as computed by the `sha2` crate.
pub uninterp spec fn sha256_digest(data: Seq<u8>) -> Seq<u8>;

/// Calls `sha2::Sha256::digest`. Trusted: the result is the digest named
/// `sha256_digest` of the input bytes; its 32-byte length is fixed by the type.
#[verifier::external_body]
fn sha256(data: &[u8]) -> (digest: [u8; 32])
    ensures
        digest@ == sha256_digest(data@),
{
    sha2::Sha256::digest(data).into()
}

/// Calls `String::from_utf8`. Trusted: std documents that it succeeds exactly
/// on valid UTF-8, and the resulting string holds the decoded characters.
#[verifier::external_body]
fn string_from_utf8(bytes: Vec<u8>) -> (s: Option<String>)
    ensures
        s is Some <==> valid_utf8(bytes@),
        s matches Some(s) ==> s@ == decode_utf8(bytes@),
{
    String::from_utf8(bytes).ok()
}

/// The lowercase hexadecimal digit for a nibble `n < 16`.
pub open spec fn hex_digit(n: int) -> char {
    if n < 10 {
        ('0' as int + n) as char
    } else {
        ('a' as int + (n - 10)) as char
    }
}

/// Lowercase hexadecimal rendering: two digits per byte, high nibble first.
pub open spec fn hex_lower(bytes: Seq<u8>) -> Seq<char> {
    Seq::new(
        2 * bytes.len(),
        |i: int|
            if i % 2 == 0 {
                hex_digit(bytes[i / 2] as int / 16)
            } else {
                hex_digit(bytes[i / 2] as int % 16)
            },
    )
}

/// The identifier under which content is stored: the lowercase hex SHA-256 of it.
pub open spec fn content_id(data: Seq<u8>) -> Seq<char> {
    hex_lower(sha256_digest(data))
}

/// Every character of a content identifier is a lowercase hex digit.
pub open spec fn is_hex_id(s: Seq<char>) -> bool {
    forall|i: int|
        0 <= i < s.len() ==> (('0' <= #[trigger] s[i] && s[i] <= '9') || ('a' <= s[i] && s[i]
            <= 'f'))
}

fn hex_digit_byte(n: u8) -> (b: u8)
    requires
        n < 16,
    ensures
        b as char == hex_digit(n as int),
        b < 128,
{
    if n < 10 {
        48u8 + n
    } else {
        97u8 + (n - 10)
    }
}

/// Renders `bytes` as lowercase hexadecimal.
pub fn to_hex(bytes: &[u8]) -> (s: String)
    requires
        2 * bytes@.len() <= usize::MAX,
    ensures
        s@ == hex_lower(bytes@),
{
    let mut out: Vec<u8> = Vec::new();
    let mut i: usize = 0;
    while i < bytes.len()
        invariant
            i <= bytes@.len(),
            2 * bytes@.len() <= usize::MAX,
            out@.len() == 2 * i,
            forall|j: int| 0 <= j < out@.len() ==> (#[trigger] out@[j]) < 128,
            forall|j: int|
                0 <= j < out@.len() ==> (#[trigger] out@[j]) as char == hex_lower(bytes@)[j],
        decreases bytes@.len() - i,
    {
        let b = bytes[i];
        let hi = hex_digit_byte(b / 16);
        let lo = hex_digit_byte(b % 16);
        out.push(hi);
        out.push(lo);
        i = i + 1;
    }
    let ghost chars = hex_lower(bytes@);
    proof {
        assert(is_ascii_chars(chars));
        is_ascii_chars_encode_utf8(chars);
        assert(out@ =~= encode_utf8(chars));
        encode_utf8_valid_utf8(chars);
        encode_utf8_decode_utf8(chars);
    }
    let s = string_from_utf8(out);
    match s {
        Some(s) => s,
        None => {
            proof {
                assert(false);
            }
            String::new()
        },
    }
}

/// The lowercase hexadecimal SHA-256 digest of `data`: the content identifier.
pub fn sha256_hex(data: &[u8]) -> (id: String)
    ensures
        id@ == content_id(data@),
        id@.len() == 64,
        is_hex_id(id@),
{
    let digest = sha256(data);
    let s = to_hex(&digest);
    proof {
        assert(s@.len() == 64);
        lemma_content_id_is_hex(data@);
    }
    s
}

/// A content identifier consists of lowercase hexadecimal digits.
pub proof fn lemma_content_id_is_hex(data: Seq<u8>)
    ensures
        is_hex_id(content_id(data)),
{
    let s = content_id(data);
    let digest = sha256_digest(data);
    assert forall|i: int| 0 <= i < s.len() implies (('0' <= #[trigger] s[i] && s[i] <= '9') || (
    'a' <= s[i] && s[i] <= 'f')) by {
        let b = digest[i / 2] as int;
        assert(0 <= b / 16 < 16);
        assert(0 <= b % 16 < 16);
    }
}

} // verus!
