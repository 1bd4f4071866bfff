//! The content digest behind object ids. The digest itself comes from
//! an outside crate; everything here states only what its source
//! plainly shows.
use crypto::digest::Digest;
use vstd::prelude::*;

verus! {

/// The hexadecimal SHA-1 digest of a byte sequence, as computed by the
/// outside hash crate. A function of the content alone.
pub uninterp spec fn sha1_of(content: Seq<u8>) -> Seq<u8>;

/// A lowercase hexadecimal digit.
pub open spec fn is_hex_digit(b: u8) -> bool {
    (48 <= b && b <= 57) || (97 <= b && b <= 102)
}

/// Every byte of `s` is a lowercase hexadecimal digit.
pub open spec fn hex_str(s: Seq<u8>) -> bool {
    forall|j: int| 0 <= j < s.len() ==> is_hex_digit(#[trigger] s[j])
}

/// Relies on crypto::sha1::Sha1 with the crypto::digest::Digest
/// methods input and result_str: result_str returns the digest of the
/// bytes fed in, two lowercase hexadecimal characters per digest byte
/// (rustc-serialize's to_hex over "0123456789abcdef"), so forty
/// characters for SHA-1's twenty-byte output, and depends on the
/// input bytes alone.
#[verifier::external_body]
pub fn sha1_hex(content: &Vec<u8>) -> (r: Vec<u8>)
    ensures
        r@ == sha1_of(content@),
        r@.len() == 40,
        hex_str(r@),
{
    let mut hasher = crypto::sha1::Sha1::new();
    hasher.input(content.as_slice());
    hasher.result_str().into_bytes()
}

/// A hexadecimal string holds no space, newline or NUL, so digests can
/// stand in tree and commit lines.
pub proof fn lemma_hex_str_clean(s: Seq<u8>)
    requires
        hex_str(s),
    ensures
        forall|j: int| 0 <= j < s.len() ==> #[trigger] s[j] != 32,
        forall|j: int| 0 <= j < s.len() ==> #[trigger] s[j] != 10,
        forall|j: int| 0 <= j < s.len() ==> #[trigger] s[j] != 0,
{
}

} // verus!
