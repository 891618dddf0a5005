use vstd::prelude::*;
use vstd::slice::slice_to_vec;
use vstd::string::*;

verus! {

/// The lowercase hexadecimal SHA-1 digest of a byte sequence.
pub uninterp spec fn sha1_hex(b: Seq<u8>) -> Seq<char>;

pub open spec fn is_hex_digit(c: char) -> bool {
    ('0' <= c && c <= '9') || ('a' <= c && c <= 'f')
}

/// A digest as printed by the hash provider: forty lowercase hex digits.
pub open spec fn is_digest(s: Seq<char>) -> bool {
    s.len() == 40 && forall|i: int| 0 <= i < s.len() ==> is_hex_digit(#[trigger] s[i])
}

/// The text of each string of a list.
pub open spec fn texts(v: Seq<String>) -> Seq<Seq<char>> {
    v.map_values(|s: String| s@)
}

/// Relies on sha1's `Sha1::from(data).digest().to_string()`: the SHA-1 digest of
/// `data`, printed as five 8-digit lowercase hex words.
#[verifier::external_body]
fn sha1_digest(data: &[u8]) -> (r: String)
    ensures
        r@ == sha1_hex(data@),
        is_digest(r@),
{
    sha1::Sha1::from(data).digest().to_string()
}

/// Digest of a block's bytes.
pub fn hash_block(buff: &[u8]) -> (r: String)
    ensures
        r@ == sha1_hex(buff@),
        is_digest(r@),
{
    sha1_digest(buff)
}

/// Digest of the UTF-8 bytes of a string.
pub fn hash_str(s: &str) -> (r: String)
    ensures
        r@ == sha1_hex(s.spec_bytes()),
        is_digest(r@),
{
    sha1_digest(s.as_bytes())
}

/// Digest of the concatenated UTF-8 bytes of two strings: the identity of a
/// pair node.
pub fn hash_tuple_2(t: (&str, &str)) -> (r: String)
    ensures
        r@ == sha1_hex(t.0.spec_bytes() + t.1.spec_bytes()),
        is_digest(r@),
{
    let mut bytes = slice_to_vec(t.0.as_bytes());
    let mut second = slice_to_vec(t.1.as_bytes());
    bytes.append(&mut second);
    sha1_digest(bytes.as_slice())
}

/// Hashing is a function of the bytes alone: equal inputs give equal digests.
pub proof fn lemma_digest_deterministic(a: Seq<u8>, b: Seq<u8>)
    requires
        a == b,
    ensures
        sha1_hex(a) == sha1_hex(b),
{
}

} // verus!
