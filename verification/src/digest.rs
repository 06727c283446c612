//! The digest function: SHA-1 over a byte sequence, written as 40 lowercase
//! hexadecimal characters. Objects are stored under it and commits refer to
//! each other by it.

use crypto::digest::Digest;
use crypto::sha1::Sha1;
use vstd::prelude::*;

verus! {

/// The SHA-1 digest of `data` in lowercase hexadecimal, as `Sha1::result_str`
/// of the `crypto` crate gives it after `data` was its whole input.
pub uninterp spec fn sha1_hex(data: Seq<u8>) -> Seq<char>;

/// Number of bytes from which the hasher can no longer count its input in
/// bits.
pub const DIGEST_INPUT_LIMIT: u64 = 0x2000_0000_0000_0000;

/// The inputs that the digest function takes.
pub open spec fn digest_input_ok(data: Seq<u8>) -> bool {
    data.len() < DIGEST_INPUT_LIMIT
}

/// The characters of a digest: `0-9a-f`.
pub open spec fn is_hex_char(c: char) -> bool {
    ('0' <= c && c <= '9') || ('a' <= c && c <= 'f')
}

/// The shape of a digest: 40 characters out of `0-9a-f`.
pub open spec fn is_digest(s: Seq<char>) -> bool {
    &&& s.len() == 40
    &&& forall|i: int| 0 <= i < 40 ==> is_hex_char(#[trigger] s[i])
}

/// Runs `Sha1::new`, `Digest::input` and `Digest::result_str` of the `crypto`
/// crate on `data`. Unproved: that the outcome depends on the bytes alone, and
/// that it is 20 bytes written as 40 lowercase hexadecimal characters. The
/// hasher panics where the bit length of its input does not fit in 64 bits,
/// which the precondition rules out.
#[verifier::external_body]
fn sha1_hex_string(data: &[u8]) -> (r: String)
    requires
        digest_input_ok(data@),
    ensures
        r@ == sha1_hex(data@),
        is_digest(r@),
{
    let mut sha = Sha1::new();
    sha.input(data);
    sha.result_str()
}

/// The digest of a byte sequence. Equal inputs give equal digests, on every
/// call and in every process.
pub fn digest(data: &[u8]) -> (r: String)
    requires
        digest_input_ok(data@),
    ensures
        r@ == sha1_hex(data@),
        is_digest(r@),
{
    sha1_hex_string(data)
}

/// The digest is a function of the bytes alone: byte sequences that agree in
/// length and in every byte have the same digest, on every call and in every
/// process.
pub proof fn lemma_digest_deterministic(a: Seq<u8>, b: Seq<u8>)
    requires
        a =~= b,
    ensures
        sha1_hex(a) == sha1_hex(b),
{
}

/// True if `data` is short enough for `digest`.
pub fn can_digest(data: &[u8]) -> (ok: bool)
    ensures
        ok == digest_input_ok(data@),
{
    let n: u64 = data.len() as u64;
    n < DIGEST_INPUT_LIMIT
}

} // verus!
