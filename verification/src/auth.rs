//! Token verification against a precomputed secret digest.
//!
//! The secret digest is the lowercase hex form of the SHA-256 hash of the
//! configured token; a caller's token is hashed the same way and compared
//! as a plain string. The comparison is not constant-time, which mirrors
//! the service's stated (and admittedly weak) authentication policy.

use sha2::Digest;
use vstd::prelude::*;
use vstd::string::StrSliceExecFns;
use vstd::string::StringExecFns;
use vstd::utf8::encode_utf8;

verus! {

/// The SHA-256 digest of a byte sequence: a function of the bytes alone.
pub uninterp spec fn sha256_of(bytes: Seq<u8>) -> Seq<u8>;

/// Relies on sha2's `Sha256` (via the `Digest` trait): the digest depends
/// on the input bytes alone and is exactly 32 bytes long.
#[verifier::external_body]
fn sha256(bytes: &[u8]) -> (r: Vec<u8>)
    ensures
        r@ == sha256_of(bytes@),
        r@.len() == 32,
{
    sha2::Sha256::digest(bytes).to_vec()
}

/// The lowercase hex digit for a value below 16.
pub open spec fn hexdigit(n: u8) -> char {
    if n == 0 { '0' } else if n == 1 { '1' } else if n == 2 { '2' } else if n == 3 { '3' }
    else if n == 4 { '4' } else if n == 5 { '5' } else if n == 6 { '6' } else if n == 7 { '7' }
    else if n == 8 { '8' } else if n == 9 { '9' } else if n == 10 { 'a' } else if n == 11 { 'b' }
    else if n == 12 { 'c' } else if n == 13 { 'd' } else if n == 14 { 'e' } else { 'f' }
}

/// The lowercase hex rendering of a byte sequence, two digits per byte.
pub open spec fn hex_of(s: Seq<u8>) -> Seq<char>
    decreases s.len(),
{
    if s.len() == 0 {
        Seq::empty()
    } else {
        hex_of(s.drop_last()) + seq![hexdigit(s.last() / 16), hexdigit(s.last() % 16)]
    }
}

/// Renders bytes as lowercase hex, two digits per byte.
pub fn hex_encode(v: &Vec<u8>) -> (r: String)
    ensures
        r@ == hex_of(v@),
{
    let digits = "0123456789abcdef";
    proof {
        reveal_strlit("0123456789abcdef");
        assert(forall|j: u8| j < 16 ==> digits@[j as int] == hexdigit(j));
    }
    let mut r = String::new();
    let mut i: usize = 0;
    while i < v.len()
        invariant
            i <= v.len(),
            r@ == hex_of(v@.take(i as int)),
            digits@.len() == 16,
            forall|j: u8| j < 16 ==> digits@[j as int] == hexdigit(j),
        decreases v.len() - i,
    {
        let b = v[i];
        let hi = b / 16;
        let lo = b % 16;
        r.append(digits.substring_char(hi as usize, hi as usize + 1));
        r.append(digits.substring_char(lo as usize, lo as usize + 1));
        proof {
            assert(digits@.subrange(hi as int, hi as int + 1) =~= seq![hexdigit(hi)]);
            assert(digits@.subrange(lo as int, lo as int + 1) =~= seq![hexdigit(lo)]);
            assert(v@.take(i + 1).drop_last() =~= v@.take(i as int));
            assert(v@.take(i + 1).last() == b);
            assert(r@ =~= hex_of(v@.take(i as int)) + seq![hexdigit(b / 16), hexdigit(b % 16)]);
        }
        i += 1;
    }
    proof {
        assert(v@.take(v@.len() as int) =~= v@);
    }
    r
}

/// The secret digest of a token: the hex form of the SHA-256 hash of its
/// UTF-8 bytes.
pub open spec fn token_digest(token: Seq<char>) -> Seq<char> {
    hex_of(sha256_of(encode_utf8(token)))
}

/// What `verify_token` decides: the candidate's digest equals the expected
/// one.
pub open spec fn verify_spec(token: Seq<char>, expected: Seq<char>) -> bool {
    token_digest(token) == expected
}

/// Computes the secret digest held for the lifetime of a server instance.
pub fn generate_token_hash(token: &str) -> (r: String)
    ensures
        r@ == token_digest(token@),
{
    let digest = sha256(token.as_bytes());
    hex_encode(&digest)
}

/// Hashes the candidate token and compares the hex digests.
pub fn verify_token(token: &str, expected_hash: &str) -> (r: bool)
    ensures
        r == verify_spec(token@, expected_hash@),
{
    let hash = generate_token_hash(token);
    let expected = String::from_str(expected_hash);
    hash.eq(&expected)
}

/// The error string every handler returns on a token mismatch.
pub open spec fn auth_error_view() -> Seq<char> {
    "authentication error: invalid token"@
}

/// The guard every handler runs before touching the filesystem: `Ok` when
/// the token's digest matches, the fixed authentication error otherwise.
pub fn check_auth(token: &str, expected_hash: &str) -> (r: Result<(), String>)
    ensures
        r is Ok <==> verify_spec(token@, expected_hash@),
        r matches Err(e) ==> e@ == auth_error_view(),
{
    if verify_token(token, expected_hash) {
        Ok(())
    } else {
        Err(String::from_str("authentication error: invalid token"))
    }
}

/// Every token verifies against its own digest, and a candidate whose
/// digest differs is rejected. (That two distinct tokens have distinct
/// SHA-256 digests cannot itself be proved, so the second claim is stated
/// under that hypothesis.)
pub proof fn lemma_token_verification(t1: Seq<char>, t2: Seq<char>)
    ensures
        verify_spec(t1, token_digest(t1)),
        token_digest(t2) != token_digest(t1) ==> !verify_spec(t2, token_digest(t1)),
{
}

} // verus!
