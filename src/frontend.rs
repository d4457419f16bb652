//! The frontend's version stamp: a hash of the bundle's file digests,
//! written as sixteen lowercase hexadecimal digits.
use vstd::prelude::*;
use std::hash::{Hash, Hasher};

verus! {

/// The digit for `d` in base sixteen.
pub open spec fn hex_char(d: int) -> char {
    seq!['0', '1', '2', '3', '4', '5', '6', '7', '8', '9', 'a', 'b', 'c', 'd', 'e', 'f'][d]
}

/// Digit `i` of `n` written with sixteen hexadecimal digits, the most
/// significant first.
pub open spec fn hex_digit_of(n: u64, i: int) -> int {
    ((n >> ((60 - 4 * i) as u64)) & 15u64) as int
}

/// `n` as sixteen lowercase hexadecimal digits, padded with zeros.
pub open spec fn hex16(n: u64) -> Seq<char> {
    Seq::new(16, |i: int| hex_char(hex_digit_of(n, i)))
}

/// `n` as sixteen lowercase hexadecimal digits, padded with zeros.
pub fn to_hex16(n: u64) -> (r: String)
    ensures
        r@ == hex16(n),
{
    let digits = "0123456789abcdef";
    proof {
        reveal_strlit("0123456789abcdef");
    }
    let mut out = String::new();
    let mut i: u64 = 0;
    while i < 16
        invariant
            i <= 16,
            digits@ == seq!['0', '1', '2', '3', '4', '5', '6', '7', '8', '9', 'a', 'b', 'c', 'd', 'e', 'f'],
            out@ == hex16(n).subrange(0, i as int),
        decreases 16 - i,
    {
        let shift: u64 = 60 - 4 * i;
        let d: u64 = (n >> shift) & 15;
        assert(d < 16) by (bit_vector)
            requires
                d == (n >> shift) & 15,
        ;
        assert(d as int == hex_digit_of(n, i as int));
        let s = digits.substring_char(d as usize, d as usize + 1);
        let ghost before = out@;
        out.append(s);
        assert(out@ =~= hex16(n).subrange(0, i + 1));
        i = i + 1;
    }
    out
}

/// What std's `DefaultHasher` gives for a list of digests.
pub uninterp spec fn default_hash_of(digests: Seq<Seq<u8>>) -> u64;

/// The digests as values.
pub open spec fn digest_views(digests: Seq<Vec<u8>>) -> Seq<Seq<u8>> {
    digests.map_values(|d: Vec<u8>| d@)
}

/// Relies on std's `Hash` for a vector of byte vectors fed to a
/// `DefaultHasher::new()`, whose keys are fixed: the result depends on the
/// bytes alone. A 32-byte array hashes as the vector of its bytes does.
#[verifier::external_body]
fn hash_digests(digests: &Vec<Vec<u8>>) -> (r: u64)
    ensures
        r == default_hash_of(digest_views(digests@)),
{
    let mut hasher = std::hash::DefaultHasher::new();
    digests.hash(&mut hasher);
    hasher.finish()
}

/// The version stamp of a bundle whose files, ordered by name, have the
/// given SHA-256 digests.
pub fn frontend_hash(digests: &Vec<Vec<u8>>) -> (r: String)
    ensures
        r@ == hex16(default_hash_of(digest_views(digests@))),
{
    to_hex16(hash_digests(digests))
}

} // verus!
