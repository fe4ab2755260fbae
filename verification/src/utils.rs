//! Crypto oracle: a deterministic 32-byte content hash, a signing oracle that
//! binds a signer id to a payload, and the short-hash helper that leader
//! election is built on.

use vstd::prelude::*;

verus! {

/// A fixed 32-byte content identifier.
pub type Hash = [u8; 32];

/// A signature is a pair of the signer id and opaque bytes. The simulation's
/// signing oracle is `sign`/`check_signature` below; a real scheme could be
/// substituted behind the same interface.
pub type Signature = (u64, Vec<u8>);

/// The SHA-256 digest of a byte sequence. The digest is a function of the
/// input bytes alone; its value is not given here, only used as a name.
pub uninterp spec fn sha256_of(input: Seq<u8>) -> Seq<u8>;

/// The fixed 8-byte little-endian encoding of a machine word.
pub open spec fn spec_le_bytes(x: usize) -> Seq<u8> {
    seq![
        ((x as u64) % 256) as u8,
        ((x as u64) / 256 % 256) as u8,
        ((x as u64) / 65536 % 256) as u8,
        ((x as u64) / 16777216 % 256) as u8,
        ((x as u64) / 4294967296 % 256) as u8,
        ((x as u64) / 1099511627776 % 256) as u8,
        ((x as u64) / 281474976710656 % 256) as u8,
        ((x as u64) / 72057594037927936 % 256) as u8,
    ]
}

/// The first 8 bytes of a byte sequence read as a little-endian unsigned word.
pub open spec fn spec_short_hash(x: Seq<u8>) -> usize
    recommends
        x.len() >= 8,
{
    ((x[0] as u64) + 256 * (x[1] as u64) + 65536 * (x[2] as u64) + 16777216 * (x[3] as u64)
        + 4294967296 * (x[4] as u64) + 1099511627776 * (x[5] as u64) + 281474976710656 * (
    x[6] as u64) + 72057594037927936 * (x[7] as u64)) as usize
}

/// What `sign` returns: the signer id paired with the payload itself.
pub open spec fn spec_sign(signer: u64, x: Seq<u8>) -> (u64, Seq<u8>) {
    (signer, x)
}

/// What `check_signature` decides: the signature is exactly what the claimed
/// signer would have produced over the plaintext.
pub open spec fn spec_check_signature(
    signer: u64,
    plaintext: Seq<u8>,
    signature: (u64, Seq<u8>),
) -> bool {
    signature == spec_sign(signer, plaintext)
}

/// The signing oracle round-trips: a signature verifies under the signer
/// that made it, and under no other claimed signer.
pub proof fn lemma_sign_verify(id: u64, other: u64, payload: Seq<u8>)
    ensures
        spec_check_signature(id, payload, spec_sign(id, payload)),
        other != id ==> !spec_check_signature(other, payload, spec_sign(id, payload)),
{
}

/// Relies on sha2: `Sha256::digest` returns the 32-byte SHA-256 digest of the
/// input, a function of the input bytes alone.
#[verifier::external_body]
fn sha256_digest(input: &[u8]) -> (r: [u8; 32])
    ensures
        r@ == sha256_of(input@),
{
    let digest = <sha2::Sha256 as sha2::Digest>::digest(input);
    let mut out = [0u8; 32];
    out.copy_from_slice(&digest);
    out
}

pub struct Crypto;

impl Crypto {
    /// Converts a machine word into its fixed 8-byte little-endian encoding.
    pub fn var_to_bytes(x: usize) -> (r: Vec<u8>)
        ensures
            r@ == spec_le_bytes(x),
            r@.len() == 8,
    {
        let v: u64 = x as u64;
        let mut out: Vec<u8> = Vec::new();
        out.push((v % 256) as u8);
        out.push((v / 256 % 256) as u8);
        out.push((v / 65536 % 256) as u8);
        out.push((v / 16777216 % 256) as u8);
        out.push((v / 4294967296 % 256) as u8);
        out.push((v / 1099511627776 % 256) as u8);
        out.push((v / 281474976710656 % 256) as u8);
        out.push((v / 72057594037927936 % 256) as u8);
        proof {
            assert(out@ =~= spec_le_bytes(x));
        }
        out
    }

    /// Hashes a given byte slice into a 32-byte content identifier.
    pub fn hash(x: &[u8]) -> (r: Hash)
        ensures
            r@ == sha256_of(x@),
            r@.len() == 32,
    {
        sha256_digest(x)
    }

    /// Converts a machine word into bytes and hashes the result.
    pub fn sha256_var(x: usize) -> (r: Hash)
        ensures
            r@ == sha256_of(spec_le_bytes(x)),
            r@.len() == 32,
    {
        let bytes = Crypto::var_to_bytes(x);
        Crypto::hash(bytes.as_slice())
    }

    /// Shortens a given hash to fit into a machine word by reading its first
    /// 8 bytes little-endian.
    pub fn short_hash(x: &[u8]) -> (r: usize)
        requires
            x@.len() >= 8,
        ensures
            r == spec_short_hash(x@),
    {
        let b0 = x[0] as u64;
        let b1 = x[1] as u64;
        let b2 = x[2] as u64;
        let b3 = x[3] as u64;
        let b4 = x[4] as u64;
        let b5 = x[5] as u64;
        let b6 = x[6] as u64;
        let b7 = x[7] as u64;
        let v: u64 = b0 + 256 * b1 + 65536 * b2 + 16777216 * b3 + 4294967296 * b4 + 1099511627776
            * b5 + 281474976710656 * b6 + 72057594037927936 * b7;
        v as usize
    }

    /// The simulation's signing oracle: binds the signer id to the payload.
    pub fn sign(signer: u64, x: &[u8]) -> (r: Signature)
        ensures
            r.0 == spec_sign(signer, x@).0,
            r.1@ == spec_sign(signer, x@).1,
    {
        (signer, bytes_to_vec(x))
    }

    /// The verification predicate of the signing oracle: the signature must be
    /// exactly what the claimed signer would produce over the plaintext.
    pub fn check_signature(signer: u64, plaintext: &[u8], signature: &Signature) -> (r: bool)
        ensures
            r == spec_check_signature(signer, plaintext@, (signature.0, signature.1@)),
    {
        if signature.0 != signer {
            return false;
        }
        if signature.1.len() != plaintext.len() {
            return false;
        }
        let mut i: usize = 0;
        while i < plaintext.len()
            invariant
                i <= plaintext@.len(),
                signature.1@.len() == plaintext@.len(),
                forall|k: int| 0 <= k < i ==> signature.1@[k] == plaintext@[k],
            decreases plaintext@.len() - i,
        {
            if signature.1[i] != plaintext[i] {
                return false;
            }
            i += 1;
        }
        proof {
            assert(signature.1@ =~= plaintext@);
        }
        true
    }
}

/// The decimal digits of a non-negative number, most significant first.
pub open spec fn spec_decimal(x: int) -> Seq<u8>
    recommends
        x >= 0,
    decreases x,
{
    if x < 10 {
        seq![(48 + x) as u8]
    } else {
        spec_decimal(x / 10).push((48 + x % 10) as u8)
    }
}

/// The d-th power of ten.
pub open spec fn ten_pow(d: nat) -> int
    decreases d,
{
    if d == 0 {
        1
    } else {
        10 * ten_pow((d - 1) as nat)
    }
}

/// A number below the d-th power of ten has at most d decimal digits.
pub proof fn lemma_decimal_len(x: int, d: nat)
    requires
        0 <= x < ten_pow(d),
        d >= 1,
    ensures
        spec_decimal(x).len() <= d,
    decreases d,
{
    if x < 10 {
        assert(spec_decimal(x).len() == 1);
    } else {
        assert(ten_pow(d) == 10 * ten_pow((d - 1) as nat));
        assert(x / 10 < ten_pow((d - 1) as nat)) by {
            assert(x <= 10 * ten_pow((d - 1) as nat) - 1);
            assert(x / 10 <= ten_pow((d - 1) as nat) - 1) by (nonlinear_arith)
                requires
                    x <= 10 * ten_pow((d - 1) as nat) - 1,
                    x >= 10,
            ;
        }
        assert(ten_pow((d - 1) as nat) > x / 10);
        assert(x / 10 >= 1);
        assert(d >= 2) by {
            if d == 1 {
                assert(ten_pow(1nat) == 10);
            }
        }
        lemma_decimal_len(x / 10, (d - 1) as nat);
    }
}

/// A machine word has at most 20 decimal digits.
pub proof fn lemma_decimal_len_word(x: int)
    requires
        0 <= x < 18446744073709551616,
    ensures
        spec_decimal(x).len() <= 20,
{
    reveal_with_fuel(ten_pow, 21);
    assert(ten_pow(20nat) == 100000000000000000000);
    lemma_decimal_len(x, 20nat);
}

/// Renders a machine word as its decimal digits, most significant first.
pub fn usize_to_decimal(x: usize) -> (r: Vec<u8>)
    ensures
        r@ == spec_decimal(x as int),
        r@.len() <= 20,
    decreases x,
{
    proof {
        lemma_decimal_len_word(x as int);
    }
    if x < 10 {
        let mut v: Vec<u8> = Vec::new();
        v.push(48 + x as u8);
        v
    } else {
        let mut v = usize_to_decimal(x / 10);
        v.push(48 + (x % 10) as u8);
        v
    }
}

/// Appends a byte slice to the end of a vector.
pub fn push_bytes(dst: &mut Vec<u8>, src: &[u8])
    ensures
        final(dst)@ == old(dst)@ + src@,
{
    let mut i: usize = 0;
    while i < src.len()
        invariant
            i <= src@.len(),
            dst@ == old(dst)@ + src@.subrange(0, i as int),
        decreases src@.len() - i,
    {
        dst.push(src[i]);
        proof {
            assert(old(dst)@ + src@.subrange(0, i + 1 as int) =~= (old(dst)@ + src@.subrange(
                0,
                i as int,
            )).push(src@[i as int]));
        }
        i += 1;
    }
    proof {
        assert(src@.subrange(0, src@.len() as int) =~= src@);
    }
}

/// Copies a byte slice into an owned vector.
pub fn bytes_to_vec(x: &[u8]) -> (r: Vec<u8>)
    ensures
        r@ == x@,
{
    let mut out: Vec<u8> = Vec::new();
    let mut i: usize = 0;
    while i < x.len()
        invariant
            i <= x@.len(),
            out@ == x@.subrange(0, i as int),
        decreases x@.len() - i,
    {
        out.push(x[i]);
        proof {
            assert(out@ =~= x@.subrange(0, i + 1 as int));
        }
        i += 1;
    }
    proof {
        assert(out@ =~= x@);
    }
    out
}

/// Compares two 32-byte content identifiers for equality.
pub fn hash_eq(a: &Hash, b: &Hash) -> (r: bool)
    ensures
        r == (a@ == b@),
{
    let mut i: usize = 0;
    while i < 32
        invariant
            i <= 32,
            forall|k: int| 0 <= k < i ==> a@[k] == b@[k],
        decreases 32 - i,
    {
        if a[i] != b[i] {
            return false;
        }
        i += 1;
    }
    proof {
        assert(a@ =~= b@);
    }
    true
}

} // verus!
