//! SHA-256, of bytes at hand and of bytes that come in pieces.

use sha2::Digest;
use vstd::prelude::*;
use crate::number;
use crate::number::push_bytes;

verus! {

/// The SHA-256 digest of some bytes.
pub uninterp spec fn sha256(bytes: Seq<u8>) -> Seq<u8>;

/// `Sha256::digest` yields the digest of the bytes, thirty-two bytes long.
#[verifier::external_body]
fn digest(bytes: &[u8]) -> (digest: Vec<u8>)
    ensures
        digest@ == sha256(bytes@),
        digest@.len() == 32,
{
    sha2::Sha256::digest(bytes).to_vec()
}

/// A hasher that takes bytes in pieces.
#[verifier::external_type_specification]
#[verifier::external_body]
pub struct ExSha256(sha2::Sha256);

/// The bytes that a hasher has taken so far.
pub uninterp spec fn taken(hasher: sha2::Sha256) -> Seq<u8>;

/// `Sha256::new` makes a hasher that has taken nothing.
#[verifier::external_body]
fn new_hasher() -> (hasher: sha2::Sha256)
    ensures
        taken(hasher) == Seq::<u8>::empty(),
{
    sha2::Sha256::new()
}

/// `Sha256::update` takes more bytes, behind those taken before.
#[verifier::external_body]
fn take(hasher: &mut sha2::Sha256, chunk: &[u8])
    ensures
        taken(*final(hasher)) == taken(*old(hasher)) + chunk@,
{
    hasher.update(chunk);
}

/// `Sha256::finalize` yields the digest of all the bytes taken, the one that
/// `Sha256::digest` yields for them.
#[verifier::external_body]
fn finish_hasher(hasher: sha2::Sha256) -> (digest: Vec<u8>)
    ensures
        digest@ == sha256(taken(hasher)),
        digest@.len() == 32,
{
    hasher.finalize().to_vec()
}

/// Hex-encodes a digest.
pub fn hex(bytes: &[u8]) -> (digits: String)
    ensures
        digits@ == number::bytes_digits(bytes@),
{
    let mut digits = String::new();
    push_bytes(&mut digits, bytes, bytes.len());
    assert(bytes@.take(bytes@.len() as int) =~= bytes@);
    assert(Seq::<char>::empty() + number::bytes_digits(bytes@) =~= number::bytes_digits(bytes@));
    digits
}

/// The SHA-256 digest of some bytes in hexadecimal.
pub open spec fn sha256_digits(bytes: Seq<u8>) -> Seq<char> {
    number::bytes_digits(sha256(bytes))
}

/// The SHA-256 digest of some bytes in hexadecimal.
pub fn hash(bytes: &[u8]) -> (digits: String)
    ensures
        digits@ == sha256_digits(bytes@),
        digits@.len() == 64,
{
    let digest = digest(bytes);
    proof {
        number::bytes_digits_length(digest@);
    }
    hex(digest.as_slice())
}

/// Hashes a file without holding it in memory: the caller hands over one piece
/// after another.
pub struct StreamHash {
    hasher: sha2::Sha256,
}

impl View for StreamHash {
    type V = Seq<u8>;

    /// The bytes handed over so far.
    closed spec fn view(&self) -> Seq<u8> {
        taken(self.hasher)
    }
}

impl StreamHash {
    /// A hash of nothing yet.
    pub fn new() -> (stream: Self)
        ensures
            stream@ == Seq::<u8>::empty(),
    {
        StreamHash { hasher: new_hasher() }
    }

    /// Takes the next piece.
    pub fn update(&mut self, chunk: &[u8])
        ensures
            final(self)@ == old(self)@ + chunk@,
    {
        take(&mut self.hasher, chunk);
    }

    /// The hash of all pieces together, the one they have as bytes at hand.
    pub fn finish(self) -> (digits: String)
        ensures
            digits@ == sha256_digits(self@),
            digits@.len() == 64,
    {
        let digest = finish_hasher(self.hasher);
        proof {
            number::bytes_digits_length(digest@);
        }
        hex(digest.as_slice())
    }
}

// ---------------------------------------------------------------------------
// Laws
// ---------------------------------------------------------------------------

/// A hash spells the digest byte by byte, the first byte first, each as two hexadecimal
/// digits.
pub proof fn hash_spells_the_digest(bytes: &[u8], digits: String, index: int)
    requires
        call_ensures(hash, (bytes,), digits),
        0 <= index < 32,
    ensures
        digits@.len() == 64,
        number::digit_meant(digits@[2 * index]) < 16,
        number::digit_meant(digits@[2 * index + 1]) < 16,
        16 * number::digit_meant(digits@[2 * index]) + number::digit_meant(digits@[2 * index + 1])
            == sha256(bytes@)[index],
{
    number::bytes_digits_length(sha256(bytes@));
    number::bytes_digits_read_back(sha256(bytes@), index);
}

/// Bytes that come in pieces have the hash they have at hand.
pub proof fn pieces_hash_as_a_whole(bytes: &[u8], stream: StreamHash, whole: String, pieces: String)
    requires
        stream@ == bytes@,
        call_ensures(hash, (bytes,), whole),
        call_ensures(StreamHash::finish, (stream,), pieces),
    ensures
        whole@ == pieces@,
{
}

} // verus!
