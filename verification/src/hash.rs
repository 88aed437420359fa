//! Digests and the fixed-width hash values built from them.
//!
//! The digest algorithms themselves are not verified here: each is named by
//! a spec function without a body, and the wrapper that calls the hashing
//! crate states that its result is that name applied to the input.

use sha2::Digest;
use vstd::prelude::*;

verus! {

/// The SHA-256 digest of `data`, as `sha2::Sha256` computes it.
pub uninterp spec fn sha256_digest(data: Seq<u8>) -> Seq<u8>;

/// The RIPEMD-160 digest of `data`, as `ripemd160::Ripemd160` computes it.
pub uninterp spec fn ripemd160_digest(data: Seq<u8>) -> Seq<u8>;

/// The SHA-512/256 digest of `data`, as `sha2::Sha512Trunc256` computes it.
pub uninterp spec fn sha512_256_digest(data: Seq<u8>) -> Seq<u8>;

/// Calls `sha2::Sha256::digest`. Trusted: the 32 bytes returned are the
/// SHA-256 digest of `data`, a function of the input bytes alone.
#[verifier::external_body]
fn sha256(data: &[u8]) -> (out: [u8; 32])
    ensures
        out@ == sha256_digest(data@),
{
    let digest = sha2::Sha256::digest(data);
    let mut out = [0u8; 32];
    out.copy_from_slice(digest.as_slice());
    out
}

/// Calls `ripemd160::Ripemd160::digest`. Trusted: the 20 bytes returned are
/// the RIPEMD-160 digest of `data`, a function of the input bytes alone.
#[verifier::external_body]
fn ripemd160(data: &[u8]) -> (out: [u8; 20])
    ensures
        out@ == ripemd160_digest(data@),
{
    let digest = ripemd160::Ripemd160::digest(data);
    let mut out = [0u8; 20];
    out.copy_from_slice(digest.as_slice());
    out
}

/// Calls `sha2::Sha512Trunc256::digest`. Trusted: the 32 bytes returned are
/// the SHA-512/256 digest of `data`, a function of the input bytes alone.
#[verifier::external_body]
fn sha512_256(data: &[u8]) -> (out: [u8; 32])
    ensures
        out@ == sha512_256_digest(data@),
{
    let digest = sha2::Sha512Trunc256::digest(data);
    let mut out = [0u8; 32];
    out.copy_from_slice(digest.as_slice());
    out
}

/// Calls `String::push`: appends one character to the string.
#[verifier::external_body]
fn string_push(s: &mut String, c: char)
    ensures
        final(s)@ == old(s)@.push(c),
{
    s.push(c)
}

/// The content address of `data`: RIPEMD-160 over SHA-256.
pub open spec fn spec_hash160(data: Seq<u8>) -> Seq<u8> {
    ripemd160_digest(sha256_digest(data))
}

/// The identifier of the block with the given header hash, accepted under
/// the given consensus hash: SHA-512/256 over the header hash followed by
/// the consensus hash.
pub open spec fn spec_index_block_hash(consensus_hash: Seq<u8>, block_header_hash: Seq<u8>) -> Seq<
    u8,
> {
    sha512_256_digest(block_header_hash + consensus_hash)
}

/// Whether two byte strings hold the same bytes.
pub fn bytes_eq(a: &[u8], b: &[u8]) -> (same: bool)
    ensures
        same == (a@ == b@),
{
    if a.len() != b.len() {
        return false;
    }
    let mut i: usize = 0;
    while i < a.len()
        invariant
            i <= a.len(),
            a.len() == b.len(),
            forall|j: int| 0 <= j < i ==> a@[j] == b@[j],
        decreases a.len() - i,
    {
        if a[i] != b[i] {
            return false;
        }
        i += 1;
    }
    assert(a@ =~= b@);
    true
}

/// A 160-bit content address.
#[derive(Clone, Copy, Debug, PartialEq, Eq, Hash)]
pub struct Hash160 {
    pub bytes: [u8; 20],
}

impl View for Hash160 {
    type V = Seq<u8>;

    open spec fn view(&self) -> Seq<u8> {
        self.bytes@
    }
}

/// Twenty zero bytes: the view of the sentinel that stands for "no
/// attachment".
pub open spec fn spec_empty_hash() -> Seq<u8> {
    Seq::new(20, |i: int| 0u8)
}

impl Hash160 {
    /// The address of `data`.
    pub fn from_data(data: &[u8]) -> (hash: Hash160)
        ensures
            hash@ == spec_hash160(data@),
    {
        let inner = sha256(data);
        Hash160 { bytes: ripemd160(inner.as_slice()) }
    }

    /// The sentinel: all bytes zero.
    pub fn empty() -> (hash: Hash160)
        ensures
            hash@ == spec_empty_hash(),
    {
        let hash = Hash160 { bytes: [0u8; 20] };
        assert(hash@ =~= spec_empty_hash());
        hash
    }

    /// Reads a hash from exactly twenty bytes; any other length is refused.
    pub fn from_bytes(bytes: &[u8]) -> (hash: Option<Hash160>)
        ensures
            hash is Some <==> bytes@.len() == 20,
            hash is Some ==> hash->0@ == bytes@,
    {
        if bytes.len() != 20 {
            return None;
        }
        Some(Hash160 { bytes: array_of_20(bytes) })
    }

    /// Whether this is the sentinel.
    pub fn is_empty(&self) -> (empty: bool)
        ensures
            empty == (self@ == spec_empty_hash()),
    {
        let zero = Hash160::empty();
        bytes_eq(self.bytes.as_slice(), zero.bytes.as_slice())
    }

    /// Whether two hashes hold the same bytes.
    pub fn same(&self, other: &Hash160) -> (same: bool)
        ensures
            same == (self@ == other@),
    {
        bytes_eq(self.bytes.as_slice(), other.bytes.as_slice())
    }
}

/// Copies exactly twenty bytes into an array.
fn array_of_20(bytes: &[u8]) -> (out: [u8; 20])
    requires
        bytes@.len() == 20,
    ensures
        out@ == bytes@,
{
    let mut out = [0u8; 20];
    let mut i: usize = 0;
    while i < 20
        invariant
            i <= 20,
            bytes@.len() == 20,
            forall|j: int| 0 <= j < i ==> out@[j] == bytes@[j],
        decreases 20 - i,
    {
        out[i] = bytes[i];
        i += 1;
    }
    assert(out@ =~= bytes@);
    out
}

/// Copies exactly thirty-two bytes into an array.
fn array_of_32(bytes: &[u8]) -> (out: [u8; 32])
    requires
        bytes@.len() == 32,
    ensures
        out@ == bytes@,
{
    let mut out = [0u8; 32];
    let mut i: usize = 0;
    while i < 32
        invariant
            i <= 32,
            bytes@.len() == 32,
            forall|j: int| 0 <= j < i ==> out@[j] == bytes@[j],
        decreases 32 - i,
    {
        out[i] = bytes[i];
        i += 1;
    }
    assert(out@ =~= bytes@);
    out
}

/// The hash that identifies the sortition under which a block was accepted.
#[derive(Clone, Copy, Debug, PartialEq, Eq, Hash)]
pub struct ConsensusHash {
    pub bytes: [u8; 20],
}

impl View for ConsensusHash {
    type V = Seq<u8>;

    open spec fn view(&self) -> Seq<u8> {
        self.bytes@
    }
}

impl ConsensusHash {
    /// Reads a consensus hash from exactly twenty bytes.
    pub fn from_bytes(bytes: &[u8]) -> (hash: Option<ConsensusHash>)
        ensures
            hash is Some <==> bytes@.len() == 20,
            hash is Some ==> hash->0@ == bytes@,
    {
        if bytes.len() != 20 {
            return None;
        }
        Some(ConsensusHash { bytes: array_of_20(bytes) })
    }

    /// Whether two consensus hashes hold the same bytes.
    pub fn same(&self, other: &ConsensusHash) -> (same: bool)
        ensures
            same == (self@ == other@),
    {
        bytes_eq(self.bytes.as_slice(), other.bytes.as_slice())
    }
}

/// The hash of a block header.
#[derive(Clone, Copy, Debug, PartialEq, Eq, Hash)]
pub struct BlockHeaderHash {
    pub bytes: [u8; 32],
}

impl View for BlockHeaderHash {
    type V = Seq<u8>;

    open spec fn view(&self) -> Seq<u8> {
        self.bytes@
    }
}

impl BlockHeaderHash {
    /// Reads a block header hash from exactly thirty-two bytes.
    pub fn from_bytes(bytes: &[u8]) -> (hash: Option<BlockHeaderHash>)
        ensures
            hash is Some <==> bytes@.len() == 32,
            hash is Some ==> hash->0@ == bytes@,
    {
        if bytes.len() != 32 {
            return None;
        }
        Some(BlockHeaderHash { bytes: array_of_32(bytes) })
    }

    /// Whether two block header hashes hold the same bytes.
    pub fn same(&self, other: &BlockHeaderHash) -> (same: bool)
        ensures
            same == (self@ == other@),
    {
        bytes_eq(self.bytes.as_slice(), other.bytes.as_slice())
    }
}

/// The identifier of one block on one fork.
#[derive(Clone, Copy, Debug, PartialEq, Eq, Hash)]
pub struct StacksBlockId {
    pub bytes: [u8; 32],
}

impl View for StacksBlockId {
    type V = Seq<u8>;

    open spec fn view(&self) -> Seq<u8> {
        self.bytes@
    }
}

impl StacksBlockId {
    /// The identifier of the block with header hash `block_header_hash`
    /// that was accepted under `consensus_hash`.
    pub fn new(consensus_hash: &ConsensusHash, block_header_hash: &BlockHeaderHash) -> (id:
        StacksBlockId)
        ensures
            id@ == spec_index_block_hash(consensus_hash@, block_header_hash@),
    {
        let mut preimage: Vec<u8> = Vec::new();
        let mut i: usize = 0;
        while i < 32
            invariant
                i <= 32,
                preimage@ == block_header_hash@.subrange(0, i as int),
            decreases 32 - i,
        {
            preimage.push(block_header_hash.bytes[i]);
            i += 1;
        }
        assert(preimage@ == block_header_hash@);
        let mut k: usize = 0;
        while k < 20
            invariant
                k <= 20,
                preimage@ == block_header_hash@ + consensus_hash@.subrange(0, k as int),
            decreases 20 - k,
        {
            preimage.push(consensus_hash.bytes[k]);
            k += 1;
        }
        assert(preimage@ == block_header_hash@ + consensus_hash@);
        StacksBlockId { bytes: sha512_256(preimage.as_slice()) }
    }

    /// Reads a block identifier from exactly thirty-two bytes.
    pub fn from_bytes(bytes: &[u8]) -> (id: Option<StacksBlockId>)
        ensures
            id is Some <==> bytes@.len() == 32,
            id is Some ==> id->0@ == bytes@,
    {
        if bytes.len() != 32 {
            return None;
        }
        Some(StacksBlockId { bytes: array_of_32(bytes) })
    }

    /// Whether two block identifiers hold the same bytes.
    pub fn same(&self, other: &StacksBlockId) -> (same: bool)
        ensures
            same == (self@ == other@),
    {
        bytes_eq(self.bytes.as_slice(), other.bytes.as_slice())
    }
}

/// The lower-case hexadecimal digit for a value below sixteen.
pub open spec fn spec_hex_digit(nibble: int) -> char {
    "0123456789abcdef"@[nibble]
}

/// The lower-case hexadecimal text of `bytes`: two digits for each byte,
/// the high half first.
pub open spec fn spec_to_hex(bytes: Seq<u8>) -> Seq<char> {
    Seq::new(
        2 * bytes.len(),
        |i: int|
            if i % 2 == 0 {
                spec_hex_digit(bytes[i / 2] as int / 16)
            } else {
                spec_hex_digit(bytes[i / 2] as int % 16)
            },
    )
}

fn hex_digit(nibble: u8) -> (digit: char)
    requires
        nibble < 16,
    ensures
        digit == spec_hex_digit(nibble as int),
{
    proof {
        reveal_strlit("0123456789abcdef");
    }
    match nibble {
        0 => '0',
        1 => '1',
        2 => '2',
        3 => '3',
        4 => '4',
        5 => '5',
        6 => '6',
        7 => '7',
        8 => '8',
        9 => '9',
        10 => 'a',
        11 => 'b',
        12 => 'c',
        13 => 'd',
        14 => 'e',
        _ => 'f',
    }
}

/// Writes `bytes` as lower-case hexadecimal text.
pub fn to_hex(bytes: &[u8]) -> (text: String)
    ensures
        text@ == spec_to_hex(bytes@),
{
    let mut text = String::new();
    let mut i: usize = 0;
    while i < bytes.len()
        invariant
            i <= bytes.len(),
            text@ == spec_to_hex(bytes@.subrange(0, i as int)),
        decreases bytes.len() - i,
    {
        let byte = bytes[i];
        string_push(&mut text, hex_digit(byte / 16));
        string_push(&mut text, hex_digit(byte % 16));
        i += 1;
        assert(text@ =~= spec_to_hex(bytes@.subrange(0, i as int)));
    }
    assert(bytes@.subrange(0, i as int) =~= bytes@);
    text
}

} // verus!
