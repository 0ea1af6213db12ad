//! Bitfield access, the SHA-1 helper and local peer-id generation.

use vstd::prelude::*;
use rand::Rng;
use sha1::Digest;

verus! {

/// The mask that selects piece `index` inside its bitfield byte: the most
/// significant bit of a byte stands for the lowest piece index.
pub open spec fn bit_mask(index: int) -> u8 {
    (0x80u8 >> ((index % 8) as u8))
}

/// Whether bit `index` is set in a big-endian bitfield. Indices beyond the
/// bitfield are unset.
pub open spec fn spec_bit_set(bitfield: Seq<u8>, index: int) -> bool {
    &&& 0 <= index
    &&& index / 8 < bitfield.len()
    &&& bitfield[index / 8] & bit_mask(index) != 0
}

/// The bitfield with bit `index` set; unchanged when the index lies beyond it.
pub open spec fn spec_set_bit(bitfield: Seq<u8>, index: int) -> Seq<u8> {
    if 0 <= index && index / 8 < bitfield.len() {
        bitfield.update(index / 8, bitfield[index / 8] | bit_mask(index))
    } else {
        bitfield
    }
}

fn mask_of(index: usize) -> (m: u8)
    ensures
        m == bit_mask(index as int),
        m != 0,
{
    let k: usize = index % 8;
    let shift: u8 = k as u8;
    let m: u8 = 0x80u8 >> shift;
    assert(0x80u8 >> shift != 0) by (bit_vector)
        requires
            shift < 8,
    ;
    m
}

/// Reads bit `index` of a bitfield.
pub fn bit_set(bitfield: &[u8], index: usize) -> (set: bool)
    ensures
        set == spec_bit_set(bitfield@, index as int),
{
    let byte_index: usize = index / 8;
    let mask: u8 = mask_of(index);
    byte_index < bitfield.len() && (bitfield[byte_index] & mask) != 0
}

/// Sets bit `index` of a bitfield; does nothing when the index lies beyond it.
pub fn set_bit(bitfield: &mut [u8], index: usize)
    ensures
        final(bitfield)@ == spec_set_bit(old(bitfield)@, index as int),
{
    let byte_index: usize = index / 8;
    let mask: u8 = mask_of(index);
    if byte_index < bitfield.len() {
        let byte: u8 = bitfield[byte_index];
        bitfield[byte_index] = byte | mask;
    }
}

/// Setting a bit makes exactly that bit read as set and leaves every other
/// bit as it was.
pub proof fn lemma_set_bit_reads(bitfield: Seq<u8>, index: int, other: int)
    requires
        0 <= index,
        0 <= other,
    ensures
        spec_set_bit(bitfield, index).len() == bitfield.len(),
        spec_bit_set(spec_set_bit(bitfield, index), other) == (spec_bit_set(bitfield, other) || (
        other == index && index / 8 < bitfield.len())),
{
    if index / 8 < bitfield.len() && other / 8 < bitfield.len() {
        let a: u8 = (index % 8) as u8;
        let b: u8 = (other % 8) as u8;
        let x: u8 = bitfield[index / 8];
        if index / 8 == other / 8 {
            assert(((x | (0x80u8 >> a)) & (0x80u8 >> b) != 0) == ((x & (0x80u8 >> b) != 0) || a
                == b)) by (bit_vector)
                requires
                    a < 8,
                    b < 8,
            ;
            assert((a == b) == (index == other));
        }
    }
}

/// The SHA-1 digest of a byte string, as the `sha1` crate computes it.
pub uninterp spec fn sha1_digest(data: Seq<u8>) -> Seq<u8>;

/// Hashes `data` with `sha1::Sha1::digest`. The result is taken to be a
/// function of the bytes alone, named [`sha1_digest`].
#[verifier::external_body]
pub fn calculate_piece_hash(data: &[u8]) -> (hash: [u8; 20])
    ensures
        hash@ == sha1_digest(data@),
{
    sha1::Sha1::digest(data).into()
}

/// The number that four bytes spell in big-endian order.
#[verifier::opaque]
pub open spec fn spec_be32(b0: u8, b1: u8, b2: u8, b3: u8) -> u32 {
    (b0 as int * 0x100_0000 + b1 as int * 0x1_0000 + b2 as int * 0x100 + b3 as int) as u32
}

/// The four bytes that spell `x` in big-endian order.
#[verifier::opaque]
pub open spec fn spec_be32_bytes(x: u32) -> Seq<u8> {
    seq![
        (x / 0x100_0000) as u8,
        (x / 0x1_0000 % 0x100) as u8,
        (x / 0x100 % 0x100) as u8,
        (x % 0x100) as u8,
    ]
}

/// The number spelled by the four bytes of `bytes` that start at `at`.
pub open spec fn spec_be32_at(bytes: Seq<u8>, at: int) -> u32 {
    spec_be32(bytes[at], bytes[at + 1], bytes[at + 2], bytes[at + 3])
}

/// Reads a big-endian 32-bit number from four bytes.
pub fn be32(b0: u8, b1: u8, b2: u8, b3: u8) -> (x: u32)
    ensures
        x == spec_be32(b0, b1, b2, b3),
        spec_be32_bytes(x) == seq![b0, b1, b2, b3],
{
    let x: u32 = (b0 as u32) * 0x100_0000 + (b1 as u32) * 0x1_0000 + (b2 as u32) * 0x100 + (
    b3 as u32);
    proof {
        reveal(spec_be32);
        reveal(spec_be32_bytes);
        lemma_be32_digits(b0 as int, b1 as int, b2 as int, b3 as int);
        assert(spec_be32_bytes(x) =~= seq![b0, b1, b2, b3]);
    }
    x
}

proof fn lemma_split_digit(high: int, low: int, base: int)
    by (nonlinear_arith)
    requires
        base > 0,
        0 <= low < base,
        0 <= high,
    ensures
        (high * base + low) / base == high,
        (high * base + low) % base == low,
{
}

proof fn lemma_be32_digits(b0: int, b1: int, b2: int, b3: int)
    requires
        0 <= b0 < 0x100,
        0 <= b1 < 0x100,
        0 <= b2 < 0x100,
        0 <= b3 < 0x100,
    ensures
        ({
            let x = b0 * 0x100_0000 + b1 * 0x1_0000 + b2 * 0x100 + b3;
            &&& 0 <= x <= u32::MAX
            &&& x / 0x100_0000 == b0
            &&& x / 0x1_0000 % 0x100 == b1
            &&& x / 0x100 % 0x100 == b2
            &&& x % 0x100 == b3
        }),
{
    let x = b0 * 0x100_0000 + b1 * 0x1_0000 + b2 * 0x100 + b3;
    lemma_split_digit(b0, b1 * 0x1_0000 + b2 * 0x100 + b3, 0x100_0000);
    assert(x == (b0 * 0x100 + b1) * 0x1_0000 + (b2 * 0x100 + b3));
    lemma_split_digit(b0 * 0x100 + b1, b2 * 0x100 + b3, 0x1_0000);
    lemma_split_digit(b0, b1, 0x100);
    assert(x == (b0 * 0x1_0000 + b1 * 0x100 + b2) * 0x100 + b3);
    lemma_split_digit(b0 * 0x1_0000 + b1 * 0x100 + b2, b3, 0x100);
    assert(b0 * 0x1_0000 + b1 * 0x100 + b2 == (b0 * 0x100 + b1) * 0x100 + b2);
    lemma_split_digit(b0 * 0x100 + b1, b2, 0x100);
}

/// Writes a 32-bit number as four bytes in big-endian order.
pub fn be32_bytes(x: u32) -> (bytes: [u8; 4])
    ensures
        bytes@ == spec_be32_bytes(x),
        spec_be32_at(bytes@, 0) == x,
{
    let bytes: [u8; 4] = [
        (x / 0x100_0000) as u8,
        (x / 0x1_0000 % 0x100) as u8,
        (x / 0x100 % 0x100) as u8,
        (x % 0x100) as u8,
    ];
    proof {
        reveal(spec_be32_bytes);
        assert(bytes@ =~= spec_be32_bytes(x));
        lemma_be32_number(x);
    }
    bytes
}

proof fn lemma_be32_number(x: u32)
    ensures
        spec_be32_at(spec_be32_bytes(x), 0) == x,
{
    reveal(spec_be32);
    reveal(spec_be32_bytes);
    let x = x as int;
    let d0 = x / 0x100_0000;
    let d1 = x / 0x1_0000 % 0x100;
    let d2 = x / 0x100 % 0x100;
    let d3 = x % 0x100;
    assert(x == (x / 0x100) * 0x100 + d3);
    assert(x / 0x100 == (x / 0x100 / 0x100) * 0x100 + d2);
    assert(x / 0x100 / 0x100 == x / 0x1_0000);
    assert(x / 0x1_0000 == (x / 0x1_0000 / 0x100) * 0x100 + d1);
    assert(x / 0x1_0000 / 0x100 == d0);
    assert(x == d0 * 0x100_0000 + d1 * 0x1_0000 + d2 * 0x100 + d3);
}

/// Writing a number and reading it back gives the number, and reading four
/// bytes and writing the number back gives the bytes.
pub proof fn lemma_be32_round_trip(x: u32, b0: u8, b1: u8, b2: u8, b3: u8)
    ensures
        spec_be32_bytes(x).len() == 4,
        spec_be32_at(spec_be32_bytes(x), 0) == x,
        spec_be32_bytes(spec_be32(b0, b1, b2, b3)) == seq![b0, b1, b2, b3],
{
    reveal(spec_be32);
    reveal(spec_be32_bytes);
    lemma_be32_number(x);
    lemma_be32_digits(b0 as int, b1 as int, b2 as int, b3 as int);
    assert(spec_be32_bytes(spec_be32(b0, b1, b2, b3)) =~= seq![b0, b1, b2, b3]);
}

/// The array that holds the elements of a sequence of its length.
pub open spec fn array_of<const N: usize>(bytes: Seq<u8>) -> [u8; N] {
    choose|a: [u8; N]| a@ == bytes
}

/// Copies `N` bytes of a slice, from `at` on, into an array.
pub fn copy_array<const N: usize>(bytes: &[u8], at: usize) -> (out: [u8; N])
    requires
        at + N <= bytes.len(),
    ensures
        out@ == bytes@.subrange(at as int, at + N),
        out == array_of::<N>(bytes@.subrange(at as int, at + N)),
{
    let mut out: [u8; N] = [0u8; N];
    let mut i: usize = 0;
    while i < N
        invariant
            at + N <= bytes.len(),
            i <= N,
            forall|j: int| 0 <= j < i ==> out@[j] == bytes@[at + j],
        decreases N - i,
    {
        out[i] = bytes[at + i];
        i += 1;
    }
    assert(out@ =~= bytes@.subrange(at as int, at + N));
    proof {
        let other = array_of::<N>(bytes@.subrange(at as int, at + N));
        assert(other@ == out@);
        assert(other == out);
    }
    out
}

/// Whether two byte strings are equal.
pub fn same_bytes(a: &[u8], b: &[u8]) -> (same: bool)
    ensures
        same == (a@ == b@),
{
    if a.len() != b.len() {
        return false;
    }
    let mut i: usize = 0;
    while i < a.len()
        invariant
            a.len() == b.len(),
            i <= a.len(),
            forall|j: int| 0 <= j < i ==> a@[j] == b@[j],
        decreases a.len() - i,
    {
        if a[i] != b[i] {
            assert(a@[i as int] != b@[i as int]);
            return false;
        }
        i += 1;
    }
    assert(a@ =~= b@);
    true
}

/// The fixed client prefix of every local peer id: the ASCII text `-RS0001-`.
pub open spec fn peer_id_prefix() -> Seq<u8> {
    seq![0x2du8, 0x52u8, 0x53u8, 0x30u8, 0x30u8, 0x30u8, 0x31u8, 0x2du8]
}

/// The peer id made of the client prefix followed by `suffix`.
pub open spec fn spec_peer_id(suffix: Seq<u8>) -> Seq<u8> {
    peer_id_prefix() + suffix
}

/// Fills twelve bytes from `rand::thread_rng()` with `Rng::fill`. Nothing is
/// claimed about the bytes it returns.
#[verifier::external_body]
fn random_suffix() -> (suffix: [u8; 12]) {
    let mut suffix = [0u8; 12];
    rand::thread_rng().fill(&mut suffix[..]);
    suffix
}

/// Builds a peer id from the client prefix and twelve given bytes.
pub fn peer_id_with_suffix(suffix: [u8; 12]) -> (id: [u8; 20])
    ensures
        id@ == spec_peer_id(suffix@),
{
    let id: [u8; 20] = [
        0x2d, 0x52, 0x53, 0x30, 0x30, 0x30, 0x31, 0x2d,
        suffix[0], suffix[1], suffix[2], suffix[3], suffix[4], suffix[5],
        suffix[6], suffix[7], suffix[8], suffix[9], suffix[10], suffix[11],
    ];
    assert(id@ =~= spec_peer_id(suffix@));
    id
}

/// Generates a local peer id: the client prefix followed by twelve random
/// bytes.
pub fn generate_peer_id() -> (id: [u8; 20])
    ensures
        id@.subrange(0, 8) == peer_id_prefix(),
{
    let id = peer_id_with_suffix(random_suffix());
    assert(id@.subrange(0, 8) =~= peer_id_prefix());
    id
}

} // verus!
