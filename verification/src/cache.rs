//! What is kept of a computed value: the eight bytes that hold it, the name of
//! the file they go to, and the rule by which a value is worth keeping.
//!
//! A value travels as the 64 bits of its IEEE-754 double, most significant
//! byte first.

use vstd::prelude::*;
use vstd::string::StringExecFns;

verus! {

/// Values that took longer than this many seconds to compute are stored.
pub const STORE_THRESHOLD_SECS: u64 = 5;

/// Byte `index` of `bits`, counted from the most significant.
pub open spec fn byte_at(bits: u64, index: int) -> u8 {
    ((bits >> ((56 - 8 * index) as u64)) & 0xff) as u8
}

/// The eight bytes of `bits`, most significant first.
pub open spec fn be_bytes(bits: u64) -> Seq<u8> {
    Seq::new(8, |i: int| byte_at(bits, i))
}

/// The 64 bits that eight bytes hold, most significant first.
pub open spec fn from_be_bytes(bytes: Seq<u8>) -> u64 {
    (bytes[0] as u64) << 56 | (bytes[1] as u64) << 48 | (bytes[2] as u64) << 40 | (bytes[3] as u64)
        << 32 | (bytes[4] as u64) << 24 | (bytes[5] as u64) << 16 | (bytes[6] as u64) << 8 | (
    bytes[7] as u64)
}

/// What a stored payload holds: its 64 bits where it is eight bytes long,
/// nothing otherwise.
pub open spec fn decoded(bytes: Seq<u8>) -> Option<u64> {
    if bytes.len() == 8 {
        Some(from_be_bytes(bytes))
    } else {
        None
    }
}

/// The name of the file that holds the value remembered under `key`.
pub open spec fn file_name(key: Seq<char>) -> Seq<char> {
    "bin/"@ + key + ".data"@
}

/// One byte of `bits`, `shift` bits up from the least significant.
fn byte_of(bits: u64, shift: u64) -> (byte: u8)
    requires
        shift <= 56,
    ensures
        byte == ((bits >> shift) & 0xff) as u8,
{
    let low: u64 = (bits >> shift) & 0xff;
    assert(low <= 0xff) by (bit_vector)
        requires
            low == (bits >> shift) & 0xff,
    ;
    low as u8
}

/// The eight bytes that store `bits`.
pub fn encode_value(bits: u64) -> (bytes: [u8; 8])
    ensures
        bytes@ == be_bytes(bits),
        decoded(bytes@) == Some(bits),
{
    let bytes = [
        byte_of(bits, 56),
        byte_of(bits, 48),
        byte_of(bits, 40),
        byte_of(bits, 32),
        byte_of(bits, 24),
        byte_of(bits, 16),
        byte_of(bits, 8),
        byte_of(bits, 0),
    ];
    proof {
        assert(bytes@ =~= be_bytes(bits));
        lemma_round_trip(bits);
    }
    bytes
}

/// The bits that a stored payload holds; nothing where it is not eight bytes.
pub fn decode_value(bytes: &[u8]) -> (bits: Option<u64>)
    ensures
        bits == decoded(bytes@),
{
    if bytes.len() != 8 {
        return None;
    }
    let mut bits: u64 = 0;
    let mut i: usize = 0;
    while i < 8
        invariant
            i <= 8,
            bytes@.len() == 8,
            bits == partial(bytes@, i as int),
        decreases 8 - i,
    {
        let byte: u8 = bytes[i];
        let wide: u64 = byte as u64;
        bits = (bits << 8) | wide;
        i = i + 1;
    }
    proof {
        lemma_partial_whole(bytes@);
    }
    Some(bits)
}

/// The bits gathered from the first `n` bytes.
pub open spec fn partial(bytes: Seq<u8>, n: int) -> u64
    decreases n,
{
    if n <= 0 {
        0
    } else {
        (partial(bytes, n - 1) << 8) | (bytes[n - 1] as u64)
    }
}

/// Gathering all eight bytes gives the bits they hold.
pub proof fn lemma_partial_whole(bytes: Seq<u8>)
    ensures
        partial(bytes, 8) == from_be_bytes(bytes),
{
    reveal_with_fuel(partial, 9);
    let b0 = bytes[0] as u64;
    let b1 = bytes[1] as u64;
    let b2 = bytes[2] as u64;
    let b3 = bytes[3] as u64;
    let b4 = bytes[4] as u64;
    let b5 = bytes[5] as u64;
    let b6 = bytes[6] as u64;
    let b7 = bytes[7] as u64;
    let word1 = partial(bytes, 1);
    let word2 = partial(bytes, 2);
    let word3 = partial(bytes, 3);
    let word4 = partial(bytes, 4);
    let word5 = partial(bytes, 5);
    let word6 = partial(bytes, 6);
    let word7 = partial(bytes, 7);
    let word8 = partial(bytes, 8);
    assert(word8 == (b0 << 56 | b1 << 48 | b2 << 40 | b3 << 32 | b4 << 24 | b5 << 16 | b6 << 8 | b7))
        by (bit_vector)
        requires
            word1 == (0u64 << 8) | b0,
            word2 == (word1 << 8) | b1,
            word3 == (word2 << 8) | b2,
            word4 == (word3 << 8) | b3,
            word5 == (word4 << 8) | b4,
            word6 == (word5 << 8) | b5,
            word7 == (word6 << 8) | b6,
            word8 == (word7 << 8) | b7,
            b0 <= 0xff,
            b1 <= 0xff,
            b2 <= 0xff,
            b3 <= 0xff,
            b4 <= 0xff,
            b5 <= 0xff,
            b6 <= 0xff,
            b7 <= 0xff,
    ;
}

/// What was stored comes back bit for bit.
pub proof fn lemma_round_trip(bits: u64)
    ensures
        decoded(be_bytes(bits)) == Some(bits),
{
    let bytes = be_bytes(bits);
    let b0 = bytes[0] as u64;
    let b1 = bytes[1] as u64;
    let b2 = bytes[2] as u64;
    let b3 = bytes[3] as u64;
    let b4 = bytes[4] as u64;
    let b5 = bytes[5] as u64;
    let b6 = bytes[6] as u64;
    let b7 = bytes[7] as u64;
    assert(b0 == (bits >> 56) & 0xff) by {
        lemma_low_byte(bits >> 56u64);
    }
    assert(b1 == (bits >> 48) & 0xff) by {
        lemma_low_byte(bits >> 48u64);
    }
    assert(b2 == (bits >> 40) & 0xff) by {
        lemma_low_byte(bits >> 40u64);
    }
    assert(b3 == (bits >> 32) & 0xff) by {
        lemma_low_byte(bits >> 32u64);
    }
    assert(b4 == (bits >> 24) & 0xff) by {
        lemma_low_byte(bits >> 24u64);
    }
    assert(b5 == (bits >> 16) & 0xff) by {
        lemma_low_byte(bits >> 16u64);
    }
    assert(b6 == (bits >> 8) & 0xff) by {
        lemma_low_byte(bits >> 8u64);
    }
    assert(b7 == (bits >> 0) & 0xff) by {
        lemma_low_byte(bits >> 0u64);
    }
    assert((b0 << 56 | b1 << 48 | b2 << 40 | b3 << 32 | b4 << 24 | b5 << 16 | b6 << 8 | b7)
        == bits) by (bit_vector)
        requires
            b0 == (bits >> 56) & 0xff,
            b1 == (bits >> 48) & 0xff,
            b2 == (bits >> 40) & 0xff,
            b3 == (bits >> 32) & 0xff,
            b4 == (bits >> 24) & 0xff,
            b5 == (bits >> 16) & 0xff,
            b6 == (bits >> 8) & 0xff,
            b7 == (bits >> 0) & 0xff,
    ;
}

/// The low byte of a word survives the way through `u8`.
proof fn lemma_low_byte(word: u64)
    ensures
        ((word & 0xff) as u8) as u64 == word & 0xff,
{
    assert(word & 0xff <= 0xff) by (bit_vector);
}

/// Whether a value that took `elapsed_secs` seconds to compute is stored.
pub fn should_store(elapsed_secs: u64) -> (store: bool)
    ensures
        store == (elapsed_secs > STORE_THRESHOLD_SECS),
{
    elapsed_secs > STORE_THRESHOLD_SECS
}

/// The name of the file that holds the value remembered under `key`.
pub fn cache_file(key: &str) -> (name: String)
    ensures
        name@ == file_name(key@),
{
    let mut name = String::from_str("bin/");
    name.append(key);
    name.append(".data");
    name
}

} // verus!
