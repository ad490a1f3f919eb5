//! Checksums, compression, hashing and text decoding from outside crates and std.
//!
//! Each item here is trusted: its contract restates what the called function's source
//! or documentation shows. Results that take more than a few lines to state are named.
use vstd::prelude::*;
use vstd::bytes::*;

verus! {

#[verifier::external_type_specification]
#[verifier::external_body]
pub struct ExIoError(std::io::Error);

/// `std::io::Error`'s `Display` text. Nothing is stated of its content.
#[verifier::external_body]
pub(crate) fn io_error_text(e: &std::io::Error) -> String {
    e.to_string()
}

/// `std::io::Error::other` with the message `msg`.
#[verifier::external_body]
pub(crate) fn io_error_other(msg: &str) -> std::io::Error {
    std::io::Error::other(msg.to_string())
}

/// The CRC-32 (IEEE) checksum that `crc32fast::hash` computes over a byte sequence.
pub uninterp spec fn crc32_of(bytes: Seq<u8>) -> u32;

/// The zstd frame that `zstd::encode_all` produces from `data` at `level`.
pub uninterp spec fn zstd_compressed(data: Seq<u8>, level: i32) -> Seq<u8>;

/// What `zstd::decode_all` yields from `data`, or `None` when it fails.
pub uninterp spec fn zstd_decompressed(data: Seq<u8>) -> Option<Seq<u8>>;

/// The characters `String::from_utf8_lossy` decodes from `bytes`.
pub uninterp spec fn utf8_lossy(bytes: Seq<u8>) -> Seq<char>;

/// `b` is `a` with exactly one bit flipped: bit `k` of byte `i`.
pub open spec fn one_bit_flip(a: Seq<u8>, b: Seq<u8>, i: int, k: u8) -> bool {
    &&& a.len() == b.len()
    &&& 0 <= i < a.len()
    &&& k < 8
    &&& b[i] == a[i] ^ (1u8 << k)
    &&& forall|j: int| 0 <= j < a.len() && j != i ==> b[j] == a[j]
}

/// `crc32fast::hash`: the CRC-32 (IEEE). Like every CRC whose generator polynomial has
/// more than one term, it tells apart any two inputs that differ in a single bit.
#[verifier::external_body]
pub(crate) fn crc32(bytes: &[u8]) -> (c: u32)
    ensures
        c == crc32_of(bytes@),
        forall|b: Seq<u8>, i: int, k: u8| #[trigger] one_bit_flip(bytes@, b, i, k) ==> crc32_of(b) != c,
{
    crc32fast::hash(bytes)
}

/// `zstd::encode_all` over a byte slice. Reading a slice and writing a `Vec` cannot fail,
/// and zstd accepts every level from 1 to 22, so at those levels it succeeds (zstd's own
/// allocation failing, like Rust's, is not accounted for). When it succeeds,
/// `zstd::decode_all` gives the input back.
#[verifier::external_body]
pub(crate) fn zstd_compress(data: &[u8], level: i32) -> (r: Result<Vec<u8>, std::io::Error>)
    ensures
        1 <= level <= 22 ==> r is Ok,
        r matches Ok(v) ==> v@ == zstd_compressed(data@, level) && zstd_decompressed(v@) == Some(
            data@,
        ),
{
    zstd::encode_all(data, level)
}

/// `zstd::decode_all` over a byte slice.
#[verifier::external_body]
pub(crate) fn zstd_decompress(data: &[u8]) -> (r: Result<Vec<u8>, std::io::Error>)
    ensures
        match r {
            Ok(v) => zstd_decompressed(data@) == Some(v@),
            Err(_) => zstd_decompressed(data@) is None,
        },
{
    zstd::decode_all(data)
}

/// One FxHash step: the hash rotated left by 5 bits, mixed with the word by xor, times the
/// 64-bit Fx seed, wrapping.
pub open spec fn fx_step(h: u64, w: u64) -> u64 {
    ((((h << 5u64) | (h >> 59u64)) ^ w) as nat * 0x517c_c1b7_2722_0a95nat % 0x1_0000_0000_0000_0000nat) as u64
}

/// FxHash over the last bytes, one byte at a time.
pub open spec fn fx_tail(h: u64, b: Seq<u8>) -> u64
    decreases b.len(),
{
    if b.len() == 0 {
        h
    } else {
        fx_tail(fx_step(h, b[0] as u64), b.drop_first())
    }
}

/// FxHash over bytes: eight-byte little-endian words while eight bytes remain, then one
/// four-byte word if four remain, then the single bytes.
pub open spec fn fx_words(h: u64, b: Seq<u8>) -> u64
    decreases b.len(),
{
    if b.len() >= 8 {
        fx_words(fx_step(h, spec_u64_from_le_bytes(b.take(8))), b.skip(8))
    } else if b.len() >= 4 {
        fx_tail(fx_step(h, spec_u32_from_le_bytes(b.take(4)) as u64), b.skip(4))
    } else {
        fx_tail(h, b)
    }
}

/// The 64-bit FxHash of a byte slice as `fxhash::hash64` computes it (the slice's length
/// first, as `Hash` for slices writes it, then its bytes), with words read little-endian.
pub open spec fn fx_hash64(bytes: Seq<u8>) -> u64 {
    fx_words(fx_step(0, bytes.len() as u64), bytes)
}

fn fx_step_exec(h: u64, w: u64) -> (r: u64)
    ensures
        r == fx_step(h, w),
{
    let rot = (h << 5u64) | (h >> 59u64);
    (rot ^ w).wrapping_mul(0x517c_c1b7_2722_0a95u64)
}

/// The `k` bytes of `bytes` from `i` on.
fn bytes_at(bytes: &[u8], i: usize, k: usize) -> (v: Vec<u8>)
    requires
        i + k <= bytes@.len(),
    ensures
        v@ == bytes@.subrange(i as int, i + k),
{
    let mut v: Vec<u8> = Vec::new();
    let n = bytes.len();
    let mut j: usize = 0;
    while j < k
        invariant
            n == bytes@.len(),
            i + k <= bytes@.len(),
            0 <= j <= k,
            v@ == bytes@.subrange(i as int, i + j),
        decreases k - j,
    {
        v.push(bytes[i + j]);
        proof {
            assert(v@ =~= bytes@.subrange(i as int, i + j + 1));
        }
        j = j + 1;
    }
    v
}

/// The 64-bit FxHash of a byte slice (see `fx_hash64`): the hash the original format keys
/// long extensions by, with a byte order fixed so that the index reads the same on every
/// machine.
pub fn fxhash64(bytes: &[u8]) -> (h: u64)
    ensures
        h == fx_hash64(bytes@),
{
    let n = bytes.len();
    let mut h = fx_step_exec(0, n as u64);
    let mut i: usize = 0;
    proof {
        assert(bytes@.skip(0) =~= bytes@);
    }
    while n - i >= 8
        invariant
            n == bytes@.len(),
            0 <= i <= n,
            fx_words(h, bytes@.skip(i as int)) == fx_hash64(bytes@),
        decreases n - i,
    {
        let v = bytes_at(bytes, i, 8);
        let w = u64_from_le_bytes(v.as_slice());
        proof {
            let rest = bytes@.skip(i as int);
            assert(rest.take(8) =~= v@);
            assert(rest.skip(8) =~= bytes@.skip(i + 8));
        }
        h = fx_step_exec(h, w);
        i = i + 8;
    }
    if n - i >= 4 {
        let v = bytes_at(bytes, i, 4);
        let w = u32_from_le_bytes(v.as_slice());
        proof {
            let rest = bytes@.skip(i as int);
            assert(rest.take(4) =~= v@);
            assert(rest.skip(4) =~= bytes@.skip(i + 4));
        }
        h = fx_step_exec(h, w as u64);
        i = i + 4;
    } else {
        assert(fx_tail(h, bytes@.skip(i as int)) == fx_hash64(bytes@));
    }
    while i < n
        invariant
            n == bytes@.len(),
            0 <= i <= n,
            fx_tail(h, bytes@.skip(i as int)) == fx_hash64(bytes@),
        decreases n - i,
    {
        proof {
            let rest = bytes@.skip(i as int);
            assert(rest[0] == bytes@[i as int]);
            assert(rest.drop_first() =~= bytes@.skip(i + 1));
        }
        h = fx_step_exec(h, bytes[i] as u64);
        i = i + 1;
    }
    proof {
        assert(bytes@.skip(n as int) =~= Seq::<u8>::empty());
    }
    h
}

/// `String::from_utf8_lossy`, made owned. On valid UTF-8 it decodes exactly; other
/// inputs get replacement characters, which is not stated here.
#[verifier::external_body]
pub(crate) fn lossy_string(bytes: &[u8]) -> (s: String)
    ensures
        s@ == utf8_lossy(bytes@),
        vstd::utf8::valid_utf8(bytes@) ==> s@ == vstd::utf8::decode_utf8(bytes@),
{
    String::from_utf8_lossy(bytes).into_owned()
}

} // verus!
