//! SCALE encoding of integers and the xxHash-based 256-bit digest, from the
//! codec and hashing crates of the runtime.
use parity_scale_codec::Compact;
use parity_scale_codec::Encode;
use vstd::prelude::*;

use crate::primitives::pow256;

verus! {

/// The `width` low bytes of `n`, least significant first.
pub open spec fn le_bytes(n: nat, width: nat) -> Seq<u8>
    decreases width,
{
    if width == 0 {
        Seq::empty()
    } else {
        seq![(n % 256) as u8] + le_bytes(n / 256, (width - 1) as nat)
    }
}

/// SCALE compact encoding of a `u32`: the two low bits of the first byte give
/// the mode (one, two or four bytes holding `n` shifted left by two, or a
/// byte `3` followed by the four bytes of `n`).
pub open spec fn compact_u32_bytes(n: u32) -> Seq<u8> {
    if n < 0x40 {
        seq![(n * 4) as u8]
    } else if n < 0x4000 {
        le_bytes((n * 4 + 1) as nat, 2)
    } else if n < 0x4000_0000 {
        le_bytes((n * 4 + 2) as nat, 4)
    } else {
        seq![3u8] + le_bytes(n as nat, 4)
    }
}

/// The number whose little-endian bytes are `bytes`.
pub open spec fn le_value(bytes: Seq<u8>) -> nat
    decreases bytes.len(),
{
    if bytes.len() == 0 {
        0
    } else {
        bytes[0] as nat + 256 * le_value(bytes.drop_first())
    }
}

/// Reading a SCALE compact prefix: `bytes` is a compact number (in any of
/// its four modes, told by the two low bits of the first byte) whose value
/// is `n`.
pub open spec fn compact_decodes(bytes: Seq<u8>, n: nat) -> bool {
    &&& bytes.len() >= 1
    &&& if bytes[0] % 4 == 0 {
        bytes.len() == 1 && n == bytes[0] / 4
    } else if bytes[0] % 4 == 1 {
        bytes.len() == 2 && n == le_value(bytes) / 4
    } else if bytes[0] % 4 == 2 {
        bytes.len() == 4 && n == le_value(bytes) / 4
    } else {
        bytes.len() == 5 && bytes[0] == 3 && n == le_value(bytes.drop_first())
    }
}

/// `s` is the SCALE encoding of the byte vector `payload`: a compact prefix
/// reading as the length of `payload`, then `payload`.
pub open spec fn is_vec_encoding(s: Seq<u8>, payload: Seq<u8>) -> bool {
    exists|p: int|
        #![trigger s.take(p)]
        0 < p <= s.len() && compact_decodes(s.take(p), payload.len()) && s.skip(p) == payload
}

/// The `width` little-endian bytes of a number below `256^width` read back
/// as that number.
pub proof fn lemma_le_bytes_read_back(n: nat, width: nat)
    requires
        n < pow256(width),
    ensures
        le_bytes(n, width).len() == width,
        le_value(le_bytes(n, width)) == n,
    decreases width,
{
    if width > 0 {
        let w1 = (width - 1) as nat;
        let p = pow256(w1);
        assert(n / 256 < p) by (nonlinear_arith)
            requires
                n < 256 * p,
        ;
        lemma_le_bytes_read_back(n / 256, w1);
        let s = le_bytes(n, width);
        assert(s.drop_first() =~= le_bytes(n / 256, w1));
        assert(s[0] == n % 256);
        assert(n == n % 256 + 256 * (n / 256)) by (nonlinear_arith);
    }
}

/// The compact encoding of `n` reads back as `n`.
pub proof fn lemma_compact_u32_read_back(n: u32)
    ensures
        compact_decodes(compact_u32_bytes(n), n as nat),
{
    reveal_with_fuel(pow256, 5);
    let b = compact_u32_bytes(n);
    if n < 0x40 {
        assert(b[0] == n * 4);
    } else if n < 0x4000 {
        let v = (n * 4 + 1) as nat;
        lemma_le_bytes_read_back(v, 2);
        assert(b[0] == v % 256);
        assert((v % 256) % 4 == 1) by (nonlinear_arith)
            requires
                v == n * 4 + 1,
        ;
    } else if n < 0x4000_0000 {
        let v = (n * 4 + 2) as nat;
        lemma_le_bytes_read_back(v, 4);
        assert(b[0] == v % 256);
        assert((v % 256) % 4 == 2) by (nonlinear_arith)
            requires
                v == n * 4 + 2,
        ;
    } else {
        lemma_le_bytes_read_back(n as nat, 4);
        assert(b.drop_first() =~= le_bytes(n as nat, 4));
    }
}

/// The byte-vector encoding built from a compact length prefix and the
/// bytes is a byte-vector encoding of those bytes.
pub proof fn lemma_compact_prefix_is_vec_encoding(payload: Seq<u8>)
    requires
        payload.len() <= u32::MAX,
    ensures
        is_vec_encoding(compact_u32_bytes(payload.len() as u32) + payload, payload),
{
    let pre = compact_u32_bytes(payload.len() as u32);
    let s = pre + payload;
    lemma_compact_u32_read_back(payload.len() as u32);
    let p = pre.len() as int;
    assert(s.take(p) =~= pre);
    assert(s.skip(p) =~= payload);
}

/// The result of `sp_crypto_hashing::twox_256` on `data`: the four xxHash64
/// digests of `data` with seeds 0, 1, 2 and 3, each written as eight
/// little-endian bytes.
pub uninterp spec fn twox_256_digest(data: Seq<u8>) -> Seq<u8>;

/// Calls `sp_crypto_hashing::twox_256`. Claimed: the 32 bytes returned are
/// `twox_256_digest` of the bytes given (a function of them alone).
#[verifier::external_body]
pub(crate) fn twox_256(data: &[u8]) -> (res: [u8; 32])
    ensures
        res@ == twox_256_digest(data@),
{
    sp_crypto_hashing::twox_256(data)
}

/// Calls `Encode::encode` of `parity_scale_codec` on a `u64`. Claimed: the
/// encoding is the eight bytes of the value, least significant first.
#[verifier::external_body]
pub(crate) fn encode_u64(x: u64) -> (res: Vec<u8>)
    ensures
        res@ == le_bytes(x as nat, 8),
{
    x.encode()
}

/// Calls `Encode::encode` of `parity_scale_codec` on `Compact<u32>`, the
/// length prefix of encoded sequences. Claimed: the encoding is
/// `compact_u32_bytes(n)`.
#[verifier::external_body]
pub(crate) fn encode_compact_u32(n: u32) -> (res: Vec<u8>)
    ensures
        res@ == compact_u32_bytes(n),
{
    Compact(n).encode()
}

} // verus!
