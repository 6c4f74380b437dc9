//! Identifiers and dispatch types shared by the pallets.
use vstd::prelude::*;

verus! {

/// Two to the power 128: the weight of the high part of an `H160`.
pub open spec fn two_pow_128() -> int {
    0x1_0000_0000_0000_0000_0000_0000_0000_0000int
}

/// A 160-bit identifier, held as its high 32 bits and its low 128 bits.
/// Its value as a number is the value of its 20 big-endian bytes.
#[derive(Clone, Copy, Debug, PartialEq, Eq, Structural)]
pub struct H160 {
    pub hi: u32,
    pub lo: u128,
}

impl View for H160 {
    type V = int;

    open spec fn view(&self) -> int {
        self.hi * two_pow_128() + self.lo
    }
}

/// Identifiers with the same value are the same identifier.
pub proof fn lemma_h160_view_injective(a: H160, b: H160)
    requires
        a@ == b@,
    ensures
        a == b,
{
    if a.hi < b.hi {
        assert((a.hi + 1) * two_pow_128() <= b.hi * two_pow_128());
    } else if b.hi < a.hi {
        assert((b.hi + 1) * two_pow_128() <= a.hi * two_pow_128());
    }
}

/// `256` to the power `n`.
pub open spec fn pow256(n: nat) -> nat
    decreases n,
{
    if n == 0 {
        1
    } else {
        256 * pow256((n - 1) as nat)
    }
}

/// The number whose big-endian bytes are `bytes`.
pub open spec fn be_value(bytes: Seq<u8>) -> nat
    decreases bytes.len(),
{
    if bytes.len() == 0 {
        0
    } else {
        be_value(bytes.drop_last()) * 256 + bytes.last() as nat
    }
}

/// The powers of `256` that split identifiers and digests: `256^4` is
/// `2^32` and `256^16` is `2^128`.
proof fn lemma_pow256_values()
    ensures
        pow256(4) == 0x1_0000_0000,
        pow256(16) == two_pow_128(),
{
    reveal_with_fuel(pow256, 17);
}

/// Powers of `256` grow with the exponent.
proof fn lemma_pow256_mono(m: nat, n: nat)
    requires
        m <= n,
    ensures
        pow256(m) <= pow256(n),
    decreases n - m,
{
    if m < n {
        lemma_pow256_mono(m, (n - 1) as nat);
    }
}

/// A number of `n` bytes is below `256` to the power `n`.
proof fn lemma_be_value_bound(bytes: Seq<u8>)
    ensures
        be_value(bytes) < pow256(bytes.len()),
    decreases bytes.len(),
{
    if bytes.len() > 0 {
        let init = bytes.drop_last();
        lemma_be_value_bound(init);
        let v = be_value(init);
        let p = pow256(init.len());
        let b = bytes.last();
        assert(v * 256 + b < p * 256) by (nonlinear_arith)
            requires
                v < p,
                b < 256,
        ;
    }
}

/// The value of `a` followed by `b`.
proof fn lemma_be_value_concat(a: Seq<u8>, b: Seq<u8>)
    ensures
        be_value(a + b) == be_value(a) * pow256(b.len()) + be_value(b),
    decreases b.len(),
{
    if b.len() == 0 {
        assert(a + b =~= a);
        assert(pow256(0) == 1);
        assert(be_value(b) == 0);
        assert(be_value(a) * 1 == be_value(a));
    } else {
        let b0 = b.drop_last();
        assert((a + b).drop_last() =~= a + b0);
        assert((a + b).last() == b.last());
        lemma_be_value_concat(a, b0);
        let x = be_value(a);
        let p = pow256(b0.len());
        let y = be_value(b0);
        assert((x * p + y) * 256 + b.last() == x * (256 * p) + (y * 256 + b.last()))
            by (nonlinear_arith);
        assert(be_value(a + b) == be_value(a + b0) * 256 + b.last());
        assert(be_value(b) == y * 256 + b.last());
        assert(pow256(b.len()) == 256 * p);
        assert(x * pow256(b.len()) == x * (256 * p));
    }
}

/// The value of the bytes `s[start..end]` read one at a time.
proof fn lemma_be_value_step(s: Seq<u8>, start: int, end: int)
    requires
        0 <= start <= end < s.len(),
    ensures
        be_value(s.subrange(start, end + 1)) == be_value(s.subrange(start, end)) * 256 + s[end],
{
    assert(s.subrange(start, end + 1).drop_last() =~= s.subrange(start, end));
}

/// Writing one more byte in front of `s`.
proof fn lemma_be_value_prepend(x: u8, s: Seq<u8>)
    ensures
        be_value(seq![x] + s) == x * pow256(s.len()) + be_value(s),
{
    lemma_be_value_concat(seq![x], s);
    assert(seq![x].drop_last() =~= Seq::<u8>::empty());
    assert(be_value(Seq::<u8>::empty()) == 0);
    assert(seq![x].last() == x);
    assert(be_value(seq![x]) == x);
}

/// Dropping the lowest byte of a number below `256 * p` leaves one below `p`.
proof fn lemma_shift_bound(v: nat, p: nat)
    requires
        v < 256 * p,
    ensures
        v / 256 < p,
{
    assert(v / 256 < p) by (nonlinear_arith)
        requires
            v < 256 * p,
    ;
}

/// Splitting off the lowest byte of `v`.
proof fn lemma_split_low_byte(v: nat, p: nat)
    ensures
        (v % 256) * p + (v / 256) * (256 * p) == v * p,
{
    assert((v % 256) * p + (v / 256) * (256 * p) == v * p) by (nonlinear_arith);
}

/// Byte strings of one length with the same value are the same.
pub proof fn lemma_be_value_injective(a: Seq<u8>, b: Seq<u8>)
    requires
        a.len() == b.len(),
        be_value(a) == be_value(b),
    ensures
        a == b,
    decreases a.len(),
{
    if a.len() > 0 {
        let x = be_value(a.drop_last());
        let y = be_value(b.drop_last());
        let p = a.last() as int;
        let q = b.last() as int;
        assert(x * 256 + p == y * 256 + q);
        assert(p == q && x == y) by (nonlinear_arith)
            requires
                x * 256 + p == y * 256 + q,
                0 <= p < 256,
                0 <= q < 256,
                x >= 0,
                y >= 0,
        ;
        lemma_be_value_injective(a.drop_last(), b.drop_last());
        assert(a =~= a.drop_last().push(a.last()));
        assert(b =~= b.drop_last().push(b.last()));
    } else {
        assert(a =~= b);
    }
}

/// The value of the 16 bytes of `bytes` from `start` on.
fn be_u128_at(bytes: &[u8; 32], start: usize) -> (res: u128)
    requires
        start + 16 <= 32,
    ensures
        res == be_value(bytes@.subrange(start as int, start + 16)),
{
    let mut v: u128 = 0;
    let mut j: usize = start;
    while j < start + 16
        invariant
            start <= j <= start + 16,
            start + 16 <= 32,
            bytes@.len() == 32,
            v == be_value(bytes@.subrange(start as int, j as int)),
        decreases start + 16 - j,
    {
        proof {
            lemma_be_value_step(bytes@, start as int, j as int);
            lemma_be_value_bound(bytes@.subrange(start as int, j as int + 1));
            lemma_pow256_values();
            lemma_pow256_mono((j - start) as nat + 1, 16);
            assert(bytes@.subrange(start as int, j as int + 1).len() == (j - start) as nat + 1);
        }
        v = v * 256 + bytes[j] as u128;
        j += 1;
    }
    v
}

/// Whether the 32 big-endian bytes `a` are the value of a number below that
/// of `b`: the order of the bytes compared one by one from the first.
pub fn hash_below(a: &[u8; 32], b: &[u8; 32]) -> (res: bool)
    ensures
        res == (be_value(a@) < be_value(b@)),
{
    let a_hi = be_u128_at(a, 0);
    let a_lo = be_u128_at(a, 16);
    let b_hi = be_u128_at(b, 0);
    let b_lo = be_u128_at(b, 16);
    proof {
        lemma_pow256_values();
        assert(a@.subrange(0, 16) + a@.subrange(16, 32) =~= a@);
        assert(b@.subrange(0, 16) + b@.subrange(16, 32) =~= b@);
        lemma_be_value_concat(a@.subrange(0, 16), a@.subrange(16, 32));
        lemma_be_value_concat(b@.subrange(0, 16), b@.subrange(16, 32));
    }
    if a_hi < b_hi {
        assert(be_value(a@) < be_value(b@)) by {
            assert((a_hi + 1) * two_pow_128() <= b_hi * two_pow_128());
        }
        true
    } else if a_hi > b_hi {
        assert(be_value(b@) < be_value(a@)) by {
            assert((b_hi + 1) * two_pow_128() <= a_hi * two_pow_128());
        }
        false
    } else {
        a_lo < b_lo
    }
}

impl H160 {
    /// The big-endian bytes of the identifier.
    pub fn to_be_bytes(&self) -> (res: [u8; 20])
        ensures
            be_value(res@) == self@,
    {
        let mut bytes = [0u8; 20];
        let mut lo: u128 = self.lo;
        let mut k: usize = 20;
        proof {
            lemma_pow256_values();
            assert(bytes@.subrange(20, 20) =~= Seq::<u8>::empty());
            assert(be_value(bytes@.subrange(20, 20)) == 0);
            assert(pow256(0) == 1);
            assert(lo * pow256(0) == lo);
        }
        while k > 4
            invariant
                4 <= k <= 20,
                bytes@.len() == 20,
                be_value(bytes@.subrange(k as int, 20)) + lo * pow256((20 - k) as nat) == self.lo,
                lo < pow256((k - 4) as nat),
            decreases k,
        {
            let ghost before = bytes@;
            let ghost rem = lo;
            k -= 1;
            let b: u8 = (lo % 256) as u8;
            bytes.set(k, b);
            lo = lo / 256;
            proof {
                let n = (19 - k) as nat;
                lemma_shift_bound(rem as nat, pow256((k - 4) as nat));
                assert(bytes@.subrange(k as int, 20) =~= seq![b] + before.subrange(k + 1, 20));
                lemma_be_value_prepend(b, before.subrange(k + 1, 20));
                lemma_split_low_byte(rem as nat, pow256(n));
                assert(pow256(n + 1) == 256 * pow256(n));
            }
        }
        let mut hi: u32 = self.hi;
        proof {
            assert(lo == 0);
            lemma_pow256_values();
        }
        while k > 0
            invariant
                0 <= k <= 4,
                bytes@.len() == 20,
                be_value(bytes@.subrange(k as int, 20)) + hi * pow256((20 - k) as nat) == self@,
                hi < pow256(k as nat),
            decreases k,
        {
            let ghost before = bytes@;
            let ghost rem = hi;
            k -= 1;
            let b: u8 = (hi % 256) as u8;
            bytes.set(k, b);
            hi = hi / 256;
            proof {
                let n = (19 - k) as nat;
                lemma_shift_bound(rem as nat, pow256(k as nat));
                assert(bytes@.subrange(k as int, 20) =~= seq![b] + before.subrange(k + 1, 20));
                lemma_be_value_prepend(b, before.subrange(k + 1, 20));
                lemma_split_low_byte(rem as nat, pow256(n));
                assert(pow256(n + 1) == 256 * pow256(n));
            }
        }
        proof {
            assert(hi == 0);
            assert(bytes@.subrange(0, 20) =~= bytes@);
        }
        bytes
    }

    /// The identifier whose big-endian bytes are `bytes`.
    pub fn from_be_bytes(bytes: &[u8; 20]) -> (res: H160)
        ensures
            res@ == be_value(bytes@),
    {
        let mut hi: u32 = 0;
        let mut i: usize = 0;
        while i < 4
            invariant
                0 <= i <= 4,
                bytes@.len() == 20,
                hi == be_value(bytes@.subrange(0, i as int)),
            decreases 4 - i,
        {
            proof {
                lemma_be_value_step(bytes@, 0, i as int);
                lemma_be_value_bound(bytes@.subrange(0, i as int + 1));
                lemma_pow256_values();
                assert(pow256(i as nat + 1) <= pow256(4)) by {
                    lemma_pow256_mono(i as nat + 1, 4);
                }
            }
            hi = hi * 256 + bytes[i] as u32;
            i += 1;
        }
        let mut lo: u128 = 0;
        let mut j: usize = 4;
        while j < 20
            invariant
                4 <= j <= 20,
                bytes@.len() == 20,
                lo == be_value(bytes@.subrange(4, j as int)),
            decreases 20 - j,
        {
            proof {
                lemma_be_value_step(bytes@, 4, j as int);
                lemma_be_value_bound(bytes@.subrange(4, j as int + 1));
                lemma_pow256_values();
                assert(pow256((j - 4) as nat + 1) <= pow256(16)) by {
                    lemma_pow256_mono((j - 4) as nat + 1, 16);
                }
            }
            lo = lo * 256 + bytes[j] as u128;
            j += 1;
        }
        proof {
            let a = bytes@.subrange(0, 4);
            let b = bytes@.subrange(4, 20);
            assert(a + b =~= bytes@);
            lemma_be_value_concat(a, b);
            lemma_pow256_values();
        }
        H160 { hi, lo }
    }

    /// Builds the identifier from its high and low parts.
    pub fn new(hi: u32, lo: u128) -> (res: H160)
        ensures
            res.hi == hi,
            res.lo == lo,
    {
        H160 { hi, lo }
    }

    /// Whether `self` is ordered strictly before `other`.
    pub fn lt(&self, other: &H160) -> (res: bool)
        ensures
            res == (self@ < other@),
    {
        if self.hi < other.hi {
            assert(self@ < other@) by {
                assert(self.lo < two_pow_128());
                assert((self.hi + 1) * two_pow_128() <= other.hi * two_pow_128());
            }
            true
        } else if self.hi > other.hi {
            assert(other@ < self@) by {
                assert(other.lo < two_pow_128());
                assert((other.hi + 1) * two_pow_128() <= self.hi * two_pow_128());
            }
            false
        } else {
            self.lo < other.lo
        }
    }
}

/// Account ids of the runtime.
pub type AccountId = u64;

/// A 256-bit hash, as its bytes.
pub type H256 = [u8; 32];

/// Where a call comes from.
#[derive(Clone, Copy, Debug, PartialEq, Eq, Structural)]
pub enum Origin {
    /// The root of the runtime.
    Root,
    /// A signed extrinsic from an account.
    Signed(AccountId),
    /// An unsigned extrinsic.
    Unsigned,
}

/// Why a call was refused.
#[derive(Clone, Copy, Debug)]
pub enum DispatchError {
    /// The origin is not what the call needs.
    BadOrigin,
    /// Refused with a message.
    Other(&'static str),
}

/// Whether the sender of a call pays its fee.
#[derive(Clone, Copy, Debug, PartialEq, Eq, Structural)]
pub enum Pays {
    Yes,
    No,
}

/// What a successful call reports.
#[derive(Clone, Copy, Debug, PartialEq, Eq, Structural)]
pub struct PostDispatchInfo {
    /// The weight actually used, when known.
    pub actual_weight: Option<u64>,
    /// Whether the fee is paid.
    pub pays_fee: Pays,
}

/// The account of a signed origin; any other origin is refused.
pub fn ensure_signed(origin: Origin) -> (res: Result<AccountId, DispatchError>)
    ensures
        match origin {
            Origin::Signed(who) => res == Ok::<AccountId, DispatchError>(who),
            _ => res matches Err(DispatchError::BadOrigin),
        },
{
    match origin {
        Origin::Signed(who) => Ok(who),
        _ => Err(DispatchError::BadOrigin),
    }
}

} // verus!
