//! The little-endian reading of byte sequences as integers.
use vstd::prelude::*;

verus! {

/// `256` to the power `w`: the number of values `w` bytes can hold.
pub open spec fn pow256(w: nat) -> nat
    decreases w,
{
    if w == 0 {
        1
    } else {
        256 * pow256((w - 1) as nat)
    }
}

/// The unsigned value of `b`, least significant byte first.
pub open spec fn le_value(b: Seq<u8>) -> nat
    decreases b.len(),
{
    if b.len() == 0 {
        0
    } else {
        b[0] as nat + 256 * le_value(b.drop_first())
    }
}

/// The two's-complement value of `b`, least significant byte first: the
/// unsigned value, less `256^len` when the top bit is set.
pub open spec fn le_signed_value(b: Seq<u8>) -> int {
    let n = le_value(b);
    if 2 * n >= pow256(b.len()) {
        n - pow256(b.len())
    } else {
        n as int
    }
}

/// The `w` bytes that write `n` (taken modulo `256^w`) least significant first.
pub open spec fn le_bytes(n: nat, w: nat) -> Seq<u8>
    decreases w,
{
    if w == 0 {
        Seq::empty()
    } else {
        seq![(n % 256) as u8] + le_bytes(n / 256, (w - 1) as nat)
    }
}

/// The `w` bytes that write `x` in two's complement, least significant first.
pub open spec fn le_signed_bytes(x: int, w: nat) -> Seq<u8> {
    if x < 0 {
        le_bytes((x + pow256(w)) as nat, w)
    } else {
        le_bytes(x as nat, w)
    }
}

pub proof fn lemma_pow256_positive(w: nat)
    ensures
        pow256(w) > 0,
    decreases w,
{
    if w > 0 {
        lemma_pow256_positive((w - 1) as nat);
    }
}

pub proof fn lemma_pow256_monotonic(a: nat, b: nat)
    requires
        a <= b,
    ensures
        pow256(a) <= pow256(b),
    decreases b,
{
    if a < b {
        lemma_pow256_monotonic(a, (b - 1) as nat);
        lemma_pow256_positive((b - 1) as nat);
    }
}

/// `w` bytes hold a value below `256^w`.
pub proof fn lemma_le_value_bound(b: Seq<u8>)
    ensures
        le_value(b) < pow256(b.len()),
    decreases b.len(),
{
    if b.len() > 0 {
        let rest = b.drop_first();
        lemma_le_value_bound(rest);
        let r = le_value(rest);
        let p = pow256(rest.len());
        let b0 = b[0] as nat;
        assert(b0 + 256 * r < 256 * p) by (nonlinear_arith)
            requires
                b0 < 256,
                r < p,
        ;
    }
}

/// Reading bytes as an unsigned integer and writing that integer back in as
/// many bytes gives the same bytes.
pub proof fn lemma_unsigned_round_trip(b: Seq<u8>)
    ensures
        le_bytes(le_value(b), b.len()) == b,
    decreases b.len(),
{
    if b.len() > 0 {
        let rest = b.drop_first();
        lemma_unsigned_round_trip(rest);
        let r = le_value(rest);
        let b0 = b[0] as nat;
        let n = b0 + 256 * r;
        assert(n % 256 == b0 && n / 256 == r) by (nonlinear_arith)
            requires
                n == b0 + 256 * r,
                b0 < 256,
        ;
        assert(le_bytes(n, b.len()) =~= b);
    }
}

/// Reading bytes as a two's-complement integer and writing that integer back
/// in as many bytes gives the same bytes.
pub proof fn lemma_signed_round_trip(b: Seq<u8>)
    ensures
        le_signed_bytes(le_signed_value(b), b.len()) == b,
{
    lemma_unsigned_round_trip(b);
    lemma_le_value_bound(b);
}

/// The unsigned little-endian value of up to eight bytes.
pub(crate) fn le_u64(bytes: &[u8]) -> (r: u64)
    requires
        bytes@.len() <= 8,
    ensures
        r == le_value(bytes@),
{
    let n = bytes.len();
    let mut v: u64 = 0;
    let mut i: usize = n;
    proof {
        reveal_with_fuel(pow256, 9);
    }
    while i > 0
        invariant
            n == bytes@.len() <= 8,
            i <= n,
            v == le_value(bytes@.subrange(i as int, n as int)),
            v < pow256((n - i) as nat),
        decreases i,
    {
        let ghost tail = bytes@.subrange(i as int, n as int);
        let ghost longer = bytes@.subrange(i - 1, n as int);
        assert(longer.drop_first() =~= tail);
        proof {
            lemma_pow256_monotonic((n - i) as nat, 7);
            reveal_with_fuel(pow256, 9);
            let vi = v as int;
            let p = pow256((n - i) as nat) as int;
            assert(vi * 256 + 255 < p * 256 <= 0x1_0000_0000_0000_0000) by (nonlinear_arith)
                requires
                    vi < p <= 0x100_0000_0000_0000,
            ;
        }
        v = v * 256 + bytes[i - 1] as u64;
        i = i - 1;
    }
    assert(bytes@.subrange(0, n as int) =~= bytes@);
    v
}

/// `256^w` for a width of at most eight bytes.
fn pow256_u128(w: usize) -> (r: u128)
    requires
        w <= 8,
    ensures
        r == pow256(w as nat),
{
    let mut p: u128 = 1;
    let mut i: usize = 0;
    while i < w
        invariant
            i <= w <= 8,
            p == pow256(i as nat),
        decreases w - i,
    {
        proof {
            lemma_pow256_monotonic(i as nat, 7);
            reveal_with_fuel(pow256, 9);
        }
        p = p * 256;
        i = i + 1;
    }
    p
}

/// The two's-complement little-endian value of one to eight bytes.
pub(crate) fn le_i64(bytes: &[u8]) -> (r: i64)
    requires
        1 <= bytes@.len() <= 8,
    ensures
        r == le_signed_value(bytes@),
        -pow256(bytes@.len()) <= 2 * r < pow256(bytes@.len()),
{
    let v = le_u64(bytes);
    let full = pow256_u128(bytes.len());
    proof {
        lemma_le_value_bound(bytes@);
        lemma_pow256_monotonic(bytes@.len(), 8);
        reveal_with_fuel(pow256, 9);
    }
    if v as u128 * 2 >= full {
        (v as i128 - full as i128) as i64
    } else {
        v as i64
    }
}

} // verus!
