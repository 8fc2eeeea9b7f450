use vstd::prelude::*;
use vstd::arithmetic::div_mod::lemma_mod_breakdown;
use crate::tiling::RADIX;

verus! {

/// `16^p`: the weight of the digit of pass `p`.
pub open spec fn pow16(p: nat) -> int
    decreases p,
{
    if p == 0 {
        1
    } else {
        16 * pow16((p - 1) as nat)
    }
}

/// The 4-bit digit that pass `p` sorts on.
pub open spec fn digit_of(k: u32, p: nat) -> int {
    (k as int / pow16(p)) % 16
}

/// The part of a key covered by the first `p` passes (its `p` lowest digits).
pub open spec fn low_of(k: u32, p: nat) -> int {
    k as int % pow16(p)
}

pub proof fn lemma_pow16_pos(p: nat)
    ensures
        pow16(p) > 0,
    decreases p,
{
    if p > 0 {
        lemma_pow16_pos((p - 1) as nat);
    }
}

pub proof fn lemma_digit_range(k: u32, p: nat)
    ensures
        0 <= digit_of(k, p) < 16,
{
    lemma_pow16_pos(p);
}

/// After all eight passes the low part of a key is the key itself.
pub proof fn lemma_low_full(k: u32)
    ensures
        low_of(k, 8) == k as int,
{
    reveal_with_fuel(pow16, 9);
    assert(pow16(8) == 0x1_0000_0000);
}

/// The low part of pass `p + 1` is the digit of pass `p` above the low part of pass `p`.
pub proof fn lemma_low_split(k: u32, p: nat)
    ensures
        low_of(k, p + 1) == pow16(p) * digit_of(k, p) + low_of(k, p),
        0 <= low_of(k, p) < pow16(p),
{
    lemma_pow16_pos(p);
    assert(pow16(p + 1) == pow16(p) * 16);
    lemma_mod_breakdown(k as int, pow16(p), 16);
}

/// Comparing low parts one digit wider: the new digit decides, and on a tie the
/// narrower low parts decide.
pub proof fn lemma_low_order(a: u32, b: u32, p: nat)
    ensures
        digit_of(a, p) < digit_of(b, p) ==> low_of(a, p + 1) < low_of(b, p + 1),
        digit_of(a, p) == digit_of(b, p) ==> (low_of(a, p + 1) < low_of(b, p + 1) <==> low_of(a, p)
            < low_of(b, p)),
        digit_of(a, p) == digit_of(b, p) ==> (low_of(a, p + 1) == low_of(b, p + 1) <==> low_of(
            a,
            p,
        ) == low_of(b, p)),
{
    lemma_low_split(a, p);
    lemma_low_split(b, p);
    lemma_digit_range(a, p);
    lemma_digit_range(b, p);
    let w = pow16(p);
    let da = digit_of(a, p);
    let db = digit_of(b, p);
    let la = low_of(a, p);
    let lb = low_of(b, p);
    assert(da < db ==> w * da + la < w * db + lb) by (nonlinear_arith)
        requires
            0 <= la < w,
            0 <= lb < w,
    ;
}

pub proof fn lemma_pow16_mono(a: nat, b: nat)
    requires
        a <= b,
    ensures
        pow16(a) <= pow16(b),
    decreases b - a,
{
    if a < b {
        lemma_pow16_mono(a, (b - 1) as nat);
        lemma_pow16_pos((b - 1) as nat);
    }
}

/// `16^pass` for one of the eight passes.
pub fn pass_divisor(pass: u32) -> (r: u32)
    requires
        pass < 8,
    ensures
        r as int == pow16(pass as nat),
{
    let mut div: u32 = 1;
    let mut k: u32 = 0;
    proof {
        reveal_with_fuel(pow16, 8);
        assert(pow16(7) == 0x1000_0000);
    }
    while k < pass
        invariant
            k <= pass < 8,
            div as int == pow16(k as nat),
            pow16(7) == 0x1000_0000,
        decreases pass - k,
    {
        proof {
            lemma_pow16_mono((k + 1) as nat, 7);
        }
        div = div * 16;
        k = k + 1;
    }
    div
}

/// Exact digit extraction for a pass whose divisor is `16^p`.
pub(crate) fn digit(k: u32, div: u32, Ghost(p): Ghost<nat>) -> (r: u32)
    requires
        div as int == pow16(p),
    ensures
        r as int == digit_of(k, p),
        r < 16,
{
    proof {
        lemma_pow16_pos(p);
    }
    (k / div) % RADIX
}

} // verus!
