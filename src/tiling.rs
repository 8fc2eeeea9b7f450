use vstd::prelude::*;

verus! {

/// Number of buckets of one digit (4-bit digits).
pub const RADIX: u32 = 16;

/// Width of one thread group.
pub const GROUP_SIZE: u32 = 256;

/// Number of consecutive keys that one thread processes.
pub const BLOCK_COUNT: u32 = 8;

/// Number of digit passes that cover a 32-bit key.
pub const PASSES: u32 = 8;

/// `ceil(a / b)` over the integers.
pub open spec fn ceil_div(a: int, b: int) -> int {
    (a + b - 1) / b
}

/// Threads needed to cover `n` keys.
pub open spec fn spec_block_count(n: int) -> int {
    ceil_div(n, BLOCK_COUNT as int)
}

/// Thread groups needed to cover `n` keys.
pub open spec fn spec_group_count(n: int) -> int {
    ceil_div(spec_block_count(n), GROUP_SIZE as int)
}

/// Keys covered by one thread group.
pub open spec fn group_span() -> int {
    GROUP_SIZE as int * BLOCK_COUNT as int
}

pub proof fn lemma_group_count_bound(n: int)
    requires
        0 <= n <= u32::MAX,
    ensures
        0 <= spec_group_count(n) <= 0x20_0000,
{
    let b = (n + 7) / 8;
    assert(0 <= b <= 0x2000_0000);
    assert(spec_group_count(n) == (b + 255) / 256);
}

/// A dispatch of `spec_group_count(n)` groups covers `n` keys.
pub proof fn lemma_group_count_covers(n: int)
    requires
        0 <= n,
    ensures
        spec_group_count(n) * 2048 >= n,
{
    let b = (n + 7) / 8;
    let r = (b + 255) / 256;
    assert(r * 2048 >= n) by (nonlinear_arith)
        requires
            b == (n + 7) / 8,
            r == (b + 255) / 256,
            n >= 0,
    ;
}

/// How many threads are needed for `n` keys, each thread taking a block of
/// `BLOCK_COUNT` consecutive keys.
pub fn block_count(n: u32) -> (r: u32)
    ensures
        r == spec_block_count(n as int),
{
    let q = n / BLOCK_COUNT;
    if n % BLOCK_COUNT == 0 {
        q
    } else {
        q + 1
    }
}

/// How many thread groups a dispatch over `n` keys needs.
pub fn group_count(n: u32) -> (r: u32)
    ensures
        r == spec_group_count(n as int),
        r as int * group_span() >= n,
        n == 0 ==> r == 0,
        n > 0 ==> (r as int - 1) * group_span() < n,
{
    let b = block_count(n);
    let q = b / GROUP_SIZE;
    let r = if b % GROUP_SIZE == 0 {
        q
    } else {
        q + 1
    };
    assert(r as int * group_span() >= n && (n > 0 ==> (r as int - 1) * group_span() < n))
        by (nonlinear_arith)
        requires
            b == (n as int + 7) / 8,
            r == (b as int + 255) / 256,
            group_span() == 2048,
    ;
    r
}

} // verus!
