use vstd::prelude::*;
use crate::digits::{digit, digit_of, lemma_digit_range, lemma_low_order, low_of, pow16};

verus! {

/// Number of keys among the first `hi` of `s` whose pass-`p` digit is `d`.
pub open spec fn count_eq(s: Seq<u32>, p: nat, d: int, hi: int) -> nat
    decreases hi,
{
    if hi <= 0 {
        0
    } else {
        count_eq(s, p, d, hi - 1) + if digit_of(s[hi - 1], p) == d {
            1nat
        } else {
            0nat
        }
    }
}

/// Number of keys among the first `hi` of `s` whose pass-`p` digit is below `d`.
pub open spec fn count_lt(s: Seq<u32>, p: nat, d: int, hi: int) -> nat
    decreases hi,
{
    if hi <= 0 {
        0
    } else {
        count_lt(s, p, d, hi - 1) + if digit_of(s[hi - 1], p) < d {
            1nat
        } else {
            0nat
        }
    }
}

pub proof fn lemma_count_lt_step(s: Seq<u32>, p: nat, d: int, hi: int)
    ensures
        count_lt(s, p, d + 1, hi) == count_lt(s, p, d, hi) + count_eq(s, p, d, hi),
    decreases hi,
{
    if hi > 0 {
        lemma_count_lt_step(s, p, d, hi - 1);
    }
}

pub proof fn lemma_count_lt_zero(s: Seq<u32>, p: nat, hi: int)
    requires
        0 <= hi <= s.len(),
    ensures
        count_lt(s, p, 0, hi) == 0,
    decreases hi,
{
    if hi > 0 {
        lemma_count_lt_zero(s, p, hi - 1);
        lemma_digit_range(s[hi - 1], p);
    }
}

pub proof fn lemma_count_lt_all(s: Seq<u32>, p: nat, hi: int)
    requires
        0 <= hi <= s.len(),
    ensures
        count_lt(s, p, 16, hi) == hi,
    decreases hi,
{
    if hi > 0 {
        lemma_count_lt_all(s, p, hi - 1);
        lemma_digit_range(s[hi - 1], p);
    }
}

/// First key of group `g` when `n` keys are tiled (clamped to `n`); a group
/// spans `GROUP_SIZE * BLOCK_COUNT == 2048` keys.
pub open spec fn group_lo(g: int, n: int) -> int {
    if g * 2048 < n {
        g * 2048
    } else {
        n
    }
}

/// Number of keys of `s[lo..hi]` whose pass-`p` digit is `d`.
pub open spec fn count_in(s: Seq<u32>, p: nat, d: int, lo: int, hi: int) -> int {
    count_eq(s, p, d, hi) - count_eq(s, p, d, lo)
}

pub proof fn lemma_count_eq_bound(s: Seq<u32>, p: nat, d: int, lo: int, hi: int)
    requires
        0 <= lo <= hi,
    ensures
        0 <= count_in(s, p, d, lo, hi) <= hi - lo,
    decreases hi - lo,
{
    if lo < hi {
        lemma_count_eq_bound(s, p, d, lo, hi - 1);
    }
}

/// Sum of the first `d` buckets of a histogram row.
pub open spec fn row_sum(row: Seq<u32>, d: int) -> int
    decreases d,
{
    if d <= 0 {
        0
    } else {
        row_sum(row, d - 1) + row[d - 1]
    }
}

/// A row that counts the digits of `s[lo..hi]` sums to `hi - lo`.
pub proof fn lemma_row_sum_counts(row: Seq<u32>, s: Seq<u32>, p: nat, lo: int, hi: int, d: int)
    requires
        0 <= lo <= hi <= s.len(),
        0 <= d <= 16,
        row.len() == 16,
        forall|e: int| 0 <= e < 16 ==> #[trigger] row[e] == count_in(s, p, e, lo, hi),
    ensures
        row_sum(row, d) == count_lt(s, p, d, hi) - count_lt(s, p, d, lo),
        d == 16 ==> row_sum(row, d) == hi - lo,
    decreases d,
{
    if d == 0 {
        lemma_count_lt_zero(s, p, hi);
        lemma_count_lt_zero(s, p, lo);
    } else {
        lemma_row_sum_counts(row, s, p, lo, hi, d - 1);
        lemma_count_lt_step(s, p, d - 1, hi);
        lemma_count_lt_step(s, p, d - 1, lo);
    }
    if d == 16 {
        lemma_count_lt_all(s, p, hi);
        lemma_count_lt_all(s, p, lo);
    }
}

/// `perm` maps each position of the output to a distinct position of an input of length `n`.
pub open spec fn is_index_map(perm: Seq<int>, n: int) -> bool {
    &&& perm.len() == n
    &&& forall|i: int| 0 <= i < n ==> 0 <= #[trigger] perm[i] < n
    &&& forall|i: int, j: int| 0 <= i < j < n ==> #[trigger] perm[i] != #[trigger] perm[j]
}

/// `out_k` / `out_v` are `in_k` / `in_v` rearranged by `perm`.
pub open spec fn follows(
    perm: Seq<int>,
    out_k: Seq<u32>,
    out_v: Seq<u32>,
    in_k: Seq<u32>,
    in_v: Seq<u32>,
) -> bool {
    &&& in_v.len() == in_k.len()
    &&& out_k.len() == in_k.len()
    &&& out_v.len() == in_k.len()
    &&& is_index_map(perm, in_k.len() as int)
    &&& forall|i: int|
        0 <= i < out_k.len() ==> #[trigger] out_k[i] == in_k[perm[i]] && out_v[i] == in_v[perm[i]]
}

/// Keys are ordered by their `p` lowest digits, ties kept in the order of `perm`.
pub open spec fn ordered_low(ks: Seq<u32>, perm: Seq<int>, p: nat) -> bool {
    forall|i: int, j: int|
        0 <= i < j < ks.len() ==> low_of(#[trigger] ks[i], p) < low_of(#[trigger] ks[j], p) || (
        low_of(ks[i], p) == low_of(ks[j], p) && perm[i] < perm[j])
}

/// `perm` witnesses that `out_k` / `out_v` is the stable ascending sort of
/// `in_k` / `in_v` by key.
pub open spec fn stable_witness(
    perm: Seq<int>,
    out_k: Seq<u32>,
    out_v: Seq<u32>,
    in_k: Seq<u32>,
    in_v: Seq<u32>,
) -> bool {
    &&& follows(perm, out_k, out_v, in_k, in_v)
    &&& forall|i: int, j: int|
        0 <= i < j < out_k.len() ==> #[trigger] out_k[i] < #[trigger] out_k[j] || (out_k[i]
            == out_k[j] && perm[i] < perm[j])
}

/// `out_k` / `out_v` is the stable ascending sort of the pairs `in_k` / `in_v` by key:
/// the same pairs, keys ascending, and pairs with equal keys in their input order.
pub open spec fn is_stable_sort_of(
    out_k: Seq<u32>,
    out_v: Seq<u32>,
    in_k: Seq<u32>,
    in_v: Seq<u32>,
) -> bool {
    exists|perm: Seq<int>| stable_witness(perm, out_k, out_v, in_k, in_v)
}

/// `out` holds the keys of `inp`, each position of `inp` used once.
pub open spec fn is_permutation_of(out: Seq<u32>, inp: Seq<u32>) -> bool {
    exists|perm: Seq<int>|
        is_index_map(perm, inp.len() as int) && out.len() == inp.len() && forall|i: int|
            0 <= i < out.len() ==> #[trigger] out[i] == inp[perm[i]]
}

/// Rearranging by an index map keeps the multiset of keys.
pub proof fn lemma_index_map_multiset(out: Seq<u32>, inp: Seq<u32>, perm: Seq<int>)
    requires
        is_index_map(perm, inp.len() as int),
        out.len() == inp.len(),
        forall|i: int| 0 <= i < out.len() ==> #[trigger] out[i] == inp[perm[i]],
    ensures
        out.to_multiset() == inp.to_multiset(),
    decreases inp.len(),
{
    broadcast use vstd::multiset::group_multiset_axioms;

    if inp.len() == 0 {
        assert(out =~= inp);
    } else {
        let n = inp.len() - 1;
        let j = perm[n];
        let out2 = out.drop_last();
        let inp2 = inp.remove(j);
        let perm2 = Seq::new(n as nat, |i: int| if perm[i] < j { perm[i] } else { perm[i] - 1 });
        assert forall|i: int| 0 <= i < n implies 0 <= #[trigger] perm2[i] < n by {
            assert(perm[i] != perm[n]);
        }
        assert forall|a: int, b: int| 0 <= a < b < n implies #[trigger] perm2[a]
            != #[trigger] perm2[b] by {
            assert(perm[a] != perm[b]);
            assert(perm[a] != j && perm[b] != j);
        }
        assert forall|i: int| 0 <= i < out2.len() implies #[trigger] out2[i] == inp2[perm2[i]] by {
            assert(out[i] == inp[perm[i]]);
            assert(perm[i] != perm[n]);
        }
        lemma_index_map_multiset(out2, inp2, perm2);
        assert(out =~= out2.push(out[n]));
        vstd::seq_lib::to_multiset_build(out2, out[n]);
        vstd::seq_lib::to_multiset_remove(inp, j);
        vstd::seq_lib::to_multiset_contains(inp, inp[j]);
        assert(inp.contains(inp[j]));
        assert(out[n] == inp[j]);
        assert(inp.to_multiset() =~= inp2.to_multiset().insert(inp[j]));
    }
}

/// Ascending order.
pub open spec fn is_sorted(s: Seq<u32>) -> bool {
    forall|i: int, j: int| 0 <= i < j < s.len() ==> #[trigger] s[i] <= #[trigger] s[j]
}

pub proof fn lemma_count_lt_le(s: Seq<u32>, p: nat, d: int, hi: int)
    requires
        0 <= hi,
    ensures
        count_lt(s, p, d, hi) <= hi,
    decreases hi,
{
    if hi > 0 {
        lemma_count_lt_le(s, p, d, hi - 1);
    }
}

/// `offsets` holds, for each group and digit, where that group's keys with
/// that digit start in the stable order of pass `p`.
pub open spec fn are_scatter_offsets(offsets: Seq<Seq<u32>>, ks: Seq<u32>, p: nat) -> bool {
    &&& offsets.len() * 2048 >= ks.len()
    &&& forall|g: int, d: int|
        0 <= g < offsets.len() && 0 <= d < 16 ==> #[trigger] offsets[g][d] == count_lt(
            ks,
            p,
            d,
            ks.len() as int,
        ) + count_eq(ks, p, d, group_lo(g, ks.len() as int))
}

/// Scatter stage of digit pass `p`: every key goes to the global offset of its
/// (group, digit) bucket plus its rank among the keys of that bucket.
pub(crate) fn scatter_pass(
    ck: &Vec<u32>,
    cv: &Vec<u32>,
    offsets: &Vec<[u32; 16]>,
    div: u32,
    Ghost(p): Ghost<nat>,
    Ghost(perm): Ghost<Seq<int>>,
    Ghost(in_k): Ghost<Seq<u32>>,
    Ghost(in_v): Ghost<Seq<u32>>,
) -> (r: (Vec<u32>, Vec<u32>, Ghost<Seq<int>>))
    requires
        div as int == pow16(p),
        follows(perm, ck@, cv@, in_k, in_v),
        ordered_low(ck@, perm, p),
        are_scatter_offsets(offsets@.map_values(|h: [u32; 16]| h@), ck@, p),
        offsets.len() <= 0x20_0000,
    ensures
        follows(r.2@, r.0@, r.1@, in_k, in_v),
        ordered_low(r.0@, r.2@, p + 1),
{
    let ghost offs = offsets@.map_values(|h: [u32; 16]| h@);
    let n = ck.len();
    let rows = offsets.len();
    let mut nk: Vec<u32> = Vec::new();
    let mut nv: Vec<u32> = Vec::new();
    let mut z: usize = 0;
    while z < n
        invariant
            z <= n,
            nk.len() == z,
            nv.len() == z,
        decreases n - z,
    {
        nk.push(0);
        nv.push(0);
        z = z + 1;
    }
    let ghost mut src: Seq<int> = Seq::empty();
    let mut d: u32 = 0;
    proof {
        lemma_count_lt_zero(ck@, p, n as int);
    }
    while d < 16
        invariant
            n == ck.len(),
            nk.len() == n,
            nv.len() == n,
            rows == offsets.len(),
            rows <= 0x20_0000,
            0 <= d <= 16,
            div as int == pow16(p),
            follows(perm, ck@, cv@, in_k, in_v),
            are_scatter_offsets(offs, ck@, p),
            offs == offsets@.map_values(|h: [u32; 16]| h@),
            src.len() == count_lt(ck@, p, d as int, n as int),
            forall|k: int|
                0 <= k < src.len() ==> 0 <= #[trigger] src[k] < n && nk[k] == ck[src[k]] && nv[k]
                    == cv[src[k]] && digit_of(ck[src[k]], p) < d,
            forall|k1: int, k2: int|
                0 <= k1 < k2 < src.len() ==> digit_of(ck[#[trigger] src[k1]], p) < digit_of(
                    ck[#[trigger] src[k2]],
                    p,
                ) || (digit_of(ck[src[k1]], p) == digit_of(ck[src[k2]], p) && src[k1] < src[k2]),
        decreases 16 - d,
    {
        let mut g: usize = 0;
        proof {
            lemma_count_lt_step(ck@, p, d as int, n as int);
            lemma_count_lt_le(ck@, p, d as int + 1, n as int);
        }
        while g < rows
            invariant
                n == ck.len(),
                nk.len() == n,
                nv.len() == n,
                rows == offsets.len(),
                rows <= 0x20_0000,
                0 <= d < 16,
                g <= rows,
                div as int == pow16(p),
                follows(perm, ck@, cv@, in_k, in_v),
                are_scatter_offsets(offs, ck@, p),
                offs == offsets@.map_values(|h: [u32; 16]| h@),
                count_lt(ck@, p, d as int + 1, n as int) == count_lt(ck@, p, d as int, n as int)
                    + count_eq(ck@, p, d as int, n as int),
                count_lt(ck@, p, d as int + 1, n as int) <= n,
                src.len() == count_lt(ck@, p, d as int, n as int) + count_eq(
                    ck@,
                    p,
                    d as int,
                    group_lo(g as int, n as int),
                ),
                forall|k: int|
                    0 <= k < src.len() ==> 0 <= #[trigger] src[k] < n && nk[k] == ck[src[k]]
                        && nv[k] == cv[src[k]] && (digit_of(ck[src[k]], p) < d || (digit_of(
                        ck[src[k]],
                        p,
                    ) == d && src[k] < group_lo(g as int, n as int))),
                forall|k1: int, k2: int|
                    0 <= k1 < k2 < src.len() ==> digit_of(ck[#[trigger] src[k1]], p) < digit_of(
                        ck[#[trigger] src[k2]],
                        p,
                    ) || (digit_of(ck[src[k1]], p) == digit_of(ck[src[k2]], p) && src[k1]
                        < src[k2]),
            decreases rows - g,
        {
            let a: u64 = g as u64 * 2048;
            let b: u64 = a + 2048;
            let lo: usize = if a < n as u64 {
                a as usize
            } else {
                n
            };
            let hi: usize = if b < n as u64 {
                b as usize
            } else {
                n
            };
            assert(lo == group_lo(g as int, n as int) && hi == group_lo(g + 1, n as int));
            let mut pos: usize = offsets[g][d as usize] as usize;
            assert(offs[g as int][d as int] == offsets@[g as int]@[d as int]);
            let mut i: usize = lo;
            while i < hi
                invariant
                    n == ck.len(),
                    nk.len() == n,
                    nv.len() == n,
                    0 <= d < 16,
                    lo <= i <= hi <= n,
                    div as int == pow16(p),
                    follows(perm, ck@, cv@, in_k, in_v),
                    count_lt(ck@, p, d as int + 1, n as int) == count_lt(ck@, p, d as int, n as int)
                        + count_eq(ck@, p, d as int, n as int),
                    count_lt(ck@, p, d as int + 1, n as int) <= n,
                    pos == src.len(),
                    src.len() == count_lt(ck@, p, d as int, n as int) + count_eq(
                        ck@,
                        p,
                        d as int,
                        i as int,
                    ),
                    forall|k: int|
                        0 <= k < src.len() ==> 0 <= #[trigger] src[k] < n && nk[k] == ck[src[k]]
                            && nv[k] == cv[src[k]] && (digit_of(ck[src[k]], p) < d || (digit_of(
                            ck[src[k]],
                            p,
                        ) == d && src[k] < i)),
                    forall|k1: int, k2: int|
                        0 <= k1 < k2 < src.len() ==> digit_of(ck[#[trigger] src[k1]], p)
                            < digit_of(ck[#[trigger] src[k2]], p) || (digit_of(ck[src[k1]], p)
                            == digit_of(ck[src[k2]], p) && src[k1] < src[k2]),
                decreases hi - i,
            {
                let k = ck[i];
                if digit(k, div, Ghost(p)) == d {
                    proof {
                        lemma_count_eq_bound(ck@, p, d as int, i as int + 1, n as int);
                    }
                    nk.set(pos, k);
                    nv.set(pos, cv[i]);
                    pos = pos + 1;
                    proof {
                        src = src.push(i as int);
                    }
                }
                i = i + 1;
            }
            g = g + 1;
        }
        assert(group_lo(rows as int, n as int) == n as int);
        d = d + 1;
    }
    proof {
        lemma_count_lt_all(ck@, p, n as int);
    }
    let ghost np: Seq<int> = Seq::new(n as nat, |k: int| perm[src[k]]);
    proof {
        assert forall|k1: int, k2: int| 0 <= k1 < k2 < n implies #[trigger] np[k1]
            != #[trigger] np[k2] by {
            assert(src[k1] != src[k2]);
        }
        assert forall|k1: int, k2: int| 0 <= k1 < k2 < nk.len() implies low_of(
            #[trigger] nk[k1],
            p + 1,
        ) < low_of(#[trigger] nk[k2], p + 1) || (low_of(nk[k1], p + 1) == low_of(nk[k2], p + 1)
            && np[k1] < np[k2]) by {
            let a = src[k1];
            let b = src[k2];
            lemma_low_order(ck[a], ck[b], p);
            if digit_of(ck[a], p) == digit_of(ck[b], p) {
                assert(a < b);
            }
        }
    }
    (nk, nv, Ghost(np))
}

} // verus!
