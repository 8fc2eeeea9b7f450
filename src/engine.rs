use vstd::prelude::*;
use vstd::arithmetic::div_mod::lemma_fundamental_div_mod_converse;
use crate::digits::{digit, lemma_low_full, pass_divisor, pow16};
use crate::radix::{
    count_eq, count_in, count_lt, follows, group_lo, is_index_map, is_permutation_of, is_sorted,
    is_stable_sort_of, lemma_count_eq_bound, lemma_count_lt_all, lemma_count_lt_step,
    lemma_count_lt_zero, lemma_index_map_multiset, lemma_row_sum_counts, ordered_low, row_sum, scatter_pass, stable_witness,
};
use crate::tiling::{
    group_count, lemma_group_count_bound, lemma_group_count_covers, spec_group_count, BLOCK_COUNT,
    PASSES,
};

verus! {

/// Why a sort call was refused.
#[derive(Debug, Clone, Copy, PartialEq, Eq, Structural)]
pub enum SortError {
    /// More keys than the scratch state was allocated for.
    CapacityExceeded,
    /// Key and payload arrays of different lengths.
    ShapeMismatch,
}

/// Persistent scratch state of the sort engine, sized once for a maximum key
/// count and reused across passes and calls.
pub struct SortStorage {
    n: u32,
    downsweep_args: Vec<u32>,
    histograms: Vec<[u32; 16]>,
}

impl SortStorage {
    /// The largest key count this state can serve.
    pub closed spec fn capacity_spec(&self) -> nat {
        self.n as nat
    }

    /// The per-pass scalars: active key count, keys per thread, digit shift.
    pub closed spec fn params_view(&self) -> Seq<u32> {
        self.downsweep_args@
    }

    /// The digit histogram of each thread group.
    pub closed spec fn hist_view(&self) -> Seq<Seq<u32>> {
        self.histograms@.map_values(|h: [u32; 16]| h@)
    }

    /// Shape of the buffers: three scalars, one 16-bucket row per group of the
    /// largest dispatch.
    pub closed spec fn wf(&self) -> bool {
        &&& self.downsweep_args@.len() == 3
        &&& self.histograms@.len() == spec_group_count(self.n as int)
    }

    /// The largest key count this state can serve.
    pub fn capacity(&self) -> (r: u32)
        ensures
            r == self.capacity_spec(),
    {
        self.n
    }

    /// The parameter buffer handed to the histogram kernel.
    pub fn params(&self) -> (r: &Vec<u32>)
        ensures
            r@ == self.params_view(),
    {
        &self.downsweep_args
    }

    /// The histogram buffer: one 16-bucket row per thread group.
    pub fn histograms(&self) -> (r: &Vec<[u32; 16]>)
        ensures
            r@.len() == self.hist_view().len(),
            forall|g: int| 0 <= g < r@.len() ==> (#[trigger] r@[g])@ == self.hist_view()[g],
    {
        &self.histograms
    }
}

/// Sum of all buckets of the first `g` histogram rows.
pub open spec fn hist_total(h: Seq<Seq<u32>>, g: int) -> int
    decreases g,
{
    if g <= 0 {
        0
    } else {
        hist_total(h, g - 1) + row_sum(h[g - 1], 16)
    }
}

/// Row `g` of `h` counts, bucket by bucket, the pass-`p` digits of group `g` of `keys`.
pub open spec fn is_histogram_of(h: Seq<Seq<u32>>, keys: Seq<u32>, p: nat) -> bool {
    forall|g: int, d: int|
        0 <= g < h.len() && 0 <= d < 16 ==> #[trigger] h[g][d] == count_in(
            keys,
            p,
            d,
            group_lo(g, keys.len() as int),
            group_lo(g + 1, keys.len() as int),
        )
}

proof fn lemma_hist_total(h: Seq<Seq<u32>>, keys: Seq<u32>, p: nat, g: int)
    requires
        is_histogram_of(h, keys, p),
        0 <= g <= h.len(),
        forall|k: int| 0 <= k < h.len() ==> (#[trigger] h[k]).len() == 16,
    ensures
        hist_total(h, g) == group_lo(g, keys.len() as int),
    decreases g,
{
    if g > 0 {
        lemma_hist_total(h, keys, p, g - 1);
        let n = keys.len() as int;
        let lo = group_lo(g - 1, n);
        let hi = group_lo(g, n);
        assert forall|e: int| 0 <= e < 16 implies #[trigger] h[g - 1][e] == count_in(
            keys,
            p,
            e,
            lo,
            hi,
        ) by {}
        lemma_row_sum_counts(h[g - 1], keys, p, lo, hi, 16);
    }
}

/// Bucket `k` of the histograms in digit-major order: digit `k / G` of group `k % G`,
/// where `G` is the number of groups.
pub open spec fn flat_val(h: Seq<Seq<u32>>, k: int) -> int {
    h[k % (h.len() as int)][k / (h.len() as int)] as int
}

/// Sum of the first `k` buckets in digit-major order.
pub open spec fn flat_prefix(h: Seq<Seq<u32>>, k: int) -> int
    decreases k,
{
    if k <= 0 {
        0
    } else {
        flat_prefix(h, k - 1) + flat_val(h, k - 1)
    }
}

proof fn lemma_flat_index(k: int, gs: int, d: int, g: int)
    requires
        gs > 0,
        0 <= g < gs,
        0 <= d,
        k == d * gs + g,
    ensures
        k % gs == g,
        k / gs == d,
{
    lemma_fundamental_div_mod_converse(k, gs, d, g);
}

proof fn lemma_flat_prefix_mono(h: Seq<Seq<u32>>, a: int, b: int)
    requires
        0 <= a <= b,
    ensures
        flat_prefix(h, a) <= flat_prefix(h, b),
    decreases b - a,
{
    if a < b {
        lemma_flat_prefix_mono(h, a, b - 1);
    }
}

/// Over histograms of `keys`, the digit-major prefix before bucket (`g`, `d`) is
/// the number of keys with a smaller digit plus the keys with digit `d` in the
/// groups before `g`: where the keys of that bucket start in a stable order.
pub proof fn lemma_flat_prefix_counts(h: Seq<Seq<u32>>, keys: Seq<u32>, p: nat, d: int, g: int)
    requires
        is_histogram_of(h, keys, p),
        h.len() > 0,
        h.len() * 2048 >= keys.len(),
        forall|k: int| 0 <= k < h.len() ==> (#[trigger] h[k]).len() == 16,
        0 <= d < 16 && 0 <= g < h.len() || d == 16 && g == 0,
    ensures
        flat_prefix(h, d * h.len() as int + g) == count_lt(keys, p, d, keys.len() as int) + count_eq(
            keys,
            p,
            d,
            group_lo(g, keys.len() as int),
        ),
    decreases d, g,
{
    let gs = h.len() as int;
    let n = keys.len() as int;
    let k = d * gs + g;
    if g > 0 {
        lemma_flat_prefix_counts(h, keys, p, d, g - 1);
        lemma_flat_index(k - 1, gs, d, g - 1);
        assert(flat_prefix(h, k) == flat_prefix(h, k - 1) + flat_val(h, k - 1));
        assert(h[g - 1][d] == count_in(keys, p, d, group_lo(g - 1, n), group_lo(g, n)));
    } else if d > 0 {
        lemma_flat_prefix_counts(h, keys, p, d - 1, gs - 1);
        assert((d - 1) * gs + (gs - 1) == k - 1) by (nonlinear_arith)
            requires
                k == d * gs + g,
                g == 0,
        ;
        lemma_flat_index(k - 1, gs, d - 1, gs - 1);
        assert(flat_prefix(h, k) == flat_prefix(h, k - 1) + flat_val(h, k - 1));
        assert(h[gs - 1][d - 1] == count_in(keys, p, d - 1, group_lo(gs - 1, n), group_lo(gs, n)));
        assert(group_lo(gs, n) == n);
        lemma_count_lt_step(keys, p, d - 1, n);
        assert(group_lo(0, n) == 0);
        assert(count_eq(keys, p, d, 0) == 0);
    } else {
        assert(k == 0) by (nonlinear_arith)
            requires
                k == d * gs + g,
                g == 0,
                d == 0,
        ;
        lemma_count_lt_zero(keys, p, n);
        assert(group_lo(0, n) == 0);
        assert(count_eq(keys, p, d, 0) == 0);
    }
}

/// Allocates the scratch state for sorting at most `n` keys.
pub fn allocate_sort_storage(n: u32) -> (s: SortStorage)
    ensures
        s.wf(),
        s.capacity_spec() == n,
        s.params_view() == seq![0u32, 0u32, 0u32],
        s.hist_view().len() == spec_group_count(n as int),
        forall|g: int| 0 <= g < s.hist_view().len() ==> #[trigger] s.hist_view()[g] == Seq::new(16, |d: int| 0u32),
{
    let groups = group_count(n);
    let mut histograms: Vec<[u32; 16]> = Vec::new();
    let mut g: u32 = 0;
    while g < groups
        invariant
            g <= groups,
            histograms@.len() == g,
            forall|k: int| 0 <= k < g ==> (#[trigger] histograms@[k])@ == Seq::new(16, |d: int| 0u32),
        decreases groups - g,
    {
        let row: [u32; 16] = [0u32; 16];
        proof {
            assert(row@ =~= Seq::new(16, |d: int| 0u32));
        }
        histograms.push(row);
        g = g + 1;
    }
    let s = SortStorage { n, downsweep_args: vec![0u32, 0u32, 0u32], histograms };
    proof {
        assert(s.params_view() =~= seq![0u32, 0u32, 0u32]);
    }
    s
}

/// Histogram stage of digit pass `pass`: records the pass scalars and, for every
/// thread group, how many of its keys carry each digit.
pub fn sort_upsweep(storage: &mut SortStorage, keys: &Vec<u32>, pass: u32) -> (r: Result<
    (),
    SortError,
>)
    requires
        old(storage).wf(),
        pass < PASSES,
    ensures
        final(storage).wf(),
        final(storage).capacity_spec() == old(storage).capacity_spec(),
        keys.len() > old(storage).capacity_spec() ==> r == Err::<(), SortError>(
            SortError::CapacityExceeded,
        ) && *final(storage) == *old(storage),
        keys.len() <= old(storage).capacity_spec() ==> {
            &&& r is Ok
            &&& final(storage).params_view() == seq![keys.len() as u32, BLOCK_COUNT, (4 * pass) as u32]
            &&& is_histogram_of(final(storage).hist_view(), keys@, pass as nat)
            &&& hist_total(final(storage).hist_view(), final(storage).hist_view().len() as int)
                == keys.len()
            &&& flat_prefix(final(storage).hist_view(), 16 * final(storage).hist_view().len() as int)
                == keys.len()
        },
{
    let n = keys.len();
    if n > storage.n as usize {
        return Err(SortError::CapacityExceeded);
    }
    storage.downsweep_args.set(0, n as u32);
    storage.downsweep_args.set(1, BLOCK_COUNT);
    storage.downsweep_args.set(2, 4 * pass);
    let div = pass_divisor(pass);
    let ghost p: nat = pass as nat;
    let rows = storage.histograms.len();
    proof {
        lemma_group_count_bound(storage.n as int);
    }
    let mut g: usize = 0;
    while g < rows
        invariant
            n == keys.len(),
            n <= storage.n,
            rows == storage.histograms@.len(),
            rows <= 0x20_0000,
            storage.wf(),
            storage.n == old(storage).n,
            storage.downsweep_args@ == seq![n as u32, BLOCK_COUNT, (4 * pass) as u32],
            div as int == pow16(p),
            p == pass,
            g <= rows,
            forall|k: int, d: int|
                0 <= k < g && 0 <= d < 16 ==> #[trigger] storage.histograms@[k]@[d] == count_in(
                    keys@,
                    p,
                    d,
                    group_lo(k, n as int),
                    group_lo(k + 1, n as int),
                ),
        decreases rows - g,
    {
        let a: u64 = g as u64 * 2048;
        let b: u64 = a + 2048;
        let lo: usize = if a < n as u64 {
            a as usize
        } else {
            n
        };
        let hi: usize = if b < n as u64 {
            b as usize
        } else {
            n
        };
        assert(lo == group_lo(g as int, n as int) && hi == group_lo(g + 1, n as int));
        let mut row: [u32; 16] = [0u32; 16];
        let mut i: usize = lo;
        while i < hi
            invariant
                n == keys.len(),
                lo <= i <= hi <= n,
                hi - lo <= 2048,
                div as int == pow16(p),
                forall|d: int| 0 <= d < 16 ==> #[trigger] row@[d] == count_in(keys@, p, d, lo as int, i as int),
            decreases hi - i,
        {
            let dg = digit(keys[i], div, Ghost(p));
            proof {
                lemma_count_eq_bound(keys@, p, dg as int, lo as int, i as int);
            }
            let c = row[dg as usize];
            row[dg as usize] = c + 1;
            i = i + 1;
        }
        storage.histograms.set(g, row);
        g = g + 1;
    }
    proof {
        let h = storage.hist_view();
        assert forall|k: int| 0 <= k < h.len() implies (#[trigger] h[k]).len() == 16 by {}
        assert(is_histogram_of(h, keys@, p));
        lemma_hist_total(h, keys@, p, h.len() as int);
        lemma_group_count_covers(storage.n as int);
        if h.len() > 0 {
            lemma_flat_prefix_counts(h, keys@, p, 16, 0);
            lemma_count_lt_all(keys@, p, n as int);
        }
    }
    Ok(())
}

/// Scan stage: turns the per-group histograms, in place, into the exclusive
/// prefix sums over all (group, digit) buckets in digit-major order, which are
/// the global write offsets of the scatter stage.
pub fn sort_scan(storage: &mut SortStorage)
    requires
        old(storage).wf(),
        flat_prefix(old(storage).hist_view(), 16 * old(storage).hist_view().len() as int)
            <= u32::MAX,
    ensures
        final(storage).wf(),
        final(storage).capacity_spec() == old(storage).capacity_spec(),
        final(storage).params_view() == old(storage).params_view(),
        final(storage).hist_view().len() == old(storage).hist_view().len(),
        forall|g: int, d: int|
            0 <= g < old(storage).hist_view().len() && 0 <= d < 16 ==> #[trigger] final(storage).hist_view()[g][d] == flat_prefix(
                old(storage).hist_view(),
                d * old(storage).hist_view().len() as int + g,
            ),
{
    let ghost h0 = storage.hist_view();
    let rows = storage.histograms.len();
    let ghost gs = rows as int;
    let mut running: u32 = 0;
    let mut d: usize = 0;
    while d < 16
        invariant
            storage.wf(),
            storage.n == old(storage).n,
            storage.downsweep_args == old(storage).downsweep_args,
            h0 == old(storage).hist_view(),
            rows == storage.histograms@.len(),
            rows == h0.len(),
            gs == rows,
            flat_prefix(h0, 16 * gs) <= u32::MAX,
            d <= 16,
            running == flat_prefix(h0, d * gs),
            forall|g2: int, d2: int|
                0 <= g2 < rows && 0 <= d2 < 16 ==> #[trigger] storage.histograms@[g2]@[d2] == if d2
                    < d {
                    flat_prefix(h0, d2 * gs + g2)
                } else {
                    h0[g2][d2] as int
                },
        decreases 16 - d,
    {
        let mut g: usize = 0;
        while g < rows
            invariant
                storage.wf(),
                storage.n == old(storage).n,
                storage.downsweep_args == old(storage).downsweep_args,
                rows == storage.histograms@.len(),
                rows == h0.len(),
                gs == rows,
                flat_prefix(h0, 16 * gs) <= u32::MAX,
                d < 16,
                g <= rows,
                running == flat_prefix(h0, d * gs + g),
                forall|g2: int, d2: int|
                    0 <= g2 < rows && 0 <= d2 < 16 ==> #[trigger] storage.histograms@[g2]@[d2]
                        == if d2 < d || (d2 == d && g2 < g) {
                        flat_prefix(h0, d2 * gs + g2)
                    } else {
                        h0[g2][d2] as int
                    },
            decreases rows - g,
        {
            let mut row = storage.histograms[g];
            let c = row[d];
            proof {
                lemma_flat_index(d * gs + g, gs, d as int, g as int);
                assert(d * gs + g + 1 <= 16 * gs) by (nonlinear_arith)
                    requires
                        d < 16,
                        g < gs,
                ;
                lemma_flat_prefix_mono(h0, d * gs + g + 1, 16 * gs);
            }
            row[d] = running;
            storage.histograms.set(g, row);
            running = running + c;
            g = g + 1;
        }
        proof {
            assert(d * gs + gs == (d + 1) * gs) by (nonlinear_arith);
        }
        d = d + 1;
    }
}

/// Stable ascending sort of `keys`, with `values` moved in lockstep: eight
/// digit passes of histogram and scatter, least significant digit first.
pub fn sort_pairs(storage: &mut SortStorage, keys: &Vec<u32>, values: &Vec<u32>) -> (r: Result<
    (Vec<u32>, Vec<u32>),
    SortError,
>)
    requires
        old(storage).wf(),
    ensures
        final(storage).wf(),
        final(storage).capacity_spec() == old(storage).capacity_spec(),
        keys.len() != values.len() ==> r == Err::<(Vec<u32>, Vec<u32>), SortError>(
            SortError::ShapeMismatch,
        ),
        keys.len() == values.len() && keys.len() > old(storage).capacity_spec() ==> r == Err::<
            (Vec<u32>, Vec<u32>),
            SortError,
        >(SortError::CapacityExceeded),
        keys.len() == values.len() && keys.len() <= old(storage).capacity_spec() ==> (r matches Ok(
            (ok, ov),
        ) && is_stable_sort_of(ok@, ov@, keys@, values@)),
{
    if keys.len() != values.len() {
        return Err(SortError::ShapeMismatch);
    }
    if keys.len() > storage.n as usize {
        return Err(SortError::CapacityExceeded);
    }
    let n = keys.len();
    let mut ck: Vec<u32> = Vec::new();
    let mut cv: Vec<u32> = Vec::new();
    let mut i: usize = 0;
    while i < n
        invariant
            n == keys.len(),
            n == values.len(),
            i <= n,
            ck@ == keys@.subrange(0, i as int),
            cv@ == values@.subrange(0, i as int),
        decreases n - i,
    {
        ck.push(keys[i]);
        cv.push(values[i]);
        i = i + 1;
        proof {
            assert(ck@ =~= keys@.subrange(0, i as int));
            assert(cv@ =~= values@.subrange(0, i as int));
        }
    }
    proof {
        assert(ck@ =~= keys@);
        assert(cv@ =~= values@);
    }
    let ghost mut perm: Seq<int> = Seq::new(n as nat, |k: int| k);
    let mut pass: u32 = 0;
    while pass < PASSES
        invariant
            n == keys.len(),
            n <= storage.n,
            storage.wf(),
            storage.n == old(storage).n,
            pass <= PASSES,
            follows(perm, ck@, cv@, keys@, values@),
            ordered_low(ck@, perm, pass as nat),
        decreases PASSES - pass,
    {
        let counted = sort_upsweep(storage, &ck, pass);
        proof {
            assert(counted is Ok);
            lemma_group_count_covers(storage.n as int);
        }
        let ghost hist = storage.hist_view();
        sort_scan(storage);
        proof {
            let offs = storage.histograms@.map_values(|h: [u32; 16]| h@);
            let gs = hist.len() as int;
            assert forall|g: int, d: int| 0 <= g < gs && 0 <= d < 16 implies #[trigger] offs[g][d]
                == count_lt(ck@, pass as nat, d, n as int) + count_eq(
                ck@,
                pass as nat,
                d,
                group_lo(g, n as int),
            ) by {
                assert forall|k: int| 0 <= k < hist.len() implies (#[trigger] hist[k]).len() == 16 by {}
                lemma_flat_prefix_counts(hist, ck@, pass as nat, d, g);
                assert(offs[g] == storage.hist_view()[g]);
            }
        }
        proof {
            lemma_group_count_bound(storage.n as int);
        }
        let div = pass_divisor(pass);
        let (nk, nv, Ghost(np)) = scatter_pass(
            &ck,
            &cv,
            &storage.histograms,
            div,
            Ghost(pass as nat),
            Ghost(perm),
            Ghost(keys@),
            Ghost(values@),
        );
        ck = nk;
        cv = nv;
        proof {
            perm = np;
        }
        pass = pass + 1;
    }
    proof {
        assert forall|a: int, b: int| 0 <= a < b < ck@.len() implies #[trigger] ck@[a]
            < #[trigger] ck@[b] || (ck@[a] == ck@[b] && perm[a] < perm[b]) by {
            lemma_low_full(ck@[a]);
            lemma_low_full(ck@[b]);
        }
        assert(stable_witness(perm, ck@, cv@, keys@, values@));
    }
    Ok((ck, cv))
}

/// Ascending sort of `keys`.
pub fn sort(storage: &mut SortStorage, keys: &Vec<u32>) -> (r: Result<Vec<u32>, SortError>)
    requires
        old(storage).wf(),
    ensures
        final(storage).wf(),
        final(storage).capacity_spec() == old(storage).capacity_spec(),
        keys.len() > old(storage).capacity_spec() ==> r == Err::<Vec<u32>, SortError>(
            SortError::CapacityExceeded,
        ),
        keys.len() <= old(storage).capacity_spec() ==> (r matches Ok(out) && is_sorted(
            out@,
        ) && is_permutation_of(out@, keys@) && out@.to_multiset() == keys@.to_multiset()
            && is_stable_sort_of(out@, out@, keys@, keys@)),
{
    match sort_pairs(storage, keys, keys) {
        Ok((out, side)) => {
            proof {
                let perm = choose|perm: Seq<int>| stable_witness(perm, out@, side@, keys@, keys@);
                assert(is_index_map(perm, keys@.len() as int));
                lemma_index_map_multiset(out@, keys@, perm);
                assert(is_sorted(out@));
                assert(out@ =~= side@);
            }
            Ok(out)
        },
        Err(e) => Err(e),
    }
}

} // verus!
