use vstd::prelude::*;
use crate::radix::{is_sorted, is_stable_sort_of, stable_witness};

verus! {

proof fn lemma_increasing_lower(perm: Seq<int>, i: int)
    requires
        0 <= i < perm.len(),
        forall|k: int| 0 <= k < perm.len() ==> 0 <= #[trigger] perm[k],
        forall|a: int, b: int| 0 <= a < b < perm.len() ==> #[trigger] perm[a] < #[trigger] perm[b],
    ensures
        perm[i] >= i,
    decreases i,
{
    if i > 0 {
        lemma_increasing_lower(perm, i - 1);
        assert(perm[i - 1] < perm[i]);
    }
}

proof fn lemma_increasing_upper(perm: Seq<int>, i: int)
    requires
        0 <= i < perm.len(),
        forall|k: int| 0 <= k < perm.len() ==> #[trigger] perm[k] < perm.len(),
        forall|a: int, b: int| 0 <= a < b < perm.len() ==> #[trigger] perm[a] < #[trigger] perm[b],
    ensures
        perm[i] <= i,
    decreases perm.len() - i,
{
    if i < perm.len() - 1 {
        lemma_increasing_upper(perm, i + 1);
        assert(perm[i] < perm[i + 1]);
    }
}

/// Sorting keys that are already ascending changes nothing: the stable sort of
/// an ascending key sequence is that sequence, with its payload in place.
pub proof fn lemma_sorted_input_unchanged(
    in_k: Seq<u32>,
    in_v: Seq<u32>,
    out_k: Seq<u32>,
    out_v: Seq<u32>,
)
    requires
        is_sorted(in_k),
        is_stable_sort_of(out_k, out_v, in_k, in_v),
    ensures
        out_k == in_k,
        out_v == in_v,
{
    let perm = choose|perm: Seq<int>| stable_witness(perm, out_k, out_v, in_k, in_v);
    let n = in_k.len() as int;
    assert forall|a: int, b: int| 0 <= a < b < n implies #[trigger] perm[a] < #[trigger] perm[b] by {
        assert(perm[a] != perm[b]);
        if perm[a] > perm[b] {
            assert(in_k[perm[b]] <= in_k[perm[a]]);
            assert(out_k[a] == in_k[perm[a]]);
            assert(out_k[b] == in_k[perm[b]]);
        }
    }
    assert forall|i: int| 0 <= i < n implies #[trigger] perm[i] == i by {
        lemma_increasing_lower(perm, i);
        lemma_increasing_upper(perm, i);
    }
    assert forall|i: int| 0 <= i < n implies #[trigger] out_v[i] == in_v[i] && out_k[i] == in_k[i] by {
        assert(out_k[i] == in_k[perm[i]]);
    }
    assert(out_k =~= in_k);
    assert(out_v =~= in_v);
}

} // verus!
