//! Reordering candidates along a tour given as positions.
use vstd::prelude::*;

verus! {

/// The candidates visited by `route`, in route order: `route` lists positions
/// into `candidates`.
pub fn tour_points<P: Copy>(candidates: &Vec<P>, route: &Vec<usize>) -> (res: Vec<P>)
    requires
        forall|k: int| 0 <= k < route.len() ==> #[trigger] route@[k] < candidates.len(),
    ensures
        res.len() == route.len(),
        forall|k: int| 0 <= k < route.len() ==> #[trigger] res@[k] == candidates@[route@[k] as int],
{
    let n = route.len();
    let mut res: Vec<P> = Vec::new();
    let mut k: usize = 0;
    while k < n
        invariant
            n == route.len(),
            k <= n,
            res.len() == k,
            forall|j: int| 0 <= j < route.len() ==> #[trigger] route@[j] < candidates.len(),
            forall|j: int| 0 <= j < k ==> #[trigger] res@[j] == candidates@[route@[j] as int],
        decreases n - k,
    {
        res.push(candidates[route[k]]);
        k = k + 1;
    }
    res
}

/// Whether `route` visits every position below `n`.
pub open spec fn covers_all(route: Seq<usize>, n: nat) -> bool {
    forall|i: int| 0 <= i < n ==> #[trigger] route.contains(i as usize)
}

/// A tour whose route visits every position holds every candidate.
pub proof fn law_full_tour_holds_every_candidate<P>(candidates: Seq<P>, route: Seq<usize>, res: Seq<P>)
    requires
        candidates.len() <= usize::MAX,
        forall|k: int| 0 <= k < route.len() ==> #[trigger] route[k] < candidates.len(),
        res.len() == route.len(),
        forall|k: int| 0 <= k < route.len() ==> #[trigger] res[k] == candidates[route[k] as int],
        covers_all(route, candidates.len()),
    ensures
        forall|i: int| 0 <= i < candidates.len() ==> res.contains(#[trigger] candidates[i]),
{
    assert forall|i: int| 0 <= i < candidates.len() implies res.contains(#[trigger] candidates[i]) by {
        assert(route.contains(i as usize));
        let k = choose|k: int| 0 <= k < route.len() && route[k] == i as usize;
        assert(res[k] == candidates[i]);
    }
}

} // verus!
