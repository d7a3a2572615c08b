//! Sampling of grid candidates: the cells of a `dim` by `dim` grid that a
//! predicate keeps, shuffled, and cut down to the requested number.
use vstd::prelude::*;
use rand::rngs::SmallRng;
use rand::Rng;

verus! {

broadcast use vstd::seq_lib::group_to_multiset_ensures;

#[verifier::external_type_specification]
#[verifier::external_body]
pub struct ExSmallRng(SmallRng);

/// Shuffles `items` in place with rand's `Rng::shuffle` on `rng`. That method
/// only swaps elements of the slice (a Fisher-Yates shuffle), so the contract
/// claims that the result is a rearrangement of the input; which rearrangement
/// comes out depends on the state of `rng` and is left unsaid, as is the new
/// state of `rng`.
#[verifier::external_body]
#[allow(deprecated)]
fn shuffle_in_place<T>(rng: &mut SmallRng, items: &mut Vec<T>)
    ensures
        final(items)@.to_multiset() == old(items)@.to_multiset(),
{
    rng.shuffle(items.as_mut_slice());
}

/// The cells `(x, y)` with `y < n` of row `x` that `row` keeps, in increasing `y`.
pub open spec fn row_cells(row: Seq<bool>, x: usize, n: nat) -> Seq<(usize, usize)>
    decreases n,
{
    if n == 0 {
        seq![]
    } else {
        let rest = row_cells(row, x, (n - 1) as nat);
        if row[n - 1] {
            rest.push((x, (n - 1) as usize))
        } else {
            rest
        }
    }
}

/// The cells of the first `x` rows of a grid with `dim` columns that `keep`
/// keeps, row by row.
pub open spec fn grid_cells(keep: Seq<Seq<bool>>, dim: nat, x: nat) -> Seq<(usize, usize)>
    decreases x,
{
    if x == 0 {
        seq![]
    } else {
        grid_cells(keep, dim, (x - 1) as nat) + row_cells(keep[x - 1], (x - 1) as usize, dim)
    }
}

/// The predicate answers over the grid as plain sequences.
pub open spec fn keep_view(keep: Seq<Vec<bool>>) -> Seq<Seq<bool>> {
    keep.map_values(|row: Vec<bool>| row@)
}

/// `s` holds the same elements as `all`, as often, in some order.
pub open spec fn is_rearrangement<T>(s: Seq<T>, all: Seq<T>) -> bool {
    s.to_multiset() == all.to_multiset()
}

/// The smaller of two counts.
pub open spec fn min_count(a: int, b: int) -> int {
    if a <= b {
        a
    } else {
        b
    }
}

proof fn lemma_row_cells(row: Seq<bool>, x: usize, n: nat)
    requires
        n <= row.len(),
        n <= usize::MAX + 1,
    ensures
        forall|k: int| 0 <= k < row_cells(row, x, n).len() ==> {
            let c = #[trigger] row_cells(row, x, n)[k];
            &&& c.0 == x
            &&& c.1 < n
            &&& row[c.1 as int]
        },
        forall|k1: int, k2: int|
            0 <= k1 < k2 < row_cells(row, x, n).len() ==> #[trigger] row_cells(row, x, n)[k1].1
                < #[trigger] row_cells(row, x, n)[k2].1,
        forall|y: int| 0 <= y < n && row[y] ==> row_cells(row, x, n).contains((x, y as usize)),
    decreases n,
{
    if n > 0 {
        lemma_row_cells(row, x, (n - 1) as nat);
        let rest = row_cells(row, x, (n - 1) as nat);
        if row[n - 1] {
            assert(rest.push((x, (n - 1) as usize))[rest.len() as int] == (x, (n - 1) as usize));
            assert forall|y: int| 0 <= y < n && row[y] implies row_cells(row, x, n).contains((x, y as usize)) by {
                if y < n - 1 {
                    let k = choose|k: int| 0 <= k < rest.len() && rest[k] == (x, y as usize);
                    assert(row_cells(row, x, n)[k] == (x, y as usize));
                } else {
                    assert(row_cells(row, x, n)[rest.len() as int] == (x, y as usize));
                }
            }
        }
    }
}

proof fn lemma_grid_cells(keep: Seq<Seq<bool>>, dim: nat, x: nat)
    requires
        x <= keep.len(),
        forall|i: int| 0 <= i < keep.len() ==> #[trigger] keep[i].len() == dim,
        keep.len() <= usize::MAX,
        dim <= usize::MAX,
    ensures
        forall|k: int| 0 <= k < grid_cells(keep, dim, x).len() ==> {
            let c = #[trigger] grid_cells(keep, dim, x)[k];
            &&& c.0 < x
            &&& c.1 < dim
            &&& keep[c.0 as int][c.1 as int]
        },
        grid_cells(keep, dim, x).no_duplicates(),
        forall|i: int, j: int|
            0 <= i < x && 0 <= j < dim && keep[i][j] ==> grid_cells(keep, dim, x).contains((i as usize, j as usize)),
    decreases x,
{
    if x > 0 {
        lemma_grid_cells(keep, dim, (x - 1) as nat);
        let a = grid_cells(keep, dim, (x - 1) as nat);
        let b = row_cells(keep[x - 1], (x - 1) as usize, dim);
        lemma_row_cells(keep[x - 1], (x - 1) as usize, dim);
        let g = grid_cells(keep, dim, x);
        assert(g == a + b);
        assert forall|k: int| 0 <= k < g.len() implies {
            let c = #[trigger] g[k];
            &&& c.0 < x
            &&& c.1 < dim
            &&& keep[c.0 as int][c.1 as int]
        } by {
            if k < a.len() {
                assert(g[k] == a[k]);
            } else {
                assert(g[k] == b[k - a.len()]);
            }
        }
        assert forall|k1: int, k2: int| 0 <= k1 < g.len() && 0 <= k2 < g.len() && k1 != k2 implies g[k1] != g[k2] by {
            if k1 < a.len() && k2 < a.len() {
                assert(g[k1] == a[k1] && g[k2] == a[k2]);
            } else if k1 >= a.len() && k2 >= a.len() {
                assert(g[k1] == b[k1 - a.len()] && g[k2] == b[k2 - a.len()]);
                if k1 < k2 {
                    assert(b[k1 - a.len()].1 < b[k2 - a.len()].1);
                } else {
                    assert(b[k2 - a.len()].1 < b[k1 - a.len()].1);
                }
            } else if k1 < a.len() {
                assert(g[k1] == a[k1] && g[k2] == b[k2 - a.len()]);
            } else {
                assert(g[k2] == a[k2] && g[k1] == b[k1 - a.len()]);
            }
        }
        assert forall|i: int, j: int| 0 <= i < x && 0 <= j < dim && keep[i][j] implies g.contains((i as usize, j as usize)) by {
            if i < x - 1 {
                let k = choose|k: int| 0 <= k < a.len() && a[k] == (i as usize, j as usize);
                assert(g[k] == (i as usize, j as usize));
            } else {
                let k = choose|k: int| 0 <= k < b.len() && b[k] == (i as usize, j as usize);
                assert(g[a.len() + k] == (i as usize, j as usize));
            }
        }
    }
}

/// The cells that `keep` keeps, row by row.
fn kept_cells(keep: &Vec<Vec<bool>>, dim: usize) -> (res: Vec<(usize, usize)>)
    requires
        keep.len() == dim,
        forall|i: int| 0 <= i < keep.len() ==> #[trigger] keep@[i].len() == dim,
    ensures
        res@ == grid_cells(keep_view(keep@), dim as nat, dim as nat),
{
    let ghost kv = keep_view(keep@);
    let mut res: Vec<(usize, usize)> = Vec::new();
    let mut x: usize = 0;
    while x < dim
        invariant
            keep.len() == dim,
            kv == keep_view(keep@),
            forall|i: int| 0 <= i < keep.len() ==> #[trigger] keep@[i].len() == dim,
            x <= dim,
            res@ == grid_cells(kv, dim as nat, x as nat),
        decreases dim - x,
    {
        let row = &keep[x];
        assert(row@ == kv[x as int]);
        let ghost before = res@;
        let mut y: usize = 0;
        while y < dim
            invariant
                row.len() == dim,
                row@ == kv[x as int],
                y <= dim,
                res@ == before + row_cells(row@, x, y as nat),
            decreases dim - y,
        {
            if row[y] {
                res.push((x, y));
            }
            proof {
                assert(before + row_cells(row@, x, (y + 1) as nat) =~= if row@[y as int] {
                    (before + row_cells(row@, x, y as nat)).push((x, y))
                } else {
                    before + row_cells(row@, x, y as nat)
                });
            }
            y = y + 1;
        }
        x = x + 1;
    }
    res
}

/// The first `samples` items of `items` (all of them when there are fewer).
pub fn take_samples<T>(items: Vec<T>, samples: usize) -> (res: Vec<T>)
    ensures
        res@ == items@.take(min_count(samples as int, items.len() as int)),
{
    let mut res = items;
    res.truncate(samples);
    proof {
        if samples >= items.len() {
            assert(items@.take(items.len() as int) =~= items@);
        }
    }
    res
}

/// Samples up to `samples` cells of a `dim` by `dim` grid among those that
/// `keep` keeps (`keep[x][y]` for cell `(x, y)`): the kept cells, listed row by
/// row, are shuffled with `rng`, and the first `samples` of them are returned.
pub fn sample_2d_candidates(keep: &Vec<Vec<bool>>, dim: usize, samples: usize, rng: &mut SmallRng) -> (res: Vec<(usize, usize)>)
    requires
        keep.len() == dim,
        forall|i: int| 0 <= i < keep.len() ==> #[trigger] keep@[i].len() == dim,
    ensures
        res.len() == min_count(samples as int, grid_cells(keep_view(keep@), dim as nat, dim as nat).len() as int),
        exists|s: Seq<(usize, usize)>|
            #[trigger] is_rearrangement(s, grid_cells(keep_view(keep@), dim as nat, dim as nat)) && res@ == s.take(res.len() as int),
        forall|k: int| 0 <= k < res.len() ==> {
            let c = #[trigger] res@[k];
            &&& c.0 < dim
            &&& c.1 < dim
            &&& keep@[c.0 as int]@[c.1 as int]
        },
        res@.no_duplicates(),
        samples >= grid_cells(keep_view(keep@), dim as nat, dim as nat).len() ==> forall|x: int, y: int|
            0 <= x < dim && 0 <= y < dim && keep@[x]@[y] ==> res@.contains((x as usize, y as usize)),
{
    let mut cells = kept_cells(keep, dim);
    let ghost all = cells@;
    proof {
        let kv = keep_view(keep@);
        assert(kv.len() == keep@.len());
        assert forall|i: int| 0 <= i < kv.len() implies #[trigger] kv[i].len() == dim by {
            assert(kv[i] == keep@[i]@);
            assert(keep@[i].len() == dim);
        }
        lemma_grid_cells(kv, dim as nat, dim as nat);
    }
    shuffle_in_place(rng, &mut cells);
    let ghost s = cells@;
    proof {
        assert(s.len() == s.to_multiset().len());
        assert(all.len() == all.to_multiset().len());
    }
    let cells = take_samples(cells, samples);
    proof {
        let kv = keep_view(keep@);
        assert(is_rearrangement(s, all));
        all.lemma_multiset_has_no_duplicates();
        s.lemma_multiset_has_no_duplicates_conv();
        assert forall|k: int| 0 <= k < cells.len() implies {
            let c = #[trigger] cells@[k];
            &&& c.0 < dim
            &&& c.1 < dim
            &&& keep@[c.0 as int]@[c.1 as int]
        } by {
            assert(cells@[k] == s[k]);
            assert(s.contains(s[k]));
            assert(s.to_multiset().count(s[k]) > 0);
            assert(all.to_multiset().count(s[k]) > 0);
            assert(all.contains(s[k]));
            let j = choose|j: int| 0 <= j < all.len() && all[j] == s[k];
            assert(kv[s[k].0 as int] == keep@[s[k].0 as int]@);
        }
        assert(cells@.no_duplicates());
        if samples >= all.len() {
            assert(cells@ == s);
            assert forall|x: int, y: int|
                0 <= x < dim && 0 <= y < dim && keep@[x]@[y] implies cells@.contains((x as usize, y as usize)) by {
                assert(kv[x] == keep@[x]@);
                assert(all.contains((x as usize, y as usize)));
                assert(all.to_multiset().count((x as usize, y as usize)) > 0);
                assert(s.to_multiset().count((x as usize, y as usize)) > 0);
            }
        }
    }
    cells
}

} // verus!
