//! Grouping of candidate points by proximity: each point joins the first group
//! that already holds a point near it, or opens a group of its own.
use vstd::prelude::*;

verus! {

/// The nearness table as plain sequences: `near[i][j]` (for `j < i`) tells
/// whether item `i` is near the earlier item `j`.
pub open spec fn table_view(near: Seq<Vec<bool>>) -> Seq<Seq<bool>> {
    near.map_values(|row: Vec<bool>| row@)
}

/// The groups of indices as plain sequences.
pub open spec fn groups_view(groups: Seq<Vec<usize>>) -> Seq<Seq<usize>> {
    groups.map_values(|g: Vec<usize>| g@)
}

/// Whether some member of `group` is near the item whose row of the table is `row`.
pub open spec fn has_near_member(group: Seq<usize>, row: Seq<bool>) -> bool {
    exists|k: int| 0 <= k < group.len() && #[trigger] row[group[k] as int]
}

/// The first group, from index `g` on, that holds a member near the item whose
/// row of the table is `row`.
pub open spec fn first_near_group(groups: Seq<Seq<usize>>, row: Seq<bool>, g: nat) -> Option<nat>
    decreases groups.len() - g,
{
    if g >= groups.len() {
        None
    } else if has_near_member(groups[g as int], row) {
        Some(g)
    } else {
        first_near_group(groups, row, g + 1)
    }
}

/// The groups of indices formed from the first `n` items: item `i` joins the
/// first group that holds an item near it (appended at its end), or else opens
/// a new group at the end.
pub open spec fn proximity_groups(near: Seq<Seq<bool>>, n: nat) -> Seq<Seq<usize>>
    decreases n,
{
    if n == 0 {
        seq![]
    } else {
        let gs = proximity_groups(near, (n - 1) as nat);
        let i = (n - 1) as usize;
        match first_near_group(gs, near[n - 1], 0) {
            Some(g) => gs.update(g as int, gs[g as int].push(i)),
            None => gs.push(seq![i]),
        }
    }
}

/// Whether the nearness table has one row per item, row `i` with one entry per
/// earlier item.
pub open spec fn well_shaped(near: Seq<Seq<bool>>) -> bool {
    forall|i: int| 0 <= i < near.len() ==> #[trigger] near[i].len() == i
}

fn has_near(group: &Vec<usize>, row: &Vec<bool>) -> (res: bool)
    requires
        forall|k: int| 0 <= k < group.len() ==> group@[k] < row.len(),
    ensures
        res == has_near_member(group@, row@),
{
    let n = group.len();
    let mut k: usize = 0;
    while k < n
        invariant
            n == group.len(),
            k <= n,
            forall|k: int| 0 <= k < group.len() ==> group@[k] < row.len(),
            forall|j: int| 0 <= j < k ==> !row@[group@[j] as int],
        decreases n - k,
    {
        if row[group[k]] {
            return true;
        }
        k = k + 1;
    }
    false
}

proof fn lemma_first_near_group_skip(groups: Seq<Seq<usize>>, row: Seq<bool>, g: nat)
    requires
        g < groups.len(),
        !has_near_member(groups[g as int], row),
    ensures
        first_near_group(groups, row, g) == first_near_group(groups, row, g + 1),
{
}

proof fn lemma_first_near_group(groups: Seq<Seq<usize>>, row: Seq<bool>, g: nat)
    ensures
        first_near_group(groups, row, g) matches Some(h) ==> {
            &&& g <= h < groups.len()
            &&& has_near_member(groups[h as int], row)
            &&& forall|h2: int| g <= h2 < h ==> !has_near_member(#[trigger] groups[h2], row)
        },
        first_near_group(groups, row, g) is None ==> forall|h2: int|
            g <= h2 < groups.len() ==> !has_near_member(#[trigger] groups[h2], row),
    decreases groups.len() - g,
{
    if g < groups.len() && !has_near_member(groups[g as int], row) {
        lemma_first_near_group(groups, row, g + 1);
    }
}

/// The index groups formed from the items of the table `near`.
fn group_indices(near: &Vec<Vec<bool>>) -> (groups: Vec<Vec<usize>>)
    requires
        well_shaped(table_view(near@)),
    ensures
        groups_view(groups@) == proximity_groups(table_view(near@), near.len() as nat),
{
    let n = near.len();
    let ghost tv = table_view(near@);
    let mut groups: Vec<Vec<usize>> = Vec::new();
    let mut i: usize = 0;
    while i < n
        invariant
            n == near.len(),
            tv == table_view(near@),
            well_shaped(tv),
            i <= n,
            groups_view(groups@) == proximity_groups(tv, i as nat),
        decreases n - i,
    {
        let ghost gs = groups_view(groups@);
        proof {
            law_groups_partition_items(tv, i as nat);
            assert(tv[i as int] == near@[i as int]@);
        }
        let row = &near[i];
        let m = groups.len();
        let mut g: usize = 0;
        let mut found = false;
        while g < m && !found
            invariant
                m == groups.len(),
                g <= m,
                gs == groups_view(groups@),
                found ==> g < m && first_near_group(gs, row@, 0) == Some(g as nat),
                !found ==> first_near_group(gs, row@, 0) == first_near_group(gs, row@, g as nat),
                forall|a: int, k: int| 0 <= a < gs.len() && 0 <= k < gs[a].len() ==> #[trigger] gs[a][k] < i,
                row.len() == i,
            decreases m - g - (if found { 1int } else { 0int }),
        {
            assert(groups@[g as int]@ == gs[g as int]);
            if has_near(&groups[g], row) {
                found = true;
            } else {
                proof {
                    lemma_first_near_group_skip(gs, row@, g as nat);
                }
                g = g + 1;
            }
        }
        if found {
            let mut grp = groups[g].clone();
            proof {
                assert(grp@ =~= groups@[g as int]@);
            }
            grp.push(i);
            groups.set(g, grp);
            proof {
                assert(groups_view(groups@) =~= gs.update(g as int, gs[g as int].push(i)));
            }
        } else {
            let mut fresh: Vec<usize> = Vec::new();
            fresh.push(i);
            assert(fresh@ =~= seq![i]);
            groups.push(fresh);
            proof {
                assert(groups_view(groups@) =~= gs.push(seq![i]));
            }
        }
        i = i + 1;
    }
    groups
}

/// Groups `candidates` by proximity: each candidate, in order, joins the first
/// group that already holds a candidate near it (and goes to its end), or else
/// opens a new group. `near[i][j]` tells whether candidate `i` is near the
/// earlier candidate `j`.
pub fn group_by_proximity<P: Copy>(candidates: Vec<P>, near: &Vec<Vec<bool>>) -> (res: Vec<Vec<P>>)
    requires
        near.len() == candidates.len(),
        well_shaped(table_view(near@)),
    ensures
        res.len() == proximity_groups(table_view(near@), candidates.len() as nat).len(),
        forall|g: int| #![trigger res@[g]] 0 <= g < res.len() ==> {
            let grp = proximity_groups(table_view(near@), candidates.len() as nat)[g];
            &&& res@[g].len() == grp.len()
            &&& forall|k: int| 0 <= k < grp.len() ==> res@[g]@[k] == candidates@[#[trigger] grp[k] as int]
        },
{
    let idx = group_indices(near);
    let ghost gs = groups_view(idx@);
    proof {
        law_groups_partition_items(table_view(near@), near.len() as nat);
    }
    let mut res: Vec<Vec<P>> = Vec::new();
    let m = idx.len();
    let mut g: usize = 0;
    while g < m
        invariant
            m == idx.len(),
            gs == groups_view(idx@),
            g <= m,
            res.len() == g,
            forall|a: int, k: int| 0 <= a < gs.len() && 0 <= k < gs[a].len() ==> #[trigger] gs[a][k] < candidates.len(),
            forall|a: int| #![trigger res@[a]] 0 <= a < g ==> {
                &&& res@[a].len() == gs[a].len()
                &&& forall|k: int| 0 <= k < gs[a].len() ==> res@[a]@[k] == candidates@[#[trigger] gs[a][k] as int]
            },
        decreases m - g,
    {
        let grp = &idx[g];
        assert(grp@ == gs[g as int]);
        let mut pts: Vec<P> = Vec::new();
        let len = grp.len();
        let mut k: usize = 0;
        while k < len
            invariant
                len == grp.len(),
                grp@ == gs[g as int],
                0 <= g < gs.len(),
                k <= len,
                pts.len() == k,
                forall|a: int, k: int| 0 <= a < gs.len() && 0 <= k < gs[a].len() ==> #[trigger] gs[a][k] < candidates.len(),
                forall|j: int| 0 <= j < k ==> pts@[j] == candidates@[#[trigger] gs[g as int][j] as int],
            decreases len - k,
        {
            pts.push(candidates[grp[k]]);
            k = k + 1;
        }
        res.push(pts);
        g = g + 1;
    }
    res
}

/// Whether index `i` stands in one of the groups.
pub open spec fn in_groups(gs: Seq<Seq<usize>>, i: int) -> bool {
    exists|g: int, k: int| 0 <= g < gs.len() && 0 <= k < gs[g].len() && #[trigger] gs[g][k] == i
}

/// The groups of the first `n` items form a partition of `0..n`: no group is
/// empty, every index below `n` stands in exactly one place, and each group
/// lists its members in increasing order.
pub open spec fn is_partition(gs: Seq<Seq<usize>>, n: nat) -> bool {
    &&& forall|g: int| 0 <= g < gs.len() ==> #[trigger] gs[g].len() > 0
    &&& forall|g: int, k: int| 0 <= g < gs.len() && 0 <= k < gs[g].len() ==> #[trigger] gs[g][k] < n
    &&& forall|g: int, k1: int, k2: int|
        0 <= g < gs.len() && 0 <= k1 < k2 < gs[g].len() ==> #[trigger] gs[g][k1] < #[trigger] gs[g][k2]
    &&& forall|i: int| 0 <= i < n ==> #[trigger] in_groups(gs, i)
    &&& forall|g1: int, k1: int, g2: int, k2: int|
        0 <= g1 < gs.len() && 0 <= k1 < gs[g1].len() && 0 <= g2 < gs.len() && 0 <= k2 < gs[g2].len()
            && #[trigger] gs[g1][k1] == #[trigger] gs[g2][k2] ==> g1 == g2 && k1 == k2
}

/// The groups of the first `n` items partition the indices `0..n`: no group
/// is empty, each index stands in exactly one place, and each group lists its
/// members in increasing order.
pub proof fn law_groups_partition_items(near: Seq<Seq<bool>>, n: nat)
    requires
        n <= near.len(),
        n <= usize::MAX,
    ensures
        is_partition(proximity_groups(near, n), n),
    decreases n,
{
    if n > 0 {
        law_groups_partition_items(near, (n - 1) as nat);
        let gs = proximity_groups(near, (n - 1) as nat);
        let i = (n - 1) as usize;
        let gs2 = proximity_groups(near, n);
        match first_near_group(gs, near[n - 1], 0) {
            Some(h) => {
                lemma_first_near_group(gs, near[n - 1], 0);
                assert forall|i2: int| 0 <= i2 < n implies in_groups(gs2, i2) by {
                    if i2 == n - 1 {
                        assert(gs2[h as int][gs[h as int].len() as int] == i2);
                    } else {
                        assert(in_groups(gs, i2));
                        let (g, k) = choose|g: int, k: int|
                            0 <= g < gs.len() && 0 <= k < gs[g].len() && #[trigger] gs[g][k] == i2;
                        assert(gs2[g][k] == i2);
                    }
                }
            },
            None => {
                assert forall|i2: int| 0 <= i2 < n implies in_groups(gs2, i2) by {
                    if i2 == n - 1 {
                        assert(gs2[gs.len() as int][0] == i2);
                    } else {
                        assert(in_groups(gs, i2));
                        let (g, k) = choose|g: int, k: int|
                            0 <= g < gs.len() && 0 <= k < gs[g].len() && #[trigger] gs[g][k] == i2;
                        assert(gs2[g][k] == i2);
                    }
                }
            },
        }
    }
}


/// Every member of a group after the first is near some member that joined the
/// group before it.
pub open spec fn joins_near_member(near: Seq<Seq<bool>>, gs: Seq<Seq<usize>>) -> bool {
    forall|g: int, k: int|
        0 <= g < gs.len() && 1 <= k < gs[g].len() ==> #[trigger] near_earlier_member(near, gs[g], k)
}

/// Whether the member at position `k` of `group` is near a member at an
/// earlier position.
pub open spec fn near_earlier_member(near: Seq<Seq<bool>>, group: Seq<usize>, k: int) -> bool {
    exists|k2: int| 0 <= k2 < k && #[trigger] near[group[k] as int][group[k2] as int]
}

/// The first member of every group is near none of the items before it.
pub open spec fn openers_isolated(near: Seq<Seq<bool>>, gs: Seq<Seq<usize>>) -> bool {
    forall|g: int, j: int|
        0 <= g < gs.len() && 0 <= j < gs[g][0] ==> !#[trigger] near[gs[g][0] as int][j]
}

/// A member that joined a group is near no earlier item of any group that
/// comes before that group.
pub open spec fn joins_first_group(near: Seq<Seq<bool>>, gs: Seq<Seq<usize>>) -> bool {
    forall|g: int, k: int, g2: int, k2: int|
        0 <= g < gs.len() && 1 <= k < gs[g].len() && 0 <= g2 < g && 0 <= k2 < gs[g2].len()
            && gs[g2][k2] < gs[g][k] ==> !#[trigger] near[gs[g][k] as int][#[trigger] gs[g2][k2] as int]
}

proof fn lemma_group_rules(near: Seq<Seq<bool>>, n: nat)
    requires
        n <= near.len(),
        n <= usize::MAX,
    ensures
        joins_near_member(near, proximity_groups(near, n)),
        openers_isolated(near, proximity_groups(near, n)),
        joins_first_group(near, proximity_groups(near, n)),
    decreases n,
{
    if n > 0 {
        lemma_group_rules(near, (n - 1) as nat);
        law_groups_partition_items(near, (n - 1) as nat);
        let gs = proximity_groups(near, (n - 1) as nat);
        let i = (n - 1) as usize;
        let row = near[n - 1];
        let gs2 = proximity_groups(near, n);
        lemma_first_near_group(gs, row, 0);
        match first_near_group(gs, row, 0) {
            Some(h) => {
                let h = h as int;
                let len = gs[h].len() as int;
                assert forall|g: int, k: int|
                    0 <= g < gs2.len() && 1 <= k < gs2[g].len() implies near_earlier_member(near, gs2[g], k) by {
                    if g == h && k == len {
                        let k2 = choose|k2: int| 0 <= k2 < gs[h].len() && #[trigger] row[gs[h][k2] as int];
                        assert(near[gs2[g][k] as int][gs2[g][k2] as int]);
                    } else {
                        assert(near_earlier_member(near, gs[g], k));
                        let k2 = choose|k2: int| 0 <= k2 < k && #[trigger] near[gs[g][k] as int][gs[g][k2] as int];
                        assert(near[gs2[g][k] as int][gs2[g][k2] as int]);
                    }
                }
                assert forall|g: int, j: int|
                    0 <= g < gs2.len() && 0 <= j < gs2[g][0] implies !#[trigger] near[gs2[g][0] as int][j] by {
                    assert(gs2[g][0] == gs[g][0]);
                }
                assert forall|g: int, k: int, g2: int, k2: int|
                    0 <= g < gs2.len() && 1 <= k < gs2[g].len() && 0 <= g2 < g && 0 <= k2 < gs2[g2].len()
                        && gs2[g2][k2] < gs2[g][k] implies !#[trigger] near[gs2[g][k] as int][#[trigger] gs2[g2][k2] as int] by {
                    if g == h && k == len {
                        assert(!has_near_member(gs[g2], row));
                        assert(gs2[g2][k2] == gs[g2][k2]);
                        if row[gs[g2][k2] as int] {
                            assert(has_near_member(gs[g2], row));
                        }
                    } else if g2 == h && k2 == len {
                        assert(gs[g][k] < i);
                    } else {
                        assert(gs2[g][k] == gs[g][k]);
                        assert(gs2[g2][k2] == gs[g2][k2]);
                    }
                }
            },
            None => {
                let len = gs.len() as int;
                assert forall|g: int, j: int|
                    0 <= g < gs2.len() && 0 <= j < gs2[g][0] implies !#[trigger] near[gs2[g][0] as int][j] by {
                    if g == len {
                        assert(in_groups(gs, j));
                        let (g3, k3) = choose|g3: int, k3: int|
                            0 <= g3 < gs.len() && 0 <= k3 < gs[g3].len() && #[trigger] gs[g3][k3] == j;
                        assert(!has_near_member(gs[g3], row));
                        if row[gs[g3][k3] as int] {
                            assert(has_near_member(gs[g3], row));
                        }
                    } else {
                        assert(gs2[g][0] == gs[g][0]);
                    }
                }
                assert forall|g: int, k: int|
                    0 <= g < gs2.len() && 1 <= k < gs2[g].len() implies near_earlier_member(near, gs2[g], k) by {
                    assert(g < len);
                    assert(gs2[g] == gs[g]);
                    assert(gs[g][k] == gs2[g][k]);
                    assert(near_earlier_member(near, gs[g], k));
                    let k2 = choose|k2: int| 0 <= k2 < k && #[trigger] near[gs[g][k] as int][gs[g][k2] as int];
                    assert(near[gs2[g][k] as int][gs2[g][k2] as int]);
                }
            },
        }
    }
}

/// Each candidate after the first of its group joined it because it is near a
/// candidate that was already in that group.
pub proof fn law_joiner_is_near_earlier_member(near: Seq<Seq<bool>>, n: nat)
    requires
        n <= near.len(),
        n <= usize::MAX,
    ensures
        joins_near_member(near, proximity_groups(near, n)),
{
    lemma_group_rules(near, n);
}

/// A candidate joins the first group that holds an earlier candidate near it:
/// it is near no earlier candidate of any group before its own.
pub proof fn law_joiner_takes_first_near_group(near: Seq<Seq<bool>>, n: nat)
    requires
        n <= near.len(),
        n <= usize::MAX,
    ensures
        joins_first_group(near, proximity_groups(near, n)),
{
    lemma_group_rules(near, n);
}

/// Whether index `i` is the first member of one of the groups.
pub open spec fn opens_group(gs: Seq<Seq<usize>>, i: int) -> bool {
    exists|g: int| 0 <= g < gs.len() && #[trigger] gs[g][0] == i
}

/// A candidate opens a new group exactly when it is near none of the
/// candidates before it.
pub proof fn law_opener_iff_near_no_earlier(near: Seq<Seq<bool>>, n: nat, i: int)
    requires
        n <= near.len(),
        n <= usize::MAX,
        0 <= i < n,
    ensures
        opens_group(proximity_groups(near, n), i) <==> forall|j: int| 0 <= j < i ==> !#[trigger] near[i][j],
{
    lemma_group_rules(near, n);
    law_groups_partition_items(near, n);
    let gs = proximity_groups(near, n);
    if opens_group(gs, i) {
        let g = choose|g: int| 0 <= g < gs.len() && #[trigger] gs[g][0] == i;
        assert forall|j: int| 0 <= j < i implies !#[trigger] near[i][j] by {
            assert(!near[gs[g][0] as int][j]);
        }
    } else {
        assert(in_groups(gs, i));
        let (g, k) = choose|g: int, k: int| 0 <= g < gs.len() && 0 <= k < gs[g].len() && #[trigger] gs[g][k] == i;
        assert(k != 0);
        assert(near_earlier_member(near, gs[g], k));
        let k2 = choose|k2: int| 0 <= k2 < k && #[trigger] near[gs[g][k] as int][gs[g][k2] as int];
        assert(gs[g][k2] < gs[g][k]);
        assert(near[i][gs[g][k2] as int]);
    }
}

/// The groups are listed in the order in which they were opened: the first
/// member of each group comes before the first member of every later group.
/// So "the first group holding a near candidate" is the earliest opened one.
pub proof fn law_groups_in_opening_order(near: Seq<Seq<bool>>, n: nat)
    requires
        n <= near.len(),
        n <= usize::MAX,
    ensures
        forall|g1: int, g2: int|
            0 <= g1 < g2 < proximity_groups(near, n).len() ==> #[trigger] proximity_groups(near, n)[g1][0]
                < #[trigger] proximity_groups(near, n)[g2][0],
    decreases n,
{
    if n > 0 {
        law_groups_in_opening_order(near, (n - 1) as nat);
        law_groups_partition_items(near, (n - 1) as nat);
        let gs = proximity_groups(near, (n - 1) as nat);
        let gs2 = proximity_groups(near, n);
        let i = (n - 1) as usize;
        match first_near_group(gs, near[n - 1], 0) {
            Some(h) => {
                lemma_first_near_group(gs, near[n - 1], 0);
                assert forall|g1: int, g2: int| 0 <= g1 < g2 < gs2.len() implies #[trigger] gs2[g1][0] < #[trigger] gs2[g2][0] by {
                    assert(gs[g1].len() > 0 && gs[g2].len() > 0);
                    assert(gs2[g1][0] == gs[g1][0]);
                    assert(gs2[g2][0] == gs[g2][0]);
                }
            },
            None => {
                assert forall|g1: int, g2: int| 0 <= g1 < g2 < gs2.len() implies #[trigger] gs2[g1][0] < #[trigger] gs2[g2][0] by {
                    assert(gs[g1].len() > 0);
                    assert(gs2[g1][0] == gs[g1][0]);
                    if g2 == gs.len() {
                        assert(gs2[g2][0] == i);
                        assert(gs[g1][0] < n - 1);
                    } else {
                        assert(gs2[g2][0] == gs[g2][0]);
                    }
                }
            },
        }
    }
}

} // verus!
