//! Spiral ordering of candidate points: from a starting point, repeatedly move
//! to the not yet visited point with the smallest key (the first such point on
//! ties), where the key of each point is computed by the caller from the
//! current position and the previous one.
use vstd::prelude::*;

verus! {

/// `j` is the position of the first smallest key of `keys`.
pub open spec fn is_first_min(keys: Seq<i32>, j: int) -> bool {
    &&& 0 <= j < keys.len()
    &&& forall|i: int| 0 <= i < keys.len() ==> keys[j] <= #[trigger] keys[i]
    &&& forall|i: int| 0 <= i < j ==> keys[j] < #[trigger] keys[i]
}

/// The position of the first smallest key, or `None` when there is no key.
pub fn first_min_index(keys: &Vec<i32>) -> (res: Option<usize>)
    ensures
        res is None <==> keys.len() == 0,
        res matches Some(j) ==> is_first_min(keys@, j as int),
{
    let n = keys.len();
    if n == 0 {
        return None;
    }
    let mut best: usize = 0;
    let mut i: usize = 1;
    while i < n
        invariant
            n == keys.len(),
            1 <= i <= n,
            best < i,
            forall|k: int| 0 <= k < i ==> keys@[best as int] <= #[trigger] keys@[k],
            forall|k: int| 0 <= k < best ==> keys@[best as int] < #[trigger] keys@[k],
        decreases n - i,
    {
        if keys[i] < keys[best] {
            best = i;
        }
        i = i + 1;
    }
    Some(best)
}

/// There is only one first smallest key.
pub proof fn law_first_min_is_unique(keys: Seq<i32>, j1: int, j2: int)
    requires
        is_first_min(keys, j1),
        is_first_min(keys, j2),
    ensures
        j1 == j2,
{
    if j1 < j2 {
        assert(keys[j2] < keys[j1]);
        assert(keys[j1] <= keys[j2]);
    } else if j2 < j1 {
        assert(keys[j1] < keys[j2]);
        assert(keys[j2] <= keys[j1]);
    }
}

/// `class` maps each candidate to a representative of the candidates equal to
/// it: a candidate whose class is itself, and which has the same class.
pub open spec fn is_class_map(class: Seq<usize>) -> bool {
    forall|i: int| 0 <= i < class.len() ==> {
        &&& #[trigger] class[i] < class.len()
        &&& class[class[i] as int] == class[i]
    }
}

/// Whether the route has visited a candidate of class `c`.
pub open spec fn visited(class: Seq<usize>, route: Seq<usize>, c: usize) -> bool {
    exists|k: int| 0 <= k < route.len() && #[trigger] class[route[k] as int] == c
}

/// The candidates below `m` whose class the route has not visited, in
/// increasing order.
pub open spec fn unvisited_upto(class: Seq<usize>, route: Seq<usize>, m: nat) -> Seq<usize>
    decreases m,
{
    if m == 0 {
        seq![]
    } else {
        let rest = unvisited_upto(class, route, (m - 1) as nat);
        if !visited(class, route, class[m - 1]) {
            rest.push((m - 1) as usize)
        } else {
            rest
        }
    }
}

/// The candidates whose class the route has not visited, in increasing order.
pub open spec fn unvisited(class: Seq<usize>, route: Seq<usize>) -> Seq<usize> {
    unvisited_upto(class, route, class.len())
}

/// The point before the current one when the route has its first `k` points.
pub open spec fn previous_point(route: Seq<usize>, k: int) -> Option<usize> {
    if k >= 2 {
        Some(route[k - 2])
    } else {
        None
    }
}

/// Step `k` of the walk (`1 <= k <= route.len()`): with the first `k` points
/// visited, `keys` holds the key that `key` gave each unvisited candidate;
/// the next point is the unvisited candidate with the first smallest key, and
/// the walk stops when no candidate is left.
pub open spec fn spiral_step<F: Fn(Option<usize>, usize, usize) -> i32>(
    key: F,
    class: Seq<usize>,
    route: Seq<usize>,
    keys: Seq<i32>,
    k: int,
) -> bool {
    let cand = unvisited(class, route.take(k));
    &&& keys.len() == cand.len()
    &&& forall|j: int| 0 <= j < cand.len() ==> call_ensures(key, (previous_point(route, k), route[k - 1], cand[j]), #[trigger] keys[j])
    &&& if k < route.len() {
        exists|j: int| is_first_min(keys, j) && #[trigger] cand[j] == route[k]
    } else {
        cand.len() == 0
    }
}

/// `log[k - 1]` records the keys of step `k` of the walk, for every step.
pub open spec fn spiral_log<F: Fn(Option<usize>, usize, usize) -> i32>(
    key: F,
    class: Seq<usize>,
    route: Seq<usize>,
    log: Seq<Seq<i32>>,
) -> bool {
    &&& log.len() == route.len()
    &&& forall|k: int| 1 <= k <= route.len() ==> spiral_step(key, class, route, #[trigger] log[k - 1], k)
}

proof fn lemma_visited_push(class: Seq<usize>, route: Seq<usize>, x: usize, c: usize)
    requires
        is_class_map(class),
        x < class.len(),
    ensures
        visited(class, route.push(x), c) <==> (visited(class, route, c) || class[x as int] == c),
{
    let r2 = route.push(x);
    if visited(class, route, c) {
        let k = choose|k: int| 0 <= k < route.len() && #[trigger] class[route[k] as int] == c;
        assert(class[r2[k] as int] == c);
    }
    if class[x as int] == c {
        assert(class[r2[route.len() as int] as int] == c);
    }
    if visited(class, r2, c) {
        let k = choose|k: int| 0 <= k < r2.len() && #[trigger] class[r2[k] as int] == c;
        if k < route.len() {
            assert(class[route[k] as int] == c);
        }
    }
}

proof fn lemma_unvisited_upto(class: Seq<usize>, route: Seq<usize>, m: nat)
    requires
        m <= class.len(),
        class.len() <= usize::MAX,
    ensures
        forall|i: int| #[trigger] unvisited_upto(class, route, m).contains(i as usize) && 0 <= i <= usize::MAX
            <==> 0 <= i < m && !visited(class, route, class[i]),
        forall|j: int| 0 <= j < unvisited_upto(class, route, m).len() ==> #[trigger] unvisited_upto(class, route, m)[j] < m,
        unvisited_upto(class, route, m).len() <= m,
    decreases m,
{
    if m > 0 {
        lemma_unvisited_upto(class, route, (m - 1) as nat);
        let rest = unvisited_upto(class, route, (m - 1) as nat);
        let u = unvisited_upto(class, route, m);
        assert forall|i: int| #[trigger] u.contains(i as usize) && 0 <= i <= usize::MAX
            <==> 0 <= i < m && !visited(class, route, class[i]) by {
            if 0 <= i <= usize::MAX && u.contains(i as usize) {
                let j = choose|j: int| 0 <= j < u.len() && u[j] == i as usize;
                if j < rest.len() {
                    assert(rest.contains(i as usize));
                }
            }
            if 0 <= i < m && !visited(class, route, class[i]) {
                if i < m - 1 {
                    assert(rest.contains(i as usize));
                    let j = choose|j: int| 0 <= j < rest.len() && rest[j] == i as usize;
                    assert(u[j] == i as usize);
                } else {
                    assert(u[rest.len() as int] == i as usize);
                }
            }
        }
    }
}

proof fn lemma_unvisited_shrinks(class: Seq<usize>, route: Seq<usize>, x: usize, m: nat)
    requires
        is_class_map(class),
        m <= class.len(),
        x < class.len(),
        !visited(class, route, class[x as int]),
    ensures
        unvisited_upto(class, route.push(x), m).len() <= unvisited_upto(class, route, m).len(),
        x < m ==> unvisited_upto(class, route.push(x), m).len() < unvisited_upto(class, route, m).len(),
    decreases m,
{
    if m > 0 {
        lemma_unvisited_shrinks(class, route, x, (m - 1) as nat);
        lemma_visited_push(class, route, x, class[m - 1]);
        lemma_visited_push(class, route, x, class[x as int]);
    }
}

/// Orders candidate points into a spiral-like route. `class` identifies equal
/// candidates (`class[i]` is the representative of the candidates equal to
/// candidate `i`); the route starts at `start` (`None` only when there is no
/// candidate, and then the route is empty), and at each step all the
/// candidates equal to the current point are set aside, `key` gives each
/// remaining candidate a key from the previous point (if any), the current
/// point and the candidate, and the walk moves to the remaining candidate with
/// the first smallest key. The walk stops when no candidate remains.
pub fn route_spiral<F: Fn(Option<usize>, usize, usize) -> i32>(
    class: &Vec<usize>,
    start: Option<usize>,
    key: &F,
) -> (route: Vec<usize>)
    requires
        start is None <==> class.len() == 0,
        start matches Some(s) ==> s < class.len(),
        is_class_map(class@),
        forall|p: Option<usize>, c: usize, q: usize| call_requires(*key, (p, c, q)),
    ensures
        start is None ==> route.len() == 0,
        start matches Some(s) ==> route.len() >= 1 && route@[0] == s,
        forall|k: int| 0 <= k < route.len() ==> #[trigger] route@[k] < class.len(),
        exists|log: Seq<Seq<i32>>| #[trigger] spiral_log(*key, class@, route@, log),
        forall|k1: int, k2: int|
            0 <= k1 < k2 < route.len() ==> class@[#[trigger] route@[k1] as int] != class@[#[trigger] route@[k2] as int],
        forall|i: int| 0 <= i < class.len() ==> visited(class@, route@, #[trigger] class@[i]),
{
    match start {
        None => {
            let route: Vec<usize> = Vec::new();
            assert(spiral_log(*key, class@, route@, seq![]));
            route
        },
        Some(s) => walk_from(class, s, key),
    }
}

/// The walk of `route_spiral` from a given first point.
fn walk_from<F: Fn(Option<usize>, usize, usize) -> i32>(class: &Vec<usize>, start: usize, key: &F) -> (route: Vec<usize>)
    requires
        start < class.len(),
        is_class_map(class@),
        forall|p: Option<usize>, c: usize, q: usize| call_requires(*key, (p, c, q)),
    ensures
        route.len() >= 1,
        route@[0] == start,
        forall|k: int| 0 <= k < route.len() ==> #[trigger] route@[k] < class.len(),
        exists|log: Seq<Seq<i32>>| #[trigger] spiral_log(*key, class@, route@, log),
        forall|k1: int, k2: int|
            0 <= k1 < k2 < route.len() ==> class@[#[trigger] route@[k1] as int] != class@[#[trigger] route@[k2] as int],
        forall|i: int| 0 <= i < class.len() ==> visited(class@, route@, #[trigger] class@[i]),
{
    let n = class.len();
    let ghost cl = class@;
    let mut route: Vec<usize> = Vec::new();
    route.push(start);
    let mut seen: Vec<bool> = Vec::new();
    let mut c: usize = 0;
    while c < n
        invariant
            c <= n,
            seen.len() == c,
            forall|j: int| 0 <= j < c ==> !#[trigger] seen@[j],
        decreases n - c,
    {
        seen.push(false);
        c = c + 1;
    }
    seen.set(class[start], true);
    let ghost mut log: Seq<Seq<i32>> = seq![];
    proof {
        assert forall|cc: int| 0 <= cc < n implies seen@[cc] == visited(cl, route@, cc as usize) by {
            if cc == class@[start as int] {
                assert(cl[route@[0] as int] == cc);
            }
            if visited(cl, route@, cc as usize) {
                let k = choose|k: int| 0 <= k < route@.len() && #[trigger] cl[route@[k] as int] == cc as usize;
                assert(k == 0);
            }
        }
    }
    loop
        invariant_except_break
            log.len() == route.len() - 1,
            forall|k: int| 1 <= k < route.len() ==> spiral_step(*key, cl, route@, #[trigger] log[k - 1], k),
        invariant
            n == class.len(),
            cl == class@,
            is_class_map(cl),
            forall|p: Option<usize>, c: usize, q: usize| call_requires(*key, (p, c, q)),
            route.len() >= 1,
            route@[0] == start,
            seen.len() == n,
            forall|cc: int| 0 <= cc < n ==> #[trigger] seen@[cc] == visited(cl, route@, cc as usize),
            forall|k: int| 0 <= k < route.len() ==> #[trigger] route@[k] < n,
            forall|k1: int, k2: int|
                0 <= k1 < k2 < route.len() ==> cl[#[trigger] route@[k1] as int] != cl[#[trigger] route@[k2] as int],
        ensures
            route.len() >= 1,
            route@[0] == start,
            forall|k: int| 0 <= k < route.len() ==> #[trigger] route@[k] < n,
            forall|k1: int, k2: int|
                0 <= k1 < k2 < route.len() ==> cl[#[trigger] route@[k1] as int] != cl[#[trigger] route@[k2] as int],
            spiral_log(*key, cl, route@, log),
            unvisited(cl, route@).len() == 0,
        decreases unvisited(cl, route@).len(),
    {
        let mut remaining: Vec<usize> = Vec::new();
        let mut i: usize = 0;
        while i < n
            invariant
                n == class.len(),
                cl == class@,
                is_class_map(cl),
                seen.len() == n,
                forall|cc: int| 0 <= cc < n ==> #[trigger] seen@[cc] == visited(cl, route@, cc as usize),
                i <= n,
                remaining@ == unvisited_upto(cl, route@, i as nat),
            decreases n - i,
        {
            if !seen[class[i]] {
                remaining.push(i);
            }
            i = i + 1;
        }
        proof {
            lemma_unvisited_upto(cl, route@, n as nat);
            assert(route@.take(route.len() as int) =~= route@);
        }
        let len = route.len();
        let cur = route[len - 1];
        let prev: Option<usize> = if len >= 2 { Some(route[len - 2]) } else { None };
        let m = remaining.len();
        let mut keys: Vec<i32> = Vec::new();
        let mut j: usize = 0;
        while j < m
            invariant
                m == remaining.len(),
                j <= m,
                keys.len() == j,
                forall|p: Option<usize>, c: usize, q: usize| call_requires(*key, (p, c, q)),
                forall|t: int| 0 <= t < j ==> call_ensures(*key, (prev, cur, remaining@[t]), #[trigger] keys@[t]),
            decreases m - j,
        {
            let v = key(prev, cur, remaining[j]);
            keys.push(v);
            j = j + 1;
        }
        assert(previous_point(route@, len as int) == prev);
        match first_min_index(&keys) {
            None => {
                proof {
                    assert(spiral_step(*key, cl, route@, keys@, len as int));
                    let ghost before = log;
                    log = log.push(keys@);
                    assert(spiral_log(*key, cl, route@, log)) by {
                        assert forall|k: int| 1 <= k <= route.len() implies spiral_step(*key, cl, route@, #[trigger] log[k - 1], k) by {
                            if k < route.len() {
                                assert(log[k - 1] == before[k - 1]);
                            }
                        }
                    }
                }
                break;
            },
            Some(b) => {
                let next = remaining[b];
                proof {
                    assert(remaining@.contains(next));
                    assert(unvisited_upto(cl, route@, n as nat).contains((next as int) as usize));
                    assert(!visited(cl, route@, cl[next as int]));
                    lemma_unvisited_shrinks(cl, route@, next, n as nat);
                }
                let ghost old_route = route@;
                let ghost old_log = log;
                route.push(next);
                seen.set(class[next], true);
                proof {
                    log = log.push(keys@);
                    assert forall|cc: int| 0 <= cc < n implies #[trigger] seen@[cc] == visited(cl, route@, cc as usize) by {
                        lemma_visited_push(cl, old_route, next, cc as usize);
                    }
                    assert forall|k1: int, k2: int|
                        0 <= k1 < k2 < route.len() implies cl[#[trigger] route@[k1] as int] != cl[#[trigger] route@[k2] as int] by {
                        if k2 == route.len() - 1 {
                            if cl[route@[k1] as int] == cl[next as int] {
                                assert(cl[old_route[k1] as int] == cl[next as int]);
                                assert(visited(cl, old_route, cl[next as int]));
                            }
                        } else {
                            assert(route@[k1] == old_route[k1] && route@[k2] == old_route[k2]);
                        }
                    }
                    assert forall|k: int| 1 <= k < route.len() implies spiral_step(*key, cl, route@, #[trigger] log[k - 1], k) by {
                        assert(route@.take(k) =~= old_route.take(k));
                        assert(route@[k - 1] == old_route[k - 1]);
                        if k >= 2 {
                            assert(route@[k - 2] == old_route[k - 2]);
                        }
                        if k < route.len() - 1 {
                            assert(log[k - 1] == old_log[k - 1]);
                            assert(route@[k] == old_route[k]);
                            assert(spiral_step(*key, cl, old_route, old_log[k - 1], k));
                        } else {
                            assert(log[k - 1] == keys@);
                            assert(old_route.take(k) =~= old_route);
                            assert(is_first_min(keys@, b as int) && remaining@[b as int] == route@[k]);
                        }
                    }
                }
            },
        }
    }
    proof {
        assert forall|i: int| 0 <= i < n implies visited(cl, route@, #[trigger] cl[i]) by {
            lemma_unvisited_upto(cl, route@, n as nat);
            if !visited(cl, route@, cl[i]) {
                assert(unvisited(cl, route@).contains(i as usize));
            }
        }
    }
    route
}

/// `key` gives the same key to any two candidates of the same class under
/// `class`, from the same previous and current points (so its keys are a
/// function of the previous point, the current point and the class).
pub open spec fn key_depends_on_class<F: Fn(Option<usize>, usize, usize) -> i32>(key: F, class: Seq<usize>) -> bool {
    forall|p: Option<usize>, c: usize, q1: usize, q2: usize, v1: i32, v2: i32|
        #![trigger call_ensures(key, (p, c, q1), v1), call_ensures(key, (p, c, q2), v2)]
        q1 < class.len() && q2 < class.len() && class[q1 as int] == class[q2 as int] && call_ensures(key, (p, c, q1), v1)
            && call_ensures(key, (p, c, q2), v2) ==> v1 == v2
}

/// Whether every point of `route` is below `n`.
pub open spec fn points_below(route: Seq<usize>, n: nat) -> bool {
    forall|k: int| 0 <= k < route.len() ==> #[trigger] route[k] < n
}

proof fn lemma_visited_extended(class: Seq<usize>, i: int, route: Seq<usize>, c: usize)
    requires
        0 <= i < class.len(),
        points_below(route, class.len()),
    ensures
        visited(class.push(class[i]), route, c) == visited(class, route, c),
{
    let class2 = class.push(class[i]);
    if visited(class, route, c) {
        let k = choose|k: int| 0 <= k < route.len() && #[trigger] class[route[k] as int] == c;
        assert(class2[route[k] as int] == c);
    }
    if visited(class2, route, c) {
        let k = choose|k: int| 0 <= k < route.len() && #[trigger] class2[route[k] as int] == c;
        assert(route[k] < class.len());
        assert(class[route[k] as int] == c);
    }
}

proof fn lemma_unvisited_upto_extended(class: Seq<usize>, i: int, route: Seq<usize>, m: nat)
    requires
        0 <= i < class.len(),
        m <= class.len(),
        points_below(route, class.len()),
    ensures
        unvisited_upto(class.push(class[i]), route, m) == unvisited_upto(class, route, m),
    decreases m,
{
    if m > 0 {
        lemma_unvisited_upto_extended(class, i, route, (m - 1) as nat);
        lemma_visited_extended(class, i, route, class[m - 1]);
        assert(class.push(class[i])[m - 1] == class[m - 1]);
    }
}

proof fn lemma_unvisited_extended(class: Seq<usize>, i: int, route: Seq<usize>)
    requires
        0 <= i < class.len(),
        class.len() < usize::MAX,
        points_below(route, class.len()),
    ensures
        unvisited(class.push(class[i]), route) == if visited(class, route, class[i]) {
            unvisited(class, route)
        } else {
            unvisited(class, route).push(class.len() as usize)
        },
{
    let class2 = class.push(class[i]);
    lemma_unvisited_upto_extended(class, i, route, class.len());
    lemma_visited_extended(class, i, route, class[i]);
    assert(class2[class.len() as int] == class[i]);
}

proof fn lemma_step_agrees<F: Fn(Option<usize>, usize, usize) -> i32>(
    key: F,
    class: Seq<usize>,
    i: int,
    route1: Seq<usize>,
    log1: Seq<Seq<i32>>,
    route2: Seq<usize>,
    log2: Seq<Seq<i32>>,
    k: int,
)
    requires
        is_class_map(class),
        0 <= i < class.len(),
        class.len() < usize::MAX,
        key_depends_on_class(key, class.push(class[i])),
        spiral_log(key, class, route1, log1),
        spiral_log(key, class.push(class[i]), route2, log2),
        1 <= k,
        k < route1.len(),
        k < route2.len(),
        route1.take(k) == route2.take(k),
        points_below(route1.take(k), class.len()),
    ensures
        route1[k] == route2[k],
        route1[k] < class.len(),
{
    let n = class.len();
    let class2 = class.push(class[i]);
    let p = route1.take(k);
    assert(route2.take(k) == p);
    lemma_unvisited_extended(class, i, p);
    lemma_unvisited_upto(class, p, n);
    let u = unvisited(class, p);
    let c2 = unvisited(class2, p);
    assert(spiral_step(key, class, route1, log1[k - 1], k));
    assert(spiral_step(key, class2, route2, log2[k - 1], k));
    let keys1 = log1[k - 1];
    let keys2 = log2[k - 1];
    assert(route1[k - 1] == p[k - 1] && route2[k - 1] == p[k - 1]);
    if k >= 2 {
        assert(route1[k - 2] == p[k - 2] && route2[k - 2] == p[k - 2]);
    }
    let prev = previous_point(route1, k);
    assert(previous_point(route2, k) == prev);
    let cur = route1[k - 1];
    assert forall|j: int| 0 <= j < u.len() implies keys2[j] == #[trigger] keys1[j] by {
        assert(c2[j] == u[j]);
        assert(u[j] < n);
        assert(call_ensures(key, (prev, cur, u[j]), keys1[j]));
        assert(call_ensures(key, (prev, cur, c2[j]), keys2[j]));
    }
    let j1 = choose|j: int| is_first_min(keys1, j) && #[trigger] u[j] == route1[k];
    let j2 = choose|j: int| is_first_min(keys2, j) && #[trigger] c2[j] == route2[k];
    assert(u[j1] < n);
    if visited(class, p, class[i]) {
        assert(keys2 =~= keys1);
        law_first_min_is_unique(keys1, j1, j2);
    } else {
        assert(u.contains((i as int) as usize));
        let ji = choose|j: int| 0 <= j < u.len() && u[j] == i as usize;
        let last = u.len() as int;
        assert(c2[last] == n as usize);
        assert(call_ensures(key, (prev, cur, c2[last]), keys2[last]));
        assert(call_ensures(key, (prev, cur, u[ji]), keys1[ji]));
        assert(class2[n as int] == class2[i]);
        assert(keys2[last] == keys1[ji]);
        assert(is_first_min(keys2, j1)) by {
            assert forall|t: int| 0 <= t < keys2.len() implies keys2[j1] <= #[trigger] keys2[t] by {
                if t < last {
                    assert(keys2[t] == keys1[t]);
                } else {
                    assert(keys1[j1] <= keys1[ji]);
                }
            }
            assert forall|t: int| 0 <= t < j1 implies keys2[j1] < #[trigger] keys2[t] by {
                assert(keys2[t] == keys1[t]);
            }
        }
        law_first_min_is_unique(keys2, j1, j2);
    }
}

proof fn lemma_same_prefix<F: Fn(Option<usize>, usize, usize) -> i32>(
    key: F,
    class: Seq<usize>,
    i: int,
    route1: Seq<usize>,
    log1: Seq<Seq<i32>>,
    route2: Seq<usize>,
    log2: Seq<Seq<i32>>,
    k: int,
)
    requires
        is_class_map(class),
        0 <= i < class.len(),
        class.len() < usize::MAX,
        key_depends_on_class(key, class.push(class[i])),
        route1.len() >= 1,
        route2.len() >= 1,
        route1[0] < class.len(),
        route1[0] == route2[0],
        spiral_log(key, class, route1, log1),
        spiral_log(key, class.push(class[i]), route2, log2),
        1 <= k <= route1.len(),
        k <= route2.len(),
    ensures
        route1.take(k) == route2.take(k),
        points_below(route1.take(k), class.len()),
    decreases k,
{
    if k == 1 {
        assert(route1.take(1) =~= route2.take(1));
    } else {
        lemma_same_prefix(key, class, i, route1, log1, route2, log2, k - 1);
        lemma_step_agrees(key, class, i, route1, log1, route2, log2, k - 1);
        assert(route1.take(k) =~= route1.take(k - 1).push(route1[k - 1]));
        assert(route2.take(k) =~= route2.take(k - 1).push(route2[k - 1]));
    }
}

/// Appending a copy of a candidate (a last candidate in the class of candidate
/// `i`) leaves the spiral route unchanged, when the keys depend only on the
/// previous point, the current point and the class of the candidate: any walk
/// over the candidates and any walk over the candidates with the copy, from
/// the same start, are the same route.
pub proof fn law_appended_duplicate_changes_nothing<F: Fn(Option<usize>, usize, usize) -> i32>(
    key: F,
    class: Seq<usize>,
    i: int,
    start: usize,
    route1: Seq<usize>,
    log1: Seq<Seq<i32>>,
    route2: Seq<usize>,
    log2: Seq<Seq<i32>>,
)
    requires
        is_class_map(class),
        0 <= i < class.len(),
        class.len() < usize::MAX,
        key_depends_on_class(key, class.push(class[i])),
        start < class.len(),
        route1.len() >= 1,
        route1[0] == start,
        spiral_log(key, class, route1, log1),
        route2.len() >= 1,
        route2[0] == start,
        spiral_log(key, class.push(class[i]), route2, log2),
    ensures
        route1 == route2,
{
    let n = class.len();
    let class2 = class.push(class[i]);
    let m = if route1.len() <= route2.len() { route1.len() as int } else { route2.len() as int };
    lemma_same_prefix(key, class, i, route1, log1, route2, log2, m);
    let p = route1.take(m);
    assert(route2.take(m) == p);
    lemma_unvisited_extended(class, i, p);
    lemma_unvisited_upto(class, p, n);
    let u = unvisited(class, p);
    let c2 = unvisited(class2, p);
    assert(spiral_step(key, class, route1, log1[m - 1], m));
    assert(spiral_step(key, class2, route2, log2[m - 1], m));
    if m == route1.len() {
        assert(u.len() == 0);
        if !visited(class, p, class[i]) {
            assert(u.contains((i as int) as usize));
        }
        assert(c2.len() == 0);
        if m < route2.len() {
            let j = choose|j: int| is_first_min(log2[m - 1], j) && #[trigger] c2[j] == route2[m];
        }
    } else {
        assert(c2.len() == 0);
        assert(u.len() == 0);
        let j = choose|j: int| is_first_min(log1[m - 1], j) && #[trigger] u[j] == route1[m];
    }
    assert(route1.len() == route2.len());
    assert(route1 =~= route1.take(m));
    assert(route2 =~= route2.take(m));
}

/// At the first step the key is given no previous point; at every later step
/// `k` (when the route has its first `k` points) the previous point is the
/// point visited just before the current one, `route[k - 2]`, so the key sees
/// the direction of the last step.
pub proof fn law_previous_point_is_point_before_current(route: Seq<usize>, k: int)
    requires
        1 <= k <= route.len(),
    ensures
        k == 1 ==> previous_point(route, k) is None,
        k >= 2 ==> previous_point(route, k) == Some(route[k - 2]),
        k >= 2 ==> route[k - 2] == route.take(k)[k - 2] && route[k - 1] == route.take(k)[k - 1],
{
}

} // verus!
