use gre::spiral::{first_min_index, route_spiral};

#[test]
fn first_min_index_picks_first_minimum() {
    assert_eq!(first_min_index(&vec![3, 1, 1, 2]), Some(1));
    assert_eq!(first_min_index(&vec![-5]), Some(0));
    assert_eq!(first_min_index(&vec![2, 2, 2]), Some(0));
    assert_eq!(first_min_index(&vec![4, 3, 2, 1]), Some(3));
    assert_eq!(first_min_index(&Vec::new()), None);
}

#[test]
fn route_spiral_follows_smallest_keys() {
    // Points on a line at positions 0, 5, 2, 9; the key is the distance from the
    // current point.
    let pos = [0i32, 5, 2, 9];
    let class = vec![0, 1, 2, 3];
    let route = route_spiral(&class, Some(0), &|_prev: Option<usize>, cur: usize, q: usize| (pos[q] - pos[cur]).abs());
    assert_eq!(route, vec![0, 2, 1, 3]);
}

#[test]
fn route_spiral_ties_go_to_first_candidate() {
    let class = vec![0, 1, 2];
    let route = route_spiral(&class, Some(2), &|_p: Option<usize>, _c: usize, _q: usize| 0);
    assert_eq!(route, vec![2, 0, 1]);
}

#[test]
fn route_spiral_skips_equal_candidates() {
    // Candidates 0 and 2 are equal, as are 1 and 3.
    let class = vec![0, 1, 0, 1];
    let route = route_spiral(&class, Some(2), &|_p: Option<usize>, _c: usize, q: usize| q as i32);
    assert_eq!(route, vec![2, 1]);
}

#[test]
fn route_spiral_passes_previous_point() {
    let class = vec![0, 1, 2];
    let seen = std::cell::RefCell::new(Vec::new());
    let route = route_spiral(&class, Some(0), &|p: Option<usize>, c: usize, q: usize| {
        seen.borrow_mut().push((p, c, q));
        q as i32
    });
    assert_eq!(route, vec![0, 1, 2]);
    assert_eq!(seen.into_inner(), vec![(None, 0, 1), (None, 0, 2), (Some(0), 1, 2)]);
}

#[test]
fn route_spiral_single_candidate() {
    let route = route_spiral(&vec![0], Some(0), &|_p: Option<usize>, _c: usize, _q: usize| 0);
    assert_eq!(route, vec![0]);
}

#[test]
fn route_spiral_visits_each_distinct_candidate_once() {
    // 12 candidates with repeated values; class maps each to its first equal.
    let values = [4, 7, 4, 1, 9, 7, 7, 2, 1, 5, 3, 9];
    let class: Vec<usize> = (0..values.len())
        .map(|i| (0..=i).find(|&j| values[j] == values[i]).unwrap())
        .collect();
    let route = route_spiral(&class, Some(3), &|p: Option<usize>, c: usize, q: usize| {
        ((values[q] * 31 + values[c] * 7 + p.map_or(0, |p| values[p])) % 17) as i32
    });
    assert_eq!(route[0], 3);
    let mut seen: Vec<i32> = route.iter().map(|&i| values[i]).collect();
    seen.sort();
    let mut distinct: Vec<i32> = values.to_vec();
    distinct.sort();
    distinct.dedup();
    assert_eq!(seen, distinct);
}

#[test]
fn route_spiral_no_candidate() {
    let route = route_spiral(&Vec::new(), None, &|_p: Option<usize>, _c: usize, _q: usize| 0);
    assert!(route.is_empty());
}

#[test]
fn route_spiral_appended_duplicate_changes_nothing() {
    let pos = [0i32, 5, 2, 9, 7];
    let class = vec![0, 1, 2, 3, 4];
    let key = |pos: &[i32]| {
        let pos = pos.to_vec();
        move |prev: Option<usize>, cur: usize, q: usize| {
            (pos[q] - pos[cur]).abs() * 10 + prev.map_or(0, |p| (pos[q] - pos[p]).abs() % 3)
        }
    };
    let r1 = route_spiral(&class, Some(0), &key(&pos));
    for i in 0..pos.len() {
        let mut pos2 = pos.to_vec();
        pos2.push(pos[i]);
        let mut class2 = class.clone();
        class2.push(class[i]);
        let r2 = route_spiral(&class2, Some(0), &key(&pos2));
        assert_eq!(r1, r2);
    }
}
