use gre::grouping::group_by_proximity;

type Pt = (f64, f64);

fn dist(a: Pt, b: Pt) -> f64 {
    let dx = a.0 - b.0;
    let dy = a.1 - b.1;
    (dx * dx + dy * dy).sqrt()
}

fn table(points: &[Pt], threshold: f64) -> Vec<Vec<bool>> {
    (0..points.len())
        .map(|i| (0..i).map(|j| dist(points[j], points[i]) < threshold).collect())
        .collect()
}

#[test]
fn group_by_proximity_clusters() {
    let pts = vec![(0.0, 0.0), (10.0, 10.0), (0.5, 0.0), (10.5, 10.0), (20.0, 0.0)];
    let near = table(&pts, 1.0);
    let groups = group_by_proximity(pts, &near);
    assert_eq!(
        groups,
        vec![
            vec![(0.0, 0.0), (0.5, 0.0)],
            vec![(10.0, 10.0), (10.5, 10.0)],
            vec![(20.0, 0.0)],
        ]
    );
}

#[test]
fn group_by_proximity_chains_through_members() {
    // (1.8, 0) is far from (0, 0) but near (0.9, 0), which joined the first group.
    let pts = vec![(0.0, 0.0), (0.9, 0.0), (1.8, 0.0)];
    let near = table(&pts, 1.0);
    let groups = group_by_proximity(pts, &near);
    assert_eq!(groups, vec![vec![(0.0, 0.0), (0.9, 0.0), (1.8, 0.0)]]);
}

#[test]
fn group_by_proximity_joins_first_near_group_only() {
    // The last point is near both groups; it joins the first one.
    let pts = vec![(0.0, 0.0), (2.0, 0.0), (1.0, 0.0)];
    let near = table(&pts, 1.5);
    let groups = group_by_proximity(pts, &near);
    assert_eq!(groups, vec![vec![(0.0, 0.0), (1.0, 0.0)], vec![(2.0, 0.0)]]);
}

#[test]
fn group_by_proximity_empty() {
    let groups: Vec<Vec<Pt>> = group_by_proximity(Vec::new(), &Vec::new());
    assert!(groups.is_empty());
}

#[test]
fn group_by_proximity_partitions_candidates() {
    let pts: Vec<Pt> = (0..40).map(|i| (((i * 7) % 13) as f64, ((i * 5) % 11) as f64)).collect();
    let near = table(&pts, 2.5);
    let groups = group_by_proximity(pts.clone(), &near);
    let total: usize = groups.iter().map(|g| g.len()).sum();
    assert_eq!(total, pts.len());
    assert!(groups.iter().all(|g| !g.is_empty()));
    // Each opener is near none of the candidates before it.
    for g in &groups {
        let first = g[0];
        let pos = pts.iter().position(|p| *p == first).unwrap();
        assert!(pts[..pos].iter().all(|q| dist(*q, first) >= 2.5));
    }
}

#[test]
fn group_by_proximity_members_after_the_first_are_near_an_earlier_member() {
    let pts: Vec<Pt> = (0..30).map(|i| (((i * 3) % 7) as f64 * 0.7, ((i * 5) % 9) as f64 * 0.6)).collect();
    let near = table(&pts, 1.0);
    let groups = group_by_proximity(pts.clone(), &near);
    for g in &groups {
        for k in 1..g.len() {
            assert!((0..k).any(|k2| dist(g[k2], g[k]) < 1.0));
        }
    }
}
