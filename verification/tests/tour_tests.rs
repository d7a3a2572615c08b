use gre::tour::tour_points;

#[test]
fn tour_points_follows_route() {
    let cands = vec![(0.0, 0.0), (1.0, 1.0), (2.0, 2.0)];
    let res = tour_points(&cands, &vec![2, 0, 1]);
    assert_eq!(res, vec![(2.0, 2.0), (0.0, 0.0), (1.0, 1.0)]);
}

#[test]
fn tour_points_empty_route() {
    let cands = vec![(0.0, 0.0)];
    assert!(tour_points(&cands, &Vec::new()).is_empty());
}

#[test]
fn tour_points_full_tour_holds_every_candidate() {
    let cands: Vec<u32> = vec![10, 20, 30, 40];
    let res = tour_points(&cands, &vec![3, 1, 0, 2]);
    for c in &cands {
        assert!(res.contains(c));
    }
}
