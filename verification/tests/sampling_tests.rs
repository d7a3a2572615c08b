use gre::sampling::{sample_2d_candidates, take_samples};
use rand::rngs::SmallRng;
use rand::SeedableRng;

fn grid(dim: usize, keep: impl Fn(usize, usize) -> bool) -> Vec<Vec<bool>> {
    (0..dim).map(|x| (0..dim).map(|y| keep(x, y)).collect()).collect()
}

#[test]
fn sample_2d_candidates_takes_all_kept_cells_when_enough_samples() {
    let keep = grid(4, |x, y| (x + y) % 2 == 0);
    let mut rng = SmallRng::seed_from_u64(7);
    let mut res = sample_2d_candidates(&keep, 4, 100, &mut rng);
    res.sort();
    let mut expected = Vec::new();
    for x in 0..4 {
        for y in 0..4 {
            if (x + y) % 2 == 0 {
                expected.push((x, y));
            }
        }
    }
    assert_eq!(res, expected);
}

#[test]
fn sample_2d_candidates_truncates_to_samples() {
    let keep = grid(6, |x, _y| x < 5);
    let mut rng = SmallRng::seed_from_u64(1);
    let res = sample_2d_candidates(&keep, 6, 7, &mut rng);
    assert_eq!(res.len(), 7);
    assert!(res.iter().all(|&(x, y)| x < 5 && y < 6));
    let mut dedup = res.clone();
    dedup.sort();
    dedup.dedup();
    assert_eq!(dedup.len(), 7);
}

#[test]
fn sample_2d_candidates_shuffles() {
    let keep = grid(10, |_x, _y| true);
    let mut rng = SmallRng::seed_from_u64(3);
    let res = sample_2d_candidates(&keep, 10, 100, &mut rng);
    let row_major: Vec<(usize, usize)> = (0..10).flat_map(|x| (0..10).map(move |y| (x, y))).collect();
    assert_eq!(res.len(), 100);
    assert_ne!(res, row_major);
    let mut sorted = res.clone();
    sorted.sort();
    assert_eq!(sorted, row_major);
}

#[test]
fn sample_2d_candidates_nothing_kept() {
    let keep = grid(5, |_x, _y| false);
    let mut rng = SmallRng::seed_from_u64(3);
    assert!(sample_2d_candidates(&keep, 5, 10, &mut rng).is_empty());
}

#[test]
fn sample_2d_candidates_zero_samples() {
    let keep = grid(3, |_x, _y| true);
    let mut rng = SmallRng::seed_from_u64(3);
    assert!(sample_2d_candidates(&keep, 3, 0, &mut rng).is_empty());
}

#[test]
fn sample_2d_candidates_empty_grid() {
    let mut rng = SmallRng::seed_from_u64(3);
    assert!(sample_2d_candidates(&Vec::new(), 0, 10, &mut rng).is_empty());
}

#[test]
fn take_samples_keeps_a_prefix() {
    assert_eq!(take_samples(vec![(3, 1), (0, 2), (4, 4)], 2), vec![(3, 1), (0, 2)]);
    assert_eq!(take_samples(vec![(3, 1), (0, 2)], 5), vec![(3, 1), (0, 2)]);
    assert_eq!(take_samples(vec![(3, 1)], 0), Vec::<(usize, usize)>::new());
}
