use gre::path::{pen_route, render_polygon_stroke, render_route, render_route_when, PathCommand};

type Pt = (f64, f64);

fn dist(a: Pt, b: Pt) -> f64 {
    ((a.0 - b.0) * (a.0 - b.0) + (a.1 - b.1) * (a.1 - b.1)).sqrt()
}

#[test]
fn render_route_moves_then_draws() {
    let route = vec![(0.0, 0.0), (1.0, 0.0), (1.0, 1.0)];
    let res = render_route(Vec::new(), route);
    assert_eq!(
        res,
        vec![
            PathCommand::MoveTo((0.0, 0.0)),
            PathCommand::LineTo((1.0, 0.0)),
            PathCommand::LineTo((1.0, 1.0)),
        ]
    );
}

#[test]
fn render_route_appends_to_existing_commands() {
    let data = vec![PathCommand::MoveTo((5.0, 5.0)), PathCommand::LineTo((6.0, 5.0))];
    let res = render_route(data, vec![(0.0, 0.0), (2.0, 2.0)]);
    assert_eq!(
        res,
        vec![
            PathCommand::MoveTo((5.0, 5.0)),
            PathCommand::LineTo((6.0, 5.0)),
            PathCommand::MoveTo((0.0, 0.0)),
            PathCommand::LineTo((2.0, 2.0)),
        ]
    );
}

#[test]
fn render_route_empty_route_adds_nothing() {
    let data = vec![PathCommand::MoveTo((1.0, 1.0))];
    let res: Vec<PathCommand<Pt>> = render_route(data.clone(), Vec::new());
    assert_eq!(res, data);
}

#[test]
fn render_route_single_point_only_moves() {
    let res = render_route(Vec::new(), vec![(3.0, 4.0)]);
    assert_eq!(res, vec![PathCommand::MoveTo((3.0, 4.0))]);
}

#[test]
fn render_polygon_stroke_follows_ring() {
    let ring = vec![(0.0, 0.0), (1.0, 0.0), (1.0, 1.0), (0.0, 0.0)];
    let res = render_polygon_stroke(Vec::new(), ring.clone());
    assert_eq!(res, render_route(Vec::new(), ring));
    assert_eq!(res.len(), 4);
    assert_eq!(res[3], PathCommand::LineTo((0.0, 0.0)));
}

#[test]
fn render_route_when_lifts_pen_over_long_jumps() {
    let route = vec![(0.0, 0.0), (1.0, 0.0), (10.0, 0.0), (11.0, 0.0), (12.0, 0.0)];
    let res = render_route_when(Vec::new(), route, &|a: Pt, b: Pt| dist(a, b) < 2.0);
    assert_eq!(
        res,
        vec![
            PathCommand::MoveTo((0.0, 0.0)),
            PathCommand::LineTo((1.0, 0.0)),
            PathCommand::MoveTo((10.0, 0.0)),
            PathCommand::LineTo((11.0, 0.0)),
            PathCommand::LineTo((12.0, 0.0)),
        ]
    );
}

#[test]
fn render_route_when_accepting_all_is_render_route() {
    let route = vec![(0.0, 0.0), (1.0, 2.0), (3.0, 1.0), (4.0, 4.0)];
    let a = render_route_when(Vec::new(), route.clone(), &|_a: Pt, _b: Pt| true);
    let b = render_route(Vec::new(), route);
    assert_eq!(a, b);
}

#[test]
fn render_route_when_refusing_all_only_moves_to_start() {
    let route = vec![(0.0, 0.0), (1.0, 2.0), (3.0, 1.0)];
    let res = render_route_when(Vec::new(), route, &|_a: Pt, _b: Pt| false);
    assert_eq!(res, vec![PathCommand::MoveTo((0.0, 0.0))]);
}

#[test]
fn render_route_when_empty_route() {
    let res: Vec<PathCommand<Pt>> = render_route_when(Vec::new(), Vec::new(), &|_a: Pt, _b: Pt| true);
    assert!(res.is_empty());
}

#[test]
fn render_route_when_asks_each_consecutive_pair_in_order() {
    let route = vec![(0.0, 0.0), (1.0, 0.0), (2.0, 0.0), (3.0, 0.0)];
    let asked = std::cell::RefCell::new(Vec::new());
    let _ = render_route_when(Vec::new(), route, &|a: Pt, b: Pt| {
        asked.borrow_mut().push((a.0, b.0));
        true
    });
    assert_eq!(asked.into_inner(), vec![(0.0, 1.0), (1.0, 2.0), (2.0, 3.0)]);
}

#[test]
fn pen_route_draws_exactly_accepted_segments() {
    let route = vec![1u32, 2, 3, 4, 5, 6];
    let draw = vec![true, false, false, true, true];
    let res = pen_route(Vec::new(), &route, &draw);
    assert_eq!(
        res,
        vec![
            PathCommand::MoveTo(1),
            PathCommand::LineTo(2),
            PathCommand::MoveTo(4),
            PathCommand::LineTo(5),
            PathCommand::LineTo(6),
        ]
    );
    let lines = res.iter().filter(|c| matches!(c, PathCommand::LineTo(_))).count();
    assert_eq!(lines, draw.iter().filter(|d| **d).count());
}

#[test]
fn pen_route_first_segment_refused() {
    let route = vec![1u32, 2, 3];
    let draw = vec![false, true];
    let res = pen_route(Vec::new(), &route, &draw);
    assert_eq!(res, vec![PathCommand::MoveTo(1), PathCommand::MoveTo(2), PathCommand::LineTo(3)]);
}
