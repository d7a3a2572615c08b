//! Building pen paths (sequences of move/line commands) from routes of points.
use vstd::prelude::*;

verus! {

/// One instruction of a pen path: lift the pen and go to a point, or draw a
/// straight line from the current position to a point.
#[derive(Clone, Copy, Debug, PartialEq)]
pub enum PathCommand<P> {
    MoveTo(P),
    LineTo(P),
}

/// The point that a command ends at.
pub open spec fn command_point<P>(c: PathCommand<P>) -> P {
    match c {
        PathCommand::MoveTo(p) => p,
        PathCommand::LineTo(p) => p,
    }
}

/// The commands that draw a polyline through `route`: a move to the first
/// point, then a line to each following point.
pub open spec fn route_commands<P>(route: Seq<P>) -> Seq<PathCommand<P>> {
    Seq::new(
        route.len(),
        |i: int|
            if i == 0 {
                PathCommand::MoveTo(route[0])
            } else {
                PathCommand::LineTo(route[i])
            },
    )
}

/// Appends to `data` the commands that draw the polyline through `route`.
pub fn render_route<P: Copy>(data: Vec<PathCommand<P>>, route: Vec<P>) -> (res: Vec<PathCommand<P>>)
    ensures
        res@ == data@ + route_commands(route@),
{
    let mut d = data;
    let n = route.len();
    let mut i: usize = 0;
    while i < n
        invariant
            n == route.len(),
            i <= n,
            d@ == data@ + route_commands(route@.take(i as int)),
        decreases n - i,
    {
        let p = route[i];
        if i == 0 {
            d.push(PathCommand::MoveTo(p));
        } else {
            d.push(PathCommand::LineTo(p));
        }
        assert(route_commands(route@.take(i + 1)) =~= route_commands(route@.take(i as int)).push(
            if i == 0 { PathCommand::MoveTo(p) } else { PathCommand::LineTo(p) },
        ));
        i = i + 1;
    }
    assert(route@.take(n as int) =~= route@);
    d
}


/// Appends to `data` the commands that stroke an outline given by the points of
/// its ring, in order.
pub fn render_polygon_stroke<P: Copy>(data: Vec<PathCommand<P>>, ring: Vec<P>) -> (res: Vec<PathCommand<P>>)
    ensures
        res@ == data@ + route_commands(ring@),
{
    render_route(data, ring)
}

/// Runs the pen over `route` with the decisions `draw`: `draw[j]` tells whether
/// the segment from `route[j]` to `route[j + 1]` is drawn. Returns the commands
/// for the first `n` points, and whether the pen is lifted after them (the last
/// segment considered was skipped).
pub open spec fn pen_state<P>(route: Seq<P>, draw: Seq<bool>, n: nat) -> (Seq<PathCommand<P>>, bool)
    decreases n,
{
    if n == 0 {
        (seq![], false)
    } else if n == 1 {
        (seq![PathCommand::MoveTo(route[0])], false)
    } else {
        let prev = pen_state(route, draw, (n - 1) as nat);
        let i = n - 1;
        if draw[i - 1] {
            if prev.1 {
                (prev.0.push(PathCommand::MoveTo(route[i - 1])).push(PathCommand::LineTo(route[i])), false)
            } else {
                (prev.0.push(PathCommand::LineTo(route[i])), false)
            }
        } else {
            (prev.0, true)
        }
    }
}

/// The commands of a pen that walks `route`, drawing only the segments that
/// `draw` accepts, and moving with the pen up over the others.
pub open spec fn pen_commands<P>(route: Seq<P>, draw: Seq<bool>) -> Seq<PathCommand<P>> {
    pen_state(route, draw, route.len()).0
}

/// Appends to `data` the commands of a pen that walks `route` and draws the
/// segment from `route[j]` to `route[j + 1]` exactly when `draw[j]` holds.
pub fn pen_route<P: Copy>(data: Vec<PathCommand<P>>, route: &Vec<P>, draw: &Vec<bool>) -> (res: Vec<PathCommand<P>>)
    requires
        route.len() <= draw.len() + 1,
    ensures
        res@ == data@ + pen_commands(route@, draw@),
{
    let mut d = data;
    let n = route.len();
    let mut up = false;
    let mut i: usize = 0;
    while i < n
        invariant
            n == route.len(),
            n <= draw.len() + 1,
            i <= n,
            d@ == data@ + pen_state(route@, draw@, i as nat).0,
            up == pen_state(route@, draw@, i as nat).1,
        decreases n - i,
    {
        if i == 0 {
            d.push(PathCommand::MoveTo(route[0]));
        } else if draw[i - 1] {
            if up {
                up = false;
                d.push(PathCommand::MoveTo(route[i - 1]));
            }
            d.push(PathCommand::LineTo(route[i]));
        } else {
            up = true;
        }
        i = i + 1;
    }
    d
}

/// `draw` holds the answers of `should_draw_line` for each consecutive pair of
/// points of `route`.
pub open spec fn decided_by<P, F: Fn(P, P) -> bool>(should_draw_line: F, route: Seq<P>, draw: Seq<bool>) -> bool {
    &&& route.len() <= draw.len() + 1
    &&& forall|j: int| 0 <= j < route.len() - 1 ==> call_ensures(should_draw_line, (route[j], route[j + 1]), #[trigger] draw[j])
}

/// Appends to `data` the commands of a pen that walks `route` and draws the
/// segment between two consecutive points only where `should_draw_line`
/// accepts the pair; elsewhere the pen is lifted.
pub fn render_route_when<P: Copy, F: Fn(P, P) -> bool>(
    data: Vec<PathCommand<P>>,
    route: Vec<P>,
    should_draw_line: &F,
) -> (res: Vec<PathCommand<P>>)
    requires
        forall|a: P, b: P| call_requires(*should_draw_line, (a, b)),
    ensures
        exists|draw: Seq<bool>|
            #[trigger] decided_by(*should_draw_line, route@, draw) && res@ == data@ + pen_commands(route@, draw),
{
    let n = route.len();
    let mut draw: Vec<bool> = Vec::new();
    let mut j: usize = 1;
    while j < n
        invariant
            n == route.len(),
            1 <= j,
            j <= n || n == 0,
            draw.len() == j - 1,
            forall|a: P, b: P| call_requires(*should_draw_line, (a, b)),
            forall|k: int| 0 <= k < j - 1 ==> call_ensures(*should_draw_line, (route@[k], route@[k + 1]), #[trigger] draw@[k]),
        decreases n - j,
    {
        let b = should_draw_line(route[j - 1], route[j]);
        draw.push(b);
        j = j + 1;
    }
    let res = pen_route(data, &route, &draw);
    assert(decided_by(*should_draw_line, route@, draw@));
    res
}


/// The straight segments that a pen following `cmds` draws, in order: one per
/// line command that has a command before it, from where that command left the
/// pen.
pub open spec fn segments<P>(cmds: Seq<PathCommand<P>>) -> Seq<(P, P)>
    decreases cmds.len(),
{
    if cmds.len() < 2 {
        seq![]
    } else {
        let rest = segments(cmds.drop_last());
        match cmds.last() {
            PathCommand::LineTo(q) => rest.push((command_point(cmds[cmds.len() - 2]), q)),
            PathCommand::MoveTo(_) => rest,
        }
    }
}

/// The pairs of consecutive points among the first `n` points of `route`
/// whose segment `draw` accepts, in route order.
pub open spec fn accepted_pairs<P>(route: Seq<P>, draw: Seq<bool>, n: nat) -> Seq<(P, P)>
    decreases n,
{
    if n < 2 {
        seq![]
    } else {
        let rest = accepted_pairs(route, draw, (n - 1) as nat);
        if draw[n - 2] {
            rest.push((route[n - 2], route[n - 1]))
        } else {
            rest
        }
    }
}

/// All pairs of consecutive points of `route`, in order.
pub open spec fn consecutive_pairs<P>(route: Seq<P>) -> Seq<(P, P)> {
    if route.len() == 0 {
        seq![]
    } else {
        Seq::new((route.len() - 1) as nat, |j: int| (route[j], route[j + 1]))
    }
}

/// Decisions that accept every segment of a route with `len` points.
pub open spec fn accept_all(len: nat) -> Seq<bool> {
    Seq::new(len, |j: int| true)
}

/// Decisions that refuse every segment of a route with `len` points.
pub open spec fn refuse_all(len: nat) -> Seq<bool> {
    Seq::new(len, |j: int| false)
}

proof fn lemma_segments_push_line<P>(c: Seq<PathCommand<P>>, q: P)
    requires
        c.len() >= 1,
    ensures
        segments(c.push(PathCommand::LineTo(q))) == segments(c).push((command_point(c.last()), q)),
{
    assert(c.push(PathCommand::LineTo(q)).drop_last() =~= c);
}

proof fn lemma_segments_push_move<P>(c: Seq<PathCommand<P>>, p: P)
    requires
        c.len() >= 1,
    ensures
        segments(c.push(PathCommand::MoveTo(p))) == segments(c),
{
    assert(c.push(PathCommand::MoveTo(p)).drop_last() =~= c);
}

proof fn lemma_pen_state<P>(route: Seq<P>, draw: Seq<bool>, n: nat)
    requires
        n <= route.len(),
        route.len() <= draw.len() + 1,
    ensures
        n >= 1 ==> pen_state(route, draw, n).0.len() >= 1,
        n >= 1 && !pen_state(route, draw, n).1 ==> command_point(pen_state(route, draw, n).0.last()) == route[n - 1],
        segments(pen_state(route, draw, n).0) == accepted_pairs(route, draw, n),
    decreases n,
{
    if n >= 2 {
        lemma_pen_state(route, draw, (n - 1) as nat);
        let c = pen_state(route, draw, (n - 1) as nat).0;
        let i = n - 1;
        if draw[i - 1] {
            if pen_state(route, draw, (n - 1) as nat).1 {
                lemma_segments_push_move(c, route[i - 1]);
                lemma_segments_push_line(c.push(PathCommand::MoveTo(route[i - 1])), route[i]);
            } else {
                lemma_segments_push_line(c, route[i]);
            }
        }
    }
}

/// A pen that walks a route under some decisions draws exactly the segments
/// between consecutive points that the decisions accept, in route order, and
/// nothing else.
pub proof fn law_pen_draws_accepted_segments<P>(route: Seq<P>, draw: Seq<bool>)
    requires
        route.len() <= draw.len() + 1,
    ensures
        segments(pen_commands(route, draw)) == accepted_pairs(route, draw, route.len()),
{
    lemma_pen_state(route, draw, route.len());
}

proof fn lemma_pen_state_accept_all<P>(route: Seq<P>, n: nat)
    requires
        n <= route.len(),
    ensures
        pen_state(route, accept_all(route.len()), n).0 == route_commands(route.take(n as int)),
        !pen_state(route, accept_all(route.len()), n).1,
    decreases n,
{
    if n >= 1 {
        lemma_pen_state_accept_all(route, (n - 1) as nat);
        let i = n - 1;
        if n >= 2 {
            assert(accept_all(route.len())[i - 1]);
        }
        assert(route_commands(route.take(n as int)) =~= route_commands(route.take(i as int)).push(
            if i == 0 { PathCommand::MoveTo(route[0]) } else { PathCommand::LineTo(route[i]) },
        ));
    }
}

/// A pen that accepts every segment draws the same path as the plain polyline
/// through the route.
pub proof fn law_accepting_all_is_plain_route<P>(route: Seq<P>)
    ensures
        pen_commands(route, accept_all(route.len())) == route_commands(route),
{
    lemma_pen_state_accept_all(route, route.len());
    assert(route.take(route.len() as int) =~= route);
}

proof fn lemma_accepted_all_pairs<P>(route: Seq<P>, n: nat)
    requires
        n <= route.len(),
    ensures
        accepted_pairs(route, accept_all(route.len()), n) == consecutive_pairs(route.take(n as int)),
    decreases n,
{
    if n >= 2 {
        lemma_accepted_all_pairs(route, (n - 1) as nat);
        assert(accept_all(route.len())[n - 2]);
        assert(consecutive_pairs(route.take(n as int)) =~= consecutive_pairs(route.take(n - 1)).push(
            (route[n - 2], route[n - 1]),
        ));
    } else {
        assert(consecutive_pairs(route.take(n as int)) =~= seq![]);
    }
}

/// The polyline through a route draws exactly one segment between each pair of
/// consecutive points, in route order.
pub proof fn law_route_draws_consecutive_pairs<P>(route: Seq<P>)
    ensures
        segments(route_commands(route)) == consecutive_pairs(route),
{
    law_accepting_all_is_plain_route(route);
    law_pen_draws_accepted_segments(route, accept_all(route.len()));
    lemma_accepted_all_pairs(route, route.len());
    assert(route.take(route.len() as int) =~= route);
}

proof fn lemma_pen_state_refuse_all<P>(route: Seq<P>, n: nat)
    requires
        1 <= n <= route.len(),
    ensures
        pen_state(route, refuse_all(route.len()), n).0 == seq![PathCommand::MoveTo(route[0])],
    decreases n,
{
    if n >= 2 {
        lemma_pen_state_refuse_all(route, (n - 1) as nat);
        assert(!refuse_all(route.len())[n - 2]);
    }
}

/// A pen that refuses every segment only moves to the first point of the route.
pub proof fn law_refusing_all_only_moves_to_start<P>(route: Seq<P>)
    requires
        route.len() >= 1,
    ensures
        pen_commands(route, refuse_all(route.len())) == seq![PathCommand::MoveTo(route[0])],
{
    lemma_pen_state_refuse_all(route, route.len());
}

proof fn lemma_pen_state_starts_with_move<P>(route: Seq<P>, draw: Seq<bool>, n: nat)
    requires
        1 <= n <= route.len(),
        route.len() <= draw.len() + 1,
    ensures
        pen_state(route, draw, n).0.len() >= 1,
        pen_state(route, draw, n).0[0] == PathCommand::MoveTo(route[0]),
    decreases n,
{
    if n >= 2 {
        lemma_pen_state_starts_with_move(route, draw, (n - 1) as nat);
    }
}

/// Whatever the decisions, a pen path over a non-empty route begins by moving
/// (pen up) to the first point of the route, so nothing is drawn from wherever
/// the pen stood before; and over an empty route it adds nothing.
pub proof fn law_pen_path_starts_with_move_to_first_point<P>(route: Seq<P>, draw: Seq<bool>)
    requires
        route.len() <= draw.len() + 1,
    ensures
        route.len() == 0 ==> pen_commands(route, draw).len() == 0,
        route.len() >= 1 ==> pen_commands(route, draw).len() >= 1 && pen_commands(route, draw)[0] == PathCommand::MoveTo(
            route[0],
        ),
        route.len() >= 1 ==> route_commands(route)[0] == PathCommand::MoveTo(route[0]),
{
    if route.len() >= 1 {
        lemma_pen_state_starts_with_move(route, draw, route.len());
    }
}

} // verus!
