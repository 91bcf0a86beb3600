//! A rectangular maze carved by randomized depth-first search, with
//! player traversal: passages join adjacent cells, and the player walks
//! from the top-left corner toward the bottom-right one.

use vstd::prelude::*;
use crate::maze::rng::{new_rng, shuffle_vec};
use crate::seq_util::{count_false, count_false_upto, count_true, lemma_count_false_set_true};

verus! {

/// A 2D position in the maze grid.
#[derive(Clone, Copy, Debug, PartialEq, Eq, Structural, Hash)]
pub struct Position {
    pub x: usize,
    pub y: usize,
}

/// Cardinal directions used to move within the maze.
#[derive(Clone, Copy, PartialEq, Eq, Structural)]
pub enum Direction {
    North,
    South,
    East,
    West,
}

/// The position lies on a grid of the given width and height.
pub open spec fn in_bounds(p: Position, width: int, height: int) -> bool {
    p.x < width && p.y < height
}

/// The cell one step from `pos` in direction `dir`, when that step stays
/// on the grid: north decreases y, south increases it, east increases x,
/// west decreases it.
pub open spec fn spec_move_pos(width: int, height: int, pos: Position, dir: Direction) -> Option<
    Position,
> {
    match dir {
        Direction::North => if pos.y > 0 {
            Some(Position { x: pos.x, y: (pos.y - 1) as usize })
        } else {
            None
        },
        Direction::South => if pos.y + 1 < height {
            Some(Position { x: pos.x, y: (pos.y + 1) as usize })
        } else {
            None
        },
        Direction::East => if pos.x + 1 < width {
            Some(Position { x: (pos.x + 1) as usize, y: pos.y })
        } else {
            None
        },
        Direction::West => if pos.x > 0 {
            Some(Position { x: (pos.x - 1) as usize, y: pos.y })
        } else {
            None
        },
    }
}

/// The pair joins two grid cells one step apart.
pub open spec fn adjacent_pair(e: (Position, Position), width: int, height: int) -> bool {
    &&& in_bounds(e.0, width, height)
    &&& in_bounds(e.1, width, height)
    &&& exists|d: Direction| spec_move_pos(width, height, e.0, d) == Some(e.1)
}

/// A step on the grid can be walked back: moving somewhere leaves a
/// direction that moves exactly home again.
pub proof fn lemma_move_pos_symmetric(width: int, height: int, a: Position, d: Direction, b: Position)
    requires
        width <= usize::MAX,
        height <= usize::MAX,
        in_bounds(a, width, height),
        spec_move_pos(width, height, a, d) == Some(b),
    ensures
        in_bounds(b, width, height),
        exists|d2: Direction| spec_move_pos(width, height, b, d2) == Some(a),
{
    match d {
        Direction::North => {
            assert(spec_move_pos(width, height, b, Direction::South) == Some(a));
        },
        Direction::South => {
            assert(spec_move_pos(width, height, b, Direction::North) == Some(a));
        },
        Direction::East => {
            assert(spec_move_pos(width, height, b, Direction::West) == Some(a));
        },
        Direction::West => {
            assert(spec_move_pos(width, height, b, Direction::East) == Some(a));
        },
    }
}

/// A passage from `a` to `b` is recorded in the connection list.
pub open spec fn passage_edge(cs: Seq<(Position, Position)>, a: Position, b: Position) -> bool {
    exists|i: int| 0 <= i < cs.len() && #[trigger] cs[i] == (a, b)
}

/// `p` walks from `a` to `b` along recorded passages.
pub open spec fn passage_path(
    cs: Seq<(Position, Position)>,
    p: Seq<Position>,
    a: Position,
    b: Position,
) -> bool {
    &&& p.len() >= 1
    &&& p[0] == a
    &&& p.last() == b
    &&& forall|i: int| 0 <= i < p.len() - 1 ==> passage_edge(cs, #[trigger] p[i], p[i + 1])
}

/// Some walk along recorded passages leads from `a` to `b`.
pub open spec fn passage_reach(cs: Seq<(Position, Position)>, a: Position, b: Position) -> bool {
    exists|p: Seq<Position>| passage_path(cs, p, a, b)
}

/// Every cell reaches itself.
pub proof fn lemma_passage_refl(cs: Seq<(Position, Position)>, a: Position)
    ensures
        passage_reach(cs, a, a),
{
    assert(passage_path(cs, seq![a], a, a));
}

/// A walk extends across one more recorded passage.
pub proof fn lemma_passage_extend(
    cs: Seq<(Position, Position)>,
    a: Position,
    b: Position,
    c: Position,
)
    requires
        passage_reach(cs, a, b),
        passage_edge(cs, b, c),
    ensures
        passage_reach(cs, a, c),
{
    let p = choose|p: Seq<Position>| passage_path(cs, p, a, b);
    let q = p.push(c);
    assert(q[0] == p[0]);
    assert forall|i: int| 0 <= i < q.len() - 1 implies passage_edge(cs, #[trigger] q[i], q[i + 1]) by {
        if i < p.len() - 1 {
            assert(q[i] == p[i] && q[i + 1] == p[i + 1]);
        } else {
            assert(q[i] == p.last() && q[i + 1] == c);
        }
    }
    assert(passage_path(cs, q, a, c));
}

/// Carving more passages never severs a walk.
pub proof fn lemma_passage_monotone(
    cs1: Seq<(Position, Position)>,
    cs2: Seq<(Position, Position)>,
    a: Position,
    b: Position,
)
    requires
        passage_reach(cs1, a, b),
        forall|x: Position, y: Position| #[trigger] passage_edge(cs1, x, y) ==> passage_edge(
            cs2,
            x,
            y,
        ),
    ensures
        passage_reach(cs2, a, b),
{
    let p = choose|p: Seq<Position>| passage_path(cs1, p, a, b);
    assert forall|i: int|
        0 <= i < p.len() - 1 implies passage_edge(cs2, #[trigger] p[i], p[i + 1]) by {
        assert(passage_edge(cs1, p[i], p[i + 1]));
    }
    assert(passage_path(cs2, p, a, b));
}

/// Recording a pair of passages keeps every recorded passage and records
/// the two new ones.
pub proof fn lemma_passage_grow2(
    cs: Seq<(Position, Position)>,
    e1: (Position, Position),
    e2: (Position, Position),
)
    ensures
        forall|x: Position, y: Position| #[trigger] passage_edge(cs, x, y) ==> passage_edge(
            cs.push(e1).push(e2),
            x,
            y,
        ),
        passage_edge(cs.push(e1).push(e2), e1.0, e1.1),
        passage_edge(cs.push(e1).push(e2), e2.0, e2.1),
{
    let cs2 = cs.push(e1).push(e2);
    assert forall|x: Position, y: Position|
        #[trigger] passage_edge(cs, x, y) implies passage_edge(cs2, x, y) by {
        let i = choose|i: int| 0 <= i < cs.len() && #[trigger] cs[i] == (x, y);
        assert(cs2[i] == (x, y));
    }
    assert(cs2[cs2.len() - 2] == e1);
    assert(cs2[cs2.len() - 1] == e2);
}

/// The cell `p` carries a mark in the per-cell table `vis` of a grid
/// `w` cells wide.
pub open spec fn cell_marked(vis: Seq<bool>, w: int, p: Position) -> bool {
    vis[p.y as int * w + p.x as int]
}

/// Carving one step keeps every marked cell reachable from the start:
/// the old marks stay reachable through the grown passage list, and the
/// newly marked cell is reached through the passage just carved from an
/// already-marked cell.
proof fn lemma_reach_after_carve(
    vis: Seq<bool>,
    vis2: Seq<bool>,
    conns: Seq<(Position, Position)>,
    conns2: Seq<(Position, Position)>,
    pos: Position,
    next: Position,
    start: Position,
    gw: int,
    gh: int,
)
    requires
        gw >= 1,
        gh >= 1,
        vis.len() == gw * gh,
        vis2 == vis.update(next.y as int * gw + next.x as int, true),
        conns2 == conns.push((pos, next)).push((next, pos)),
        in_bounds(pos, gw, gh),
        in_bounds(next, gw, gh),
        cell_marked(vis, gw, pos),
        forall|p: Position|
            in_bounds(p, gw, gh) && #[trigger] cell_marked(vis, gw, p) ==> passage_reach(
                conns,
                start,
                p,
            ),
    ensures
        forall|p: Position|
            in_bounds(p, gw, gh) && #[trigger] cell_marked(vis2, gw, p) ==> passage_reach(
                conns2,
                start,
                p,
            ),
{
    lemma_passage_grow2(conns, (pos, next), (next, pos));
    lemma_cell_index_bounds(gw, gh, next);
    assert forall|p: Position|
        in_bounds(p, gw, gh) && #[trigger] cell_marked(vis2, gw, p) implies passage_reach(
        conns2,
        start,
        p,
    ) by {
        lemma_cell_index_bounds(gw, gh, p);
        if cell_marked(vis, gw, p) {
            lemma_passage_monotone(conns, conns2, start, p);
        } else {
            lemma_index_injective(gw, p.x as int, p.y as int, next.x as int, next.y as int);
            assert(p == next);
            lemma_passage_monotone(conns, conns2, start, pos);
            lemma_passage_extend(conns2, start, pos, next);
        }
    }
}

/// Carving one step keeps the frontier sound: the newly marked cell
/// joins the stack, and the processed direction's obligation at `pos`
/// is met by the fresh mark.
proof fn lemma_frontier_after_carve(
    vis: Seq<bool>,
    vis2: Seq<bool>,
    st: Seq<Position>,
    st2: Seq<Position>,
    dirs: Seq<Direction>,
    k: int,
    d: Direction,
    pos: Position,
    next: Position,
    gw: int,
    gh: int,
)
    requires
        gw >= 1,
        gh >= 1,
        vis.len() == gw * gh,
        0 <= k < dirs.len(),
        dirs[k] == d,
        in_bounds(pos, gw, gh),
        spec_move_pos(gw, gh, pos, d) == Some(next),
        vis2 == vis.update(next.y as int * gw + next.x as int, true),
        st2 == st.push(next),
        forall|p: Position, d2: Direction|
            in_bounds(p, gw, gh) && cell_marked(vis, gw, p) && (#[trigger] spec_move_pos(
                gw,
                gh,
                p,
                d2,
            )) is Some ==> cell_marked(vis, gw, spec_move_pos(gw, gh, p, d2)->0) || in_stack(st, p)
                || (p == pos && dir_pending(dirs, k, d2)),
    ensures
        forall|p: Position, d2: Direction|
            in_bounds(p, gw, gh) && cell_marked(vis2, gw, p) && (#[trigger] spec_move_pos(
                gw,
                gh,
                p,
                d2,
            )) is Some ==> cell_marked(vis2, gw, spec_move_pos(gw, gh, p, d2)->0) || in_stack(
                st2,
                p,
            ) || (p == pos && dir_pending(dirs, k + 1, d2)),
{
    assert forall|p: Position, d2: Direction|
        in_bounds(p, gw, gh) && cell_marked(vis2, gw, p) && (#[trigger] spec_move_pos(
            gw,
            gh,
            p,
            d2,
        )) is Some implies cell_marked(vis2, gw, spec_move_pos(gw, gh, p, d2)->0) || in_stack(
        st2,
        p,
    ) || (p == pos && dir_pending(dirs, k + 1, d2)) by {
        lemma_cell_index_bounds(gw, gh, p);
        let q = spec_move_pos(gw, gh, p, d2)->0;
        assert(in_bounds(q, gw, gh));
        lemma_cell_index_bounds(gw, gh, q);
        lemma_cell_index_bounds(gw, gh, next);
        if cell_marked(vis, gw, p) {
            if !cell_marked(vis2, gw, q) {
                if in_stack(st, p) {
                    let j = choose|j: int| 0 <= j < st.len() && st[j] == p;
                    assert(st2[j] == p);
                } else if p == pos && dir_pending(dirs, k, d2) && !dir_pending(dirs, k + 1, d2) {
                    let m = choose|m: int| k <= m < dirs.len() && dirs[m] == d2;
                    assert(m == k);
                    assert(d2 == d);
                    assert(cell_marked(vis2, gw, next));
                }
            }
        } else {
            lemma_index_injective(gw, p.x as int, p.y as int, next.x as int, next.y as int);
            assert(p == next);
            assert(st2[st2.len() - 1] == p);
        }
    }
}

/// Processing a direction whose step is off the grid or already marked
/// discharges its pending obligation without any change of state.
proof fn lemma_frontier_step_noop(
    vis: Seq<bool>,
    st: Seq<Position>,
    dirs: Seq<Direction>,
    k: int,
    d: Direction,
    pos: Position,
    gw: int,
    gh: int,
)
    requires
        0 <= k < dirs.len(),
        dirs[k] == d,
        (spec_move_pos(gw, gh, pos, d) matches Some(q) ==> cell_marked(vis, gw, q)),
        forall|p: Position, d2: Direction|
            in_bounds(p, gw, gh) && cell_marked(vis, gw, p) && (#[trigger] spec_move_pos(
                gw,
                gh,
                p,
                d2,
            )) is Some ==> cell_marked(vis, gw, spec_move_pos(gw, gh, p, d2)->0) || in_stack(st, p)
                || (p == pos && dir_pending(dirs, k, d2)),
    ensures
        forall|p: Position, d2: Direction|
            in_bounds(p, gw, gh) && cell_marked(vis, gw, p) && (#[trigger] spec_move_pos(
                gw,
                gh,
                p,
                d2,
            )) is Some ==> cell_marked(vis, gw, spec_move_pos(gw, gh, p, d2)->0) || in_stack(st, p)
                || (p == pos && dir_pending(dirs, k + 1, d2)),
{
    assert forall|p: Position, d2: Direction|
        in_bounds(p, gw, gh) && cell_marked(vis, gw, p) && (#[trigger] spec_move_pos(
            gw,
            gh,
            p,
            d2,
        )) is Some implies cell_marked(vis, gw, spec_move_pos(gw, gh, p, d2)->0) || in_stack(st, p)
        || (p == pos && dir_pending(dirs, k + 1, d2)) by {
        if p == pos && dir_pending(dirs, k, d2) && !dir_pending(dirs, k + 1, d2) {
            let m = choose|m: int| k <= m < dirs.len() && dirs[m] == d2;
            assert(m == k);
            assert(d2 == d);
        }
    }
}

/// Carving one passage pair preserves the connection invariants: every
/// entry joins adjacent cells, and every entry's reverse is recorded.
proof fn lemma_conns_after_carve(
    conns: Seq<(Position, Position)>,
    pos: Position,
    next: Position,
    d: Direction,
    gw: int,
    gh: int,
)
    requires
        gw <= usize::MAX,
        gh <= usize::MAX,
        in_bounds(pos, gw, gh),
        spec_move_pos(gw, gh, pos, d) == Some(next),
        forall|i: int| 0 <= i < conns.len() ==> adjacent_pair(#[trigger] conns[i], gw, gh),
        forall|i: int|
            0 <= i < conns.len() ==> passage_edge(conns, (#[trigger] conns[i]).1, conns[i].0),
    ensures
        ({
            let cs2 = conns.push((pos, next)).push((next, pos));
            &&& forall|i: int| 0 <= i < cs2.len() ==> adjacent_pair(#[trigger] cs2[i], gw, gh)
            &&& forall|i: int|
                0 <= i < cs2.len() ==> passage_edge(cs2, (#[trigger] cs2[i]).1, cs2[i].0)
        }),
{
    lemma_move_pos_symmetric(gw, gh, pos, d, next);
    let cs2 = conns.push((pos, next)).push((next, pos));
    assert(cs2[cs2.len() - 2] == (pos, next));
    assert(cs2[cs2.len() - 1] == (next, pos));
    assert forall|i: int| 0 <= i < cs2.len() implies adjacent_pair(#[trigger] cs2[i], gw, gh) by {
        if i < cs2.len() - 2 {
            assert(cs2[i] == conns[i]);
        }
    }
    assert forall|i: int|
        0 <= i < cs2.len() implies passage_edge(cs2, (#[trigger] cs2[i]).1, cs2[i].0) by {
        if i < cs2.len() - 2 {
            assert(cs2[i] == conns[i]);
            let j = choose|j: int|
                0 <= j < conns.len() && #[trigger] conns[j] == (conns[i].1, conns[i].0);
            assert(cs2[j] == (cs2[i].1, cs2[i].0));
        } else if i == cs2.len() - 2 {
            assert(cs2[cs2.len() - 1] == (cs2[i].1, cs2[i].0));
        } else {
            assert(cs2[cs2.len() - 2] == (cs2[i].1, cs2[i].0));
        }
    }
}

/// `p` is somewhere on the stack.
pub open spec fn in_stack(st: Seq<Position>, p: Position) -> bool {
    exists|k: int| 0 <= k < st.len() && st[k] == p
}

/// Direction `d` still awaits processing at or after index `k`.
pub open spec fn dir_pending(ds: Seq<Direction>, k: int, d: Direction) -> bool {
    exists|m: int| k <= m < ds.len() && ds[m] == d
}

/// The search frontier covers the marks: every marked cell either has
/// every on-grid neighbor marked, or still waits on the stack.
pub open spec fn frontier_ok(vis: Seq<bool>, st: Seq<Position>, w: int, h: int) -> bool {
    forall|p: Position, d: Direction|
        in_bounds(p, w, h) && cell_marked(vis, w, p) && (#[trigger] spec_move_pos(w, h, p, d))
            is Some ==> cell_marked(vis, w, spec_move_pos(w, h, p, d)->0) || in_stack(st, p)
}

/// Distinct cells of the grid occupy distinct table slots.
pub proof fn lemma_index_injective(w: int, x1: int, y1: int, x2: int, y2: int)
    requires
        w >= 1,
        0 <= x1 < w,
        0 <= x2 < w,
        0 <= y1,
        0 <= y2,
        y1 * w + x1 == y2 * w + x2,
    ensures
        x1 == x2 && y1 == y2,
{
    assert(x1 == x2 && y1 == y2) by (nonlinear_arith)
        requires
            w >= 1,
            0 <= x1 < w,
            0 <= x2 < w,
            0 <= y1,
            0 <= y2,
            y1 * w + x1 == y2 * w + x2,
    {
    }
}

/// A cell of the grid occupies a slot of the per-cell table.
pub proof fn lemma_cell_index_bounds(w: int, h: int, p: Position)
    requires
        1 <= w,
        1 <= h,
        in_bounds(p, w, h),
    ensures
        0 <= p.y as int * w + (p.x as int) < w * h,
{
    assert(0 <= p.y as int * w + (p.x as int) < w * h) by (nonlinear_arith)
        requires
            1 <= w,
            1 <= h,
            0 <= (p.x as int) < w,
            0 <= (p.y as int) < h,
    {
    }
}

/// On a grid whose marks are closed under single steps and include the
/// top-left corner, every cell is marked: walking east along a rank, and
/// south from the rank above, reaches any cell from the corner.
pub proof fn lemma_steps_cover_grid(vis: Seq<bool>, w: int, h: int, x: int, y: int)
    requires
        1 <= w <= usize::MAX,
        1 <= h <= usize::MAX,
        vis.len() == w * h,
        vis[0],
        forall|p: Position, d: Direction|
            in_bounds(p, w, h) && cell_marked(vis, w, p) && (#[trigger] spec_move_pos(w, h, p, d))
                is Some ==> cell_marked(vis, w, spec_move_pos(w, h, p, d)->0),
        0 <= x < w,
        0 <= y < h,
    ensures
        vis[y * w + x],
    decreases x + y,
{
    if x == 0 && y == 0 {
        assert(vis[y * w + x] == vis[0]) by (nonlinear_arith)
            requires
                x == 0 && y == 0,
        {
        }
    } else if x >= 1 {
        lemma_steps_cover_grid(vis, w, h, x - 1, y);
        let p = Position { x: (x - 1) as usize, y: y as usize };
        let q = Position { x: x as usize, y: y as usize };
        assert(spec_move_pos(w, h, p, Direction::East) == Some(q));
        assert(cell_marked(vis, w, p));
        assert(cell_marked(vis, w, q));
    } else {
        lemma_steps_cover_grid(vis, w, h, x, y - 1);
        let p = Position { x: x as usize, y: (y - 1) as usize };
        let q = Position { x: x as usize, y: y as usize };
        assert(spec_move_pos(w, h, p, Direction::South) == Some(q));
        assert(cell_marked(vis, w, p));
        assert(cell_marked(vis, w, q));
    }
}

/// A maze generated using randomized iterative depth-first search, with
/// support for traversal.
pub struct Maze {
    width: usize,
    height: usize,
    visited: Vec<bool>,  // cell (x, y) at index y * width + x
    connections: Vec<(Position, Position)>,
    start: Position,
    end: Position,
    /// The current position of the player within the maze.
    pub player: Position,
}

impl Maze {
    /// The maze's width.
    pub closed spec fn spec_width(self) -> usize {
        self.width
    }

    /// The maze's height.
    pub closed spec fn spec_height(self) -> usize {
        self.height
    }

    /// The player's current position.
    pub closed spec fn spec_player(self) -> Position {
        self.player
    }

    /// The entry cell, at the top-left corner.
    pub closed spec fn spec_start(self) -> Position {
        self.start
    }

    /// The exit cell, at the bottom-right corner.
    pub closed spec fn spec_end(self) -> Position {
        self.end
    }

    /// A carved passage leads from `a` to `b`.
    pub closed spec fn connected(self, a: Position, b: Position) -> bool {
        passage_edge(self.connections@, a, b)
    }

    /// Some walk along carved passages leads from `a` to `b`.
    pub closed spec fn reachable(self, a: Position, b: Position) -> bool {
        passage_reach(self.connections@, a, b)
    }

    /// The cell `p` was reached by the generator.
    pub closed spec fn spec_visited(self, p: Position) -> bool {
        self.visited@[p.y as int * self.width as int + p.x as int]
    }

    /// How many cells the generator reached.
    pub closed spec fn spec_visited_count(self) -> nat {
        count_true(self.visited@)
    }

    /// Well-formedness: a nonempty grid; one visited mark per cell; the
    /// start and end pinned to opposite corners; the player on the grid;
    /// every passage joining two adjacent cells, with its reverse passage
    /// also present.
    pub closed spec fn wf(self) -> bool {
        &&& self.width >= 1
        &&& self.height >= 1
        &&& self.visited@.len() == self.width as int * self.height as int
        &&& self.start == (Position { x: 0, y: 0 })
        &&& self.end == (Position {
            x: (self.width - 1) as usize,
            y: (self.height - 1) as usize,
        })
        &&& in_bounds(self.player, self.width as int, self.height as int)
        &&& forall|i: int|
            0 <= i < self.connections@.len() ==> adjacent_pair(
                #[trigger] self.connections@[i],
                self.width as int,
                self.height as int,
            )
        &&& forall|i: int|
            0 <= i < self.connections@.len() ==> self.connected(
                (#[trigger] self.connections@[i]).1,
                self.connections@[i].0,
            )
    }

    /// The storage index of an on-grid cell.
    fn cell_index(&self, p: Position) -> (i: usize)
        requires
            self.wf(),
            in_bounds(p, self.spec_width() as int, self.spec_height() as int),
        ensures
            i == p.y as int * self.spec_width() as int + p.x as int,
            i < self.width as int * self.height as int,
    {
        let total = self.visited.len();
        proof {
            let x = p.x as int;
            let y = p.y as int;
            let w = self.width as int;
            let h = self.height as int;
            assert(y * w + x < w * h) by (nonlinear_arith)
                requires
                    0 <= x < w,
                    0 <= y < h,
            {
            }
            assert(w * h == total as int);
        }
        p.y * self.width + p.x
    }

    /// The new position one step in `dir` from `pos`, when that step
    /// stays on the grid.
    pub fn move_pos(&self, pos: Position, dir: Direction) -> (r: Option<Position>)
        requires
            self.wf(),
        ensures
            r == spec_move_pos(self.spec_width() as int, self.spec_height() as int, pos, dir),
    {
        match dir {
            Direction::North => if pos.y > 0 {
                Some(Position { x: pos.x, y: pos.y - 1 })
            } else {
                None
            },
            Direction::South => if pos.y < self.height - 1 {
                Some(Position { x: pos.x, y: pos.y + 1 })
            } else {
                None
            },
            Direction::East => if pos.x < self.width - 1 {
                Some(Position { x: pos.x + 1, y: pos.y })
            } else {
                None
            },
            Direction::West => if pos.x > 0 {
                Some(Position { x: pos.x - 1, y: pos.y })
            } else {
                None
            },
        }
    }

    /// Whether a carved passage leads from `a` to `b`.
    fn has_connection(&self, a: Position, b: Position) -> (r: bool)
        ensures
            r == self.connected(a, b),
    {
        let mut i: usize = 0;
        while i < self.connections.len()
            invariant
                0 <= i <= self.connections@.len(),
                forall|j: int| 0 <= j < i ==> #[trigger] self.connections@[j] != (a, b),
            decreases self.connections@.len() - i,
        {
            let (p, q) = self.connections[i];
            if p == a && q == b {
                proof {
                    assert(self.connections@[i as int] == (a, b));
                }
                return true;
            }
            proof {
                assert(self.connections@[i as int] != (a, b));
            }
            i = i + 1;
        }
        false
    }

    /// Attempts to move the player one step in the given direction;
    /// succeeds exactly when the step stays on the grid and a carved
    /// passage joins the two cells. Nothing else about the maze changes.
    pub fn try_move(&mut self, dir: Direction) -> (r: bool)
        requires
            old(self).wf(),
        ensures
            final(self).wf(),
            old(self).same_structure(*final(self)),
            ({
                let mv = spec_move_pos(
                    old(self).spec_width() as int,
                    old(self).spec_height() as int,
                    old(self).spec_player(),
                    dir,
                );
                if mv is Some && old(self).connected(old(self).spec_player(), mv->0) {
                    r == true && final(self).spec_player() == mv->0
                } else {
                    r == false && final(self).spec_player() == old(self).spec_player()
                }
            }),
    {
        let mv = self.move_pos(self.player, dir);
        match mv {
            Some(new_pos) => {
                if self.has_connection(self.player, new_pos) {
                    proof {
                        let i = choose|i: int|
                            0 <= i < self.connections@.len() && #[trigger] self.connections@[i]
                                == (self.player, new_pos);
                        assert(adjacent_pair(
                            self.connections@[i],
                            self.width as int,
                            self.height as int,
                        ));
                    }
                    self.player = new_pos;
                    true
                } else {
                    false
                }
            },
            None => false,
        }
    }

    /// Everything but the player is unchanged between the two mazes.
    pub closed spec fn same_structure(self, other: Maze) -> bool {
        &&& other.width == self.width
        &&& other.height == self.height
        &&& other.visited == self.visited
        &&& other.connections@ == self.connections@
        &&& other.start == self.start
        &&& other.end == self.end
    }

    /// Whether the player stands on the exit cell.
    pub fn is_at_end(&self) -> (r: bool)
        ensures
            r == (self.spec_player() == self.spec_end()),
    {
        self.player == self.end
    }

    /// The number of cells the generator reached.
    pub fn visited_count(&self) -> (n: usize)
        requires
            self.wf(),
        ensures
            n == self.spec_visited_count(),
    {
        let mut n: usize = 0;
        let mut i: usize = 0;
        while i < self.visited.len()
            invariant
                self.wf(),
                0 <= i <= self.visited@.len(),
                n + count_false_upto(self.visited@, i as int) == i,
            decreases self.visited@.len() - i,
        {
            if self.visited[i] {
                n = n + 1;
            }
            i = i + 1;
        }
        n
    }

    /// Creates a new maze with the given dimensions: the player starts on
    /// the top-left corner, the exit is the bottom-right one, and the
    /// passages are carved by a randomized depth-first search from the
    /// start, leaving every cell of the grid — the exit in particular —
    /// reachable from the start through carved passages.
    pub fn new(width: usize, height: usize) -> (m: Maze)
        requires
            width >= 1,
            height >= 1,
            width * height <= usize::MAX,
        ensures
            m.wf(),
            m.spec_width() == width,
            m.spec_height() == height,
            m.spec_start() == (Position { x: 0, y: 0 }),
            m.spec_end() == (Position { x: (width - 1) as usize, y: (height - 1) as usize }),
            m.spec_player() == m.spec_start(),
            forall|p: Position| in_bounds(p, width as int, height as int) ==> m.spec_visited(p),
            forall|p: Position|
                in_bounds(p, width as int, height as int) ==> m.reachable(m.spec_start(), p),
    {
        let start = Position { x: 0, y: 0 };
        let end = Position { x: width - 1, y: height - 1 };
        let total = width * height;
        let mut visited: Vec<bool> = Vec::new();
        let mut i: usize = 0;
        while i < total
            invariant
                0 <= i <= total,
                visited@.len() == i,
                forall|j: int| 0 <= j < i ==> !visited@[j],
            decreases total - i,
        {
            visited.push(false);
            i = i + 1;
        }
        let mut maze = Maze {
            width,
            height,
            visited,
            connections: Vec::new(),
            start,
            end,
            player: start,
        };
        maze.generate_iterative();
        maze
    }

    /// Carves the maze by iterative randomized depth-first search from
    /// the start cell: each step visits an unvisited neighbor in a random
    /// order and records the passage in both directions. Starting from a
    /// blank maze, the search reaches every cell of the grid.
    #[verifier::rlimit(100)]
    #[verifier::spinoff_prover]
    fn generate_iterative(&mut self)
        requires
            old(self).wf(),
            forall|i: int| 0 <= i < old(self).visited@.len() ==> !old(self).visited@[i],
        ensures
            final(self).wf(),
            old(self).spec_width() == final(self).spec_width(),
            old(self).spec_height() == final(self).spec_height(),
            old(self).spec_start() == final(self).spec_start(),
            old(self).spec_end() == final(self).spec_end(),
            old(self).player == final(self).player,
            forall|p: Position|
                in_bounds(
                    p,
                    final(self).spec_width() as int,
                    final(self).spec_height() as int,
                ) ==> final(self).spec_visited(p),
            forall|p: Position|
                in_bounds(
                    p,
                    final(self).spec_width() as int,
                    final(self).spec_height() as int,
                ) ==> final(self).reachable(final(self).spec_start(), p),
    {
        let ghost gw = self.width as int;
        let ghost gh = self.height as int;
        let mut rng = new_rng();
        let mut stack: Vec<Position> = Vec::new();
        let start = self.start;
        stack.push(start);
        let si = self.cell_index(start);
        let ghost vis0 = self.visited@;
        self.visited.set(si, true);
        proof {
            assert forall|p: Position, d: Direction|
                in_bounds(p, gw, gh) && cell_marked(self.visited@, gw, p) && (
                #[trigger] spec_move_pos(gw, gh, p, d)) is Some implies cell_marked(
                self.visited@,
                gw,
                spec_move_pos(gw, gh, p, d)->0,
            ) || in_stack(stack@, p) by {
                lemma_cell_index_bounds(gw, gh, p);
                let idx = p.y as int * gw + p.x as int;
                if idx != si as int {
                    assert(self.visited@[idx] == vis0[idx]);
                    assert(!vis0[idx]);
                    assert(false);
                }
                lemma_index_injective(gw, p.x as int, p.y as int, 0, 0);
                assert(p == start);
                assert(stack@[0] == p);
            }
            assert forall|p: Position|
                in_bounds(p, gw, gh) && #[trigger] cell_marked(self.visited@, gw, p) implies
                passage_reach(self.connections@, self.start, p) by {
                lemma_cell_index_bounds(gw, gh, p);
                let idx = p.y as int * gw + p.x as int;
                if idx != si as int {
                    assert(self.visited@[idx] == vis0[idx]);
                    assert(!vis0[idx]);
                    assert(false);
                }
                lemma_index_injective(gw, p.x as int, p.y as int, 0, 0);
                assert(p == start);
                lemma_passage_refl(self.connections@, self.start);
            }
            assert(cell_marked(self.visited@, gw, start));
        }
        while stack.len() > 0
            invariant
                self.wf(),
                self.width as int == gw,
                self.height as int == gh,
                self.start == old(self).start,
                self.end == old(self).end,
                self.player == old(self).player,
                self.spec_visited(self.start),
                forall|j: int|
                    0 <= j < stack@.len() ==> in_bounds(#[trigger] stack@[j], gw, gh)
                        && cell_marked(self.visited@, gw, stack@[j]),
                frontier_ok(self.visited@, stack@, gw, gh),
                forall|p: Position|
                    in_bounds(p, gw, gh) && #[trigger] cell_marked(self.visited@, gw, p)
                        ==> passage_reach(self.connections@, self.start, p),
            decreases count_false(self.visited@), stack@.len(),
        {
            let ghost st0 = stack@;
            let pos = match stack.pop() {
                Some(p) => p,
                None => {
                    return ;
                },
            };
            let mut dirs: Vec<Direction> = Vec::new();
            dirs.push(Direction::North);
            dirs.push(Direction::South);
            dirs.push(Direction::East);
            dirs.push(Direction::West);
            let ghost dirs0 = dirs@;
            shuffle_vec(&mut dirs, &mut rng);
            proof {
                assert forall|d: Direction| dir_pending(dirs@, 0, d) by {
                    match d {
                        Direction::North => assert(dirs0[0] == d),
                        Direction::South => assert(dirs0[1] == d),
                        Direction::East => assert(dirs0[2] == d),
                        Direction::West => assert(dirs0[3] == d),
                    }
                    assert(dirs0.contains(d));
                    vstd::seq_lib::to_multiset_contains(dirs0, d);
                    vstd::seq_lib::to_multiset_contains(dirs@, d);
                    let m = choose|m: int| 0 <= m < dirs@.len() && dirs@[m] == d;
                }
                assert forall|p: Position, d: Direction|
                    in_bounds(p, gw, gh) && cell_marked(self.visited@, gw, p) && (
                    #[trigger] spec_move_pos(gw, gh, p, d)) is Some implies cell_marked(
                    self.visited@,
                    gw,
                    spec_move_pos(gw, gh, p, d)->0,
                ) || in_stack(stack@, p) || (p == pos && dir_pending(dirs@, 0, d)) by {
                    if !cell_marked(self.visited@, gw, spec_move_pos(gw, gh, p, d)->0)
                        && in_stack(st0, p) {
                        let j = choose|j: int| 0 <= j < st0.len() && st0[j] == p;
                        if j < st0.len() - 1 {
                            assert(stack@[j] == p);
                        } else {
                            assert(p == pos);
                        }
                    }
                }
            }
            let ghost head_cf = count_false(self.visited@);
            let ghost head_len = stack@.len();
            let mut k: usize = 0;
            while k < dirs.len()
                invariant
                    self.wf(),
                    self.width as int == gw,
                    self.height as int == gh,
                    self.start == old(self).start,
                    self.end == old(self).end,
                    self.player == old(self).player,
                    self.spec_visited(self.start),
                    in_bounds(pos, gw, gh),
                    cell_marked(self.visited@, gw, pos),
                    0 <= k <= dirs@.len(),
                    forall|j: int|
                        0 <= j < stack@.len() ==> in_bounds(#[trigger] stack@[j], gw, gh)
                            && cell_marked(self.visited@, gw, stack@[j]),
                    forall|p: Position|
                        in_bounds(p, gw, gh) && #[trigger] cell_marked(self.visited@, gw, p)
                            ==> passage_reach(self.connections@, self.start, p),
                    count_false(self.visited@) <= head_cf,
                    stack@.len() + count_false(self.visited@) == head_len + head_cf,
                    forall|p: Position, d: Direction|
                        in_bounds(p, gw, gh) && cell_marked(self.visited@, gw, p) && (
                        #[trigger] spec_move_pos(gw, gh, p, d)) is Some ==> cell_marked(
                            self.visited@,
                            gw,
                            spec_move_pos(gw, gh, p, d)->0,
                        ) || in_stack(stack@, p) || (p == pos && dir_pending(
                            dirs@,
                            k as int,
                            d,
                        )),
                decreases dirs@.len() - k,
            {
                let d = dirs[k];
                let ghost vis_head = self.visited@;
                let ghost st_head = stack@;
                match self.move_pos(pos, d) {
                    Some(next_pos) => {
                        let ni = self.cell_index(next_pos);
                        if !self.visited[ni] {
                            let ghost conns = self.connections@;
                            self.connections.push((pos, next_pos));
                            self.connections.push((next_pos, pos));
                            proof {
                                lemma_conns_after_carve(conns, pos, next_pos, d, gw, gh);
                            }
                            let ghost vis = self.visited@;
                            self.visited.set(ni, true);
                            proof {
                                lemma_count_false_set_true(vis, ni as int, vis.len() as int);
                                assert(self.spec_visited(self.start));
                                lemma_cell_index_bounds(gw, gh, pos);
                                assert(cell_marked(self.visited@, gw, pos));
                            }
                            let ghost st_pre = stack@;
                            stack.push(next_pos);
                            proof {
                                lemma_reach_after_carve(
                                    vis,
                                    self.visited@,
                                    conns,
                                    self.connections@,
                                    pos,
                                    next_pos,
                                    self.start,
                                    gw,
                                    gh,
                                );
                                assert forall|j: int|
                                    0 <= j < stack@.len() implies in_bounds(
                                    #[trigger] stack@[j],
                                    gw,
                                    gh,
                                ) && cell_marked(self.visited@, gw, stack@[j]) by {
                                    if j < stack@.len() - 1 {
                                        assert(stack@[j] == st_pre[j]);
                                        lemma_cell_index_bounds(gw, gh, stack@[j]);
                                    } else {
                                        assert(stack@[j] == next_pos);
                                    }
                                }
                            }
                            proof {
                                lemma_frontier_after_carve(
                                    vis,
                                    self.visited@,
                                    st_pre,
                                    stack@,
                                    dirs@,
                                    k as int,
                                    d,
                                    pos,
                                    next_pos,
                                    gw,
                                    gh,
                                );
                            }
                        } else {
                            proof {
                                assert(cell_marked(self.visited@, gw, next_pos));
                                lemma_frontier_step_noop(
                                    self.visited@,
                                    stack@,
                                    dirs@,
                                    k as int,
                                    d,
                                    pos,
                                    gw,
                                    gh,
                                );
                            }
                        }
                    },
                    None => {
                        proof {
                            lemma_frontier_step_noop(
                                self.visited@,
                                stack@,
                                dirs@,
                                k as int,
                                d,
                                pos,
                                gw,
                                gh,
                            );
                        }
                    },
                }
                k = k + 1;
            }
        }
        proof {
            assert forall|p: Position|
                in_bounds(p, gw, gh) implies self.spec_visited(p) by {
                assert(gw <= self.visited@.len() && gh * gw == self.visited@.len())
                    by (nonlinear_arith)
                    requires
                        gw >= 1,
                        gh >= 1,
                        self.visited@.len() == gw * gh,
                {
                }
                assert forall|p2: Position, d: Direction|
                    in_bounds(p2, gw, gh) && cell_marked(self.visited@, gw, p2) && (
                    #[trigger] spec_move_pos(gw, gh, p2, d)) is Some implies cell_marked(
                    self.visited@,
                    gw,
                    spec_move_pos(gw, gh, p2, d)->0,
                ) by {
                    assert(!in_stack(stack@, p2));
                }
                assert(self.start == (Position { x: 0, y: 0 }));
                assert(self.start.y as int * gw + self.start.x as int == 0) by (nonlinear_arith)
                    requires
                        self.start.x as int == 0,
                        self.start.y as int == 0,
                {
                }
                assert(self.visited@[0]);
                lemma_steps_cover_grid(self.visited@, gw, gh, p.x as int, p.y as int);
            }
            assert forall|p: Position|
                in_bounds(p, gw, gh) implies self.reachable(self.start, p) by {
                assert(cell_marked(self.visited@, gw, p));
            }
        }
    }
}

} // verus!
