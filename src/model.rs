use vstd::prelude::*;
use crate::cell::Flag;
use crate::grid::{News, Pos};

verus! {

/// Two coordinates one orthogonal step apart.
pub open spec fn adjacent(a: (int, int), b: (int, int)) -> bool {
    ||| a.0 == b.0 && (a.1 == b.1 + 1 || b.1 == a.1 + 1)
    ||| a.1 == b.1 && (a.0 == b.0 + 1 || b.0 == a.0 + 1)
}

/// The coordinate one step from `p` in direction `d`.
pub open spec fn step_pos(p: Pos, d: News) -> Pos {
    Pos { x: (p.x + d.delta().0) as i32, y: (p.y + d.delta().1) as i32 }
}

/// How many flags of `s` satisfy `p`.
pub open spec fn count_where(s: Seq<Flag>, p: spec_fn(Flag) -> bool) -> nat
    decreases s.len(),
{
    if s.len() == 0 {
        0
    } else {
        count_where(s.drop_last(), p) + if p(s.last()) { 1nat } else { 0nat }
    }
}

pub open spec fn count_spaces(s: Seq<Flag>) -> nat {
    count_where(s, |f: Flag| f.has_space())
}

pub open spec fn count_walls(s: Seq<Flag>) -> nat {
    count_where(s, |f: Flag| f.has_wall())
}

/// Open cells that the carver has not retreated from yet.
pub open spec fn count_live(s: Seq<Flag>) -> nat {
    count_where(s, |f: Flag| f.has_space() && !f.has_deadend())
}

/// An edge is named by its west or north end and whether it runs east (`true`) or south.
pub open spec fn edge_end(e: (int, int, bool)) -> (int, int) {
    if e.2 {
        (e.0 + 1, e.1)
    } else {
        (e.0, e.1 + 1)
    }
}

/// The edge between `c` and its neighbour in direction `d`.
pub open spec fn link(c: Pos, d: News) -> (int, int, bool) {
    match d {
        News::North => (c.x as int, c.y - 1, false),
        News::South => (c.x as int, c.y as int, false),
        News::East => (c.x as int, c.y as int, true),
        News::West => (c.x - 1, c.y as int, true),
    }
}

/// The mathematical content of a grid store: dimensions, start and the cells in row-major order.
pub struct MapView {
    pub width: int,
    pub height: int,
    pub start: Pos,
    pub cells: Seq<Flag>,
}

impl MapView {
    pub open spec fn wf(self) -> bool {
        &&& 1 <= self.width <= i32::MAX
        &&& 1 <= self.height <= i32::MAX
        &&& self.cells.len() == self.width * self.height
    }

    pub open spec fn inside(self, x: int, y: int) -> bool {
        0 <= x < self.width && 0 <= y < self.height
    }

    /// The carvable region: the grid without its outermost ring.
    pub open spec fn interior(self, x: int, y: int) -> bool {
        1 <= x < self.width - 1 && 1 <= y < self.height - 1
    }

    pub open spec fn index(self, x: int, y: int) -> int {
        y * self.width + x
    }

    pub open spec fn at(self, x: int, y: int) -> Flag {
        self.cells[self.index(x, y)]
    }

    /// Outside the grid every coordinate reads as wall.
    pub open spec fn wall(self, x: int, y: int) -> bool {
        !self.inside(x, y) || self.at(x, y).has_wall()
    }

    pub open spec fn space(self, x: int, y: int) -> bool {
        self.inside(x, y) && self.at(x, y).has_space()
    }

    pub open spec fn deadend(self, x: int, y: int) -> bool {
        self.inside(x, y) && self.at(x, y).has_deadend()
    }

    pub open spec fn settled(self) -> bool {
        forall|i: int| 0 <= i < self.cells.len() ==> (#[trigger] self.cells[i]).settled()
    }

    pub open spec fn with_cell(self, x: int, y: int, f: Flag) -> MapView {
        MapView { cells: self.cells.update(self.index(x, y), f), ..self }
    }

    /// The five cells ahead of and beside `(x, y)`, for a carver moving in direction `d`,
    /// are all wall.
    pub open spec fn dig_ok(self, x: int, y: int, d: News) -> bool {
        let (dx, dy) = d.delta();
        &&& self.wall(x + dx, y + dy)
        &&& self.wall(x + dy, y + dx)
        &&& self.wall(x - dy, y - dx)
        &&& self.wall(x + dx + dy, y + dy + dx)
        &&& self.wall(x + dx - dy, y + dy - dx)
    }

    /// `n`, reached by a step in direction `d`, may be carved.
    pub open spec fn diggable(self, n: Pos, d: News) -> bool {
        &&& self.interior(n.x as int, n.y as int)
        &&& self.wall(n.x as int, n.y as int)
        &&& self.dig_ok(n.x as int, n.y as int, d)
    }

    /// `n`, reached by a step in direction `d`, is open floor that the carver may go back to.
    pub open spec fn retreatable(self, n: Pos, d: News) -> bool {
        &&& self.interior(n.x as int, n.y as int)
        &&& !self.diggable(n, d)
        &&& self.space(n.x as int, n.y as int)
        &&& !self.deadend(n.x as int, n.y as int)
    }

    pub open spec fn option_at(self, c: Pos, d: News) -> Seq<Pos> {
        if self.diggable(step_pos(c, d), d) {
            seq![step_pos(c, d)]
        } else {
            seq![]
        }
    }

    /// The cells that may be carved next from `c`, in the order north, east, west, south.
    pub open spec fn options(self, c: Pos) -> Seq<Pos> {
        self.option_at(c, News::North) + self.option_at(c, News::East) + self.option_at(
            c,
            News::West,
        ) + self.option_at(c, News::South)
    }

    /// The cell the carver goes back to from `c`: the last one found in the order
    /// north, east, west, south.
    pub open spec fn retreat(self, c: Pos) -> Option<Pos> {
        if self.retreatable(step_pos(c, News::South), News::South) {
            Some(step_pos(c, News::South))
        } else if self.retreatable(step_pos(c, News::West), News::West) {
            Some(step_pos(c, News::West))
        } else if self.retreatable(step_pos(c, News::East), News::East) {
            Some(step_pos(c, News::East))
        } else if self.retreatable(step_pos(c, News::North), News::North) {
            Some(step_pos(c, News::North))
        } else {
            None
        }
    }

    /// One turn of the carving loop with the carver at `c`, where `pick` is the index drawn
    /// among the cells that may be carved. Returns the new grid and the carver's new cell.
    pub open spec fn step(self, c: Pos, pick: int) -> (MapView, Pos) {
        let opts = self.options(c);
        if opts.len() > 0 {
            let n = opts[pick];
            (self.with_cell(n.x as int, n.y as int, Flag::plain_space()), n)
        } else if let Some(b) = self.retreat(c) {
            (self.with_cell(c.x as int, c.y as int, self.at(c.x as int, c.y as int).marked()), b)
        } else {
            (self, c)
        }
    }

    /// Carving has nowhere left to go from `c`.
    pub open spec fn stopped(self, c: Pos) -> bool {
        self.options(c).len() == 0 && self.retreat(c) is None
    }

    /// A walk through open cells, each one step from the one before.
    pub open spec fn is_path(self, path: Seq<(int, int)>) -> bool {
        &&& path.len() >= 1
        &&& forall|i: int| 0 <= i < path.len() ==> self.space(#[trigger] path[i].0, path[i].1)
        &&& forall|i: int| 0 <= i < path.len() - 1 ==> adjacent(#[trigger] path[i], path[i + 1])
    }

    pub open spec fn reachable(self, from: (int, int), to: (int, int)) -> bool {
        exists|path: Seq<(int, int)>|
            #[trigger] self.is_path(path) && path[0] == from && path[path.len() - 1] == to
    }

    /// Every open cell can be reached from the start through open cells.
    pub open spec fn connected(self) -> bool {
        forall|x: int, y: int|
            #[trigger] self.space(x, y) ==> self.reachable(
                (self.start.x as int, self.start.y as int),
                (x, y),
            )
    }

    /// The pairs of orthogonally adjacent open cells.
    pub open spec fn edges(self) -> Set<(int, int, bool)> {
        Set::new(
            |e: (int, int, bool)| self.space(e.0, e.1) && self.space(edge_end(e).0, edge_end(e).1),
        )
    }

    /// The 2 x 2 block whose north-west cell is `(x, y)` is all open.
    pub open spec fn block_open(self, x: int, y: int) -> bool {
        &&& self.space(x, y)
        &&& self.space(x + 1, y)
        &&& self.space(x, y + 1)
        &&& self.space(x + 1, y + 1)
    }

    pub open spec fn no_open_block(self) -> bool {
        forall|x: int, y: int| !#[trigger] self.block_open(x, y)
    }

    /// Of two diagonally adjacent open cells, one of the two cells between them is wall.
    pub open spec fn no_thick_corridor(self) -> bool {
        &&& forall|x: int, y: int|
            #![trigger self.space(x, y), self.space(x + 1, y + 1)]
            self.space(x, y) && self.space(x + 1, y + 1) ==> self.wall(x + 1, y) || self.wall(
                x,
                y + 1,
            )
        &&& forall|x: int, y: int|
            #![trigger self.space(x + 1, y), self.space(x, y + 1)]
            self.space(x + 1, y) && self.space(x, y + 1) ==> self.wall(x, y) || self.wall(
                x + 1,
                y + 1,
            )
    }

    /// The open cells and the edges between them form a tree: one more cell than edges.
    pub open spec fn tree_count(self) -> bool {
        &&& self.edges().finite()
        &&& count_spaces(self.cells) == self.edges().len() + 1
    }

    /// Every cell within the grid is wall or open floor, never both, never neither.
    pub open spec fn covered(self) -> bool {
        count_walls(self.cells) + count_spaces(self.cells) == self.width * self.height
    }

    /// The state that carving starts from: all wall but the start cell, which is open.
    pub open spec fn fresh(self) -> bool {
        &&& self.wf()
        &&& self.inside(self.start.x as int, self.start.y as int)
        &&& forall|i: int|
            0 <= i < self.cells.len() ==> if i == self.index(
                self.start.x as int,
                self.start.y as int,
            ) {
                (#[trigger] self.cells[i]).has_space() && !self.cells[i].has_wall()
                    && !self.cells[i].has_deadend()
            } else {
                self.cells[i].has_wall() && !self.cells[i].has_space()
                    && !self.cells[i].has_deadend()
            }
    }

    /// The grid after a reset: every cell plain wall but the centre, which is plain open floor
    /// and where carving starts.
    pub open spec fn reset(self) -> MapView {
        let start = Pos { x: (self.width / 2) as i32, y: (self.height / 2) as i32 };
        let k = self.index(start.x as int, start.y as int);
        MapView {
            start,
            cells: Seq::new(
                self.cells.len(),
                |i: int|
                    if i == k {
                        Flag::plain_space()
                    } else {
                        Flag::plain_wall()
                    },
            ),
            ..self
        }
    }

    /// The wall cells of column `x` among its first `n` rows, from the top, without the origin.
    pub open spec fn column_cubes(self, x: int, n: int) -> Seq<Pos>
        decreases n,
    {
        if n <= 0 {
            seq![]
        } else if self.wall(x, n - 1) && !(x == 0 && n - 1 == 0) {
            self.column_cubes(x, n - 1).push(Pos { x: x as i32, y: (n - 1) as i32 })
        } else {
            self.column_cubes(x, n - 1)
        }
    }

    /// The wall cells of the first `m` columns, column by column from the left, without the
    /// origin.
    pub open spec fn wall_cubes(self, m: int) -> Seq<Pos>
        decreases m,
    {
        if m <= 0 {
            seq![]
        } else {
            self.wall_cubes(m - 1) + self.column_cubes(m - 1, self.height)
        }
    }

    /// Open and not marked as a dead end: a cell the carver may still come back to.
    pub open spec fn live(self, x: int, y: int) -> bool {
        self.space(x, y) && !self.deadend(x, y)
    }

    /// From `(x, y)` the carver may dig its neighbour in direction `d`.
    pub open spec fn dig_from(self, x: int, y: int, d: News) -> bool {
        let (dx, dy) = d.delta();
        &&& self.interior(x + dx, y + dy)
        &&& self.wall(x + dx, y + dy)
        &&& self.dig_ok(x + dx, y + dy, d)
    }

    /// No neighbour of `(x, y)` may be dug from it.
    pub open spec fn exhausted(self, x: int, y: int) -> bool {
        forall|d: News| !#[trigger] self.dig_from(x, y, d)
    }

    /// Nothing may be dug from any cell marked as a dead end.
    pub open spec fn dead_ends_exhausted(self) -> bool {
        forall|x: int, y: int| #[trigger] self.deadend(x, y) ==> self.exhausted(x, y)
    }

    /// Nothing may be dug from any open cell: the maze is complete.
    pub open spec fn complete(self) -> bool {
        forall|x: int, y: int| #[trigger] self.space(x, y) ==> self.exhausted(x, y)
    }

    /// Two diagonally adjacent open cells share an open neighbour.
    pub open spec fn diagonals_joined(self) -> bool {
        &&& forall|x: int, y: int|
            #![trigger self.space(x, y), self.space(x + 1, y + 1)]
            self.space(x, y) && self.space(x + 1, y + 1) ==> self.space(x + 1, y) || self.space(
                x,
                y + 1,
            )
        &&& forall|x: int, y: int|
            #![trigger self.space(x + 1, y), self.space(x, y + 1)]
            self.space(x + 1, y) && self.space(x, y + 1) ==> self.space(x, y) || self.space(
                x + 1,
                y + 1,
            )
    }

    /// Of the two cells between diagonally adjacent open cells, exactly one is open: open
    /// cells touch only along their own corridors.
    pub open spec fn touch_once(self) -> bool {
        &&& forall|x: int, y: int|
            #![trigger self.space(x, y), self.space(x + 1, y + 1)]
            self.space(x, y) && self.space(x + 1, y + 1) ==> self.space(x + 1, y) != self.space(
                x,
                y + 1,
            )
        &&& forall|x: int, y: int|
            #![trigger self.space(x + 1, y), self.space(x, y + 1)]
            self.space(x + 1, y) && self.space(x, y + 1) ==> self.space(x, y) != self.space(
                x + 1,
                y + 1,
            )
    }

    /// The carver's way back, `s`, from the start to its cell `c`: the cells not yet marked as
    /// dead ends, each one step from the one before, each open neighbour of one of them being
    /// the cell before or after it on the way, or a dead end.
    pub open spec fn trail(self, s: Seq<(int, int)>, c: Pos) -> bool {
        &&& s.len() >= 1
        &&& s[0] == (self.start.x as int, self.start.y as int)
        &&& s[s.len() - 1] == (c.x as int, c.y as int)
        &&& forall|i: int| 0 <= i < s.len() ==> self.live(#[trigger] s[i].0, s[i].1)
        &&& forall|i: int| 1 <= i < s.len() ==> self.interior(#[trigger] s[i].0, s[i].1)
        &&& forall|i: int, j: int| 0 <= i < j < s.len() ==> #[trigger] s[i] != #[trigger] s[j]
        &&& forall|i: int| 0 <= i < s.len() - 1 ==> adjacent(#[trigger] s[i], s[i + 1])
        &&& forall|x: int, y: int|
            #[trigger] self.live(x, y) ==> exists|i: int| 0 <= i < s.len() && #[trigger] s[i] == (x, y)
        &&& forall|i: int, x: int, y: int|
            0 <= i < s.len() && adjacent(#[trigger] s[i], (x, y)) && #[trigger] self.space(x, y)
                ==> self.deadend(x, y) || (i > 0 && s[i - 1] == (x, y)) || (i + 1 < s.len() && s[i
                + 1] == (x, y))
    }

    /// The maze is complete, the start is the only open cell not marked as a dead end.
    pub open spec fn finished(self) -> bool {
        &&& self.complete()
        &&& !self.deadend(self.start.x as int, self.start.y as int)
        &&& forall|x: int, y: int|
            #[trigger] self.space(x, y) && !(x == self.start.x && y == self.start.y)
                ==> self.deadend(x, y)
    }

    /// Every open cell lies in the interior, but perhaps the start.
    pub open spec fn carved_inside(self) -> bool {
        forall|x: int, y: int|
            #[trigger] self.space(x, y) ==> self.interior(x, y) || (x == self.start.x && y
                == self.start.y)
    }

    /// What holds of the grid at each turn of the carving loop, with the carver at `c`.
    pub open spec fn carving(self, c: Pos) -> bool {
        &&& self.wf()
        &&& self.settled()
        &&& self.space(c.x as int, c.y as int)
        &&& !self.deadend(c.x as int, c.y as int)
        &&& self.connected()
        &&& self.tree_count()
        &&& self.no_open_block()
        &&& self.carved_inside()
    }

    /// The rest of what the carving loop keeps: diagonal neighbours joined, dead ends
    /// exhausted.
    pub open spec fn shaped(self) -> bool {
        &&& self.diagonals_joined()
        &&& self.dead_ends_exhausted()
    }

    /// Decreases at every turn of the carving loop.
    pub open spec fn measure(self) -> nat {
        2 * count_walls(self.cells) + count_live(self.cells)
    }

    /// A finished maze.
    pub open spec fn perfect(self) -> bool {
        &&& self.wf()
        &&& self.settled()
        &&& self.space(self.start.x as int, self.start.y as int)
        &&& self.connected()
        &&& self.tree_count()
        &&& self.no_thick_corridor()
        &&& self.covered()
        &&& self.carved_inside()
        &&& self.touch_once()
    }
}

/// The grid and carver after one turn of the carving loop for each index of `picks`.
pub open spec fn run(g: MapView, c: Pos, picks: Seq<int>) -> (MapView, Pos)
    decreases picks.len(),
{
    if picks.len() == 0 {
        (g, c)
    } else {
        let (g1, c1) = run(g, c, picks.drop_last());
        g1.step(c1, picks.last())
    }
}

/// Each index of `picks` drawn at a carving turn lies among the cells that may be carved then.
pub open spec fn picks_fit(g: MapView, c: Pos, picks: Seq<int>) -> bool
    decreases picks.len(),
{
    picks.len() == 0 || (picks_fit(g, c, picks.drop_last()) && {
        let (g1, c1) = run(g, c, picks.drop_last());
        g1.options(c1).len() > 0 ==> 0 <= picks.last() < g1.options(c1).len()
    })
}

pub proof fn lemma_index(g: MapView, x: int, y: int)
    requires
        g.wf(),
        g.inside(x, y),
    ensures
        0 <= g.index(x, y) < g.cells.len(),
{
    let w = g.width;
    let h = g.height;
    assert(0 <= y * w + x < w * h) by (nonlinear_arith)
        requires
            0 <= x < w,
            0 <= y < h,
    ;
}

pub proof fn lemma_index_inj(g: MapView, x1: int, y1: int, x2: int, y2: int)
    requires
        g.wf(),
        g.inside(x1, y1),
        g.inside(x2, y2),
        g.index(x1, y1) == g.index(x2, y2),
    ensures
        x1 == x2 && y1 == y2,
{
    let w = g.width;
    assert(y1 == y2) by (nonlinear_arith)
        requires
            0 <= x1 < w,
            0 <= x2 < w,
            y1 * w + x1 == y2 * w + x2,
    {
        if y1 < y2 {
            assert(y1 * w + w <= y2 * w);
        } else if y2 < y1 {
            assert(y2 * w + w <= y1 * w);
        }
    }
}

/// Facts about reading a grid after one cell was replaced.
pub proof fn lemma_with_cell(g: MapView, x: int, y: int, f: Flag)
    requires
        g.wf(),
        g.inside(x, y),
    ensures
        g.with_cell(x, y, f).wf(),
        forall|a: int, b: int|
            g.inside(a, b) ==> #[trigger] g.with_cell(x, y, f).at(a, b) == if a == x && b == y {
                f
            } else {
                g.at(a, b)
            },
{
    lemma_index(g, x, y);
    assert forall|a: int, b: int| g.inside(a, b) implies #[trigger] g.with_cell(x, y, f).at(a, b)
        == if a == x && b == y {
        f
    } else {
        g.at(a, b)
    } by {
        lemma_index(g, a, b);
        if g.index(a, b) == g.index(x, y) {
            lemma_index_inj(g, a, b, x, y);
        }
    }
}

/// On a settled grid, wall and open floor are complements, inside the grid and out.
pub proof fn lemma_exclusive(g: MapView)
    requires
        g.wf(),
        g.settled(),
    ensures
        forall|x: int, y: int|
            #![trigger g.wall(x, y)]
            #![trigger g.space(x, y)]
            g.wall(x, y) == !g.space(x, y),
        forall|x: int, y: int| #[trigger] g.deadend(x, y) ==> g.space(x, y),
{
    assert forall|x: int, y: int| #[trigger] g.wall(x, y) == !g.space(x, y) by {
        if g.inside(x, y) {
            lemma_index(g, x, y);
            assert(g.at(x, y).settled());
        }
    }
    assert forall|x: int, y: int| #[trigger] g.deadend(x, y) implies g.space(x, y) by {
        lemma_index(g, x, y);
        assert(g.at(x, y).settled());
    }
}

pub proof fn lemma_count_update(s: Seq<Flag>, i: int, v: Flag, p: spec_fn(Flag) -> bool)
    requires
        0 <= i < s.len(),
    ensures
        count_where(s.update(i, v), p) + (if p(s[i]) { 1int } else { 0int }) == count_where(s, p)
            + (if p(v) { 1int } else { 0int }),
    decreases s.len(),
{
    let t = s.update(i, v);
    if i == s.len() - 1 {
        assert(t.drop_last() =~= s.drop_last());
    } else {
        assert(t.drop_last() =~= s.drop_last().update(i, v));
        lemma_count_update(s.drop_last(), i, v, p);
    }
}

pub proof fn lemma_count_cover(s: Seq<Flag>)
    requires
        forall|i: int| 0 <= i < s.len() ==> (#[trigger] s[i]).settled(),
    ensures
        count_walls(s) + count_spaces(s) == s.len(),
    decreases s.len(),
{
    if s.len() > 0 {
        lemma_count_cover(s.drop_last());
        assert(s.last().settled());
    }
}

/// Exactly one flag, at `k`, satisfies `p`.
pub proof fn lemma_count_single(s: Seq<Flag>, k: int, p: spec_fn(Flag) -> bool)
    requires
        0 <= k < s.len(),
        p(s[k]),
        forall|i: int| 0 <= i < s.len() && i != k ==> !p(#[trigger] s[i]),
    ensures
        count_where(s, p) == 1,
    decreases s.len(),
{
    if k == s.len() - 1 {
        lemma_count_none(s.drop_last(), p);
    } else {
        lemma_count_single(s.drop_last(), k, p);
    }
}

pub proof fn lemma_count_none(s: Seq<Flag>, p: spec_fn(Flag) -> bool)
    requires
        forall|i: int| 0 <= i < s.len() ==> !p(#[trigger] s[i]),
    ensures
        count_where(s, p) == 0,
    decreases s.len(),
{
    if s.len() > 0 {
        lemma_count_none(s.drop_last(), p);
    }
}

/// A walk stays a walk when no open cell closes.
pub proof fn lemma_path_mono(g: MapView, h: MapView, path: Seq<(int, int)>)
    requires
        g.is_path(path),
        forall|x: int, y: int| g.space(x, y) ==> #[trigger] h.space(x, y),
    ensures
        h.is_path(path),
{
    assert forall|i: int| 0 <= i < path.len() implies h.space(
        #[trigger] path[i].0,
        path[i].1,
    ) by {
        assert(g.space(path[i].0, path[i].1));
    }
}


/// A carving step: the carver at `c` opens its neighbour in direction `d`.
pub proof fn lemma_dig(g: MapView, c: Pos, d: News, f: Flag)
    requires
        g.carving(c),
        g.diggable(step_pos(c, d), d),
        f.has_space(),
        !f.has_wall(),
        !f.has_deadend(),
    ensures
        ({
            let n = step_pos(c, d);
            let h = g.with_cell(n.x as int, n.y as int, f);
            &&& h.carving(n)
            &&& count_spaces(h.cells) == count_spaces(g.cells) + 1
            &&& h.measure() < g.measure()
            &&& h.start == g.start
            &&& h.width == g.width
            &&& h.height == g.height
        }),
{
    let n = step_pos(c, d);
    let (dx, dy) = d.delta();
    let cx = c.x as int;
    let cy = c.y as int;
    let nx = n.x as int;
    let ny = n.y as int;
    assert(nx == cx + dx && ny == cy + dy);
    let h = g.with_cell(nx, ny, f);
    lemma_with_cell(g, nx, ny, f);
    lemma_exclusive(g);
    lemma_index(g, nx, ny);
    let k = g.index(nx, ny);
    assert(g.cells[k].has_wall() && !g.cells[k].has_space() && !g.cells[k].has_deadend()) by {
        assert(g.cells[k].settled());
    }
    assert forall|x: int, y: int| #[trigger] h.space(x, y) == (g.space(x, y) || (x == nx && y
        == ny)) by {
        if g.inside(x, y) {
            assert(h.at(x, y) == if x == nx && y == ny {
                f
            } else {
                g.at(x, y)
            });
        }
    }
    assert forall|x: int, y: int| #[trigger] h.deadend(x, y) == g.deadend(x, y) by {
        if g.inside(x, y) {
            assert(h.at(x, y) == if x == nx && y == ny {
                f
            } else {
                g.at(x, y)
            });
        }
    }
    // the only open neighbour of the new cell is the carver's cell
    assert(!g.space(nx + dx, ny + dy) && !g.space(nx + dy, ny + dx) && !g.space(nx - dy, ny - dx));
    assert(!g.space(nx + dx + dy, ny + dy + dx) && !g.space(nx + dx - dy, ny + dy - dx));
    assert(adjacent((cx, cy), (nx, ny)));
    assert forall|x: int, y: int|
        adjacent((x, y), (nx, ny)) && #[trigger] g.space(x, y) implies x == cx && y == cy by {
        match d {
            News::North => {},
            News::East => {},
            News::West => {},
            News::South => {},
        }
    }
    // settled
    assert forall|i: int| 0 <= i < h.cells.len() implies (#[trigger] h.cells[i]).settled() by {
        if i != k {
            assert(h.cells[i] == g.cells[i]);
        }
    }
    // no 2 x 2 block
    assert forall|x: int, y: int| !#[trigger] h.block_open(x, y) by {
        assert(!g.block_open(x, y));
        if h.block_open(x, y) {
            match d {
                News::North => {},
                News::East => {},
                News::West => {},
                News::South => {},
            }
        }
    }
    // edges
    let e = link(c, d);
    assert(h.edges() =~= g.edges().insert(e)) by {
        assert forall|a: (int, int, bool)| #[trigger] h.edges().contains(a) implies g.edges().insert(
            e,
        ).contains(a) by {
            let z = edge_end(a);
            assert(h.space(a.0, a.1) && h.space(z.0, z.1));
            if a.0 == nx && a.1 == ny {
                assert(g.space(z.0, z.1));
                assert(adjacent((z.0, z.1), (nx, ny)));
                match d {
                    News::North => {},
                    News::East => {},
                    News::West => {},
                    News::South => {},
                }
            } else if z.0 == nx && z.1 == ny {
                assert(g.space(a.0, a.1));
                assert(adjacent((a.0, a.1), (nx, ny)));
                match d {
                    News::North => {},
                    News::East => {},
                    News::West => {},
                    News::South => {},
                }
            }
        }
        assert forall|a: (int, int, bool)| #[trigger] g.edges().insert(e).contains(a) implies h.edges(
        ).contains(a) by {
            if a == e {
                match d {
                    News::North => {},
                    News::East => {},
                    News::West => {},
                    News::South => {},
                }
            } else {
                assert(g.edges().contains(a));
            }
        }
    }
    assert(!g.edges().contains(e)) by {
        match d {
            News::North => {},
            News::East => {},
            News::West => {},
            News::South => {},
        }
    }
    lemma_count_update(g.cells, k, f, |f: Flag| f.has_space());
    lemma_count_update(g.cells, k, f, |f: Flag| f.has_wall());
    lemma_count_update(g.cells, k, f, |f: Flag| f.has_space() && !f.has_deadend());
    // connected
    let s = (g.start.x as int, g.start.y as int);
    assert forall|x: int, y: int| #[trigger] h.space(x, y) implies h.reachable(s, (x, y)) by {
        if x == nx && y == ny {
            assert(g.space(cx, cy));
            assert(g.reachable(s, (cx, cy)));
            let p = choose|p: Seq<(int, int)>|
                #[trigger] g.is_path(p) && p[0] == s && p[p.len() - 1] == (cx, cy);
            lemma_path_mono(g, h, p);
            let q = p.push((nx, ny));
            assert forall|i: int| 0 <= i < q.len() implies h.space(
                #[trigger] q[i].0,
                q[i].1,
            ) by {
                if i < p.len() {
                    assert(q[i] == p[i]);
                }
            }
            assert forall|i: int| 0 <= i < q.len() - 1 implies adjacent(
                #[trigger] q[i],
                q[i + 1],
            ) by {
                if i < p.len() - 1 {
                    assert(q[i] == p[i] && q[i + 1] == p[i + 1]);
                }
            }
            assert(h.is_path(q) && q[0] == s && q[q.len() - 1] == (x, y));
        } else {
            assert(g.space(x, y));
            assert(g.reachable(s, (x, y)));
            let p = choose|p: Seq<(int, int)>|
                #[trigger] g.is_path(p) && p[0] == s && p[p.len() - 1] == (x, y);
            lemma_path_mono(g, h, p);
        }
    }
}


/// A retreat: the carver marks its cell as a dead end and goes back to `retreat(c)`.
pub proof fn lemma_retreat(g: MapView, c: Pos, f: Flag)
    requires
        g.carving(c),
        g.retreat(c) is Some,
        f.has_space() == g.at(c.x as int, c.y as int).has_space(),
        f.has_wall() == g.at(c.x as int, c.y as int).has_wall(),
        f.has_deadend(),
    ensures
        ({
            let h = g.with_cell(c.x as int, c.y as int, f);
            &&& h.carving(g.retreat(c)->Some_0)
            &&& count_spaces(h.cells) == count_spaces(g.cells)
            &&& h.measure() < g.measure()
            &&& h.start == g.start
            &&& h.width == g.width
            &&& h.height == g.height
        }),
{
    let b = g.retreat(c)->Some_0;
    let cx = c.x as int;
    let cy = c.y as int;
    let h = g.with_cell(cx, cy, f);
    lemma_with_cell(g, cx, cy, f);
    lemma_exclusive(g);
    lemma_index(g, cx, cy);
    let k = g.index(cx, cy);
    assert(g.cells[k].settled());
    assert forall|x: int, y: int| #[trigger] h.space(x, y) == g.space(x, y) by {
        if g.inside(x, y) {
            assert(h.at(x, y) == if x == cx && y == cy {
                f
            } else {
                g.at(x, y)
            });
        }
    }
    assert forall|x: int, y: int| #[trigger] h.deadend(x, y) == (g.deadend(x, y) || (x == cx && y
        == cy)) by {
        if g.inside(x, y) {
            assert(h.at(x, y) == if x == cx && y == cy {
                f
            } else {
                g.at(x, y)
            });
        }
    }
    assert(b != c);
    assert(g.space(b.x as int, b.y as int) && !g.deadend(b.x as int, b.y as int));
    assert(b.x != c.x || b.y != c.y);
    assert forall|i: int| 0 <= i < h.cells.len() implies (#[trigger] h.cells[i]).settled() by {
        if i != k {
            assert(h.cells[i] == g.cells[i]);
        }
    }
    assert forall|x: int, y: int| !#[trigger] h.block_open(x, y) by {
        assert(!g.block_open(x, y));
    }
    assert(h.edges() =~= g.edges());
    lemma_count_update(g.cells, k, f, |f: Flag| f.has_space());
    lemma_count_update(g.cells, k, f, |f: Flag| f.has_wall());
    lemma_count_update(g.cells, k, f, |f: Flag| f.has_space() && !f.has_deadend());
    let s = (g.start.x as int, g.start.y as int);
    assert forall|x: int, y: int| #[trigger] h.space(x, y) implies h.reachable(s, (x, y)) by {
        assert(g.space(x, y));
        assert(g.reachable(s, (x, y)));
        let p = choose|p: Seq<(int, int)>|
            #[trigger] g.is_path(p) && p[0] == s && p[p.len() - 1] == (x, y);
        lemma_path_mono(g, h, p);
    }
}

/// The state after a reset meets what the carving loop keeps.
pub proof fn lemma_fresh(g: MapView)
    requires
        g.fresh(),
    ensures
        g.carving(g.start),
        g.shaped(),
        g.trail(seq![(g.start.x as int, g.start.y as int)], g.start),
        count_spaces(g.cells) == 1,
{
    let sx = g.start.x as int;
    let sy = g.start.y as int;
    lemma_index(g, sx, sy);
    let k = g.index(sx, sy);
    assert(g.cells[k].has_space());
    assert forall|i: int| 0 <= i < g.cells.len() implies (#[trigger] g.cells[i]).settled() by {}
    // the start is the only open cell
    assert forall|x: int, y: int| #[trigger] g.space(x, y) implies x == sx && y == sy by {
        lemma_index(g, x, y);
        if g.index(x, y) == k {
            lemma_index_inj(g, x, y, sx, sy);
        }
    }
    assert forall|x: int, y: int| #[trigger] g.space(x, y) implies g.reachable(
        (sx, sy),
        (x, y),
    ) by {
        let p = seq![(sx, sy)];
        assert(g.is_path(p));
    }
    assert(g.edges() =~= Set::empty());
    assert forall|x: int, y: int| !#[trigger] g.block_open(x, y) by {
        if g.block_open(x, y) {
            assert(g.space(x, y) && g.space(x + 1, y));
        }
    }
    lemma_count_single(g.cells, k, |f: Flag| f.has_space());
    assert forall|x: int, y: int| #[trigger] g.deadend(x, y) implies g.exhausted(x, y) by {
        lemma_index(g, x, y);
    }
    let t = seq![(sx, sy)];
    assert(!g.deadend(sx, sy));
    assert forall|x: int, y: int| #[trigger] g.live(x, y) implies exists|i: int|
        0 <= i < t.len() && #[trigger] t[i] == (x, y) by {
        assert(t[0] == (x, y));
    }
}

/// Once carving stops, the grid is a finished maze.
pub proof fn lemma_perfect(g: MapView, c: Pos)
    requires
        g.carving(c),
        g.shaped(),
    ensures
        g.perfect(),
{
    lemma_exclusive(g);
    lemma_count_cover(g.cells);
    let s = (g.start.x as int, g.start.y as int);
    assert(g.reachable(s, (c.x as int, c.y as int)));
    let p = choose|p: Seq<(int, int)>|
        #[trigger] g.is_path(p) && p[0] == s && p[p.len() - 1] == (c.x as int, c.y as int);
    assert(g.space(p[0].0, p[0].1));
    assert forall|x: int, y: int|
        #![trigger g.space(x, y), g.space(x + 1, y + 1)]
        g.space(x, y) && g.space(x + 1, y + 1) implies g.wall(x + 1, y) || g.wall(x, y + 1) by {
        assert(!g.block_open(x, y));
    }
    assert forall|x: int, y: int|
        #![trigger g.space(x + 1, y), g.space(x, y + 1)]
        g.space(x + 1, y) && g.space(x, y + 1) implies g.wall(x, y) || g.wall(x + 1, y + 1) by {
        assert(!g.block_open(x, y));
    }
}


/// Each entry of `options(c)` is a neighbour of `c` that may be carved; returns its direction.
pub proof fn lemma_option(g: MapView, c: Pos, i: int) -> (d: News)
    requires
        0 <= i < g.options(c).len(),
    ensures
        g.options(c)[i] == step_pos(c, d),
        g.diggable(step_pos(c, d), d),
{
    let a = g.option_at(c, News::North);
    let b = g.option_at(c, News::East);
    let e = g.option_at(c, News::West);
    let f = g.option_at(c, News::South);
    assert(g.options(c) == a + b + e + f);
    if i < a.len() {
        assert(g.options(c)[i] == a[i]);
        News::North
    } else if i < a.len() + b.len() {
        assert(g.options(c)[i] == b[i - a.len()]);
        News::East
    } else if i < a.len() + b.len() + e.len() {
        assert(g.options(c)[i] == e[i - a.len() - b.len()]);
        News::West
    } else {
        assert(g.options(c)[i] == f[i - a.len() - b.len() - e.len()]);
        News::South
    }
}


/// How the cells read after a carving step from `c` in direction `d`.
pub proof fn lemma_dig_cells(g: MapView, c: Pos, d: News)
    requires
        g.carving(c),
        g.diggable(step_pos(c, d), d),
    ensures
        ({
            let n = step_pos(c, d);
            let (nx, ny) = (n.x as int, n.y as int);
            let (cx, cy) = (c.x as int, c.y as int);
            let h = g.with_cell(nx, ny, Flag::plain_space());
            &&& nx == cx + d.delta().0 && ny == cy + d.delta().1
            &&& adjacent((cx, cy), (nx, ny))
            &&& g.interior(nx, ny)
            &&& !g.space(nx, ny)
            &&& !g.space(nx + d.delta().0, ny + d.delta().1)
            &&& !g.space(nx + d.delta().1, ny + d.delta().0)
            &&& !g.space(nx - d.delta().1, ny - d.delta().0)
            &&& !g.space(nx + d.delta().0 + d.delta().1, ny + d.delta().1 + d.delta().0)
            &&& !g.space(nx + d.delta().0 - d.delta().1, ny + d.delta().1 - d.delta().0)
            &&& forall|x: int, y: int| #[trigger] h.space(x, y) == (g.space(x, y) || (x == nx
                && y == ny))
            &&& forall|x: int, y: int| #[trigger] h.deadend(x, y) == g.deadend(x, y)
            &&& forall|x: int, y: int| #[trigger] h.wall(x, y) == (g.wall(x, y) && !(x == nx
                && y == ny))
            &&& forall|x: int, y: int|
                adjacent((x, y), (nx, ny)) && #[trigger] g.space(x, y) ==> x == cx && y == cy
        }),
{
    let n = step_pos(c, d);
    let (dx, dy) = d.delta();
    let cx = c.x as int;
    let cy = c.y as int;
    let nx = n.x as int;
    let ny = n.y as int;
    let f = Flag::plain_space();
    Flag::lemma_values();
    let h = g.with_cell(nx, ny, f);
    lemma_with_cell(g, nx, ny, f);
    lemma_exclusive(g);
    assert forall|x: int, y: int| #[trigger] h.space(x, y) == (g.space(x, y) || (x == nx && y
        == ny)) by {
        if g.inside(x, y) {
            assert(h.at(x, y) == if x == nx && y == ny { f } else { g.at(x, y) });
        }
    }
    assert forall|x: int, y: int| #[trigger] h.deadend(x, y) == g.deadend(x, y) by {
        if g.inside(x, y) {
            assert(h.at(x, y) == if x == nx && y == ny { f } else { g.at(x, y) });
        }
    }
    assert forall|x: int, y: int| #[trigger] h.wall(x, y) == (g.wall(x, y) && !(x == nx && y
        == ny)) by {
        if g.inside(x, y) {
            assert(h.at(x, y) == if x == nx && y == ny { f } else { g.at(x, y) });
        }
    }
    assert(!g.space(nx + dx, ny + dy) && !g.space(nx + dy, ny + dx) && !g.space(nx - dy, ny - dx));
    assert(!g.space(nx + dx + dy, ny + dy + dx) && !g.space(nx + dx - dy, ny + dy - dx));
    assert forall|x: int, y: int|
        adjacent((x, y), (nx, ny)) && #[trigger] g.space(x, y) implies x == cx && y == cy by {
        match d {
            News::North => {},
            News::East => {},
            News::West => {},
            News::South => {},
        }
    }
}

/// A carving step keeps diagonal neighbours joined, dead ends exhausted, and the way back.
pub proof fn lemma_dig_more(g: MapView, c: Pos, d: News, s: Seq<(int, int)>)
    requires
        g.carving(c),
        g.shaped(),
        g.trail(s, c),
        g.diggable(step_pos(c, d), d),
    ensures
        ({
            let n = step_pos(c, d);
            let h = g.with_cell(n.x as int, n.y as int, Flag::plain_space());
            &&& h.shaped()
            &&& h.trail(s.push((n.x as int, n.y as int)), n)
        }),
{
    let n = step_pos(c, d);
    let (dx, dy) = d.delta();
    let cx = c.x as int;
    let cy = c.y as int;
    let nx = n.x as int;
    let ny = n.y as int;
    let h = g.with_cell(nx, ny, Flag::plain_space());
    lemma_dig_cells(g, c, d);
    lemma_exclusive(g);
    // diagonal neighbours
    assert forall|x: int, y: int|
        #![trigger h.space(x, y), h.space(x + 1, y + 1)]
        h.space(x, y) && h.space(x + 1, y + 1) implies h.space(x + 1, y) || h.space(x, y + 1) by {
        if !(x == nx && y == ny) && !(x + 1 == nx && y + 1 == ny) {
            assert(g.space(x, y) && g.space(x + 1, y + 1));
        } else {
            match d {
                News::North => {},
                News::East => {},
                News::West => {},
                News::South => {},
            }
        }
    }
    assert forall|x: int, y: int|
        #![trigger h.space(x + 1, y), h.space(x, y + 1)]
        h.space(x + 1, y) && h.space(x, y + 1) implies h.space(x, y) || h.space(x + 1, y + 1) by {
        if !(x + 1 == nx && y == ny) && !(x == nx && y + 1 == ny) {
            assert(g.space(x + 1, y) && g.space(x, y + 1));
        } else {
            match d {
                News::North => {},
                News::East => {},
                News::West => {},
                News::South => {},
            }
        }
    }
    // dead ends stay exhausted: digging only closes options
    assert forall|x: int, y: int| #[trigger] h.deadend(x, y) implies h.exhausted(x, y) by {
        assert(g.deadend(x, y));
        assert forall|e: News| !#[trigger] h.dig_from(x, y, e) by {
            assert(!g.dig_from(x, y, e));
        }
    }
    // the way back grows by the new cell
    let t = s.push((nx, ny));
    let k = s.len() - 1;
    assert(s[k] == (cx, cy));
    assert forall|i: int| 0 <= i < t.len() implies h.live(#[trigger] t[i].0, t[i].1) by {
        if i < s.len() {
            assert(t[i] == s[i]);
            assert(g.live(s[i].0, s[i].1));
        }
    }
    assert forall|i: int| 1 <= i < t.len() implies h.interior(#[trigger] t[i].0, t[i].1) by {
        if i < s.len() {
            assert(t[i] == s[i]);
        }
    }
    assert forall|i: int, j: int| 0 <= i < j < t.len() implies #[trigger] t[i] != #[trigger] t[j] by {
        if j < s.len() {
            assert(t[i] == s[i] && t[j] == s[j]);
        } else {
            assert(t[i] == s[i]);
            assert(g.live(s[i].0, s[i].1));
        }
    }
    assert forall|i: int| 0 <= i < t.len() - 1 implies adjacent(#[trigger] t[i], t[i + 1]) by {
        if i < s.len() - 1 {
            assert(t[i] == s[i] && t[i + 1] == s[i + 1]);
        }
    }
    assert forall|x: int, y: int| #[trigger] h.live(x, y) implies exists|i: int|
        0 <= i < t.len() && #[trigger] t[i] == (x, y) by {
        if x == nx && y == ny {
            assert(t[s.len() as int] == (x, y));
        } else {
            assert(g.live(x, y));
            let i = choose|i: int| 0 <= i < s.len() && #[trigger] s[i] == (x, y);
            assert(t[i] == (x, y));
        }
    }
    assert forall|i: int, x: int, y: int|
        0 <= i < t.len() && adjacent(#[trigger] t[i], (x, y)) && #[trigger] h.space(x, y) implies h.deadend(
        x,
        y,
    ) || (i > 0 && t[i - 1] == (x, y)) || (i + 1 < t.len() && t[i + 1] == (x, y)) by {
        if i == s.len() {
            assert(t[i] == (nx, ny));
            assert(!(x == nx && y == ny));
            assert(g.space(x, y));
            assert(adjacent((x, y), (nx, ny)));
            assert(t[i - 1] == s[k]);
        } else {
            assert(t[i] == s[i]);
            if x == nx && y == ny {
                assert(g.live(s[i].0, s[i].1));
                assert(adjacent((s[i].0, s[i].1), (nx, ny)));
                assert(s[i] == (cx, cy));
                assert(i == k);
            } else {
                assert(g.space(x, y));
                assert(g.deadend(x, y) || (i > 0 && s[i - 1] == (x, y)) || (i + 1 < s.len() && s[i
                    + 1] == (x, y)));
                if i > 0 {
                    assert(t[i - 1] == s[i - 1]);
                }
                if i + 1 < s.len() {
                    assert(t[i + 1] == s[i + 1]);
                }
            }
        }
    }
}

/// Nothing may be dug from a cell with no options.
pub proof fn lemma_no_options(g: MapView, c: Pos)
    requires
        g.wf(),
        g.inside(c.x as int, c.y as int),
        g.options(c).len() == 0,
    ensures
        g.exhausted(c.x as int, c.y as int),
{
    assert forall|d: News| !#[trigger] g.dig_from(c.x as int, c.y as int, d) by {
        assert(g.option_at(c, d).len() == 0) by {
            match d {
                News::North => {},
                News::East => {},
                News::West => {},
                News::South => {},
            }
        }
    }
}

/// A retreat keeps diagonal neighbours joined, dead ends exhausted, and takes the carver one
/// cell back along its way.
pub proof fn lemma_retreat_more(g: MapView, c: Pos, s: Seq<(int, int)>)
    requires
        g.carving(c),
        g.shaped(),
        g.trail(s, c),
        g.options(c).len() == 0,
        g.retreat(c) is Some,
    ensures
        ({
            let b = g.retreat(c)->Some_0;
            let h = g.with_cell(c.x as int, c.y as int, g.at(c.x as int, c.y as int).marked());
            &&& s.len() >= 2
            &&& s[s.len() - 2] == (b.x as int, b.y as int)
            &&& h.shaped()
            &&& h.trail(s.drop_last(), b)
        }),
{
    let b = g.retreat(c)->Some_0;
    let cx = c.x as int;
    let cy = c.y as int;
    let bx = b.x as int;
    let by = b.y as int;
    let f = g.at(cx, cy).marked();
    let h = g.with_cell(cx, cy, f);
    Flag::lemma_values();
    lemma_with_cell(g, cx, cy, f);
    lemma_exclusive(g);
    lemma_index(g, cx, cy);
    assert forall|x: int, y: int| #[trigger] h.space(x, y) == g.space(x, y) by {
        if g.inside(x, y) {
            assert(h.at(x, y) == if x == cx && y == cy { f } else { g.at(x, y) });
        }
    }
    assert forall|x: int, y: int| #[trigger] h.wall(x, y) == g.wall(x, y) by {
        if g.inside(x, y) {
            assert(h.at(x, y) == if x == cx && y == cy { f } else { g.at(x, y) });
        }
    }
    assert forall|x: int, y: int| #[trigger] h.deadend(x, y) == (g.deadend(x, y) || (x == cx && y
        == cy)) by {
        if g.inside(x, y) {
            assert(h.at(x, y) == if x == cx && y == cy { f } else { g.at(x, y) });
        }
    }
    assert(adjacent((cx, cy), (bx, by)) && g.live(bx, by));
    // the cell gone back to is the one before on the way
    let k = s.len() - 1;
    assert(s[k] == (cx, cy));
    assert(adjacent(s[k], (bx, by)) && g.space(bx, by));
    assert(s.len() >= 2 && s[k - 1] == (bx, by));
    // shaped
    lemma_no_options(g, c);
    assert forall|x: int, y: int| #[trigger] h.deadend(x, y) implies h.exhausted(x, y) by {
        assert forall|e: News| !#[trigger] h.dig_from(x, y, e) by {
            assert(!g.dig_from(x, y, e));
        }
    }
    // the way back loses its last cell
    let t = s.drop_last();
    assert forall|i: int| 0 <= i < t.len() implies h.live(#[trigger] t[i].0, t[i].1) by {
        assert(t[i] == s[i]);
        assert(g.live(s[i].0, s[i].1));
        assert(s[i] != s[k]);
    }
    assert forall|i: int| 1 <= i < t.len() implies h.interior(#[trigger] t[i].0, t[i].1) by {
        assert(t[i] == s[i]);
    }
    assert forall|i: int, j: int| 0 <= i < j < t.len() implies #[trigger] t[i] != #[trigger] t[j] by {
        assert(t[i] == s[i] && t[j] == s[j]);
    }
    assert forall|i: int| 0 <= i < t.len() - 1 implies adjacent(#[trigger] t[i], t[i + 1]) by {
        assert(t[i] == s[i] && t[i + 1] == s[i + 1]);
    }
    assert forall|x: int, y: int| #[trigger] h.live(x, y) implies exists|i: int|
        0 <= i < t.len() && #[trigger] t[i] == (x, y) by {
        assert(g.live(x, y));
        let i = choose|i: int| 0 <= i < s.len() && #[trigger] s[i] == (x, y);
        assert(i != k);
        assert(t[i] == (x, y));
    }
    assert forall|i: int, x: int, y: int|
        0 <= i < t.len() && adjacent(#[trigger] t[i], (x, y)) && #[trigger] h.space(x, y) implies h.deadend(
        x,
        y,
    ) || (i > 0 && t[i - 1] == (x, y)) || (i + 1 < t.len() && t[i + 1] == (x, y)) by {
        assert(t[i] == s[i]);
        assert(g.space(x, y));
        assert(g.deadend(x, y) || (i > 0 && s[i - 1] == (x, y)) || (i + 1 < s.len() && s[i + 1]
            == (x, y)));
        if i > 0 {
            assert(t[i - 1] == s[i - 1]);
        }
        if i + 1 < t.len() {
            assert(t[i + 1] == s[i + 1]);
        }
    }
}

/// When carving stops with the start inside the interior, the carver is back at the start and
/// the maze is finished.
pub proof fn lemma_end(g: MapView, c: Pos, s: Seq<(int, int)>)
    requires
        g.carving(c),
        g.shaped(),
        g.trail(s, c),
        g.stopped(c),
        g.interior(g.start.x as int, g.start.y as int),
    ensures
        s.len() == 1,
        c == g.start,
        g.finished(),
{
    let cx = c.x as int;
    let cy = c.y as int;
    lemma_exclusive(g);
    if s.len() >= 2 {
        let k = s.len() - 1;
        let p = s[k - 1];
        assert(adjacent(p, s[k]));
        assert(g.live(p.0, p.1));
        assert(g.interior(p.0, p.1));
        assert(s[k] == (cx, cy));
        if p == (cx, cy - 1) {
            assert(g.retreatable(step_pos(c, News::North), News::North));
        } else if p == (cx + 1, cy) {
            assert(g.retreatable(step_pos(c, News::East), News::East));
        } else if p == (cx - 1, cy) {
            assert(g.retreatable(step_pos(c, News::West), News::West));
        } else {
            assert(g.retreatable(step_pos(c, News::South), News::South));
        }
        assert(false);
    }
    assert(c.x == g.start.x && c.y == g.start.y);
    lemma_no_options(g, c);
    assert forall|x: int, y: int|
        #[trigger] g.space(x, y) && !(x == g.start.x && y == g.start.y) implies g.deadend(x, y) by {
        if !g.deadend(x, y) {
            assert(g.live(x, y));
            let i = choose|i: int| 0 <= i < s.len() && #[trigger] s[i] == (x, y);
        }
    }
    assert forall|x: int, y: int| #[trigger] g.space(x, y) implies g.exhausted(x, y) by {
        if !(x == g.start.x && y == g.start.y) {
            assert(g.deadend(x, y));
        }
    }
}

/// How many of the first `n` row-major indices of a `w`-wide, `h`-high grid fall in its
/// interior.
pub open spec fn count_interior(w: int, h: int, n: int) -> nat
    decreases n,
{
    if n <= 0 {
        0
    } else {
        count_interior(w, h, n - 1) + if 1 <= (n - 1) % w < w - 1 && 1 <= (n - 1) / w < h - 1 {
            1nat
        } else {
            0nat
        }
    }
}

/// Counting along one row.
proof fn lemma_count_interior_row(w: int, h: int, y: int, x: int)
    requires
        w >= 1,
        0 <= y,
        0 <= x <= w,
    ensures
        count_interior(w, h, y * w + x) == count_interior(w, h, y * w) + if 1 <= y < h - 1 {
            if x <= 1 {
                0
            } else if x >= w - 1 {
                w - 2
            } else {
                x - 1
            }
        } else {
            0
        },
    decreases x,
{
    if x > 0 {
        lemma_count_interior_row(w, h, y, x - 1);
        let i = y * w + (x - 1);
        vstd::arithmetic::div_mod::lemma_fundamental_div_mod_converse(i, w, y, x - 1);
        assert(y * w + x - 1 + 1 == y * w + x);
    }
}

/// How many of the first `y` rows are interior rows.
pub open spec fn interior_rows(h: int, y: int) -> int {
    if y <= 1 {
        0
    } else if y >= h - 1 {
        h - 2
    } else {
        y - 1
    }
}

/// Counting over whole rows.
proof fn lemma_count_interior_rows(w: int, h: int, y: int)
    requires
        w >= 2,
        h >= 2,
        0 <= y <= h,
    ensures
        count_interior(w, h, y * w) == interior_rows(h, y) * (w - 2),
    decreases y,
{
    if y > 0 {
        lemma_count_interior_rows(w, h, y - 1);
        lemma_count_interior_row(w, h, y - 1, w);
        assert((y - 1) * w + w == y * w) by (nonlinear_arith);
        let a = interior_rows(h, y - 1);
        let b = interior_rows(h, y);
        let e: int = if 1 <= y - 1 < h - 1 { 1 } else { 0 };
        assert(b == a + e);
        assert(b * (w - 2) == a * (w - 2) + e * (w - 2)) by (nonlinear_arith)
            requires b == a + e;
        if e == 1 {
            assert(e * (w - 2) == w - 2);
        } else {
            assert(e * (w - 2) == 0);
        }
    } else {
        assert(y * w == 0) by (nonlinear_arith)
            requires
                y == 0,
        ;
    }
}

/// Flags that satisfy `p` only at interior indices are at most as many as those indices.
proof fn lemma_count_within(s: Seq<Flag>, p: spec_fn(Flag) -> bool, w: int, h: int)
    requires
        w >= 1,
        forall|i: int|
            0 <= i < s.len() && p(#[trigger] s[i]) ==> 1 <= i % w < w - 1 && 1 <= i / w < h - 1,
    ensures
        count_where(s, p) <= count_interior(w, h, s.len() as int),
    decreases s.len(),
{
    if s.len() > 0 {
        let t = s.drop_last();
        assert forall|i: int| 0 <= i < t.len() && p(#[trigger] t[i]) implies 1 <= i % w < w - 1
            && 1 <= i / w < h - 1 by {
            assert(t[i] == s[i]);
        }
        lemma_count_within(t, p, w, h);
    }
}

/// With the start in the interior, at most `(W - 2) * (H - 2)` cells are open.
pub proof fn lemma_spaces_bound(g: MapView)
    requires
        g.wf(),
        g.settled(),
        g.carved_inside(),
        g.interior(g.start.x as int, g.start.y as int),
    ensures
        count_spaces(g.cells) <= (g.width - 2) * (g.height - 2),
{
    let w = g.width;
    let h = g.height;
    assert(w >= 3 && h >= 3);
    assert forall|i: int|
        0 <= i < g.cells.len() && (|f: Flag| f.has_space())(#[trigger] g.cells[i]) implies 1 <= i
        % w < w - 1 && 1 <= i / w < h - 1 by {
        vstd::arithmetic::div_mod::lemma_fundamental_div_mod(i, w);
        let x = i % w;
        let y = i / w;
        assert(0 <= x < w);
        assert(0 <= y < h) by (nonlinear_arith)
            requires
                y == i / w,
                0 <= i < w * h,
                w >= 1,
                i == w * y + x,
                0 <= x < w,
        {
            if y >= h {
                assert(w * y >= w * h);
            }
        }
        assert(g.index(x, y) == i) by (nonlinear_arith)
            requires
                i == w * y + x,
                g.index(x, y) == y * w + x,
        ;
        assert(g.space(x, y));
    }
    lemma_count_within(g.cells, |f: Flag| f.has_space(), w, h);
    lemma_count_interior_rows(w, h, h);
    assert(h * w == w * h) by (nonlinear_arith);
    assert((h - 2) * (w - 2) == (w - 2) * (h - 2)) by (nonlinear_arith);
    assert(count_interior(w, h, g.cells.len() as int) == (w - 2) * (h - 2));
}

/// In a finished maze of at least 4 x 4 carved from the centre, the start has an open
/// neighbour.
pub proof fn lemma_start_opened(g: MapView)
    requires
        g.perfect(),
        g.finished(),
        g.width >= 4,
        g.height >= 4,
        g.start.x == g.width / 2,
        g.start.y == g.height / 2,
    ensures
        ({
            let (sx, sy) = (g.start.x as int, g.start.y as int);
            g.space(sx, sy - 1) || g.space(sx + 1, sy) || g.space(sx - 1, sy) || g.space(sx, sy + 1)
        }),
{
    let sx = g.start.x as int;
    let sy = g.start.y as int;
    let s = (sx, sy);
    lemma_exclusive(g);
    if !(g.space(sx, sy - 1) || g.space(sx + 1, sy) || g.space(sx - 1, sy) || g.space(sx, sy + 1)) {
        // then the start is the only open cell
        assert forall|x: int, y: int| #[trigger] g.space(x, y) implies x == sx && y == sy by {
            assert(g.reachable(s, (x, y)));
            let p = choose|p: Seq<(int, int)>|
                #[trigger] g.is_path(p) && p[0] == s && p[p.len() - 1] == (x, y);
            if p.len() > 1 {
                assert(adjacent(p[0], p[1]));
                assert(g.space(p[1].0, p[1].1));
            }
        }
        // and the cell north of it could still be dug
        assert(g.dig_from(sx, sy, News::North));
        assert(g.exhausted(sx, sy));
    }
}

/// The maze is fixed by the size of the grid and the indices drawn: two grids of the same size,
/// reset and carved with the same draws, end in the same cells, bit for bit.
pub proof fn law_same_draws_same_maze(a: MapView, b: MapView, picks: Seq<int>)
    requires
        a.wf(),
        b.wf(),
        a.width == b.width,
        a.height == b.height,
    ensures
        run(a.reset(), a.reset().start, picks) == run(b.reset(), b.reset().start, picks),
{
    assert(a.reset().cells =~= b.reset().cells);
    assert(a.reset() == b.reset());
}

} // verus!
