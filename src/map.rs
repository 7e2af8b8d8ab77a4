use vstd::prelude::*;
use rand::rngs::StdRng;
use rand::{Rng, SeedableRng};
use crate::cell::Flag;
use crate::grid::{News, Pos};
use crate::model::{
    MapView, step_pos, lemma_dig, lemma_retreat, lemma_fresh, lemma_perfect, lemma_index, lemma_option, run,
    picks_fit, count_spaces, lemma_dig_more, lemma_retreat_more, lemma_end,
    lemma_spaces_bound, lemma_start_opened,
};

verus! {

/// Width of the maze, in grids.
pub const MAP_GRIDS_WIDTH: i32 = 30;
/// Height of the maze, in grids.
pub const MAP_GRIDS_HEIGHT: i32 = 21;
/// The fixed seed used in development builds, so that every run carves the same maze.
pub const SEED_DEV: u64 = 1234567890;

/// rand's standard generator, carried through as an opaque value.
#[verifier::external_type_specification]
#[verifier::external_body]
pub struct ExStdRng(StdRng);

/// Relies on rand's `SeedableRng::seed_from_u64` for `StdRng`: builds the generator from a seed.
#[verifier::external_body]
fn seeded_rng(seed: u64) -> StdRng {
    StdRng::seed_from_u64(seed)
}

/// Relies on rand's `Rng::gen_range` over `0..n`: a value below `n`; it panics only when the
/// range is empty.
#[verifier::external_body]
fn random_index(rng: &mut StdRng, n: usize) -> (r: usize)
    requires
        0 < n,
    ensures
        r < n,
{
    rng.gen_range(0..n)
}

/// The grid store: a fixed-size matrix of cells, the start of carving, and the generator that
/// every random choice of carving draws from.
pub struct MazeMap {
    rng: StdRng,
    matrix: Vec<Flag>,
    width: i32,
    height: i32,
    start: Pos,
}

impl View for MazeMap {
    type V = MapView;

    closed spec fn view(&self) -> MapView {
        MapView {
            width: self.width as int,
            height: self.height as int,
            start: self.start,
            cells: self.matrix@,
        }
    }
}

impl MazeMap {
    /// The state of the generator that carving draws from.
    pub closed spec fn generator(&self) -> StdRng {
        self.rng
    }

    /// A grid of `width` x `height` undefined cells, with its generator seeded by `seed`.
    pub fn new(width: i32, height: i32, seed: u64) -> (r: MazeMap)
        requires
            3 <= width,
            3 <= height,
            width * height <= usize::MAX,
        ensures
            r@.wf(),
            r@.width == width,
            r@.height == height,
            r@.start == (Pos { x: 0, y: 0 }),
            forall|i: int|
                0 <= i < r@.cells.len() ==> !(#[trigger] r@.cells[i]).has_space()
                    && !r@.cells[i].has_wall() && !r@.cells[i].has_deadend(),
    {
        let n: usize = (width as usize) * (height as usize);
        let mut matrix: Vec<Flag> = Vec::new();
        while matrix.len() < n
            invariant
                matrix.len() <= n,
                forall|i: int|
                    0 <= i < matrix.len() ==> !(#[trigger] matrix@[i]).has_space()
                        && !matrix@[i].has_wall() && !matrix@[i].has_deadend(),
            decreases n - matrix.len(),
        {
            matrix.push(Flag::undefined());
        }
        MazeMap { rng: seeded_rng(seed), matrix, width, height, start: Pos { x: 0, y: 0 } }
    }

    /// A grid of the configured size, with its generator seeded by `seed`.
    pub fn with_seed(seed: u64) -> (r: MazeMap)
        ensures
            r@.wf(),
            r@.width == MAP_GRIDS_WIDTH,
            r@.height == MAP_GRIDS_HEIGHT,
            r@.start == (Pos { x: 0, y: 0 }),
            forall|i: int|
                0 <= i < r@.cells.len() ==> !(#[trigger] r@.cells[i]).has_space()
                    && !r@.cells[i].has_wall() && !r@.cells[i].has_deadend(),
    {
        MazeMap::new(MAP_GRIDS_WIDTH, MAP_GRIDS_HEIGHT, seed)
    }

    pub fn width(&self) -> (r: i32)
        ensures
            r == self@.width,
    {
        self.width
    }

    pub fn height(&self) -> (r: i32)
        ensures
            r == self@.height,
    {
        self.height
    }

    pub fn start(&self) -> (r: Pos)
        ensures
            r == self@.start,
    {
        self.start
    }

    pub fn is_inside(&self, cell: Pos) -> (r: bool)
        ensures
            r == self@.inside(cell.x as int, cell.y as int),
    {
        0 <= cell.x && cell.x < self.width && 0 <= cell.y && cell.y < self.height
    }

    fn index(&self, cell: Pos) -> (r: usize)
        requires
            self@.wf(),
            self@.inside(cell.x as int, cell.y as int),
        ensures
            r == self@.index(cell.x as int, cell.y as int),
            r < self.matrix@.len(),
    {
        let n = self.matrix.len();
        proof {
            lemma_index(self@, cell.x as int, cell.y as int);
            assert(0 <= (cell.y as int) * (self.width as int) <= self@.index(cell.x as int, cell.y as int))
                by (nonlinear_arith)
                requires
                    0 <= cell.y,
                    0 <= cell.x,
                    0 <= self.width,
                    self@.index(cell.x as int, cell.y as int) == cell.y * self.width + cell.x,
            ;
        }
        (cell.y as usize) * (self.width as usize) + (cell.x as usize)
    }

    /// Sets every cell to plain wall.
    pub fn fill_walls(&mut self)
        requires
            old(self)@.wf(),
        ensures
            final(self)@.wf(),
            final(self)@.width == old(self)@.width,
            final(self)@.height == old(self)@.height,
            final(self)@.start == old(self)@.start,
            final(self).generator() == old(self).generator(),
            forall|i: int|
                0 <= i < final(self)@.cells.len() ==> #[trigger] final(self)@.cells[i]
                    == Flag::plain_wall(),
    {
        proof {
            Flag::lemma_values();
        }
        let n = self.matrix.len();
        let mut i: usize = 0;
        while i < n
            invariant
                i <= n,
                n == self.matrix@.len(),
                self.width == old(self).width,
                self.height == old(self).height,
                self.start == old(self).start,
                self.rng == old(self).rng,
                self.matrix@.len() == old(self).matrix@.len(),
                forall|j: int| 0 <= j < i ==> #[trigger] self.matrix@[j] == Flag::plain_wall(),
            decreases n - i,
        {
            self.matrix.set(i, Flag::wall());
            i = i + 1;
        }
    }

    /// Makes the cell plain open floor, clearing its other flags; outside the grid, does nothing.
    pub fn set_space(&mut self, cell: Pos)
        requires
            old(self)@.wf(),
        ensures
            ({
                let (x, y) = (cell.x as int, cell.y as int);
                if old(self)@.inside(x, y) {
                    final(self)@ == old(self)@.with_cell(x, y, Flag::plain_space())
                } else {
                    final(self)@ == old(self)@
                }
            }),
            final(self).generator() == old(self).generator(),
    {
        if !self.is_inside(cell) {
            return;
        }
        let i = self.index(cell);
        self.matrix.set(i, Flag::space());
        proof {
            assert(self@ == old(self)@.with_cell(cell.x as int, cell.y as int, self.matrix@[i as int]));
        }
    }

    /// Sets the dead-end marker of a cell and leaves its terrain; outside the grid, does nothing.
    pub fn add_flag_deadend(&mut self, cell: Pos)
        requires
            old(self)@.wf(),
        ensures
            ({
                let (x, y) = (cell.x as int, cell.y as int);
                if old(self)@.inside(x, y) {
                    final(self)@ == old(self)@.with_cell(x, y, old(self)@.at(x, y).marked())
                } else {
                    final(self)@ == old(self)@
                }
            }),
            final(self).generator() == old(self).generator(),
    {
        if !self.is_inside(cell) {
            return;
        }
        let i = self.index(cell);
        let mut f = self.matrix[i];
        f.add_deadend();
        self.matrix.set(i, f);
        proof {
            assert(self@ == old(self)@.with_cell(cell.x as int, cell.y as int, f));
        }
    }

    /// Whether the cell is wall; every coordinate outside the grid is wall.
    pub fn is_wall(&self, cell: Pos) -> (r: bool)
        requires
            self@.wf(),
        ensures
            r == self@.wall(cell.x as int, cell.y as int),
            !self@.inside(cell.x as int, cell.y as int) ==> r,
    {
        if !self.is_inside(cell) {
            return true;
        }
        self.matrix[self.index(cell)].is_wall()
    }

    /// Whether the cell is open floor; no coordinate outside the grid is.
    pub fn is_space(&self, cell: Pos) -> (r: bool)
        requires
            self@.wf(),
        ensures
            r == self@.space(cell.x as int, cell.y as int),
            !self@.inside(cell.x as int, cell.y as int) ==> !r,
    {
        if !self.is_inside(cell) {
            return false;
        }
        self.matrix[self.index(cell)].is_space()
    }

    /// Whether the cell carries the dead-end marker; no coordinate outside the grid does.
    pub fn is_deadend(&self, cell: Pos) -> (r: bool)
        requires
            self@.wf(),
        ensures
            r == self@.deadend(cell.x as int, cell.y as int),
            !self@.inside(cell.x as int, cell.y as int) ==> !r,
    {
        if !self.is_inside(cell) {
            return false;
        }
        self.matrix[self.index(cell)].is_deadend()
    }
}


impl MazeMap {
    /// Whether `cell` may be carved by a carver moving in direction `sides`: the five cells
    /// ahead of it and beside it are all wall.
    pub fn is_digable(&self, cell: Pos, sides: News) -> (r: bool)
        requires
            self@.wf(),
            i32::MIN + 1 < cell.x < i32::MAX - 1,
            i32::MIN + 1 < cell.y < i32::MAX - 1,
        ensures
            r == self@.dig_ok(cell.x as int, cell.y as int, sides),
    {
        match sides {
            News::North => {
                self.is_wall(cell.add(News::North).add(News::West))
                    && self.is_wall(cell.add(News::North))
                    && self.is_wall(cell.add(News::North).add(News::East))
                    && self.is_wall(cell.add(News::West))
                    && self.is_wall(cell.add(News::East))
            },
            News::West => {
                self.is_wall(cell.add(News::North).add(News::West))
                    && self.is_wall(cell.add(News::North))
                    && self.is_wall(cell.add(News::West))
                    && self.is_wall(cell.add(News::South).add(News::West))
                    && self.is_wall(cell.add(News::South))
            },
            News::East => {
                self.is_wall(cell.add(News::North))
                    && self.is_wall(cell.add(News::North).add(News::East))
                    && self.is_wall(cell.add(News::East))
                    && self.is_wall(cell.add(News::South))
                    && self.is_wall(cell.add(News::South).add(News::East))
            },
            News::South => {
                self.is_wall(cell.add(News::West))
                    && self.is_wall(cell.add(News::East))
                    && self.is_wall(cell.add(News::South).add(News::West))
                    && self.is_wall(cell.add(News::South))
                    && self.is_wall(cell.add(News::South).add(News::East))
            },
        }
    }

    /// Looks at the neighbour of `cell` in direction `news`: records it as a wall that may be
    /// carved, or as open floor that the carver may go back to.
    fn look(&self, cell: Pos, news: News, digable: &mut Vec<Pos>, backtrack: &mut Option<Pos>)
        requires
            self@.wf(),
            self@.inside(cell.x as int, cell.y as int),
        ensures
            final(digable)@ == old(digable)@ + self@.option_at(cell, news),
            *final(backtrack) == if self@.retreatable(step_pos(cell, news), news) {
                Some(step_pos(cell, news))
            } else {
                *old(backtrack)
            },
    {
        let next = cell.add(news);
        assert(next == step_pos(cell, news));
        // the outermost ring is never carved
        if !(1 <= next.x && next.x < self.width - 1 && 1 <= next.y && next.y < self.height - 1) {
            assert(self@.option_at(cell, news) =~= seq![]);
            assert(digable@ =~= old(digable)@ + self@.option_at(cell, news));
            return;
        }
        if self.is_wall(next) && self.is_digable(next, news) {
            digable.push(next);
        } else if self.is_space(next) && !self.is_deadend(next) {
            *backtrack = Some(next);
            assert(self@.option_at(cell, news) =~= seq![]);
            assert(digable@ =~= old(digable)@ + self@.option_at(cell, news));
        } else {
            assert(self@.option_at(cell, news) =~= seq![]);
            assert(digable@ =~= old(digable)@ + self@.option_at(cell, news));
        }
    }

    /// Carves a perfect maze out of a grid that is all wall but its open start cell.
    ///
    /// From the carver's cell it looks north, east, west and south. If some neighbour may be
    /// carved it opens one of them, drawn at random, and moves there. Otherwise it marks its
    /// cell as a dead end and goes back to an open neighbour not yet so marked; when there is
    /// none, the maze is done.
    pub fn build_labyrinth(&mut self)
        requires
            old(self)@.fresh(),
        ensures
            final(self)@.perfect(),
            final(self)@.width == old(self)@.width,
            final(self)@.height == old(self)@.height,
            final(self)@.start == old(self)@.start,
            exists|picks: Seq<int>|
                {
                    let (g, c) = #[trigger] run(old(self)@, old(self)@.start, picks);
                    &&& g == final(self)@
                    &&& g.stopped(c)
                    &&& picks_fit(old(self)@, old(self)@.start, picks)
                    &&& picks.len() + 2 <= 2 * count_spaces(g.cells)
                    &&& old(self)@.interior(old(self)@.start.x as int, old(self)@.start.y as int)
                        ==> c == g.start && picks.len() + 2 == 2 * count_spaces(g.cells)
                },
            old(self)@.interior(old(self)@.start.x as int, old(self)@.start.y as int)
                ==> final(self)@.finished(),
            old(self)@.interior(old(self)@.start.x as int, old(self)@.start.y as int)
                ==> count_spaces(final(self)@.cells) <= (old(self)@.width - 2) * (old(self)@.height
                - 2),
    {
        let mut cell = self.start;
        let ghost mut picks: Seq<int> = seq![];
        let ghost mut trail: Seq<(int, int)> = seq![(self.start.x as int, self.start.y as int)];
        proof {
            lemma_fresh(self@);
            Flag::lemma_values();
        }
        loop
            invariant
                self@.carving(cell),
                self@.shaped(),
                self@.trail(trail, cell),
                run(old(self)@, old(self)@.start, picks) == (self@, cell),
                picks_fit(old(self)@, old(self)@.start, picks),
                picks.len() + trail.len() + 1 == 2 * count_spaces(self@.cells),
                self@.width == old(self)@.width,
                self@.height == old(self)@.height,
                self@.start == old(self)@.start,
            ensures
                self@.carving(cell),
                self@.shaped(),
                self@.trail(trail, cell),
                run(old(self)@, old(self)@.start, picks) == (self@, cell),
                picks_fit(old(self)@, old(self)@.start, picks),
                picks.len() + trail.len() + 1 == 2 * count_spaces(self@.cells),
                self@.stopped(cell),
                self@.width == old(self)@.width,
                self@.height == old(self)@.height,
                self@.start == old(self)@.start,
            decreases self@.measure(),
        {
            proof {
                Flag::lemma_values();
            }
            let mut digable_walls: Vec<Pos> = Vec::new();
            let mut backtrack: Option<Pos> = None;
            self.look(cell, News::North, &mut digable_walls, &mut backtrack);
            self.look(cell, News::East, &mut digable_walls, &mut backtrack);
            self.look(cell, News::West, &mut digable_walls, &mut backtrack);
            self.look(cell, News::South, &mut digable_walls, &mut backtrack);
            assert(digable_walls@ =~= self@.options(cell));
            assert(backtrack == self@.retreat(cell));
            if digable_walls.len() > 0 {
                let i = random_index(&mut self.rng, digable_walls.len());
                let next = digable_walls[i];
                let ghost g = self@;
                let ghost d = lemma_option(g, cell, i as int);
                self.set_space(next);
                proof {
                    lemma_dig(g, cell, d, Flag::plain_space());
                    lemma_dig_more(g, cell, d, trail);
                    trail = trail.push((next.x as int, next.y as int));
                    assert(picks.push(i as int).drop_last() =~= picks);
                    picks = picks.push(i as int);
                }
                cell = next;
            } else {
                match backtrack {
                    None => {
                        break ;
                    },
                    Some(b) => {
                        let ghost g = self@;
                        self.add_flag_deadend(cell);
                        proof {
                            lemma_retreat(g, cell, g.at(cell.x as int, cell.y as int).marked());
                            lemma_retreat_more(g, cell, trail);
                            trail = trail.drop_last();
                            assert(picks.push(0).drop_last() =~= picks);
                            picks = picks.push(0);
                        }
                        cell = b;
                    },
                }
            }
        }
        proof {
            lemma_perfect(self@, cell);
            if old(self)@.interior(old(self)@.start.x as int, old(self)@.start.y as int) {
                lemma_end(self@, cell, trail);
                lemma_spaces_bound(self@);
            }
            assert(run(old(self)@, old(self)@.start, picks) == (self@, cell) && self@.stopped(cell));
        }
    }
}

impl MazeMap {
    /// The cells that are drawn as wall cubes: every wall cell of the grid, column by column
    /// from the left, each column from the top, but the origin, whose cube all others hang from.
    pub fn wall_cubes(&self) -> (r: Vec<Pos>)
        requires
            self@.wf(),
        ensures
            r@ == self@.wall_cubes(self@.width),
    {
        let mut r: Vec<Pos> = Vec::new();
        let mut x: i32 = 0;
        while x < self.width
            invariant
                self@.wf(),
                0 <= x <= self.width,
                r@ == self@.wall_cubes(x as int),
            decreases self.width - x,
        {
            let ghost before = r@;
            let mut y: i32 = 0;
            while y < self.height
                invariant
                    self@.wf(),
                    0 <= x < self.width,
                    0 <= y <= self.height,
                    r@ == before + self@.column_cubes(x as int, y as int),
                decreases self.height - y,
            {
                let grid = Pos::new(x, y);
                if self.is_wall(grid) && !(x == 0 && y == 0) {
                    r.push(grid);
                    assert(r@ =~= before + self@.column_cubes(x as int, y + 1));
                }
                y = y + 1;
            }
            x = x + 1;
        }
        r
    }
}

/// Resets the grid to wall, opens the start cell at the centre and carves a maze from it.
pub fn make_new_data(map: &mut MazeMap)
    requires
        old(map)@.wf(),
        old(map)@.width >= 3,
        old(map)@.height >= 3,
    ensures
        final(map)@.perfect(),
        final(map)@.finished(),
        final(map)@.width == old(map)@.width,
        final(map)@.height == old(map)@.height,
        final(map)@.start == old(map)@.reset().start,
        exists|picks: Seq<int>|
            {
                let (g, c) = #[trigger] run(old(map)@.reset(), old(map)@.reset().start, picks);
                &&& g == final(map)@
                &&& g.stopped(c)
                &&& c == g.start
                &&& picks_fit(old(map)@.reset(), old(map)@.reset().start, picks)
                &&& picks.len() + 2 == 2 * count_spaces(g.cells)
                &&& picks.len() <= 2 * ((g.width - 2) * (g.height - 2) - 1)
            },
        count_spaces(final(map)@.cells) <= (old(map)@.width - 2) * (old(map)@.height - 2),
        old(map)@.width >= 4 && old(map)@.height >= 4 ==> ({
            let (g, sx, sy) = (final(map)@, final(map)@.start.x as int, final(map)@.start.y as int);
            g.space(sx, sy - 1) || g.space(sx + 1, sy) || g.space(sx - 1, sy) || g.space(sx, sy + 1)
        }),
{
    map.fill_walls();
    map.start = Pos::new(map.width / 2, map.height / 2);
    let start = map.start;
    let ghost walls = map@;
    map.set_space(start);
    proof {
        Flag::lemma_values();
        let g = map@;
        let k = g.index(start.x as int, start.y as int);
        lemma_index(walls, start.x as int, start.y as int);
        assert forall|i: int| 0 <= i < g.cells.len() && i != k implies #[trigger] g.cells[i]
            == walls.cells[i] by {}
        assert(g.cells[k] == g.at(start.x as int, start.y as int));
        assert(g.fresh());
        assert(g.cells =~= old(map)@.reset().cells);
        assert(g == old(map)@.reset());
        assert(g.interior(start.x as int, start.y as int));
    }
    map.build_labyrinth();
    proof {
        if map@.width >= 4 && map@.height >= 4 {
            lemma_start_opened(map@);
        }
    }
}

} // verus!
