//! Maze-pathfinding engine.
//!
//! A rectangular grid of cells, each carrying a four-bit wall mask, with two
//! shortest-path searches over it: an exhaustive breadth-first traversal and
//! a heuristic-guided best-first search. Both build a predecessor map and
//! reconstruct the route by walking backlinks; a distance query runs both and
//! cross-checks that their path lengths agree.

use vstd::prelude::*;

use crate::EngineError;

verus! {

/// One of the four cell edges, in the fixed enumeration order used by every
/// neighbour iteration: top, right, bottom, left.
#[derive(Clone, Copy, Debug, PartialEq, Eq, Structural)]
pub enum Direction {
    Bottom,
    Left,
    Top,
    Right,
}

/// The wall-mask bit that marks `d` as impassable.
pub open spec fn spec_dir_mask(d: Direction) -> u8 {
    match d {
        Direction::Bottom => 0x1,
        Direction::Left => 0x2,
        Direction::Top => 0x4,
        Direction::Right => 0x8,
    }
}

impl Direction {
    /// The wall-mask bit of this direction.
    pub fn mask(self) -> (r: u8)
        ensures
            r == spec_dir_mask(self),
    {
        match self {
            Direction::Bottom => 0x1,
            Direction::Left => 0x2,
            Direction::Top => 0x4,
            Direction::Right => 0x8,
        }
    }

    /// The four directions in the fixed exploration order.
    pub fn values() -> (r: Vec<Direction>)
        ensures
            r@ =~= seq![Direction::Top, Direction::Right, Direction::Bottom, Direction::Left],
    {
        let mut v: Vec<Direction> = Vec::new();
        v.push(Direction::Top);
        v.push(Direction::Right);
        v.push(Direction::Bottom);
        v.push(Direction::Left);
        v
    }

    /// The same order, for callers that step through the directions one by
    /// one. (A `Vec` stands in for an iterator, whose trait the verifier
    /// cannot specify for a type of this crate.)
    pub fn iter() -> (r: Vec<Direction>)
        ensures
            r@ =~= seq![Direction::Top, Direction::Right, Direction::Bottom, Direction::Left],
    {
        Direction::values()
    }
}

/// A grid coordinate: `x` is the column, `y` the row.
#[derive(Clone, Copy, Debug, PartialEq, Eq, Structural)]
pub struct Vec2 {
    pub x: usize,
    pub y: usize,
}

/// The coordinate one unit step from `c` in direction `d`.
///
/// Meaningful only where the step neither leaves `usize` downward
/// (`Top` from row 0, `Left` from column 0) nor upward.
pub open spec fn spec_step(c: Vec2, d: Direction) -> Vec2 {
    match d {
        Direction::Top => Vec2 { x: c.x, y: (c.y - 1) as usize },
        Direction::Right => Vec2 { x: (c.x + 1) as usize, y: c.y },
        Direction::Bottom => Vec2 { x: c.x, y: (c.y + 1) as usize },
        Direction::Left => Vec2 { x: (c.x - 1) as usize, y: c.y },
    }
}

/// Whether the unit step from `c` in direction `d` stays inside `usize`.
pub open spec fn spec_step_fits(c: Vec2, d: Direction) -> bool {
    match d {
        Direction::Top => c.y >= 1,
        Direction::Right => c.x < usize::MAX,
        Direction::Bottom => c.y < usize::MAX,
        Direction::Left => c.x >= 1,
    }
}

/// Manhattan distance: |Δx| + |Δy|.
pub open spec fn spec_manhattan(a: Vec2, b: Vec2) -> int {
    (if a.x >= b.x {
        a.x - b.x
    } else {
        b.x - a.x
    }) + (if a.y >= b.y {
        a.y - b.y
    } else {
        b.y - a.y
    })
}

impl Vec2 {
    /// A coordinate from its column and row.
    pub fn new(x: usize, y: usize) -> (r: Vec2)
        ensures
            r == (Vec2 { x, y }),
    {
        Vec2 { x, y }
    }

    /// The adjacent coordinate in direction `d`.
    pub fn neighbor(&self, dir: Direction) -> (r: Vec2)
        requires
            spec_step_fits(*self, dir),
        ensures
            r == spec_step(*self, dir),
    {
        match dir {
            Direction::Top => Vec2::new(self.x, self.y - 1),
            Direction::Right => Vec2::new(self.x + 1, self.y),
            Direction::Bottom => Vec2::new(self.x, self.y + 1),
            Direction::Left => Vec2::new(self.x - 1, self.y),
        }
    }

    /// Manhattan distance to `to`.
    pub fn distance(&self, to: Vec2) -> (r: usize)
        requires
            spec_manhattan(*self, to) <= usize::MAX,
        ensures
            r == spec_manhattan(*self, to),
    {
        let dx = if self.x >= to.x {
            self.x - to.x
        } else {
            to.x - self.x
        };
        let dy = if self.y >= to.y {
            self.y - to.y
        } else {
            to.y - self.y
        };
        dx + dy
    }
}

/// Whether `c` writes a hexadecimal digit (either case).
pub open spec fn spec_is_hex_digit(c: char) -> bool {
    ('0' <= c && c <= '9') || ('a' <= c && c <= 'f') || ('A' <= c && c <= 'F')
}

/// The value of the hexadecimal digit `c`.
pub open spec fn spec_hex_value(c: char) -> u8 {
    if '0' <= c && c <= '9' {
        (c as u8 - '0' as u8) as u8
    } else if 'a' <= c && c <= 'f' {
        (c as u8 - 'a' as u8 + 10) as u8
    } else {
        (c as u8 - 'A' as u8 + 10) as u8
    }
}

/// Whether `c` is a hexadecimal digit.
pub fn is_hex_digit(c: char) -> (r: bool)
    ensures
        r == spec_is_hex_digit(c),
{
    ('0' <= c && c <= '9') || ('a' <= c && c <= 'f') || ('A' <= c && c <= 'F')
}

/// The value of the hexadecimal digit `c`.
pub fn hex_value(c: char) -> (r: u8)
    requires
        spec_is_hex_digit(c),
    ensures
        r == spec_hex_value(c),
        r < 16,
{
    let u = c as u32;
    if c >= '0' && c <= '9' {
        (u - '0' as u32) as u8
    } else if c >= 'a' && c <= 'f' {
        (u - 'a' as u32 + 10) as u8
    } else {
        (u - 'A' as u32 + 10) as u8
    }
}

/// One grid cell: its own coordinate and the four-bit wall mask.
/// Bit `0x1` walls the bottom edge, `0x2` the left, `0x4` the top,
/// `0x8` the right; a set bit blocks movement out of the cell.
#[derive(Clone, Copy, Debug)]
pub struct Cell {
    pub coord: Vec2,
    pub walls: u8,
}

impl Cell {
    /// A cell at `(x, y)` whose wall mask is the hexadecimal digit `c`.
    pub fn new(x: usize, y: usize, c: char) -> (r: Cell)
        requires
            spec_is_hex_digit(c),
        ensures
            r.coord == (Vec2 { x, y }),
            r.walls == spec_hex_value(c),
            r.walls < 16,
    {
        Cell { coord: Vec2::new(x, y), walls: hex_value(c) }
    }

    /// Whether this cell's mask blocks movement in direction `dir`.
    pub fn has_wall(&self, dir: Direction) -> (r: bool)
        ensures
            r == (self.walls & spec_dir_mask(dir) != 0),
    {
        self.walls & dir.mask() != 0
    }

    /// The adjacent coordinate in direction `dir`, or `None` if the wall
    /// mask blocks that direction. Callers may only ask about an open
    /// boundary edge when the step stays inside the coordinate space.
    pub fn neighbor(&self, dir: Direction) -> (r: Option<Vec2>)
        requires
            self.walls & spec_dir_mask(dir) == 0 ==> spec_step_fits(self.coord, dir),
        ensures
            self.walls & spec_dir_mask(dir) != 0 ==> r is None,
            self.walls & spec_dir_mask(dir) == 0 ==> r == Some(spec_step(self.coord, dir)),
    {
        if self.has_wall(dir) {
            return None;
        }
        Some(self.coord.neighbor(dir))
    }
}

/// The sixteen box-drawing glyphs the display collaborator draws cells with:
/// each open edge of the mask becomes one arm of the glyph.
pub open spec fn spec_wall_glyph(mask: u8) -> char {
    if mask == 0x0 {
        '┼'
    } else if mask == 0x1 {
        '┴'
    } else if mask == 0x2 {
        '├'
    } else if mask == 0x3 {
        '└'
    } else if mask == 0x4 {
        '┬'
    } else if mask == 0x5 {
        '─'
    } else if mask == 0x6 {
        '┌'
    } else if mask == 0x7 {
        '╶'
    } else if mask == 0x8 {
        '┤'
    } else if mask == 0x9 {
        '┘'
    } else if mask == 0xa {
        '│'
    } else if mask == 0xb {
        '╵'
    } else if mask == 0xc {
        '┐'
    } else if mask == 0xd {
        '╴'
    } else {
        if mask == 0xe {
            '╷'
        } else {
            ' '
        }
    }
}

/// The box-drawing glyph for a wall mask, for rendering a grid.
pub fn wall_glyph(mask: u8) -> (r: char)
    requires
        mask < 16,
    ensures
        r == spec_wall_glyph(mask),
{
    match mask {
        0x0 => '┼',
        0x1 => '┴',
        0x2 => '├',
        0x3 => '└',
        0x4 => '┬',
        0x5 => '─',
        0x6 => '┌',
        0x7 => '╶',
        0x8 => '┤',
        0x9 => '┘',
        0xa => '│',
        0xb => '╵',
        0xc => '┐',
        0xd => '╴',
        0xe => '╷',
        _ => ' ',
    }
}

/// A maze: `size.x × size.y` cells addressed by coordinate, row-major.
pub struct Labyrinth {
    pub cells: Vec<Vec<Cell>>,
    pub size: Vec2,
}

impl Labyrinth {
    /// The grid is fully built and internally consistent: one row per grid
    /// line, one cell per column, each cell carrying its own coordinate and
    /// a four-bit mask.
    pub open spec fn wf(&self) -> bool {
        &&& self.cells@.len() == self.size.y
        &&& forall|y: int|
            0 <= y < self.size.y ==> (#[trigger] self.cells@[y])@.len() == self.size.x
        &&& forall|y: int, x: int|
            0 <= y < self.size.y && 0 <= x < self.size.x ==> {
                &&& (#[trigger] self.cells@[y]@[x]).coord == (Vec2 { x: x as usize, y: y as usize })
                &&& self.cells@[y]@[x].walls < 16
            }
    }

    /// Whether `c` lies inside the grid bounds.
    pub open spec fn in_bounds(&self, c: Vec2) -> bool {
        c.x < self.size.x && c.y < self.size.y
    }

    /// The wall mask of the cell at `c`.
    pub open spec fn mask_at(&self, c: Vec2) -> u8 {
        self.cells@[c.y as int]@[c.x as int].walls
    }

    /// Whether the cell at `c` lets a move out in direction `d`.
    pub open spec fn open_from(&self, c: Vec2, d: Direction) -> bool {
        self.mask_at(c) & spec_dir_mask(d) == 0
    }

    /// Every boundary cell walls off its outside edges, so no open passage
    /// ever leads out of the grid. Searches demand this of their mazes: an
    /// open edge on the boundary would ask for a neighbour outside the
    /// coordinate space.
    pub open spec fn sealed(&self) -> bool {
        forall|c: Vec2|
            #![trigger self.in_bounds(c)]
            self.in_bounds(c) ==> {
                &&& (c.y == 0 ==> !self.open_from(c, Direction::Top))
                &&& (c.x == 0 ==> !self.open_from(c, Direction::Left))
                &&& (c.y == self.size.y - 1 ==> !self.open_from(c, Direction::Bottom))
                &&& (c.x == self.size.x - 1 ==> !self.open_from(c, Direction::Right))
            }
    }

    /// An empty labyrinth shell of the given size, before its rows are
    /// loaded.
    pub fn new(size: Vec2) -> (r: Labyrinth)
        ensures
            r.cells@.len() == 0,
            r.size == size,
    {
        Labyrinth { cells: Vec::new(), size }
    }

    /// Builds the grid from its textual rows: one row of `size.x`
    /// hexadecimal wall-mask digits per grid line. Rejects input whose row
    /// count or row length does not match the declared size, and any
    /// character that is not a hexadecimal digit.
    #[verifier::rlimit(30)]
    pub fn from_rows(size: Vec2, rows: &Vec<Vec<char>>) -> (r: Result<Labyrinth, EngineError>)
        ensures
            r is Ok <==> (rows@.len() == size.y && forall|y: int|
                0 <= y < size.y ==> (#[trigger] rows@[y])@.len() == size.x && forall|x: int|
                    0 <= x < size.x ==> spec_is_hex_digit(#[trigger] rows@[y]@[x])),
            r matches Ok(lab) ==> {
                &&& lab.wf()
                &&& lab.size == size
                &&& forall|y: int, x: int|
                    0 <= y < size.y && 0 <= x < size.x ==> #[trigger] lab.cells@[y]@[x].walls
                        == spec_hex_value(rows@[y]@[x])
            },
            r matches Err(e) ==> e == EngineError::InputFormat,
    {
        if rows.len() != size.y {
            return Err(EngineError::InputFormat);
        }
        let mut cells: Vec<Vec<Cell>> = Vec::new();
        let mut y: usize = 0;
        while y < size.y
            invariant
                y <= size.y,
                rows@.len() == size.y,
                cells@.len() == y,
                forall|j: int| 0 <= j < y ==> (#[trigger] rows@[j])@.len() == size.x,
                forall|j: int|
                    0 <= j < y ==> (#[trigger] cells@[j])@.len() == size.x,
                forall|j: int, x: int|
                    0 <= j < y && 0 <= x < size.x ==> {
                        &&& spec_is_hex_digit(#[trigger] rows@[j]@[x])
                        &&& cells@[j]@[x].coord == (Vec2 { x: x as usize, y: j as usize })
                        &&& cells@[j]@[x].walls == spec_hex_value(rows@[j]@[x])
                        &&& cells@[j]@[x].walls < 16
                    },
            decreases size.y - y,
        {
            let row = &rows[y];
            if row.len() != size.x {
                return Err(EngineError::InputFormat);
            }
            let mut cell_row: Vec<Cell> = Vec::new();
            let mut x: usize = 0;
            while x < size.x
                invariant
                    x <= size.x,
                    row@.len() == size.x,
                    row@ == rows@[y as int]@,
                    y < size.y,
                    cell_row@.len() == x,
                    forall|i: int| 0 <= i < x ==> spec_is_hex_digit(#[trigger] row@[i]),
                    forall|i: int|
                        0 <= i < x ==> {
                            &&& (#[trigger] cell_row@[i]).coord == (Vec2 {
                                x: i as usize,
                                y: y,
                            })
                            &&& cell_row@[i].walls == spec_hex_value(row@[i])
                            &&& cell_row@[i].walls < 16
                        },
                decreases size.x - x,
            {
                let c = row[x];
                if !is_hex_digit(c) {
                    return Err(EngineError::InputFormat);
                }
                cell_row.push(Cell::new(x, y, c));
                x += 1;
            }
            proof {
                assert forall|i: int| 0 <= i < size.x implies {
                    &&& spec_is_hex_digit(#[trigger] rows@[y as int]@[i])
                    &&& cell_row@[i].coord == (Vec2 { x: i as usize, y: y })
                    &&& cell_row@[i].walls == spec_hex_value(rows@[y as int]@[i])
                    &&& cell_row@[i].walls < 16
                } by {
                    assert(rows@[y as int]@[i] == row@[i]);
                    assert(spec_is_hex_digit(row@[i]));
                    assert(cell_row@[i].walls == spec_hex_value(row@[i]));
                }
            }
            cells.push(cell_row);
            proof {
                assert(cells@[y as int]@ =~= cell_row@);
                assert forall|j: int, x: int| 0 <= j < y + 1 && 0 <= x < size.x implies {
                    &&& spec_is_hex_digit(#[trigger] rows@[j]@[x])
                    &&& cells@[j]@[x].coord == (Vec2 { x: x as usize, y: j as usize })
                    &&& cells@[j]@[x].walls == spec_hex_value(rows@[j]@[x])
                    &&& cells@[j]@[x].walls < 16
                } by {
                    if j == y {
                        assert(cells@[j]@[x] == cell_row@[x]);
                        assert(spec_is_hex_digit(rows@[y as int]@[x]));
                        assert(cell_row@[x].walls == spec_hex_value(rows@[y as int]@[x]));
                    } else {
                        assert(cells@[j]@[x].walls == spec_hex_value(rows@[j]@[x]));
                    }
                }
            }
            y += 1;
        }
        let lab = Labyrinth { cells, size };
        proof {
            assert forall|j: int, i: int| 0 <= j < size.y && 0 <= i < size.x implies {
                &&& (#[trigger] lab.cells@[j]@[i]).coord == (Vec2 { x: i as usize, y: j as usize })
                &&& lab.cells@[j]@[i].walls < 16
            } by {
                assert(spec_is_hex_digit(rows@[j]@[i]));
            }
        }
        Ok(lab)
    }

    /// A single passable move: the cell at `a` is open toward `b`, one unit
    /// step away, and both lie inside the grid.
    pub open spec fn adjacent_step(&self, a: Vec2, b: Vec2) -> bool {
        &&& self.in_bounds(a)
        &&& self.in_bounds(b)
        &&& exists|d: Direction|
            self.open_from(a, d) && spec_step_fits(a, d) && b == spec_step(a, d)
    }

    /// `p` is a route from `from` to `to`: its first coordinate is one
    /// passable move from `from`, consecutive coordinates are one passable
    /// move apart, and it ends at `to`. `from` itself is not part of the
    /// route, so `p.len()` is the number of moves.
    pub open spec fn path_connects(&self, from: Vec2, to: Vec2, p: Seq<Vec2>) -> bool {
        &&& p.len() > 0
        &&& self.adjacent_step(from, p[0])
        &&& forall|i: int| 0 <= i < p.len() - 1 ==> self.adjacent_step(#[trigger] p[i], p[i + 1])
        &&& p[p.len() - 1] == to
    }

    /// `b` can be reached from `a` by passable moves (in zero moves if the
    /// two are equal).
    pub open spec fn reachable(&self, a: Vec2, b: Vec2) -> bool {
        a == b || exists|p: Seq<Vec2>| self.path_connects(a, b, p)
    }

    /// The cell at `coord`.
    pub fn get_cell(&self, coord: Vec2) -> (r: &Cell)
        requires
            self.wf(),
            self.in_bounds(coord),
        ensures
            r == self.cells@[coord.y as int]@[coord.x as int],
            r.coord == coord,
            r.walls == self.mask_at(coord),
    {
        &self.cells[coord.y][coord.x]
    }

    /// Tries one direction out of `current`: if the passage is open and the
    /// neighbour unvisited, records `current` as its predecessor, one move
    /// past it, and queues it. Returns the extended rank witness and move
    /// counts.
    #[verifier::rlimit(100)]
    #[verifier::spinoff_prover]
    fn expand_neighbor(
        &self,
        from: Vec2,
        current: Vec2,
        dir: Direction,
        queue: &mut Vec<Vec2>,
        prev: &mut Vec<Vec<Option<Vec2>>>,
        rank: Ghost<Map<Vec2, nat>>,
        next_rank: Ghost<nat>,
        depth: Ghost<Map<Vec2, nat>>,
    ) -> (r: (Ghost<Map<Vec2, nat>>, Ghost<nat>, Ghost<Map<Vec2, nat>>))
        requires
            self.wf(),
            self.sealed(),
            self.in_bounds(from),
            self.in_bounds(current),
            visited(old(prev)@, current),
            prev_ok(*self, from, old(prev)@),
            rank_ok(*self, from, old(prev)@, rank@),
            rank_bounded(*self, old(prev)@, rank@, next_rank@),
            queue_ok(*self, old(prev)@, old(queue)@),
            depth_ok(*self, from, old(prev)@, depth@),
            lower_ok(*self, from, old(prev)@, depth@),
            queue_sorted(old(queue)@, depth@),
            forall|c: Vec2|
                #![trigger visited(old(prev)@, c)]
                self.in_bounds(c) && visited(old(prev)@, c) && !old(queue)@.contains(c) && c
                    != current ==> expanded(*self, old(prev)@, c),
            forall|i: int|
                0 <= i < old(queue)@.len() ==> depth@[current]
                    <= depth@[#[trigger] old(queue)@[i]] && depth@[old(queue)@[i]]
                    <= depth@[current] + 1,
        ensures
            prev_ok(*self, from, final(prev)@),
            rank_ok(*self, from, final(prev)@, r.0@),
            rank_bounded(*self, final(prev)@, r.0@, r.1@),
            queue_ok(*self, final(prev)@, final(queue)@),
            depth_ok(*self, from, final(prev)@, r.2@),
            lower_ok(*self, from, final(prev)@, r.2@),
            queue_sorted(final(queue)@, r.2@),
            forall|c: Vec2|
                #![trigger visited(old(prev)@, c)]
                self.in_bounds(c) && visited(old(prev)@, c) ==> r.2@[c] == depth@[c],
            forall|i: int|
                0 <= i < final(queue)@.len() ==> depth@[current]
                    <= r.2@[#[trigger] final(queue)@[i]] && r.2@[final(queue)@[i]]
                    <= depth@[current] + 1,
            final(queue)@.len() + grid_none_count(final(prev)@) == old(queue)@.len()
                + grid_none_count(old(prev)@),
            grid_none_count(final(prev)@) <= grid_none_count(old(prev)@),
            forall|c: Vec2|
                #![trigger visited(final(prev)@, c)]
                self.in_bounds(c) && visited(old(prev)@, c) ==> visited(final(prev)@, c),
            forall|c: Vec2| old(queue)@.contains(c) ==> final(queue)@.contains(c),
            forall|c: Vec2|
                #![trigger visited(final(prev)@, c)]
                self.in_bounds(c) && visited(final(prev)@, c) ==> visited(old(prev)@, c)
                    || final(queue)@.contains(c),
            self.open_from(current, dir) && spec_step_fits(current, dir) ==> visited(
                final(prev)@,
                spec_step(current, dir),
            ),
    {
        let cell = self.get_cell(current);
        proof {
            if self.open_from(current, dir) {
                lemma_sealed_step(*self, current, dir);
            }
        }
        let n_opt = cell.neighbor(dir);
        match n_opt {
            None => (rank, next_rank, depth),
            Some(n) => {
                if prev[n.y][n.x].is_some() {
                    return (rank, next_rank, depth);
                }
                let ghost prev0 = prev@;
                let ghost q0 = queue@;
                prev[n.y][n.x] = Some(current);
                queue.push(n);
                let ghost rank2 = rank@.insert(n, next_rank@);
                let ghost depth2 = depth@.insert(n, (depth@[current] + 1) as nat);
                proof {
                    assert(prev@[n.y as int]@ =~= prev0[n.y as int]@.update(
                        n.x as int,
                        Some(current),
                    ));
                    lemma_grid_none_count_update(
                        prev0,
                        prev@[n.y as int],
                        n.y as int,
                        n.x as int,
                        current,
                    );
                    assert(prev@ =~= prev0.update(n.y as int, prev@[n.y as int]));
                    assert forall|c: Vec2| self.in_bounds(c) implies {
                        &&& visited(prev@, c) == (visited(prev0, c) || c == n)
                        &&& (c != n ==> parent_of(prev@, c) == parent_of(prev0, c))
                    } by {
                        if c.y != n.y || c.x != n.x {
                            assert(prev@[c.y as int]@[c.x as int] == prev0[c.y as int]@[c.x as int]);
                        }
                    }
                    assert(n != from);
                    assert(visited(prev@, n) && parent_of(prev@, n) == current);
                    assert(self.adjacent_step(current, n));
                    assert(queue@ == q0.push(n));
                    assert(queue@[queue@.len() - 1] == n);
                    assert forall|c: Vec2| q0.contains(c) implies queue@.contains(c) by {
                        let i = choose|i: int| 0 <= i < q0.len() && q0[i] == c;
                        assert(queue@[i] == c);
                    }
                    // The fresh cell is one move past the head; every other
                    // move count is untouched, so the chain, the wavefront
                    // band and the queue order all survive.
                    assert(!q0.contains(n));
                    assert forall|c: Vec2|
                        self.in_bounds(c) && visited(prev0, c) implies depth2[c] == depth@[c] by {}
                    assert(depth_ok(*self, from, prev@, depth2)) by {
                        reveal(depth_ok);
                    }
                    assert forall|i: int|
                        0 <= i < queue@.len() implies depth@[current] <= depth2[#[trigger] queue@[i]]
                            <= depth@[current] + 1 by {
                        if i < q0.len() {
                            assert(queue@[i] == q0[i]);
                            assert(q0[i] != n);
                        } else {
                            assert(queue@[i] == n);
                        }
                    }
                    assert(queue_sorted(queue@, depth2)) by {
                        reveal(queue_sorted);
                        assert forall|i: int, j: int|
                            0 <= i <= j < queue@.len() implies depth2[#[trigger] queue@[i]]
                                <= depth2[#[trigger] queue@[j]] && depth2[queue@[j]] <= depth2[
                            queue@[i]] + 1 by {
                            if j < q0.len() {
                                assert(queue@[i] == q0[i] && queue@[j] == q0[j]);
                                assert(q0[i] != n && q0[j] != n);
                            } else if i < q0.len() {
                                assert(queue@[i] == q0[i] && queue@[j] == n);
                                assert(q0[i] != n);
                            }
                        }
                    }
                    assert(depth@[from] == 0) by {
                        reveal(depth_ok);
                    }
                    assert(lower_ok(*self, from, prev@, depth2)) by {
                        reveal(lower_ok);
                        assert forall|c: Vec2, p: Seq<Vec2>|
                            self.in_bounds(c) && visited(prev@, c) && #[trigger] self.path_connects(
                                from,
                                c,
                                p,
                            ) implies p.len() >= depth2[c] by {
                            if c == n {
                                lemma_unvisited_floor(
                                    *self,
                                    from,
                                    prev0,
                                    depth@,
                                    q0,
                                    current,
                                    n,
                                    p,
                                );
                            } else {
                                assert(visited(prev0, c));
                                assert(p.len() >= depth@[c]);
                            }
                        }
                    }
                }
                (Ghost(rank2), Ghost(next_rank@ + 1), Ghost(depth2))
            },
        }
    }

    /// Breadth-first search: explores the maze outward from `from` in strict
    /// first-in-first-out order, expanding each newly dequeued cell into its
    /// unvisited passable neighbours (top, right, bottom, left), and stops
    /// as soon as `to` is dequeued. Returns the reconstructed route, or an
    /// empty one where no route exists (an unreachable goal is a normal
    /// outcome, not an error).
    #[verifier::rlimit(100)]
    #[verifier::spinoff_prover]
    pub fn breadth_first_search(&self, from: Vec2, to: Vec2) -> (r: Vec<Vec2>)
        requires
            self.wf(),
            self.sealed(),
            self.in_bounds(from),
            self.in_bounds(to),
        ensures
            from == to ==> r@.len() == 0,
            r@.len() > 0 ==> self.path_connects(from, to, r@),
            r@.len() == 0 <==> (from == to || !self.reachable(from, to)),
            !r@.contains(from),
            r@.len() > 0 ==> forall|p: Seq<Vec2>|
                self.path_connects(from, to, p) ==> p.len() >= r@.len(),
    {
        let mut queue: Vec<Vec2> = Vec::new();
        queue.push(from);
        let mut prev = make_prev(self.size.x, self.size.y);
        prev[from.y][from.x] = Some(from);
        let ghost mut rank: Map<Vec2, nat> = Map::empty().insert(from, 0nat);
        let ghost mut next_rank: nat = 1;
        let ghost mut depth: Map<Vec2, nat> = Map::empty().insert(from, 0nat);
        proof {
            assert forall|c: Vec2| self.in_bounds(c) && visited(prev@, c) implies c == from by {
                if c.y != from.y || c.x != from.x {
                    assert(prev@[c.y as int]@[c.x as int] is None);
                }
            }
            assert(queue@[0] == from);
            assert(queue@.contains(from));
            assert(frontier_ok(*self, prev@, queue@)) by {
                reveal(frontier_ok);
            }
            assert(lower_ok(*self, from, prev@, depth)) by {
                reveal(lower_ok);
            }
            assert(depth_ok(*self, from, prev@, depth)) by {
                reveal(depth_ok);
            }
            assert(queue_sorted(queue@, depth)) by {
                reveal(queue_sorted);
            }
        }
        let mut found = false;
        while !found && queue.len() > 0
            invariant
                self.wf(),
                self.sealed(),
                self.in_bounds(from),
                self.in_bounds(to),
                prev_ok(*self, from, prev@),
                rank_ok(*self, from, prev@, rank),
                rank_bounded(*self, prev@, rank, next_rank),
                queue_ok(*self, prev@, queue@),
                depth_ok(*self, from, prev@, depth),
                lower_ok(*self, from, prev@, depth),
                queue_sorted(queue@, depth),
                found ==> visited(prev@, to),
                !found ==> frontier_ok(*self, prev@, queue@),
                !found ==> (visited(prev@, to) ==> queue@.contains(to)),
            decreases queue@.len() + 2 * grid_none_count(prev@),
        {
            let ghost q_before = queue@;
            let current = queue.remove(0);
            proof {
                lemma_queue_after_head(q_before, queue@, depth);
            }
            if current == to {
                found = true;
            } else {
                proof {
                    assert forall|c: Vec2|
                        self.in_bounds(c) && #[trigger] visited(prev@, c) && !queue@.contains(c)
                            && c != current implies expanded(*self, prev@, c) by {
                        reveal(frontier_ok);
                        assert(!q_before.contains(c));
                    }
                }
                let ghost dd = depth[current];
                let ghost m0 = queue@.len() + 2 * grid_none_count(prev@);
                let dirs = Direction::values();
                let mut di: usize = 0;
                while di < dirs.len()
                    invariant
                        self.wf(),
                        self.sealed(),
                        self.in_bounds(from),
                        self.in_bounds(to),
                        dirs@ =~= seq![
                            Direction::Top,
                            Direction::Right,
                            Direction::Bottom,
                            Direction::Left,
                        ],
                        di <= 4,
                        self.in_bounds(current),
                        visited(prev@, current),
                        current != to,
                        prev_ok(*self, from, prev@),
                        rank_ok(*self, from, prev@, rank),
                        rank_bounded(*self, prev@, rank, next_rank),
                        queue_ok(*self, prev@, queue@),
                        depth_ok(*self, from, prev@, depth),
                        lower_ok(*self, from, prev@, depth),
                        queue_sorted(queue@, depth),
                        dd == depth[current],
                        forall|i: int|
                            0 <= i < queue@.len() ==> dd <= depth[#[trigger] queue@[i]] <= dd + 1,
                        queue@.len() + 2 * grid_none_count(prev@) <= m0,
                        forall|c: Vec2|
                            #![trigger visited(prev@, c)]
                            self.in_bounds(c) && visited(prev@, c) && !queue@.contains(c) && c
                                != current ==> expanded(*self, prev@, c),
                        forall|j: int|
                            0 <= j < di ==> (self.open_from(current, #[trigger] dirs@[j])
                                && spec_step_fits(current, dirs@[j]) ==> visited(
                                prev@,
                                spec_step(current, dirs@[j]),
                            )),
                        visited(prev@, to) ==> queue@.contains(to),
                    decreases 4 - di,
                {
                    let dir = dirs[di];
                    let ghost prev_before = prev@;
                    let ghost queue_before = queue@;
                    let (g1, g2, g3) = self.expand_neighbor(
                        from,
                        current,
                        dir,
                        &mut queue,
                        &mut prev,
                        Ghost(rank),
                        Ghost(next_rank),
                        Ghost(depth),
                    );
                    proof {
                        rank = g1@;
                        next_rank = g2@;
                        depth = g3@;
                        assert forall|j: int|
                            0 <= j < di + 1 implies (self.open_from(current, #[trigger] dirs@[j])
                                && spec_step_fits(current, dirs@[j]) ==> visited(
                                prev@,
                                spec_step(current, dirs@[j]),
                            )) by {
                            if j < di && self.open_from(current, dirs@[j]) && spec_step_fits(
                                current,
                                dirs@[j],
                            ) {
                                lemma_sealed_step(*self, current, dirs@[j]);
                                assert(visited(prev_before, spec_step(current, dirs@[j])));
                            }
                        }
                        assert forall|c: Vec2|
                            self.in_bounds(c) && visited(prev@, c) && !queue@.contains(c) && c
                                != current implies expanded(*self, prev@, c) by {
                            assert(visited(prev_before, c));
                            assert(!queue_before.contains(c));
                            assert(expanded(*self, prev_before, c));
                            lemma_expanded_monotone(*self, prev_before, prev@, c);
                        }
                    }
                    di += 1;
                }
                proof {
                    assert(expanded(*self, prev@, current)) by {
                        reveal(expanded);
                        assert forall|d: Direction|
                            self.open_from(current, d) && spec_step_fits(current, d)
                            implies visited(prev@, spec_step(current, d)) by {
                            match d {
                                Direction::Top => {
                                    assert(dirs@[0] == Direction::Top);
                                },
                                Direction::Right => {
                                    assert(dirs@[1] == Direction::Right);
                                },
                                Direction::Bottom => {
                                    assert(dirs@[2] == Direction::Bottom);
                                },
                                Direction::Left => {
                                    assert(dirs@[3] == Direction::Left);
                                },
                            }
                        }
                    }
                    assert(frontier_ok(*self, prev@, queue@)) by {
                        reveal(frontier_ok);
                    }
                }
            }
        }
        let r = if found {
            reconstruct_path(self, &prev, from, to, Ghost(rank), Ghost(depth))
        } else {
            Vec::new()
        };
        proof {
            if r@.len() > 0 {
                assert(self.path_connects(from, to, r@));
                assert(self.reachable(from, to));
                assert(r@.len() == depth[to]);
                assert forall|p: Seq<Vec2>| self.path_connects(from, to, p) implies p.len()
                    >= r@.len() by {
                    reveal(lower_ok);
                }
            }
            if !found {
                assert(queue@.len() == 0);
                assert(!visited(prev@, to)) by {
                    if queue@.contains(to) {
                        let i = choose|i: int| 0 <= i < queue@.len() && queue@[i] == to;
                        assert(false);
                    }
                }
                assert forall|c: Vec2|
                    self.in_bounds(c) && #[trigger] visited(prev@, c) implies expanded(
                    *self,
                    prev@,
                    c,
                ) by {
                    reveal(frontier_ok);
                    if queue@.contains(c) {
                        let i = choose|i: int| 0 <= i < queue@.len() && queue@[i] == c;
                        assert(false);
                    }
                }
                lemma_closed_unreachable(*self, prev@, from, to);
            }
        }
        r
    }

    /// Like `expand_neighbor`, for the priority search: an unvisited
    /// passable neighbour is queued as `(pri, walked, coordinate)`.
    #[verifier::rlimit(60)]
    fn expand_neighbor_pq(
        &self,
        from: Vec2,
        current: Vec2,
        dir: Direction,
        pri: usize,
        walked: usize,
        pq: &mut Vec<(usize, usize, Vec2)>,
        prev: &mut Vec<Vec<Option<Vec2>>>,
        rank: Ghost<Map<Vec2, nat>>,
        next_rank: Ghost<nat>,
    ) -> (r: (Ghost<Map<Vec2, nat>>, Ghost<nat>))
        requires
            self.wf(),
            self.sealed(),
            self.in_bounds(current),
            visited(old(prev)@, current),
            prev_ok(*self, from, old(prev)@),
            rank_ok(*self, from, old(prev)@, rank@),
            rank_bounded(*self, old(prev)@, rank@, next_rank@),
            pq_ok(*self, old(prev)@, old(pq)@),
            walked + grid_none_count(old(prev)@) <= self.size.x * self.size.y + 1,
        ensures
            prev_ok(*self, from, final(prev)@),
            rank_ok(*self, from, final(prev)@, r.0@),
            rank_bounded(*self, final(prev)@, r.0@, r.1@),
            pq_ok(*self, final(prev)@, final(pq)@),
            final(pq)@.len() + grid_none_count(final(prev)@) == old(pq)@.len()
                + grid_none_count(old(prev)@),
            grid_none_count(final(prev)@) <= grid_none_count(old(prev)@),
            forall|c: Vec2|
                #![trigger visited(final(prev)@, c)]
                self.in_bounds(c) && visited(old(prev)@, c) ==> visited(final(prev)@, c),
            forall|c: Vec2| pq_has(old(pq)@, c) ==> pq_has(final(pq)@, c),
            forall|c: Vec2|
                #![trigger visited(final(prev)@, c)]
                self.in_bounds(c) && visited(final(prev)@, c) ==> visited(old(prev)@, c)
                    || pq_has(final(pq)@, c),
            self.open_from(current, dir) && spec_step_fits(current, dir) ==> visited(
                final(prev)@,
                spec_step(current, dir),
            ),
    {
        let cell = self.get_cell(current);
        proof {
            if self.open_from(current, dir) {
                lemma_sealed_step(*self, current, dir);
            }
        }
        let n_opt = cell.neighbor(dir);
        match n_opt {
            None => (rank, next_rank),
            Some(n) => {
                if prev[n.y][n.x].is_some() {
                    return (rank, next_rank);
                }
                let ghost prev0 = prev@;
                let ghost q0 = pq@;
                prev[n.y][n.x] = Some(current);
                pq.push((pri, walked, n));
                let ghost rank2 = rank@.insert(n, next_rank@);
                proof {
                    assert(prev@[n.y as int]@ =~= prev0[n.y as int]@.update(
                        n.x as int,
                        Some(current),
                    ));
                    lemma_grid_none_count_update(
                        prev0,
                        prev@[n.y as int],
                        n.y as int,
                        n.x as int,
                        current,
                    );
                    assert(prev@ =~= prev0.update(n.y as int, prev@[n.y as int]));
                    assert forall|c: Vec2| self.in_bounds(c) implies {
                        &&& visited(prev@, c) == (visited(prev0, c) || c == n)
                        &&& (c != n ==> parent_of(prev@, c) == parent_of(prev0, c))
                    } by {
                        if c.y != n.y || c.x != n.x {
                            assert(prev@[c.y as int]@[c.x as int] == prev0[c.y as int]@[c.x as int]);
                        }
                    }
                    assert(n != from);
                    assert(visited(prev@, n) && parent_of(prev@, n) == current);
                    assert(self.adjacent_step(current, n));
                    assert(pq@ == q0.push((pri, walked, n)));
                    assert(pq@[pq@.len() - 1].2 == n);
                    assert(pq_has(pq@, n));
                    assert forall|c: Vec2| pq_has(q0, c) implies pq_has(pq@, c) by {
                        let i = choose|i: int| 0 <= i < q0.len() && (#[trigger] q0[i]).2 == c;
                        assert(pq@[i].2 == c);
                    }
                }
                (Ghost(rank2), Ghost(next_rank@ + 1))
            },
        }
    }

    /// Best-first search: explores the cell with the smallest estimate
    /// `walked moves + Manhattan distance to the goal` first. Ties fall to
    /// the entry the backing order pops first (larger walked distance, then
    /// larger coordinate, column before row). The route it finds may differ
    /// from the breadth-first one, but where both succeed the lengths are
    /// cross-checked by `distance`.
    #[verifier::rlimit(100)]
    pub fn best_first_search(&self, from: Vec2, to: Vec2) -> (r: Vec<Vec2>)
        requires
            self.wf(),
            self.sealed(),
            self.in_bounds(from),
            self.in_bounds(to),
            self.size.x * self.size.y + self.size.x + self.size.y < usize::MAX,
        ensures
            from == to ==> r@.len() == 0,
            r@.len() > 0 ==> self.path_connects(from, to, r@),
            r@.len() == 0 <==> (from == to || !self.reachable(from, to)),
            !r@.contains(from),
    {
        let mut pq: Vec<(usize, usize, Vec2)> = Vec::new();
        let d0 = from.distance(to);
        let mut prev = make_prev(self.size.x, self.size.y);
        let ghost prev0 = prev@;
        prev[from.y][from.x] = Some(from);
        let ghost mut rank: Map<Vec2, nat> = Map::empty().insert(from, 0nat);
        let ghost mut next_rank: nat = 1;
        proof {
            assert(prev@[from.y as int]@ =~= prev0[from.y as int]@.update(
                from.x as int,
                Some(from),
            ));
            lemma_grid_none_count_update(
                prev0,
                prev@[from.y as int],
                from.y as int,
                from.x as int,
                from,
            );
            lemma_grid_none_count_le(prev0, self.size.x as int);
            assert((self.size.y as int) * (self.size.x as int) == (self.size.x as int) * (
            self.size.y as int)) by (nonlinear_arith);
            assert(grid_none_count(prev@) + 1 == grid_none_count(prev0));
            assert(grid_none_count(prev@) <= self.size.x * self.size.y);
            assert forall|c: Vec2| self.in_bounds(c) && visited(prev@, c) implies c == from by {
                if c.y != from.y || c.x != from.x {
                    assert(prev@[c.y as int]@[c.x as int] is None);
                }
            }
        }
        pq.push((d0, 0, from));
        proof {
            assert(pq@[0].2 == from);
            assert(pq_has(pq@, from));
            assert(pq_frontier_ok(*self, prev@, pq@)) by {
                reveal(pq_frontier_ok);
            }
        }
        let mut found = false;
        while !found && pq.len() > 0
            invariant
                self.wf(),
                self.sealed(),
                self.in_bounds(from),
                self.in_bounds(to),
                self.size.x * self.size.y + self.size.x + self.size.y < usize::MAX,
                prev_ok(*self, from, prev@),
                rank_ok(*self, from, prev@, rank),
                rank_bounded(*self, prev@, rank, next_rank),
                pq_ok(*self, prev@, pq@),
                found ==> visited(prev@, to),
                !found ==> pq_frontier_ok(*self, prev@, pq@),
                !found ==> (visited(prev@, to) ==> pq_has(pq@, to)),
            decreases pq@.len() + 2 * grid_none_count(prev@),
        {
            let ghost pq_before = pq@;
            let popped = pq_pop(&mut pq);
            let (_pri, walked, current) = popped.unwrap();
            proof {
                lemma_pq_after_pop(*self, prev@, pq_before, pq@, popped->0);
            }
            if current == to {
                found = true;
            } else {
                proof {
                    assert forall|c: Vec2|
                        self.in_bounds(c) && #[trigger] visited(prev@, c) && !pq_has(pq@, c) && c
                            != current implies expanded(*self, prev@, c) by {
                        reveal(pq_frontier_ok);
                        assert(!pq_has(pq_before, c));
                    }
                }
                let walked_next = walked + 1;
                let h = current.distance(to);
                let pri_next = walked_next + h;
                let ghost m0 = pq@.len() + 2 * grid_none_count(prev@);
                let dirs = Direction::values();
                let mut di: usize = 0;
                while di < dirs.len()
                    invariant
                        self.wf(),
                        self.sealed(),
                        self.in_bounds(from),
                        self.in_bounds(to),
                        dirs@.len() == 4,
                        di <= 4,
                        self.in_bounds(current),
                        visited(prev@, current),
                        prev_ok(*self, from, prev@),
                        rank_ok(*self, from, prev@, rank),
                        rank_bounded(*self, prev@, rank, next_rank),
                        pq_ok(*self, prev@, pq@),
                        walked_next + grid_none_count(prev@) <= self.size.x * self.size.y + 1,
                        pq@.len() + 2 * grid_none_count(prev@) <= m0,
                        current != to,
                        forall|c: Vec2|
                            #![trigger visited(prev@, c)]
                            self.in_bounds(c) && visited(prev@, c) && !pq_has(pq@, c) && c
                                != current ==> expanded(*self, prev@, c),
                        forall|j: int|
                            0 <= j < di ==> (self.open_from(current, #[trigger] dirs@[j])
                                && spec_step_fits(current, dirs@[j]) ==> visited(
                                prev@,
                                spec_step(current, dirs@[j]),
                            )),
                        visited(prev@, to) ==> pq_has(pq@, to),
                    decreases 4 - di,
                {
                    let dir = dirs[di];
                    let ghost prev_before = prev@;
                    let (g1, g2) = self.expand_neighbor_pq(
                        from,
                        current,
                        dir,
                        pri_next,
                        walked_next,
                        &mut pq,
                        &mut prev,
                        Ghost(rank),
                        Ghost(next_rank),
                    );
                    proof {
                        rank = g1@;
                        next_rank = g2@;
                        assert forall|j: int|
                            0 <= j < di + 1 implies (self.open_from(current, #[trigger] dirs@[j])
                                && spec_step_fits(current, dirs@[j]) ==> visited(
                                prev@,
                                spec_step(current, dirs@[j]),
                            )) by {
                            if j < di && self.open_from(current, dirs@[j]) && spec_step_fits(
                                current,
                                dirs@[j],
                            ) {
                                lemma_sealed_step(*self, current, dirs@[j]);
                                assert(visited(prev_before, spec_step(current, dirs@[j])));
                            }
                        }
                        assert forall|c: Vec2|
                            self.in_bounds(c) && visited(prev@, c) && !pq_has(pq@, c) && c
                                != current implies expanded(*self, prev@, c) by {
                            assert(visited(prev_before, c));
                            assert(expanded(*self, prev_before, c));
                            lemma_expanded_monotone(*self, prev_before, prev@, c);
                        }
                    }
                    di += 1;
                }
                proof {
                    assert(expanded(*self, prev@, current)) by {
                        reveal(expanded);
                        assert forall|d: Direction|
                            self.open_from(current, d) && spec_step_fits(current, d)
                            implies visited(prev@, spec_step(current, d)) by {
                            match d {
                                Direction::Top => {
                                    assert(dirs@[0] == Direction::Top);
                                },
                                Direction::Right => {
                                    assert(dirs@[1] == Direction::Right);
                                },
                                Direction::Bottom => {
                                    assert(dirs@[2] == Direction::Bottom);
                                },
                                Direction::Left => {
                                    assert(dirs@[3] == Direction::Left);
                                },
                            }
                        }
                    }
                    assert(pq_frontier_ok(*self, prev@, pq@)) by {
                        reveal(pq_frontier_ok);
                    }
                }
            }
        }
        let r = if found {
            reconstruct_path(self, &prev, from, to, Ghost(rank), Ghost(Map::empty()))
        } else {
            Vec::new()
        };
        proof {
            if r@.len() > 0 {
                assert(self.path_connects(from, to, r@));
                assert(self.reachable(from, to));
            }
            if !found {
                assert(pq@.len() == 0);
                assert(!visited(prev@, to)) by {
                    if pq_has(pq@, to) {
                        let i = choose|i: int| 0 <= i < pq@.len() && (#[trigger] pq@[i]).2 == to;
                        assert(false);
                    }
                }
                assert forall|c: Vec2|
                    self.in_bounds(c) && #[trigger] visited(prev@, c) implies expanded(
                    *self,
                    prev@,
                    c,
                ) by {
                    reveal(pq_frontier_ok);
                    if pq_has(pq@, c) {
                        let i = choose|i: int| 0 <= i < pq@.len() && (#[trigger] pq@[i]).2 == c;
                        assert(false);
                    }
                }
                lemma_closed_unreachable(*self, prev@, from, to);
            }
        }
        r
    }

    /// The number of moves of a shortest route from `from` to `to`: runs
    /// both search strategies and returns their common path length, `0`
    /// where the goal is the start or is unreachable. A successful answer
    /// is exactly the minimal move count of any route. An out-of-bounds
    /// endpoint is reported before any search runs; a length disagreement
    /// between the two strategies — the heuristic search can settle a cell
    /// through a longer route and there are mazes where it does — is
    /// surfaced as an internal-inconsistency error rather than resolved by
    /// preferring one result.
    pub fn distance(&self, from: Vec2, to: Vec2) -> (r: Result<usize, EngineError>)
        requires
            self.wf(),
            self.sealed(),
            self.size.x * self.size.y + self.size.x + self.size.y < usize::MAX,
        ensures
            r == Err::<usize, EngineError>(EngineError::OutOfRange) <==> !(self.in_bounds(from)
                && self.in_bounds(to)),
            self.in_bounds(from) && self.in_bounds(to) ==> {
                &&& (from == to ==> r == Ok::<usize, EngineError>(0))
                &&& (r == Ok::<usize, EngineError>(0) <==> (from == to || !self.reachable(
                    from,
                    to,
                )))
                &&& (r is Ok || r == Err::<usize, EngineError>(EngineError::InternalInconsistency))
                &&& (r == Err::<usize, EngineError>(EngineError::InternalInconsistency) ==> (from
                    != to && self.reachable(from, to)))
                &&& (r matches Ok(n) ==> (n > 0 ==> exists|p: Seq<Vec2>|
                    self.path_connects(from, to, p) && p.len() == n))
                &&& (r matches Ok(n) ==> forall|p: Seq<Vec2>|
                    self.path_connects(from, to, p) ==> p.len() >= n)
            },
    {
        if !(from.x < self.size.x && from.y < self.size.y && to.x < self.size.x && to.y
            < self.size.y) {
            return Err(EngineError::OutOfRange);
        }
        let breadth_path = self.breadth_first_search(from, to);
        let best_path = self.best_first_search(from, to);
        if breadth_path.len() != best_path.len() {
            return Err(EngineError::InternalInconsistency);
        }
        proof {
            if best_path@.len() > 0 {
                assert(self.path_connects(from, to, best_path@));
            }
            assert forall|p: Seq<Vec2>|
                self.path_connects(from, to, p) implies p.len() >= best_path@.len() by {
                if breadth_path@.len() > 0 {
                    assert(p.len() >= breadth_path@.len());
                }
            }
        }
        Ok(best_path.len())
    }
}

/// Every passable move out of `c` has been taken: each open neighbour is
/// visited.
#[verifier::opaque]
pub open spec fn expanded(lab: Labyrinth, prev: Seq<Vec<Option<Vec2>>>, c: Vec2) -> bool {
    forall|d: Direction|
        #![trigger lab.open_from(c, d)]
        lab.open_from(c, d) && spec_step_fits(c, d) ==> visited(prev, spec_step(c, d))
}

/// Every visited cell that is not still waiting in the queue has been
/// expanded: the search's frontier is exactly the queue.
#[verifier::opaque]
pub open spec fn frontier_ok(lab: Labyrinth, prev: Seq<Vec<Option<Vec2>>>, q: Seq<Vec2>) -> bool {
    forall|c: Vec2|
        #![trigger visited(prev, c)]
        lab.in_bounds(c) && visited(prev, c) && !q.contains(c) ==> expanded(lab, prev, c)
}

/// Whether some priority-queue entry names the coordinate `c`.
pub open spec fn pq_has(q: Seq<(usize, usize, Vec2)>, c: Vec2) -> bool {
    exists|i: int| 0 <= i < q.len() && (#[trigger] q[i]).2 == c
}

/// The priority-search frontier, with the queue of entries in place of the
/// plain queue.
#[verifier::opaque]
pub open spec fn pq_frontier_ok(
    lab: Labyrinth,
    prev: Seq<Vec<Option<Vec2>>>,
    q: Seq<(usize, usize, Vec2)>,
) -> bool {
    forall|c: Vec2|
        #![trigger visited(prev, c)]
        lab.in_bounds(c) && visited(prev, c) && !pq_has(q, c) ==> expanded(lab, prev, c)
}

/// Along a route of passable moves out of a visited cell, expansion carries
/// the visit mark forward to every cell of the route.
proof fn lemma_path_visited(
    lab: Labyrinth,
    prev: Seq<Vec<Option<Vec2>>>,
    from: Vec2,
    p: Seq<Vec2>,
    i: int,
)
    requires
        lab.in_bounds(from),
        visited(prev, from),
        p.len() > 0,
        lab.adjacent_step(from, p[0]),
        forall|j: int| 0 <= j < p.len() - 1 ==> lab.adjacent_step(#[trigger] p[j], p[j + 1]),
        forall|c: Vec2|
            #![trigger visited(prev, c)]
            lab.in_bounds(c) && visited(prev, c) ==> expanded(lab, prev, c),
        0 <= i < p.len(),
    ensures
        visited(prev, p[i]),
    decreases i,
{
    reveal(expanded);
    if i == 0 {
        let d = choose|d: Direction|
            lab.open_from(from, d) && spec_step_fits(from, d) && p[0] == spec_step(from, d);
        assert(expanded(lab, prev, from));
        assert(lab.open_from(from, d));
        assert(visited(prev, spec_step(from, d)));
    } else {
        lemma_path_visited(lab, prev, from, p, i - 1);
        assert(lab.adjacent_step(p[i - 1], p[i]));
        let a = p[i - 1];
        let d = choose|d: Direction|
            #![trigger lab.open_from(a, d)]
            lab.open_from(a, d) && spec_step_fits(a, d) && p[i] == spec_step(a, d);
        assert(expanded(lab, prev, a));
        assert(lab.open_from(a, d));
        assert(visited(prev, spec_step(a, d)));
    }
}

/// A search that has expanded every visited cell without visiting the goal
/// has proven the goal unreachable.
proof fn lemma_closed_unreachable(
    lab: Labyrinth,
    prev: Seq<Vec<Option<Vec2>>>,
    from: Vec2,
    to: Vec2,
)
    requires
        lab.in_bounds(from),
        lab.in_bounds(to),
        visited(prev, from),
        !visited(prev, to),
        forall|c: Vec2|
            #![trigger visited(prev, c)]
            lab.in_bounds(c) && visited(prev, c) ==> expanded(lab, prev, c),
    ensures
        !lab.reachable(from, to),
{
    assert(from != to);
    if lab.reachable(from, to) {
        let p = choose|p: Seq<Vec2>| lab.path_connects(from, to, p);
        lemma_path_visited(lab, prev, from, p, p.len() - 1);
        assert(visited(prev, to));
    }
}

/// The recorded move counts are consistent with the predecessor chains:
/// the start sits at zero moves and every other visited cell one move past
/// its predecessor.
#[verifier::opaque]
pub open spec fn depth_ok(
    lab: Labyrinth,
    from: Vec2,
    prev: Seq<Vec<Option<Vec2>>>,
    depth: Map<Vec2, nat>,
) -> bool {
    &&& depth[from] == 0
    &&& forall|c: Vec2|
        #![trigger visited(prev, c)]
        lab.in_bounds(c) && visited(prev, c) && c != from ==> depth[c] == depth[parent_of(
            prev,
            c,
        )] + 1
}

/// The recorded move counts are lower bounds: no route out of the start
/// reaches a visited cell in fewer moves than the search recorded for it.
#[verifier::opaque]
pub open spec fn lower_ok(
    lab: Labyrinth,
    from: Vec2,
    prev: Seq<Vec<Option<Vec2>>>,
    depth: Map<Vec2, nat>,
) -> bool {
    forall|c: Vec2, p: Seq<Vec2>|
        lab.in_bounds(c) && visited(prev, c) && #[trigger] lab.path_connects(from, c, p)
            ==> p.len() >= depth[c]
}

/// The queue's recorded move counts never decrease along it and span at
/// most two consecutive values — the breadth-first wavefront.
#[verifier::opaque]
pub open spec fn queue_sorted(q: Seq<Vec2>, depth: Map<Vec2, nat>) -> bool {
    forall|i: int, j: int|
        0 <= i <= j < q.len() ==> depth[#[trigger] q[i]] <= depth[#[trigger] q[j]] && depth[q[j]]
            <= depth[q[i]] + 1
}

/// Dropping the last coordinate of a route yields a route to the cell
/// before it.
proof fn lemma_path_prefix(lab: Labyrinth, from: Vec2, c: Vec2, p: Seq<Vec2>)
    requires
        lab.path_connects(from, c, p),
        p.len() >= 2,
    ensures
        lab.path_connects(from, p[p.len() - 2], p.take(p.len() - 1)),
{
    let p2 = p.take(p.len() - 1);
    assert(p2[0] == p[0]);
    assert(p2[p2.len() - 1] == p[p.len() - 2]);
    assert forall|i: int| 0 <= i < p2.len() - 1 implies lab.adjacent_step(
        #[trigger] p2[i],
        p2[i + 1],
    ) by {
        assert(p2[i] == p[i] && p2[i + 1] == p[i + 1]);
        assert(lab.adjacent_step(p[i], p[i + 1]));
    }
}

/// While the search is expanding the queue's head, every route out of the
/// start that reaches a still-unvisited cell is strictly longer than the
/// head's move count: shorter routes were all swallowed by earlier layers.
proof fn lemma_unvisited_floor(
    lab: Labyrinth,
    from: Vec2,
    prev: Seq<Vec<Option<Vec2>>>,
    depth: Map<Vec2, nat>,
    q: Seq<Vec2>,
    cur: Vec2,
    u: Vec2,
    p: Seq<Vec2>,
)
    requires
        lab.wf(),
        lab.sealed(),
        lab.in_bounds(from),
        visited(prev, from),
        depth[from] == 0,
        lower_ok(lab, from, prev, depth),
        forall|c: Vec2|
            #![trigger visited(prev, c)]
            lab.in_bounds(c) && visited(prev, c) && !q.contains(c) && c != cur ==> expanded(
                lab,
                prev,
                c,
            ),
        forall|i: int| 0 <= i < q.len() ==> depth[#[trigger] q[i]] >= depth[cur],
        lab.in_bounds(cur),
        visited(prev, cur),
        lab.in_bounds(u),
        !visited(prev, u),
        lab.path_connects(from, u, p),
    ensures
        p.len() >= depth[cur] + 1,
    decreases p.len(),
{
    reveal(lower_ok);
    let n = p.len() as int;
    if n == 1 {
        // One move from the start: the start is visited, so it is either
        // the head itself, still queued, or fully expanded.
        if from == cur {
            assert(p.len() >= depth[cur] + 1);
        } else if q.contains(from) {
            let i = choose|i: int| 0 <= i < q.len() && q[i] == from;
            assert(depth[from] >= depth[cur]);
            assert(p.len() >= depth[cur] + 1);
        } else {
            assert(expanded(lab, prev, from));
            let d = choose|d: Direction|
                #![trigger lab.open_from(from, d)]
                lab.open_from(from, d) && spec_step_fits(from, d) && p[0] == spec_step(from, d);
            assert(visited(prev, spec_step(from, d))) by {
                reveal(expanded);
            }
            assert(false);
        }
    } else {
        let m = p[n - 2];
        lemma_path_prefix(lab, from, u, p);
        let pm = p.take(n - 1);
        assert(lab.adjacent_step(p[n - 2], p[n - 1]));
        assert(lab.in_bounds(m));
        if visited(prev, m) {
            if m == cur {
                assert(pm.len() >= depth[cur]);
            } else if q.contains(m) {
                let i = choose|i: int| 0 <= i < q.len() && q[i] == m;
                assert(depth[m] >= depth[cur]);
                assert(pm.len() >= depth[m]);
            } else {
                assert(expanded(lab, prev, m));
                let a = m;
                let d = choose|d: Direction|
                    #![trigger lab.open_from(a, d)]
                    lab.open_from(a, d) && spec_step_fits(a, d) && p[n - 1] == spec_step(a, d);
                assert(visited(prev, spec_step(a, d))) by {
                    reveal(expanded);
                }
                assert(false);
            }
        } else {
            lemma_unvisited_floor(lab, from, prev, depth, q, cur, m, pm);
        }
    }
}

/// Expansion survives further visits: marking more cells cannot unmark a
/// neighbour.
proof fn lemma_expanded_monotone(
    lab: Labyrinth,
    prev0: Seq<Vec<Option<Vec2>>>,
    prev1: Seq<Vec<Option<Vec2>>>,
    c: Vec2,
)
    requires
        lab.wf(),
        lab.sealed(),
        lab.in_bounds(c),
        forall|c2: Vec2|
            #![trigger visited(prev1, c2)]
            lab.in_bounds(c2) && visited(prev0, c2) ==> visited(prev1, c2),
        expanded(lab, prev0, c),
    ensures
        expanded(lab, prev1, c),
{
    reveal(expanded);
    assert forall|d: Direction|
        lab.open_from(c, d) && spec_step_fits(c, d) implies visited(
        prev1,
        spec_step(c, d),
    ) by {
        lemma_sealed_step(lab, c, d);
        assert(visited(prev0, spec_step(c, d)));
    }
}

/// Popping the wavefront's head: the rest keeps its order, stays within one
/// move of the head, and loses no other coordinate.
proof fn lemma_queue_after_head(q0: Seq<Vec2>, q1: Seq<Vec2>, depth: Map<Vec2, nat>)
    requires
        q0.len() > 0,
        q1 == q0.remove(0),
        queue_sorted(q0, depth),
    ensures
        queue_sorted(q1, depth),
        forall|i: int|
            0 <= i < q1.len() ==> depth[q0[0]] <= depth[#[trigger] q1[i]] && depth[q1[i]]
                <= depth[q0[0]] + 1,
        forall|c: Vec2| q0.contains(c) ==> q1.contains(c) || c == q0[0],
{
    reveal(queue_sorted);
    lemma_queue_pop_keeps(q0, q1);
    assert forall|i: int|
        0 <= i < q1.len() implies depth[q0[0]] <= depth[#[trigger] q1[i]] && depth[q1[i]] <= depth[
        q0[0]] + 1 by {
        assert(q1[i] == q0[i + 1]);
    }
    assert forall|i: int, j: int|
        0 <= i <= j < q1.len() implies depth[#[trigger] q1[i]] <= depth[#[trigger] q1[j]] && depth[
        q1[j]] <= depth[q1[i]] + 1 by {
        assert(q1[i] == q0[i + 1] && q1[j] == q0[j + 1]);
    }
}

/// Removing the front of the queue loses no other coordinate.
proof fn lemma_queue_pop_keeps(q0: Seq<Vec2>, q1: Seq<Vec2>)
    requires
        q0.len() > 0,
        q1 == q0.remove(0),
    ensures
        forall|c: Vec2| q0.contains(c) ==> q1.contains(c) || c == q0[0],
{
    assert forall|c: Vec2| q0.contains(c) implies q1.contains(c) || c == q0[0] by {
        let i = choose|i: int| 0 <= i < q0.len() && q0[i] == c;
        if i > 0 {
            assert(q1[i - 1] == c);
        }
    }
}

/// Every queued coordinate lies in the grid and is already visited.
pub open spec fn queue_ok(lab: Labyrinth, prev: Seq<Vec<Option<Vec2>>>, q: Seq<Vec2>) -> bool {
    forall|i: int|
        0 <= i < q.len() ==> lab.in_bounds(#[trigger] q[i]) && visited(prev, q[i])
}

/// Every entry `(priority, walked, coordinate)` of the priority queue names
/// a visited in-grid cell, and its walked distance never exceeds the number
/// of cells visited so far.
pub open spec fn pq_ok(
    lab: Labyrinth,
    prev: Seq<Vec<Option<Vec2>>>,
    q: Seq<(usize, usize, Vec2)>,
) -> bool {
    forall|i: int|
        0 <= i < q.len() ==> {
            &&& lab.in_bounds((#[trigger] q[i]).2)
            &&& visited(prev, q[i].2)
            &&& q[i].1 + grid_none_count(prev) <= lab.size.x * lab.size.y
        }
}

/// `a` leaves the priority queue strictly before `b`: smaller estimate
/// first; ties fall to the larger walked distance, then the larger
/// coordinate (column before row) — the order a max-heap over
/// `(reversed estimate, walked, coordinate)` would yield.
pub open spec fn heap_before(a: (usize, usize, Vec2), b: (usize, usize, Vec2)) -> bool {
    ||| a.0 < b.0
    ||| (a.0 == b.0 && a.1 > b.1)
    ||| (a.0 == b.0 && a.1 == b.1 && a.2.x > b.2.x)
    ||| (a.0 == b.0 && a.1 == b.1 && a.2.x == b.2.x && a.2.y > b.2.y)
}

/// Removes and returns the front of the priority queue: an entry no other
/// entry would leave before. Returns `None` on an empty queue.
fn pq_pop(q: &mut Vec<(usize, usize, Vec2)>) -> (r: Option<(usize, usize, Vec2)>)
    ensures
        old(q)@.len() == 0 ==> r is None && final(q)@ == old(q)@,
        old(q)@.len() > 0 ==> {
            &&& r is Some
            &&& exists|i: int|
                0 <= i < old(q)@.len() && r->0 == old(q)@[i] && final(q)@ == old(q)@.remove(i)
            &&& forall|j: int| 0 <= j < old(q)@.len() ==> !heap_before(#[trigger] old(q)@[j], r->0)
            &&& forall|c: Vec2| pq_has(old(q)@, c) ==> pq_has(final(q)@, c) || (r->0).2 == c
        },
{
    if q.len() == 0 {
        return None;
    }
    let mut best: usize = 0;
    let mut i: usize = 1;
    while i < q.len()
        invariant
            q@.len() > 0,
            i <= q@.len(),
            best < i,
            forall|j: int| 0 <= j < i ==> !heap_before(#[trigger] q@[j], q@[best as int]),
        decreases q@.len() - i,
    {
        let a = q[i];
        let b = q[best];
        let a_first = if a.0 < b.0 {
            true
        } else if a.0 == b.0 && a.1 > b.1 {
            true
        } else if a.0 == b.0 && a.1 == b.1 && a.2.x > b.2.x {
            true
        } else {
            a.0 == b.0 && a.1 == b.1 && a.2.x == b.2.x && a.2.y > b.2.y
        };
        if a_first {
            proof {
                assert forall|j: int| 0 <= j <= i implies !heap_before(q@[j], q@[i as int]) by {
                    if j < i {
                        assert(!heap_before(q@[j], q@[best as int]));
                    }
                }
            }
            best = i;
        }
        i += 1;
    }
    let ghost q0 = q@;
    let e = q.remove(best);
    proof {
        assert forall|c: Vec2| pq_has(q0, c) implies pq_has(q@, c) || e.2 == c by {
            let j = choose|j: int| 0 <= j < q0.len() && (#[trigger] q0[j]).2 == c;
            if j < best as int {
                assert(q@[j].2 == c);
            } else if j > best as int {
                assert(q@[j - 1].2 == c);
            }
        }
    }
    Some(e)
}

/// What one pop leaves behind: the popped entry was sound, and the rest of
/// the queue stays sound.
proof fn lemma_pq_after_pop(
    lab: Labyrinth,
    prev: Seq<Vec<Option<Vec2>>>,
    q0: Seq<(usize, usize, Vec2)>,
    q1: Seq<(usize, usize, Vec2)>,
    e: (usize, usize, Vec2),
)
    requires
        pq_ok(lab, prev, q0),
        exists|i: int| 0 <= i < q0.len() && e == q0[i] && q1 == q0.remove(i),
    ensures
        pq_ok(lab, prev, q1),
        lab.in_bounds(e.2),
        visited(prev, e.2),
        e.1 + grid_none_count(prev) <= lab.size.x * lab.size.y,
{
    let i = choose|i: int| 0 <= i < q0.len() && e == q0[i] && q1 == q0.remove(i);
    lemma_pq_remove_keeps(lab, prev, q0, q1, i);
}

/// Removing one entry keeps every remaining priority-queue entry sound.
proof fn lemma_pq_remove_keeps(
    lab: Labyrinth,
    prev: Seq<Vec<Option<Vec2>>>,
    q0: Seq<(usize, usize, Vec2)>,
    q1: Seq<(usize, usize, Vec2)>,
    i: int,
)
    requires
        pq_ok(lab, prev, q0),
        0 <= i < q0.len(),
        q1 == q0.remove(i),
    ensures
        pq_ok(lab, prev, q1),
{
    assert forall|j: int| 0 <= j < q1.len() implies {
        &&& lab.in_bounds((#[trigger] q1[j]).2)
        &&& visited(prev, q1[j].2)
        &&& q1[j].1 + grid_none_count(prev) <= lab.size.x * lab.size.y
    } by {
        if j < i {
            assert(q1[j] == q0[j]);
        } else {
            assert(q1[j] == q0[j + 1]);
        }
    }
}

/// Every rank the witness has issued stays below the next free one.
pub open spec fn rank_bounded(
    lab: Labyrinth,
    prev: Seq<Vec<Option<Vec2>>>,
    rank: Map<Vec2, nat>,
    next_rank: nat,
) -> bool {
    forall|c: Vec2|
        #![trigger rank.dom().contains(c)]
        #![trigger visited(prev, c)]
        lab.in_bounds(c) && visited(prev, c) ==> rank[c] < next_rank
}

/// A step out of a sealed grid through an open edge can neither leave the
/// coordinate space nor the grid.
pub proof fn lemma_sealed_step(lab: Labyrinth, c: Vec2, d: Direction)
    requires
        lab.wf(),
        lab.sealed(),
        lab.in_bounds(c),
        lab.open_from(c, d),
    ensures
        spec_step_fits(c, d),
        lab.in_bounds(spec_step(c, d)),
        lab.adjacent_step(c, spec_step(c, d)),
{
    assert(lab.in_bounds(c));
    match d {
        Direction::Top => {
            assert(c.y != 0);
        },
        Direction::Left => {
            assert(c.x != 0);
        },
        Direction::Bottom => {
            assert(c.y != lab.size.y - 1);
        },
        Direction::Right => {
            assert(c.x != lab.size.x - 1);
        },
    }
}

/// The per-search predecessor map: one entry per cell, `None` while the cell
/// is unvisited, else the coordinate the cell was first reached from (the
/// start holds itself).
///
/// Whether the cell at `c` has been visited.
pub open spec fn visited(prev: Seq<Vec<Option<Vec2>>>, c: Vec2) -> bool {
    prev[c.y as int]@[c.x as int] is Some
}

/// The recorded predecessor of the cell at `c`.
pub open spec fn parent_of(prev: Seq<Vec<Option<Vec2>>>, c: Vec2) -> Vec2 {
    prev[c.y as int]@[c.x as int]->0
}

/// The predecessor map has one row per grid row and one slot per cell.
pub open spec fn prev_dims(lab: Labyrinth, prev: Seq<Vec<Option<Vec2>>>) -> bool {
    &&& prev.len() == lab.size.y
    &&& forall|y: int| 0 <= y < lab.size.y ==> (#[trigger] prev[y])@.len() == lab.size.x
}

/// The predecessor map is sound: the start is visited and is its own
/// predecessor, and every other visited cell was reached by one passable
/// move from a visited predecessor.
pub open spec fn prev_ok(lab: Labyrinth, from: Vec2, prev: Seq<Vec<Option<Vec2>>>) -> bool {
    &&& prev_dims(lab, prev)
    &&& lab.in_bounds(from)
    &&& visited(prev, from)
    &&& parent_of(prev, from) == from
    &&& forall|c: Vec2|
        #![trigger visited(prev, c)]
        lab.in_bounds(c) && visited(prev, c) && c != from ==> {
            &&& lab.in_bounds(parent_of(prev, c))
            &&& visited(prev, parent_of(prev, c))
            &&& lab.adjacent_step(parent_of(prev, c), c)
        }
}

/// A witness that the predecessor map is acyclic: ranks strictly decrease
/// from a visited cell to its predecessor, so the backlink walk terminates.
pub open spec fn rank_ok(
    lab: Labyrinth,
    from: Vec2,
    prev: Seq<Vec<Option<Vec2>>>,
    rank: Map<Vec2, nat>,
) -> bool {
    forall|c: Vec2|
        #![trigger rank.dom().contains(c)]
        #![trigger visited(prev, c)]
        lab.in_bounds(c) && visited(prev, c) ==> {
            &&& rank.dom().contains(c)
            &&& (c != from ==> rank[parent_of(prev, c)] < rank[c])
        }
}

/// How many cells the map still holds unvisited, in one row.
pub open spec fn row_none_count(row: Seq<Option<Vec2>>) -> nat
    decreases row.len(),
{
    if row.len() == 0 {
        0
    } else {
        row_none_count(row.drop_last()) + if row.last() is None {
            1nat
        } else {
            0nat
        }
    }
}

/// How many cells the map still holds unvisited, over all rows.
pub open spec fn grid_none_count(g: Seq<Vec<Option<Vec2>>>) -> nat
    decreases g.len(),
{
    if g.len() == 0 {
        0
    } else {
        grid_none_count(g.drop_last()) + row_none_count(g.last()@)
    }
}

/// Marking one unvisited slot visited lowers the row's unvisited count by
/// one.
proof fn lemma_row_none_count_update(row: Seq<Option<Vec2>>, x: int, v: Vec2)
    requires
        0 <= x < row.len(),
        row[x] is None,
    ensures
        row_none_count(row.update(x, Some(v))) + 1 == row_none_count(row),
    decreases row.len(),
{
    let row2 = row.update(x, Some(v));
    if x == row.len() - 1 {
        assert(row2.drop_last() =~= row.drop_last());
        assert(row2.last() == Some(v));
    } else {
        assert(row2.drop_last() =~= row.drop_last().update(x, Some(v)));
        assert(row2.last() == row.last());
        lemma_row_none_count_update(row.drop_last(), x, v);
    }
}

/// Marking one unvisited slot visited lowers the grid's unvisited count by
/// one.
proof fn lemma_grid_none_count_update(g: Seq<Vec<Option<Vec2>>>, row2: Vec<Option<Vec2>>, y: int, x: int, v: Vec2)
    requires
        0 <= y < g.len(),
        0 <= x < g[y]@.len(),
        g[y]@[x] is None,
        row2@ == g[y]@.update(x, Some(v)),
    ensures
        grid_none_count(g.update(y, row2)) + 1 == grid_none_count(g),
    decreases g.len(),
{
    let g2 = g.update(y, row2);
    if y == g.len() - 1 {
        assert(g2.drop_last() =~= g.drop_last());
        assert(g2.last() == row2);
        lemma_row_none_count_update(g[y]@, x, v);
    } else {
        assert(g2.drop_last() =~= g.drop_last().update(y, row2));
        assert(g2.last() == g.last());
        lemma_grid_none_count_update(g.drop_last(), row2, y, x, v);
    }
}

/// A row holds no more unvisited slots than it has slots.
proof fn lemma_row_none_count_le(row: Seq<Option<Vec2>>)
    ensures
        row_none_count(row) <= row.len(),
    decreases row.len(),
{
    if row.len() > 0 {
        lemma_row_none_count_le(row.drop_last());
    }
}

/// A map of `len × w` slots holds at most `len × w` unvisited ones.
proof fn lemma_grid_none_count_le(g: Seq<Vec<Option<Vec2>>>, w: int)
    requires
        w >= 0,
        forall|y: int| 0 <= y < g.len() ==> (#[trigger] g[y])@.len() == w,
    ensures
        grid_none_count(g) <= g.len() * w,
    decreases g.len(),
{
    if g.len() > 0 {
        lemma_grid_none_count_le(g.drop_last(), w);
        lemma_row_none_count_le(g.last()@);
        assert(g.len() * w == (g.len() - 1) * w + w) by (nonlinear_arith);
    }
}

/// A fresh all-unvisited predecessor map for a `w × h` grid.
fn make_prev(w: usize, h: usize) -> (r: Vec<Vec<Option<Vec2>>>)
    ensures
        r@.len() == h,
        forall|y: int| 0 <= y < h ==> (#[trigger] r@[y])@.len() == w,
        forall|y: int, x: int| 0 <= y < h && 0 <= x < w ==> (#[trigger] r@[y]@[x]) is None,
{
    let mut r: Vec<Vec<Option<Vec2>>> = Vec::new();
    let mut y: usize = 0;
    while y < h
        invariant
            y <= h,
            r@.len() == y,
            forall|j: int| 0 <= j < y ==> (#[trigger] r@[j])@.len() == w,
            forall|j: int, x: int| 0 <= j < y && 0 <= x < w ==> (#[trigger] r@[j]@[x]) is None,
        decreases h - y,
    {
        let mut row: Vec<Option<Vec2>> = Vec::new();
        let mut x: usize = 0;
        while x < w
            invariant
                x <= w,
                row@.len() == x,
                forall|i: int| 0 <= i < x ==> (#[trigger] row@[i]) is None,
            decreases w - x,
        {
            row.push(None);
            x += 1;
        }
        r.push(row);
        y += 1;
    }
    r
}

/// Walks the predecessor map backward from `to` until it meets `from`,
/// then reverses the collected coordinates into start-to-goal order.
/// The rank witness proves the walk terminates: a cycle in the map would
/// contradict the strictly decreasing ranks.
pub fn reconstruct_path(
    lab: &Labyrinth,
    prev: &Vec<Vec<Option<Vec2>>>,
    from: Vec2,
    to: Vec2,
    rank: Ghost<Map<Vec2, nat>>,
    depth: Ghost<Map<Vec2, nat>>,
) -> (r: Vec<Vec2>)
    requires
        lab.wf(),
        prev_ok(*lab, from, prev@),
        rank_ok(*lab, from, prev@, rank@),
        lab.in_bounds(to),
        visited(prev@, to),
    ensures
        to == from ==> r@.len() == 0,
        to != from ==> lab.path_connects(from, to, r@),
        !r@.contains(from),
        depth_ok(*lab, from, prev@, depth@) ==> r@.len() == depth@[to],
{
    let mut rev: Vec<Vec2> = Vec::new();
    let mut current: Vec2 = to;
    while current != from
        invariant
            lab.wf(),
            prev_ok(*lab, from, prev@),
            rank_ok(*lab, from, prev@, rank@),
            lab.in_bounds(current),
            visited(prev@, current),
            rev@.len() == 0 ==> current == to,
            rev@.len() > 0 ==> rev@[0] == to,
            forall|i: int| 0 <= i < rev@.len() ==> #[trigger] rev@[i] != from,
            rev@.len() > 0 ==> lab.adjacent_step(current, rev@[rev@.len() - 1]),
            depth_ok(*lab, from, prev@, depth@) ==> rev@.len() + depth@[current] == depth@[to],
            forall|i: int|
                0 <= i < rev@.len() - 1 ==> lab.adjacent_step(#[trigger] rev@[i + 1], rev@[i]),
        decreases rank@[current],
    {
        rev.push(current);
        let p = prev[current.y][current.x].unwrap();
        proof {
            assert(visited(prev@, current) && current != from);
            assert(p == parent_of(prev@, current));
            assert(rank@[p] < rank@[current]);
            if depth_ok(*lab, from, prev@, depth@) {
                assert(depth@[current] == depth@[p] + 1) by {
                    reveal(depth_ok);
                }
            }
        }
        current = p;
    }
    let n = rev.len();
    let mut path: Vec<Vec2> = Vec::new();
    let mut k: usize = 0;
    while k < n
        invariant
            n == rev@.len(),
            k <= n,
            path@.len() == k,
            forall|i: int| 0 <= i < k ==> #[trigger] path@[i] == rev@[n - 1 - i],
        decreases n - k,
    {
        path.push(rev[n - 1 - k]);
        k += 1;
    }
    proof {
        if depth_ok(*lab, from, prev@, depth@) {
            assert(depth@[from] == 0) by {
                reveal(depth_ok);
            }
        }
        if path@.contains(from) {
            let i = choose|i: int| 0 <= i < path@.len() && path@[i] == from;
            assert(rev@[n - 1 - i] != from);
            assert(false);
        }
        if to != from {
            assert(rev@.len() > 0);
            assert(path@[0] == rev@[n - 1]);
            assert(lab.adjacent_step(from, path@[0]));
            assert(path@[path@.len() - 1] == rev@[0]);
            assert forall|i: int| 0 <= i < path@.len() - 1 implies lab.adjacent_step(
                #[trigger] path@[i],
                path@[i + 1],
            ) by {
                let j = n - 2 - i;
                assert(path@[i] == rev@[j + 1]);
                assert(path@[i + 1] == rev@[j]);
                assert(lab.adjacent_step(rev@[j + 1], rev@[j]));
            }
        }
    }
    path
}

} // verus!
