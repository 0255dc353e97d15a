//! A small standalone grid model addressed by signed row/column positions,
//! with links kept as a set of directed id pairs. Rows grow northward:
//! north of a position is the next row up.

use vstd::prelude::*;

verus! {

/// A row/column address; it may lie outside the grid.
#[derive(Clone, Copy, Debug, PartialEq, Eq, Structural)]
pub struct Position {
    pub row: i8,
    pub column: i8,
}

impl Position {
    pub fn new(row: i8, column: i8) -> (r: Position)
        ensures
            r.row == row && r.column == column,
    {
        Position { row, column }
    }
}

/// A grid cell: a numeric id and the position it sits at.
#[derive(Clone, Copy, Debug, PartialEq, Eq, Structural)]
pub struct Cell {
    pub id: i16,
    pub position: Position,
}

impl Cell {
    pub fn new(id: i16, position: Position) -> (r: Cell)
        ensures
            r.id == id && r.position == position,
    {
        Cell { id, position }
    }

    pub fn id(&self) -> (r: i16)
        ensures
            r == self.id,
    {
        self.id
    }

    pub fn position(&self) -> (r: Position)
        ensures
            r == self.position,
    {
        self.position
    }
}

/// A direction over positions; north is one row up.
#[allow(non_camel_case_types)]
#[derive(Clone, Copy, Debug, PartialEq, Eq, Structural)]
pub enum Direction {
    NORTH,
    SOUTH,
    EAST,
    WEST,
}

impl Direction {
    /// All four directions.
    pub fn variants() -> (r: [Direction; 4])
        ensures
            r@ =~= seq![Direction::NORTH, Direction::SOUTH, Direction::EAST, Direction::WEST],
    {
        [Direction::NORTH, Direction::SOUTH, Direction::EAST, Direction::WEST]
    }
}

/// Where a position moves to, as unbounded integers.
pub open spec fn moved_to(p: Position, d: Direction) -> (int, int) {
    match d {
        Direction::NORTH => (p.row + 1, p.column as int),
        Direction::SOUTH => (p.row - 1, p.column as int),
        Direction::EAST => (p.row as int, p.column + 1),
        Direction::WEST => (p.row as int, p.column - 1),
    }
}

/// The grid: `rows * columns` cells in row-major order with sequential
/// ids, plus the set of directed links between cell ids.
pub struct Grid {
    pub rows: i8,
    pub columns: i8,
    pub cells: Vec<Cell>,
    pub links: Vec<(i16, i16)>,
}

impl Grid {
    /// The cells mirror the dimensions: row-major, sequential ids.
    pub open spec fn wf(self) -> bool {
        &&& 0 <= self.rows
        &&& 0 <= self.columns
        &&& self.cells@.len() == self.rows * self.columns
        &&& forall|k: int| 0 <= k < self.cells@.len() ==> (#[trigger] self.cells@[k]) == (Cell {
            id: k as i16,
            position: Position {
                row: (k / (self.columns as int)) as i8,
                column: (k % (self.columns as int)) as i8,
            },
        })
    }

    pub open spec fn spec_valid(self, p: Position) -> bool {
        0 <= p.row < self.rows && 0 <= p.column < self.columns
    }

    /// A grid of `rows * columns` cells and no links. Dimensions that are
    /// not positive yield an empty grid.
    pub fn new(rows: i8, columns: i8) -> (r: Grid)
        requires
            0 <= rows,
            0 <= columns,
        ensures
            r.wf(),
            r.rows == rows,
            r.columns == columns,
            r.links@.len() == 0,
            r.cells@.len() == rows * columns,
    {
        let mut cells: Vec<Cell> = Vec::new();
        let mut rr: i8 = 0;
        proof {
            assert(rows * columns >= 0) by (nonlinear_arith)
                requires 0 <= rows && 0 <= columns,
            {}
        }
        while rr < rows
            invariant
                0 <= rr <= rows,
                0 <= columns,
                rows <= 127,
                columns <= 127,
                cells@.len() == rr * columns,
                forall|k: int| 0 <= k < cells@.len() ==> (#[trigger] cells@[k]) == (Cell {
                    id: k as i16,
                    position: Position {
                        row: (k / (columns as int)) as i8,
                        column: (k % (columns as int)) as i8,
                    },
                }),
            decreases rows - rr,
        {
            let mut cc: i8 = 0;
            while cc < columns
                invariant
                    0 <= rr < rows,
                    0 <= cc <= columns,
                    rows <= 127,
                    columns <= 127,
                    cells@.len() == rr * columns + cc,
                    forall|k: int| 0 <= k < cells@.len() ==> (#[trigger] cells@[k]) == (Cell {
                        id: k as i16,
                        position: Position {
                            row: (k / (columns as int)) as i8,
                            column: (k % (columns as int)) as i8,
                        },
                    }),
                decreases columns - cc,
            {
                proof {
                    assert(0 <= rr * columns + cc < 127 * 127) by (nonlinear_arith)
                        requires 0 <= rr < 127 && 0 <= cc < columns <= 127,
                    {}
                }
                let id: i16 = (rr as i16) * (columns as i16) + (cc as i16);
                proof {
                    assert(id == cells@.len());
                    vstd::arithmetic::div_mod::lemma_fundamental_div_mod_converse(
                        rr * (columns as int) + cc,
                        columns as int,
                        rr as int,
                        cc as int,
                    );
                }
                cells.push(Cell { id, position: Position { row: rr, column: cc } });
                cc = cc + 1;
            }
            proof {
                assert((rr + 1) * columns == rr * columns + columns) by (nonlinear_arith);
            }
            rr = rr + 1;
        }
        Grid { rows, columns, cells, links: Vec::new() }
    }

    pub fn cells(&self) -> (r: &[Cell])
        ensures
            r@ == self.cells@,
    {
        self.cells.as_slice()
    }

    /// Whether a position lies inside the grid.
    pub fn is_valid(&self, position: Position) -> (r: bool)
        ensures
            r == self.spec_valid(position),
    {
        let row_valid = position.row >= 0 && position.row < self.rows;
        let column_valid = position.column >= 0 && position.column < self.columns;
        row_valid && column_valid
    }

    /// The position one step in `direction`, if it stays inside the grid.
    fn move_pos(&self, position: Position, direction: Direction) -> (r: Option<Position>)
        ensures
            match r {
                Some(p) => (p.row as int, p.column as int) == moved_to(position, direction)
                    && self.spec_valid(p),
                None => {
                    let (mr, mc) = moved_to(position, direction);
                    !(0 <= mr < self.rows && 0 <= mc < self.columns)
                },
            },
    {
        let row16: i16 = position.row as i16;
        let col16: i16 = position.column as i16;
        let (nr, nc): (i16, i16) = match direction {
            Direction::NORTH => (row16 + 1, col16),
            Direction::SOUTH => (row16 - 1, col16),
            Direction::EAST => (row16, col16 + 1),
            Direction::WEST => (row16, col16 - 1),
        };
        if 0 <= nr && nr < self.rows as i16 && 0 <= nc && nc < self.columns as i16 {
            Some(Position { row: nr as i8, column: nc as i8 })
        } else {
            None
        }
    }

    /// The neighboring cell one step in `direction` from `cell`'s
    /// position, if that position is inside the grid.
    pub fn neighbor(&self, cell: &Cell, direction: Direction) -> (r: Option<Cell>)
        requires
            self.wf(),
        ensures
            match r {
                Some(c2) => {
                    let (mr, mc) = moved_to(cell.position, direction);
                    &&& 0 <= mr < self.rows
                    &&& 0 <= mc < self.columns
                    &&& c2 == self.cells@[mr * self.columns + mc]
                },
                None => {
                    let (mr, mc) = moved_to(cell.position, direction);
                    !(0 <= mr < self.rows && 0 <= mc < self.columns)
                },
            },
    {
        match self.move_pos(cell.position, direction) {
            Some(p) => {
                proof {
                    assert(0 <= p.row * self.columns + p.column < self.rows * self.columns
                        && p.row * self.columns + p.column < 127 * 127) by (nonlinear_arith)
                        requires
                            0 <= p.row < self.rows <= 127,
                            0 <= p.column < self.columns <= 127,
                    {}
                }
                let index: i16 = (p.row as i16) * (self.columns as i16) + (p.column as i16);
                Some(self.cells[index as usize])
            }
            None => None,
        }
    }

    /// Replace the link set wholesale.
    pub fn set_links(&mut self, links: Vec<(i16, i16)>)
        ensures
            final(self).links == links,
            final(self).rows == old(self).rows,
            final(self).columns == old(self).columns,
            final(self).cells == old(self).cells,
    {
        self.links = links;
    }

    /// Whether the passage from `cell` towards `direction` is open: the
    /// neighbor must exist and the pair of ids must be in the link set.
    pub fn is_linked(&self, cell: &Cell, direction: Direction) -> (r: bool)
        requires
            self.wf(),
        ensures
            r == {
                let (mr, mc) = moved_to(cell.position, direction);
                &&& 0 <= mr < self.rows
                &&& 0 <= mc < self.columns
                &&& self.links@.contains((cell.id, self.cells@[mr * self.columns + mc].id))
            },
    {
        match self.neighbor(cell, direction) {
            Some(n) => contains_pair(&self.links, (cell.id(), n.id())),
            None => false,
        }
    }
}

/// Linear membership scan over the link pairs.
fn contains_pair(v: &Vec<(i16, i16)>, x: (i16, i16)) -> (r: bool)
    ensures
        r == v@.contains(x),
{
    let mut i: usize = 0;
    while i < v.len()
        invariant
            i <= v@.len(),
            forall|j: int| 0 <= j < i ==> v@[j] != x,
        decreases v@.len() - i,
    {
        let (a, b) = v[i];
        if a == x.0 && b == x.1 {
            proof {
                assert(v@[i as int] == x);
            }
            return true;
        }
        i = i + 1;
    }
    proof {
        if v@.contains(x) {
            let j = choose|j: int| 0 <= j < v@.len() && v@[j] == x;
            assert(v@[j] != x);
        }
    }
    false
}

/// Cell `k` has a row above it inside the grid.
pub open spec fn north_ok(g: Grid, k: int) -> bool {
    g.columns > 0 && k / (g.columns as int) + 1 < g.rows
}

/// Cell `k` has a column to its right inside the grid.
pub open spec fn east_ok(g: Grid, k: int) -> bool {
    g.columns > 0 && k % (g.columns as int) + 1 < g.columns
}

/// What the row-major layout makes of cell `k`: its id, position, and the
/// indices of its north and east neighbors when they exist.
pub proof fn lemma_row_major_ids(g: Grid, k: int)
    requires
        g.wf(),
        0 <= k < g.cells@.len(),
    ensures
        0 < g.columns,
        g.cells@.len() <= 16129,
        g.cells@[k].id == k as i16,
        g.cells@[k].id as int == k,
        g.cells@[k].position.row == k / (g.columns as int),
        g.cells@[k].position.column == k % (g.columns as int),
        0 <= k % (g.columns as int) < g.columns,
        0 <= k / (g.columns as int) < g.rows,
        north_ok(g, k) ==> k + g.columns < g.cells@.len() && (k / (g.columns as int) + 1) * (
        g.columns as int) + k % (g.columns as int) == k + g.columns,
        east_ok(g, k) ==> k + 1 < g.cells@.len() && (k / (g.columns as int)) * (
        g.columns as int) + (k % (g.columns as int) + 1) == k + 1,
{
    let cols = g.columns as int;
    let rows = g.rows as int;
    assert(0 < cols) by (nonlinear_arith)
        requires 0 <= k, k < rows * cols, 0 <= cols,
    {}
    assert(rows * cols <= 16129) by (nonlinear_arith)
        requires 0 <= rows <= 127, 0 <= cols <= 127,
    {}
    vstd::arithmetic::div_mod::lemma_fundamental_div_mod(k, cols);
    let q = k / cols;
    let r = k % cols;
    assert(0 <= r < cols);
    assert(0 <= q < rows) by (nonlinear_arith)
        requires 0 < cols, k == cols * q + r, 0 <= r < cols, 0 <= k, k < rows * cols,
    {}
    if north_ok(g, k) {
        assert((q + 1) * cols + r == k + cols) by (nonlinear_arith)
            requires k == cols * q + r,
        {}
        assert(k + cols < rows * cols) by (nonlinear_arith)
            requires k == cols * q + r, q + 1 < rows, 0 <= r < cols, 0 < cols,
        {}
    }
    if east_ok(g, k) {
        assert(q * cols + (r + 1) == k + 1) by (nonlinear_arith)
            requires k == cols * q + r,
        {}
        assert(k + 1 < rows * cols) by (nonlinear_arith)
            requires k == cols * q + r, r + 1 < cols, 0 <= q < rows, 0 < cols,
    {}
    }
}

/// Every directed link has its mirror image in the set.
pub open spec fn sym_closed(s: Seq<(i16, i16)>) -> bool {
    forall|i: int| 0 <= i < s.len() ==> s.contains(((#[trigger] s[i]).1, s[i].0))
}

/// Pushing two mirrored pairs keeps the set symmetric.
pub proof fn lemma_sym_closed_push2(s: Seq<(i16, i16)>, a: i16, b: i16)
    requires
        sym_closed(s),
    ensures
        sym_closed(s.push((a, b)).push((b, a))),
{
    let s2 = s.push((a, b)).push((b, a));
    assert forall|i: int| 0 <= i < s2.len() implies s2.contains(((#[trigger] s2[i]).1, s2[i].0))
        by {
        if i < s.len() {
            assert(s2[i] == s[i]);
            let j = choose|j: int| 0 <= j < s.len() && s[j] == (s[i].1, s[i].0);
            assert(s2[j] == (s2[i].1, s2[i].0));
        } else if i == s.len() {
            assert(s2[i] == (a, b));
            assert(s2[s.len() as int + 1] == (b, a));
        } else {
            assert(s2[i] == (b, a));
            assert(s2[s.len() as int] == (a, b));
        }
    };
}

} // verus!
