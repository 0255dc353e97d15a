//! The grid/maze model: a rectangular array of cells with symmetric
//! directional links. A link is a passage between two adjacent cells; its
//! absence is a wall. Every mutation goes through `link`/`unlink`, which
//! update both endpoints, so the symmetry invariant `grid_sym` is preserved.

use vstd::prelude::*;

verus! {

/// A direction towards one of the four possible neighbors of a cell.
#[derive(Clone, Copy, Debug, PartialEq, Eq, Structural)]
pub enum Neighbor {
    North,
    South,
    East,
    West,
}

impl Neighbor {
    /// The direction that leads back: North <-> South, East <-> West.
    pub open spec fn opp(self) -> Neighbor {
        match self {
            Neighbor::North => Neighbor::South,
            Neighbor::South => Neighbor::North,
            Neighbor::East => Neighbor::West,
            Neighbor::West => Neighbor::East,
        }
    }

    /// All four directions, in the fixed order North, South, East, West.
    pub fn iter() -> (r: [Neighbor; 4])
        ensures
            r@ =~= seq![Neighbor::North, Neighbor::South, Neighbor::East, Neighbor::West],
    {
        [Neighbor::North, Neighbor::South, Neighbor::East, Neighbor::West]
    }

    pub fn opposite(self) -> (r: Neighbor)
        ensures
            r == self.opp(),
    {
        match self {
            Neighbor::North => Neighbor::South,
            Neighbor::South => Neighbor::North,
            Neighbor::East => Neighbor::West,
            Neighbor::West => Neighbor::East,
        }
    }
}

/// A resolved neighbor: the direction that was followed and the row-major
/// index of the cell it leads to.
#[derive(Clone, Copy, Debug, PartialEq, Eq, Structural)]
pub struct Neighbor1 {
    pub dir: Neighbor,
    pub idx: usize,
}

/// The four link flags of one cell.
#[derive(Clone, Copy, Debug, PartialEq, Eq, Structural)]
pub struct Links {
    pub north: bool,
    pub south: bool,
    pub east: bool,
    pub west: bool,
}

impl Links {
    pub open spec fn spec_get(self, d: Neighbor) -> bool {
        match d {
            Neighbor::North => self.north,
            Neighbor::South => self.south,
            Neighbor::East => self.east,
            Neighbor::West => self.west,
        }
    }

    pub open spec fn spec_set(self, d: Neighbor, b: bool) -> Links {
        match d {
            Neighbor::North => Links { north: b, ..self },
            Neighbor::South => Links { south: b, ..self },
            Neighbor::East => Links { east: b, ..self },
            Neighbor::West => Links { west: b, ..self },
        }
    }

    /// True when no direction is linked.
    pub open spec fn none_set(self) -> bool {
        !self.north && !self.south && !self.east && !self.west
    }

    /// No link in any direction (an unvisited cell, for the generators).
    pub fn is_empty(&self) -> (r: bool)
        ensures
            r == self.none_set(),
    {
        !self.north && !self.south && !self.east && !self.west
    }

    /// At least one link (a visited cell, for the generators).
    pub fn is_partial(&self) -> (r: bool)
        ensures
            r == !self.none_set(),
    {
        self.north || self.south || self.east || self.west
    }
}

impl Default for Links {
    /// All four flags start out unset: a fresh cell is walled in.
    fn default() -> (r: Links)
        ensures
            r.none_set(),
    {
        Links { north: false, south: false, east: false, west: false }
    }
}

/// One grid cell; it only carries its four link flags.
#[derive(Clone, Copy, Debug, PartialEq, Eq, Structural)]
pub struct Cell {
    pub links: Links,
}

impl Cell {
    pub open spec fn has(self, d: Neighbor) -> bool {
        self.links.spec_get(d)
    }

    pub open spec fn with(self, d: Neighbor, b: bool) -> Cell {
        Cell { links: self.links.spec_set(d, b) }
    }

    pub fn links(&self) -> (r: Links)
        ensures
            r == self.links,
    {
        self.links
    }

    pub fn has_link(&self, dir: Neighbor) -> (r: bool)
        ensures
            r == self.has(dir),
    {
        match dir {
            Neighbor::North => self.links.north,
            Neighbor::South => self.links.south,
            Neighbor::East => self.links.east,
            Neighbor::West => self.links.west,
        }
    }

    pub fn link(&mut self, dir: Neighbor)
        ensures
            *final(self) == old(self).with(dir, true),
    {
        match dir {
            Neighbor::North => self.links.north = true,
            Neighbor::South => self.links.south = true,
            Neighbor::East => self.links.east = true,
            Neighbor::West => self.links.west = true,
        }
    }

    pub fn unlink(&mut self, dir: Neighbor)
        ensures
            *final(self) == old(self).with(dir, false),
    {
        match dir {
            Neighbor::North => self.links.north = false,
            Neighbor::South => self.links.south = false,
            Neighbor::East => self.links.east = false,
            Neighbor::West => self.links.west = false,
        }
    }
}

impl Default for Cell {
    fn default() -> (r: Cell)
        ensures
            r.links.none_set(),
    {
        Cell { links: Links { north: false, south: false, east: false, west: false } }
    }
}

/// Neighbor resolution as a pure function of the grid dimensions: `w` is the
/// width, `n` the cell count, `cell` a row-major index. Returns the index of
/// the adjacent cell in direction `d`, or `None` at a boundary.
pub open spec fn nb_at(w: nat, n: nat, cell: int, d: Neighbor) -> Option<int> {
    if w == 0 || !(0 <= cell < n) {
        None
    } else {
        match d {
            Neighbor::North => if cell >= w { Some(cell - w) } else { None },
            Neighbor::South => if cell + w < n { Some(cell + w) } else { None },
            Neighbor::East => if (cell + 1) % (w as int) != 0 { Some(cell + 1) } else { None },
            Neighbor::West => if cell % (w as int) != 0 { Some(cell - 1) } else { None },
        }
    }
}

/// Whether cell `c` of the cell sequence `s` is linked in direction `d`.
pub open spec fn grid_has(s: Seq<Cell>, c: int, d: Neighbor) -> bool {
    0 <= c < s.len() && s[c].has(d)
}

/// `s` with the single flag (`c`, `d`) set to `b`; the identity when `c` is
/// out of range, so the operation is total.
pub open spec fn grid_set(s: Seq<Cell>, c: int, d: Neighbor, b: bool) -> Seq<Cell> {
    if 0 <= c < s.len() {
        s.update(c, s[c].with(d, b))
    } else {
        s
    }
}

/// `s` with the flag (`c`, `d`) and its mirror on the neighbor both set to
/// `b`; the identity when the neighbor does not exist.
pub open spec fn grid_write(s: Seq<Cell>, w: nat, c: int, d: Neighbor, b: bool) -> Seq<Cell> {
    match nb_at(w, s.len(), c, d) {
        Some(m) => grid_set(grid_set(s, c, d, b), m, d.opp(), b),
        None => s,
    }
}

pub open spec fn grid_link(s: Seq<Cell>, w: nat, c: int, d: Neighbor) -> Seq<Cell> {
    grid_write(s, w, c, d, true)
}

pub open spec fn grid_unlink(s: Seq<Cell>, w: nat, c: int, d: Neighbor) -> Seq<Cell> {
    grid_write(s, w, c, d, false)
}

/// The symmetry invariant: a link always has a matching link back from the
/// neighbor it leads to (and so never crosses the boundary).
pub open spec fn grid_sym(s: Seq<Cell>, w: nat) -> bool {
    forall|c: int, d: Neighbor| #[trigger] grid_has(s, c, d) ==> {
        match nb_at(w, s.len(), c, d) {
            Some(m) => grid_has(s, m, d.opp()),
            None => false,
        }
    }
}

/// A fully walled-in grid of `n` cells.
pub open spec fn grid_unlinked(n: nat) -> Seq<Cell> {
    Seq::new(n, |i: int| Cell { links: Links { north: false, south: false, east: false, west: false } })
}

/// Dimensions fit together: the cell count is a whole number of rows.
pub open spec fn dims_ok(w: nat, n: nat) -> bool {
    (w == 0 ==> n == 0) && (w > 0 ==> n % w == 0)
}

/// Resolving a neighbor and resolving back returns to the original cell.
pub proof fn lemma_nb_at_inverse(w: nat, n: nat, c: int, d: Neighbor)
    requires
        dims_ok(w, n),
        0 <= c < n,
    ensures
        match nb_at(w, n, c, d) {
            Some(m) => 0 <= m < n && m != c && nb_at(w, n, m, d.opp()) == Some(c),
            None => true,
        },
{
    assert(w > 0);
    let wi = w as int;
    match d {
        Neighbor::North => {
            if c >= w {
                let m = c - w;
                assert(nb_at(w, n, m, Neighbor::South) == Some(c));
            }
        }
        Neighbor::South => {
            if c + w < n {
                let m = c + w;
                assert(m >= w);
                assert(nb_at(w, n, m, Neighbor::North) == Some(c));
            }
        }
        Neighbor::East => {
            if (c + 1) % wi != 0 {
                let m = c + 1;
                assert(m < n) by {
                    if m == n {
                        assert(n % w == 0);
                        assert(m % wi == 0);
                    }
                };
                assert(m % wi != 0);
                assert(nb_at(w, n, m, Neighbor::West) == Some(c));
            }
        }
        Neighbor::West => {
            if c % wi != 0 {
                let m = c - 1;
                assert(c >= 1) by {
                    if c == 0 {
                        assert(c % wi == 0);
                    }
                };
                assert((m + 1) % wi != 0);
                assert(nb_at(w, n, m, Neighbor::East) == Some(c));
            }
        }
    }
}

/// Reading any flag of `grid_write(s, w, c, d, b)`: the two flags named by
/// the write carry `b`, all others are unchanged.
pub proof fn lemma_grid_write_has(s: Seq<Cell>, w: nat, c: int, d: Neighbor, b: bool)
    requires
        dims_ok(w, s.len()),
        0 <= c < s.len(),
        nb_at(w, s.len(), c, d) is Some,
    ensures
        grid_write(s, w, c, d, b).len() == s.len(),
        forall|x: int, e: Neighbor| #[trigger] grid_has(grid_write(s, w, c, d, b), x, e) == {
            if x == c && e == d {
                b && 0 <= c < s.len()
            } else if Some(x) == nb_at(w, s.len(), c, d) && e == d.opp() {
                b
            } else {
                grid_has(s, x, e)
            }
        },
{
    lemma_nb_at_inverse(w, s.len(), c, d);
}

/// Writing both flags back to the value they already have changes nothing;
/// in particular undoing a link restores the exact previous grid.
#[verifier::rlimit(60)]
pub proof fn lemma_grid_write_undo(s: Seq<Cell>, w: nat, c: int, d: Neighbor, b: bool)
    requires
        dims_ok(w, s.len()),
        0 <= c < s.len(),
        nb_at(w, s.len(), c, d) is Some,
        grid_has(s, c, d) == !b,
        grid_has(s, nb_at(w, s.len(), c, d)->Some_0, d.opp()) == !b,
    ensures
        grid_write(grid_write(s, w, c, d, b), w, c, d, !b) == s,
{
    lemma_nb_at_inverse(w, s.len(), c, d);
    let m = nb_at(w, s.len(), c, d)->Some_0;
    let s1 = grid_write(s, w, c, d, b);
    let s2 = grid_write(s1, w, c, d, !b);
    assert forall|x: int| 0 <= x < s.len() implies s2[x] == s[x] by {
        assert(s2[x].links == s[x].links) by {
            assert(s2[x].links.spec_get(Neighbor::North) == s[x].links.spec_get(Neighbor::North));
            assert(s2[x].links.spec_get(Neighbor::South) == s[x].links.spec_get(Neighbor::South));
            assert(s2[x].links.spec_get(Neighbor::East) == s[x].links.spec_get(Neighbor::East));
            assert(s2[x].links.spec_get(Neighbor::West) == s[x].links.spec_get(Neighbor::West));
        };
    };
    assert(s2 =~= s);
}

/// A symmetric write keeps the grid symmetric.
pub proof fn lemma_grid_write_sym(s: Seq<Cell>, w: nat, c: int, d: Neighbor, b: bool)
    requires
        dims_ok(w, s.len()),
        grid_sym(s, w),
        0 <= c < s.len(),
        nb_at(w, s.len(), c, d) is Some,
    ensures
        grid_sym(grid_write(s, w, c, d, b), w),
{
    lemma_nb_at_inverse(w, s.len(), c, d);
    lemma_grid_write_has(s, w, c, d, b);
    let s2 = grid_write(s, w, c, d, b);
    let m = nb_at(w, s.len(), c, d)->Some_0;
    assert forall|x: int, e: Neighbor| #[trigger] grid_has(s2, x, e) implies {
        match nb_at(w, s2.len(), x, e) {
            Some(y) => grid_has(s2, y, e.opp()),
            None => false,
        }
    } by {
        lemma_nb_at_inverse(w, s.len(), x, e);
        if x == c && e == d {
        } else if x == m && e == d.opp() {
        } else {
            assert(grid_has(s, x, e));
        }
    };
}

/// The empty grid is symmetric (nothing is linked at all).
pub proof fn lemma_grid_unlinked_sym(w: nat, n: nat)
    ensures
        grid_sym(grid_unlinked(n), w),
        forall|c: int, d: Neighbor| !grid_has(grid_unlinked(n), c, d),
{
    assert forall|c: int, d: Neighbor| !grid_has(grid_unlinked(n), c, d) by {
        if 0 <= c < n {
            assert(grid_unlinked(n)[c].links.none_set());
        }
    };
}

/// The symmetry invariant, restated as the two-sided equation: a cell is
/// linked in a direction exactly when the neighbor there exists and is
/// linked back.
pub proof fn lemma_sym_iff(s: Seq<Cell>, w: nat, c: int, d: Neighbor)
    requires
        dims_ok(w, s.len()),
        grid_sym(s, w),
        0 <= c < s.len(),
    ensures
        grid_has(s, c, d) == match nb_at(w, s.len(), c, d) {
            Some(m) => grid_has(s, m, d.opp()),
            None => false,
        },
{
    lemma_nb_at_inverse(w, s.len(), c, d);
    match nb_at(w, s.len(), c, d) {
        Some(m) => {
            if grid_has(s, m, d.opp()) {
                lemma_nb_at_inverse(w, s.len(), m, d.opp());
                assert(d.opp().opp() == d);
            }
        }
        None => {}
    }
}

/// The maze: a row-major sequence of cells, `width` cells to a row.
pub struct Maze {
    pub cells: Vec<Cell>,
    pub width: usize,
}

impl Maze {
    /// Well-formed dimensions: the cells form whole rows.
    pub open spec fn wf(self) -> bool {
        dims_ok(self.width as nat, self.cells@.len())
    }

    /// The symmetry invariant of this maze's links.
    pub open spec fn sym(self) -> bool {
        grid_sym(self.cells@, self.width as nat)
    }

    pub open spec fn spec_len(self) -> nat {
        self.cells@.len()
    }

    pub open spec fn spec_nb(self, cell: int, d: Neighbor) -> Option<int> {
        nb_at(self.width as nat, self.cells@.len(), cell, d)
    }

    pub open spec fn spec_has(self, cell: int, d: Neighbor) -> bool {
        grid_has(self.cells@, cell, d)
    }

    /// A grid of `width * height` cells, all walled in.
    pub fn new(width: usize, height: usize) -> (r: Maze)
        requires
            width * height <= usize::MAX,
        ensures
            r.width == width,
            r.cells@ == grid_unlinked((width * height) as nat),
            r.wf(),
            r.sym(),
            r.spec_len() == width * height,
    {
        let n = width * height;
        let mut cells: Vec<Cell> = Vec::new();
        let mut i: usize = 0;
        while i < n
            invariant
                i <= n,
                cells@.len() == i,
                forall|j: int| 0 <= j < i ==> cells@[j] == (Cell {
                    links: Links { north: false, south: false, east: false, west: false },
                }),
            decreases n - i,
        {
            cells.push(Cell::default());
            i = i + 1;
        }
        proof {
            assert(cells@ =~= grid_unlinked(n as nat));
            assert(dims_ok(width as nat, n as nat)) by (nonlinear_arith)
                requires n == width * height,
            {}
            lemma_grid_unlinked_sym(width as nat, n as nat);
        }
        Maze { cells, width }
    }

    pub fn cell(&self, pos: usize) -> (r: &Cell)
        requires
            pos < self.cells@.len(),
        ensures
            *r == self.cells@[pos as int],
    {
        &self.cells[pos]
    }

    /// The index near the middle of the grid that overlays are drawn from.
    pub fn middle_cell(&self) -> (r: usize)
        ensures
            r == self.cells@.len() / 2 + self.width / 2,
    {
        self.cells.len() / 2 + self.width / 2
    }

    pub fn cells(&self) -> (r: &[Cell])
        ensures
            r@ == self.cells@,
    {
        self.cells.as_slice()
    }

    pub fn len(&self) -> (r: usize)
        ensures
            r == self.spec_len(),
    {
        self.cells.len()
    }

    pub fn width(&self) -> (r: usize)
        ensures
            r == self.width,
    {
        self.width
    }

    /// Number of rows; zero when the grid is empty.
    pub fn height(&self) -> (r: usize)
        requires
            self.wf(),
        ensures
            r == if self.width == 0 { 0int } else { self.cells@.len() as int / self.width as int },
    {
        if self.width == 0 {
            0
        } else {
            self.cells.len() / self.width
        }
    }

    /// The neighbor of `cell` in direction `n`, or `None` at the boundary.
    pub fn neighbor_at(&self, cell: usize, n: Neighbor) -> (r: Option<Neighbor1>)
        requires
            self.wf(),
            cell < self.cells@.len(),
        ensures
            match r {
                Some(n1) => n1.dir == n && self.spec_nb(cell as int, n) == Some(n1.idx as int)
                    && n1.idx < self.cells@.len(),
                None => self.spec_nb(cell as int, n) is None,
            },
    {
        proof {
            assert(self.width > 0);
            lemma_nb_at_inverse(self.width as nat, self.cells@.len(), cell as int, n);
        }
        match n {
            Neighbor::North => {
                if cell < self.width {
                    None
                } else {
                    Some(Neighbor1 { dir: n, idx: cell - self.width })
                }
            }
            Neighbor::South => {
                // guard written subtraction-first so the sum cannot overflow
                if self.cells.len() - cell <= self.width {
                    None
                } else {
                    Some(Neighbor1 { dir: n, idx: cell + self.width })
                }
            }
            Neighbor::East => {
                let count = self.cells.len();
                assert(cell + 1 <= count);
                if (cell + 1) % self.width == 0 {
                    None
                } else {
                    Some(Neighbor1 { dir: n, idx: cell + 1 })
                }
            }
            Neighbor::West => {
                if cell % self.width == 0 {
                    None
                } else {
                    Some(Neighbor1 { dir: n, idx: cell - 1 })
                }
            }
        }
    }

    /// The direction that leads from cell `a` to cell `b`, if they are
    /// adjacent.
    pub fn from_a_to_b(&self, a: usize, b: usize) -> (r: Option<Neighbor>)
        requires
            self.wf(),
            a < self.cells@.len(),
        ensures
            match r {
                Some(d) => self.spec_nb(a as int, d) == Some(b as int),
                None => forall|d: Neighbor| self.spec_nb(a as int, d) != Some(b as int),
            },
    {
        let dirs = Neighbor::iter();
        let mut k: usize = 0;
        while k < 4
            invariant
                k <= 4,
                self.wf(),
                a < self.cells@.len(),
                dirs@ =~= seq![Neighbor::North, Neighbor::South, Neighbor::East, Neighbor::West],
                forall|j: int| 0 <= j < k ==> self.spec_nb(a as int, dirs@[j]) != Some(b as int),
            decreases 4 - k,
        {
            match self.neighbor_at(a, dirs[k]) {
                Some(n1) => {
                    if n1.idx == b {
                        return Some(n1.dir);
                    }
                }
                None => {}
            }
            k = k + 1;
        }
        proof {
            assert forall|d: Neighbor| self.spec_nb(a as int, d) != Some(b as int) by {
                assert(d == dirs@[0] || d == dirs@[1] || d == dirs@[2] || d == dirs@[3]);
            };
        }
        None
    }

    /// Open the passage between `cell` and its neighbor in direction `n`,
    /// setting the flag on both endpoints.
    pub fn link(&mut self, cell: usize, n: Neighbor)
        requires
            old(self).wf(),
            cell < old(self).cells@.len(),
            old(self).spec_nb(cell as int, n) is Some,
        ensures
            final(self).width == old(self).width,
            final(self).cells@ == grid_link(old(self).cells@, old(self).width as nat, cell as int, n),
            final(self).cells@.len() == old(self).cells@.len(),
            final(self).wf(),
    {
        let neighbor = self.neighbor_at(cell, n).unwrap();
        let mut c = self.cells[cell];
        c.link(n);
        self.cells.set(cell, c);
        let mut c2 = self.cells[neighbor.idx];
        c2.link(n.opposite());
        self.cells.set(neighbor.idx, c2);
        proof {
            assert(self.cells@ =~= grid_link(old(self).cells@, old(self).width as nat, cell as int, n));
        }
    }

    /// Close the passage again; the exact inverse of `link`.
    pub fn unlink(&mut self, cell: usize, n: Neighbor)
        requires
            old(self).wf(),
            cell < old(self).cells@.len(),
            old(self).spec_nb(cell as int, n) is Some,
        ensures
            final(self).width == old(self).width,
            final(self).cells@ == grid_unlink(old(self).cells@, old(self).width as nat, cell as int, n),
            final(self).cells@.len() == old(self).cells@.len(),
            final(self).wf(),
    {
        let neighbor = self.neighbor_at(cell, n).unwrap();
        let mut c = self.cells[cell];
        c.unlink(n);
        self.cells.set(cell, c);
        let mut c2 = self.cells[neighbor.idx];
        c2.unlink(n.opposite());
        self.cells.set(neighbor.idx, c2);
        proof {
            assert(self.cells@ =~= grid_unlink(old(self).cells@, old(self).width as nat, cell as int, n));
        }
    }

    /// The neighbors reachable from `cell` through an existing passage.
    pub fn linked_neighbors(&self, cell: usize) -> (r: Vec<Neighbor1>)
        requires
            self.wf(),
            self.sym(),
            cell < self.cells@.len(),
        ensures
            forall|j: int| 0 <= j < r@.len() ==> {
                &&& self.spec_nb(cell as int, #[trigger] r@[j].dir) == Some(r@[j].idx as int)
                &&& self.spec_has(cell as int, r@[j].dir)
                &&& r@[j].idx < self.cells@.len()
            },
            forall|d: Neighbor| self.spec_has(cell as int, d) ==> has_dir(r@, d),
            forall|i: int, j: int|
                0 <= i < j < r@.len() ==> dir_rank(#[trigger] r@[i].dir) < dir_rank(
                    #[trigger] r@[j].dir,
                ),
    {
        let mut out: Vec<Neighbor1> = Vec::new();
        let dirs = Neighbor::iter();
        let mut k: usize = 0;
        while k < 4
            invariant
                k <= 4,
                self.wf(),
                self.sym(),
                cell < self.cells@.len(),
                dirs@ =~= seq![Neighbor::North, Neighbor::South, Neighbor::East, Neighbor::West],
                forall|j: int| 0 <= j < out@.len() ==> {
                    &&& self.spec_nb(cell as int, #[trigger] out@[j].dir) == Some(out@[j].idx as int)
                    &&& self.spec_has(cell as int, out@[j].dir)
                    &&& out@[j].idx < self.cells@.len()
                },
                forall|j: int| 0 <= j < k && self.spec_has(cell as int, dirs@[j])
                    ==> has_dir(out@, #[trigger] dirs@[j]),
                forall|i: int| 0 <= i < out@.len() ==> dir_rank(#[trigger] out@[i].dir) < k,
                forall|i: int, j: int|
                    0 <= i < j < out@.len() ==> dir_rank(#[trigger] out@[i].dir) < dir_rank(
                        #[trigger] out@[j].dir,
                    ),
            decreases 4 - k,
        {
            let d = dirs[k];
            let ghost prev = out@;
            match self.neighbor_at(cell, d) {
                Some(n1) => {
                    if self.cells[cell].has_link(d) && self.cells[n1.idx].has_link(d.opposite()) {
                        out.push(n1);
                        proof {
                            assert(out@[out@.len() - 1].dir == d);
                            assert(dir_rank(d) == k);
                            assert(has_dir(out@, d));
                            assert forall|e: Neighbor| has_dir(prev, e) implies has_dir(out@, e) by {
                                let i = choose|i: int| 0 <= i < prev.len() && prev[i].dir == e;
                                assert(out@[i].dir == e);
                            };
                        }
                    }
                }
                None => {
                    proof {
                        if self.spec_has(cell as int, d) {
                            lemma_sym_iff(self.cells@, self.width as nat, cell as int, d);
                        }
                    }
                }
            }
            k = k + 1;
        }
        proof {
            assert forall|d: Neighbor| self.spec_has(cell as int, d) implies has_dir(out@, d) by {
                assert(d == dirs@[0] || d == dirs@[1] || d == dirs@[2] || d == dirs@[3]);
            };
        }
        out
    }

    /// All raw adjacent cells, linked or not, in the order North, South,
    /// East, West.
    pub fn neighbors(&self, cell: usize) -> (r: Neighbors)
        requires
            self.wf(),
            cell < self.cells@.len(),
        ensures
            r.inner@.len() == 4,
            forall|j: int| 0 <= j < 4 ==> match #[trigger] r.inner@[j] {
                Some(n1) => n1.dir == dir_order(j)
                    && self.spec_nb(cell as int, dir_order(j)) == Some(n1.idx as int)
                    && n1.idx < self.cells@.len(),
                None => self.spec_nb(cell as int, dir_order(j)) is None,
            },
    {
        let r = Neighbors {
            inner: [
                self.neighbor_at(cell, Neighbor::North),
                self.neighbor_at(cell, Neighbor::South),
                self.neighbor_at(cell, Neighbor::East),
                self.neighbor_at(cell, Neighbor::West),
            ],
        };
        proof {
            assert forall|j: int| 0 <= j < 4 implies match #[trigger] r.inner@[j] {
                Some(n1) => n1.dir == dir_order(j)
                    && self.spec_nb(cell as int, dir_order(j)) == Some(n1.idx as int)
                    && n1.idx < self.cells@.len(),
                None => self.spec_nb(cell as int, dir_order(j)) is None,
            } by {
                assert(j == 0 || j == 1 || j == 2 || j == 3);
            };
        }
        r
    }
}

/// The fixed rank North, South, East, West that `linked_neighbors` lists
/// directions in.
pub open spec fn dir_rank(d: Neighbor) -> int {
    match d {
        Neighbor::North => 0,
        Neighbor::South => 1,
        Neighbor::East => 2,
        Neighbor::West => 3,
    }
}

/// Whether some element of `s` points in direction `d`.
pub open spec fn has_dir(s: Seq<Neighbor1>, d: Neighbor) -> bool {
    exists|i: int| 0 <= i < s.len() && #[trigger] s[i].dir == d
}

/// The fixed direction order used by `Maze::neighbors`.
pub open spec fn dir_order(j: int) -> Neighbor {
    if j == 0 {
        Neighbor::North
    } else if j == 1 {
        Neighbor::South
    } else if j == 2 {
        Neighbor::East
    } else {
        Neighbor::West
    }
}

/// The four optional neighbors of one cell, in the order North, South,
/// East, West.
#[derive(Clone, Copy, Debug)]
pub struct Neighbors {
    pub inner: [Option<Neighbor1>; 4],
}

impl Neighbors {
    pub fn get(&self, j: usize) -> (r: Option<Neighbor1>)
        requires
            j < 4,
        ensures
            r == self.inner@[j as int],
    {
        self.inner[j]
    }
}

} // verus!
