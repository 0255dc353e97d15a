//! Sidewinder generation: extend a run of cells eastward; at each cell flip
//! a coin (forced to close at the top row, forced to extend at the right
//! edge) to either carve east or close the run by linking north from a
//! random member. Closed runs are archived into a side buffer together
//! with their length, so `prev` can restore the exact run membership.

use vstd::prelude::*;

use crate::maze::{
    Cell, Maze, Neighbor, dims_ok, grid_has, grid_link, grid_sym, grid_unlinked,
    lemma_grid_unlinked_sym, lemma_grid_write_has, lemma_grid_write_sym, lemma_grid_write_undo,
    lemma_sym_iff, nb_at,
};
use crate::rng::RandomSource;
use vstd::arithmetic::div_mod::{lemma_fundamental_div_mod, lemma_fundamental_div_mod_converse};

verus! {

/// One recorded micro-step of the Sidewinder algorithm.
#[derive(Clone, Copy, Debug, PartialEq, Eq, Structural)]
pub enum Step {
    /// The initial marker every log starts with.
    Empty,
    /// About to flip the coin for this cell.
    Direction(usize),
    /// Extend the run: link this cell east and add it to the run.
    WalkEast(usize),
    /// Close the run without linking (top row): archive the run.
    EraseWalk(usize),
    /// Close the run by linking north: add the cell, then pick the member.
    RandWalk(usize),
    /// Link the chosen run member north, then the run will be archived.
    LinkNorth(usize, usize),
    /// The terminal marker.
    Finished,
}

/// The full abstract state: the grid, the current run, and the archive of
/// closed runs (each stored as its cells followed by its length).
pub ghost struct SwState {
    pub cells: Seq<Cell>,
    pub walk: Seq<usize>,
    pub trunc: Seq<usize>,
}

/// No cell at index `c` or beyond has been given its north or east link yet.
pub open spec fn upper_clear(s: Seq<Cell>, c: int) -> bool {
    forall|y: int, d: Neighbor|
        c <= y < s.len() && (d == Neighbor::North || d == Neighbor::East)
            ==> !(#[trigger] grid_has(s, y, d))
}

/// The current run sits left of cell `c` in `c`'s own row, and none of its
/// members has a north link yet.
pub open spec fn walk_ok(s: SwState, w: nat, c: int) -> bool {
    forall|j: int| 0 <= j < s.walk.len() ==> {
        &&& (#[trigger] s.walk[j] as int) < c
        &&& (s.walk[j] as int) < s.cells.len()
        &&& (w > 0 ==> (s.walk[j] as int) / (w as int) == c / (w as int))
        &&& !grid_has(s.cells, s.walk[j] as int, Neighbor::North)
    }
}

pub open spec fn step_enabled(s: SwState, w: nat, st: Step) -> bool {
    match st {
        Step::Empty => true,
        Step::Direction(c) => c <= s.cells.len() && upper_clear(s.cells, c as int) && walk_ok(
            s,
            w,
            c as int,
        ),
        Step::WalkEast(c) => {
            &&& (c as int) < s.cells.len()
            &&& nb_at(w, s.cells.len(), c as int, Neighbor::East) is Some
            &&& upper_clear(s.cells, c as int)
            &&& walk_ok(s, w, c as int)
        },
        Step::EraseWalk(c) => (c as int) < s.cells.len() && upper_clear(s.cells, c as int + 1)
            && s.walk.len() <= usize::MAX,
        Step::RandWalk(c) => {
            &&& (c as int) < s.cells.len()
            &&& nb_at(w, s.cells.len(), c as int, Neighbor::North) is Some
            &&& upper_clear(s.cells, c as int)
            &&& walk_ok(s, w, c as int)
        },
        Step::LinkNorth(c, linked) => {
            &&& (c as int) < s.cells.len()
            &&& (linked as int) < s.cells.len()
            &&& linked <= c
            &&& nb_at(w, s.cells.len(), linked as int, Neighbor::North) is Some
            &&& !grid_has(s.cells, linked as int, Neighbor::North)
            &&& upper_clear(s.cells, c as int + 1)
        },
        Step::Finished => true,
    }
}

pub open spec fn step_effect(s: SwState, w: nat, st: Step) -> SwState {
    match st {
        Step::WalkEast(c) => SwState {
            cells: grid_link(s.cells, w, c as int, Neighbor::East),
            walk: s.walk.push(c),
            trunc: s.trunc,
        },
        Step::EraseWalk(_c) => SwState {
            cells: s.cells,
            walk: Seq::empty(),
            trunc: s.trunc + s.walk + seq![s.walk.len() as usize],
        },
        Step::RandWalk(c) => SwState { cells: s.cells, walk: s.walk.push(c), trunc: s.trunc },
        Step::LinkNorth(_c, linked) => SwState {
            cells: grid_link(s.cells, w, linked as int, Neighbor::North),
            walk: s.walk,
            trunc: s.trunc,
        },
        _ => s,
    }
}

pub open spec fn run_steps(init: SwState, w: nat, log: Seq<Step>, k: int) -> SwState
    decreases k,
{
    if k <= 0 {
        init
    } else {
        step_effect(run_steps(init, w, log, k - 1), w, log[k - 1])
    }
}

/// Which entries may follow which: the coin at a decision step may only
/// yield an eastward walk when the east neighbor exists, a northward run
/// close when the north neighbor exists, a bare run archive when neither
/// does, and the terminal marker only once the cells are exhausted; a run
/// close links a member of the current run.
pub open spec fn succ_table(s: SwState, w: nat, cur: Step, nxt: Step) -> bool {
    match cur {
        Step::Empty => if s.cells.len() <= 1 {
            nxt == Step::Finished
        } else {
            match nxt {
                Step::Direction(c2) => c2 == 0,
                _ => false,
            }
        },
        Step::Direction(c) => if c == s.cells.len() {
            nxt == Step::Finished
        } else if nb_at(w, s.cells.len(), c as int, Neighbor::North) is None && nb_at(
            w,
            s.cells.len(),
            c as int,
            Neighbor::East,
        ) is None {
            match nxt {
                Step::EraseWalk(c2) => c2 == c,
                _ => false,
            }
        } else {
            match nxt {
                Step::WalkEast(c2) => c2 == c && nb_at(
                    w,
                    s.cells.len(),
                    c as int,
                    Neighbor::East,
                ) is Some,
                Step::RandWalk(c2) => c2 == c && nb_at(
                    w,
                    s.cells.len(),
                    c as int,
                    Neighbor::North,
                ) is Some,
                _ => false,
            }
        },
        Step::WalkEast(c) => match nxt {
            Step::Direction(c2) => c2 == c + 1,
            _ => false,
        },
        Step::EraseWalk(c) => match nxt {
            Step::Direction(c2) => c2 == c + 1,
            _ => false,
        },
        Step::RandWalk(c) => match nxt {
            Step::LinkNorth(c2, m) => c2 == c && s.walk.len() > 0 && exists|t: int|
                0 <= t < s.walk.len() && #[trigger] s.walk[t] == m,
            _ => false,
        },
        Step::LinkNorth(c, _m) => match nxt {
            Step::EraseWalk(c2) => c2 == c,
            _ => false,
        },
        Step::Finished => false,
    }
}

pub open spec fn log_ok(init: SwState, w: nat, log: Seq<Step>) -> bool {
    &&& 1 <= log.len()
    &&& log[0] == Step::Empty
    &&& forall|i: int| 1 <= i < log.len() ==> #[trigger] log[i] != Step::Empty
    &&& forall|i: int|
        0 <= i < log.len() ==> step_enabled(run_steps(init, w, log, i), w, #[trigger] log[i])
    &&& forall|i: int| 0 <= i < log.len() - 1 ==> #[trigger] log[i] != Step::Finished
    &&& forall|i: int| #![trigger log.index(i)]
        0 <= i < log.len() - 1 ==> succ_table(run_steps(init, w, log, i + 1), w, log[i], log[i
            + 1])
}

pub proof fn lemma_run_len(init: SwState, w: nat, log: Seq<Step>, k: int)
    requires
        0 <= k,
    ensures
        run_steps(init, w, log, k).cells.len() == init.cells.len(),
    decreases k,
{
    if k > 0 {
        lemma_run_len(init, w, log, k - 1);
    }
}

/// Appending to the log does not disturb the state at earlier points.
pub proof fn lemma_run_push(init: SwState, w: nat, log: Seq<Step>, st: Step, k: int)
    requires
        0 <= k <= log.len(),
    ensures
        run_steps(init, w, log.push(st), k) == run_steps(init, w, log, k),
    decreases k,
{
    if k > 0 {
        lemma_run_push(init, w, log, st, k - 1);
        assert(log.push(st)[k - 1] == log[k - 1]);
    }
}

/// Every grid along a well-formed log is symmetric.
pub proof fn lemma_run_sym(init: SwState, w: nat, log: Seq<Step>, k: int)
    requires
        0 <= k,
        dims_ok(w, init.cells.len()),
        grid_sym(init.cells, w),
        forall|i: int|
            0 <= i < k ==> step_enabled(run_steps(init, w, log, i), w, #[trigger] log[i]),
    ensures
        grid_sym(run_steps(init, w, log, k).cells, w),
        run_steps(init, w, log, k).cells.len() == init.cells.len(),
    decreases k,
{
    if k > 0 {
        lemma_run_sym(init, w, log, k - 1);
        let s = run_steps(init, w, log, k - 1);
        match log[k - 1] {
            Step::WalkEast(c) => {
                lemma_grid_write_sym(s.cells, w, c as int, Neighbor::East, true);
            }
            Step::LinkNorth(_c, linked) => {
                lemma_grid_write_sym(s.cells, w, linked as int, Neighbor::North, true);
            }
            _ => {}
        }
    }
}

/// A fresh entry that is enabled at the frontier extends a well-formed log
/// to a well-formed log.
pub proof fn lemma_log_push(init: SwState, w: nat, log: Seq<Step>, nx: Step)
    requires
        log_ok(init, w, log),
        log[log.len() - 1] != Step::Finished,
        nx != Step::Empty,
        step_enabled(run_steps(init, w, log, log.len() as int), w, nx),
        succ_table(run_steps(init, w, log, log.len() as int), w, log[log.len() - 1], nx),
    ensures
        log_ok(init, w, log.push(nx)),
{
    let log2 = log.push(nx);
    assert forall|i: int|
        0 <= i < log2.len() implies step_enabled(
        run_steps(init, w, log2, i),
        w,
        #[trigger] log2[i],
    ) by {
        lemma_run_push(init, w, log, nx, i);
        if i < log.len() {
            assert(log2[i] == log[i]);
        }
    };
    assert forall|i: int| #![trigger log2.index(i)]
        0 <= i < log2.len() - 1 implies succ_table(
        run_steps(init, w, log2, i + 1),
        w,
        log2[i],
        log2[i + 1],
    ) by {
        lemma_run_push(init, w, log, nx, i + 1);
        assert(log2[i] == log[i]);
        if i < log.len() - 1 {
            assert(log2[i + 1] == log[i + 1]);
        }
    };
    assert forall|i: int| 1 <= i < log2.len() implies #[trigger] log2[i] != Step::Empty by {
        if i < log.len() {
            assert(log2[i] == log[i]);
        }
    };
    assert forall|i: int| 0 <= i < log2.len() - 1 implies #[trigger] log2[i] != Step::Finished by {
        assert(log2[i] == log[i]);
    };
}

/// A cell whose east neighbor exists lies in the same row as its successor.
proof fn lemma_east_same_row(w: int, c: int)
    requires
        w > 0,
        c >= 0,
        (c + 1) % w != 0,
    ensures
        (c + 1) / w == c / w,
{
    lemma_fundamental_div_mod(c, w);
    let q = c / w;
    let r = c % w;
    assert((q + 1) * w == q * w + w) by (nonlinear_arith);
    assert(q * w == w * q) by (nonlinear_arith);
    if r == w - 1 {
        lemma_fundamental_div_mod_converse(c + 1, w, q + 1, 0);
    } else {
        lemma_fundamental_div_mod_converse(c + 1, w, q, r + 1);
    }
}

/// A cell in the same row as a cell below the top row is itself below it.
proof fn lemma_same_row_north(w: int, x: int, c: int)
    requires
        w > 0,
        x >= 0,
        c >= w,
        x / w == c / w,
    ensures
        x >= w,
{
    lemma_fundamental_div_mod(c, w);
    lemma_fundamental_div_mod(x, w);
    assert(c / w >= 1) by (nonlinear_arith)
        requires w > 0, c >= w, c == w * (c / w) + c % w, 0 <= c % w < w,
    {}
    assert(x >= w) by (nonlinear_arith)
        requires w > 0, x / w >= 1, x == w * (x / w) + x % w, 0 <= x % w < w,
    {}
}

/// The Sidewinder step machine.
pub struct SidewinderGen {
    pub maze: Maze,
    pub next: usize,
    pub current_walk: Vec<usize>,
    pub truncated_walk: Vec<usize>,
    pub steps: Vec<Step>,
}

impl SidewinderGen {
    pub open spec fn init_state(self) -> SwState {
        SwState {
            cells: grid_unlinked(self.maze.cells@.len()),
            walk: Seq::empty(),
            trunc: Seq::empty(),
        }
    }

    /// The abstract view of the machine's current grid and scratch.
    pub open spec fn cur_abs(self) -> SwState {
        SwState {
            cells: self.maze.cells@,
            walk: self.current_walk@,
            trunc: self.truncated_walk@,
        }
    }

    pub open spec fn w(self) -> nat {
        self.maze.width as nat
    }

    /// The machine's invariant: grid and scratch always equal the replay of
    /// the log up to the cursor.
    pub open spec fn inv(self) -> bool {
        &&& self.maze.wf()
        &&& self.maze.sym()
        &&& (self.next as int) < self.steps@.len()
        &&& log_ok(self.init_state(), self.w(), self.steps@)
        &&& self.maze.cells@ == run_steps(
            self.init_state(),
            self.w(),
            self.steps@,
            self.next as int,
        ).cells
        &&& self.current_walk@ == run_steps(
            self.init_state(),
            self.w(),
            self.steps@,
            self.next as int,
        ).walk
        &&& self.truncated_walk@ == run_steps(
            self.init_state(),
            self.w(),
            self.steps@,
            self.next as int,
        ).trunc
    }

    pub open spec fn finished_spec(self) -> bool {
        self.steps@[self.next as int] == Step::Finished
    }

    pub fn new(width: usize, height: usize) -> (r: SidewinderGen)
        requires
            width * height <= usize::MAX,
        ensures
            r.inv(),
            r.next == 0,
            r.steps@ =~= seq![Step::Empty],
            r.maze.width == width,
            r.maze.cells@.len() == width * height,
            r.maze.cells@ == grid_unlinked((width * height) as nat),
    {
        let maze = Maze::new(width, height);
        let r = SidewinderGen {
            maze,
            next: 0,
            current_walk: Vec::new(),
            truncated_walk: Vec::new(),
            steps: vec![Step::Empty],
        };
        proof {
            assert(r.steps@[0] == Step::Empty);
            lemma_grid_unlinked_sym(r.w(), r.maze.cells@.len());
        }
        r
    }

    pub fn finished(&self) -> (r: bool)
        requires
            self.inv(),
        ensures
            r == self.finished_spec(),
    {
        matches!(self.steps[self.next], Step::Finished)
    }

    pub fn completed(&self) -> (r: bool)
        requires
            self.inv(),
        ensures
            r == (self.steps@.last() == Step::Finished),
    {
        matches!(self.steps[self.steps.len() - 1], Step::Finished)
    }

    pub fn steps_count(&self) -> (r: usize)
        ensures
            r == self.steps@.len(),
    {
        self.steps.len()
    }

    pub fn next_step(&self) -> (r: usize)
        ensures
            r == self.next,
    {
        self.next
    }

    pub fn maze(&self) -> (r: &Maze)
        ensures
            *r == self.maze,
    {
        &self.maze
    }

    /// Synthesize the next entry from the current state, which has just
    /// executed `cur` starting from the state `s0`.
    #[verifier::rlimit(100)]
    fn synthesize<R: RandomSource>(&self, rng: &mut R, cur: Step, Ghost(s0): Ghost<SwState>)
        -> (nx: Step)
        requires
            self.maze.wf(),
            self.maze.sym(),
            cur != Step::Finished,
            step_enabled(s0, self.w(), cur),
            self.cur_abs() == step_effect(s0, self.w(), cur),
            cur == Step::Empty ==> upper_clear(self.maze.cells@, 0) && self.current_walk@.len()
                == 0,
        ensures
            step_enabled(self.cur_abs(), self.w(), nx),
            nx != Step::Empty,
            succ_table(self.cur_abs(), self.w(), cur, nx),
    {
        let ghost s1 = self.cur_abs();
        let ghost w = self.w();
        // bind the run length so its machine bound is in scope
        let walk_len = self.current_walk.len();
        let count = self.maze.len();
        proof {
            assert(s1.walk.len() == walk_len);
            assert(s1.cells.len() == count);
        }
        match cur {
            Step::Empty => {
                if self.maze.len() <= 1 {
                    Step::Finished
                } else {
                    Step::Direction(0)
                }
            }
            Step::Direction(c) => {
                if c == self.maze.len() {
                    Step::Finished
                } else {
                    let east = self.maze.neighbor_at(c, Neighbor::East);
                    let north = self.maze.neighbor_at(c, Neighbor::North);
                    let finish_walk = match (east.is_some(), north.is_some()) {
                        (true, true) => rng.pick(2) == 0,
                        (true, false) => false,
                        (false, true) => true,
                        (false, false) => true,
                    };
                    if finish_walk {
                        if north.is_some() {
                            Step::RandWalk(c)
                        } else {
                            proof {
                                assert(upper_clear(s1.cells, c as int + 1));
                            }
                            Step::EraseWalk(c)
                        }
                    } else {
                        Step::WalkEast(c)
                    }
                }
            }
            Step::WalkEast(c) => {
                proof {
                    // the run keeps sitting in the row of the next cell
                    lemma_grid_write_has(s0.cells, w, c as int, Neighbor::East, true);
                    assert(upper_clear(s1.cells, c as int + 1));
                    assert forall|j: int| 0 <= j < s1.walk.len() implies {
                        &&& (#[trigger] s1.walk[j] as int) < c as int + 1
                        &&& (s1.walk[j] as int) < s1.cells.len()
                        &&& (w > 0 ==> (s1.walk[j] as int) / (w as int) == (c as int + 1) / (
                        w as int))
                        &&& !grid_has(s1.cells, s1.walk[j] as int, Neighbor::North)
                    } by {
                        lemma_east_same_row(w as int, c as int);
                        if j < s1.walk.len() - 1 {
                            assert(s1.walk[j] == s0.walk[j]);
                        }
                    };
                    assert(walk_ok(s1, w, c as int + 1));
                }
                Step::Direction(c + 1)
            }
            Step::EraseWalk(c) => {
                proof {
                    assert(walk_ok(s1, w, c as int + 1));
                }
                Step::Direction(c + 1)
            }
            Step::RandWalk(c) => {
                let i = rng.pick(self.current_walk.len());
                let linked = self.current_walk[i];
                proof {
                    if (i as int) < s0.walk.len() {
                        assert(s0.walk[i as int] == s1.walk[i as int]);
                    }
                    assert(!grid_has(s1.cells, linked as int, Neighbor::North));
                    if linked != c {
                        lemma_same_row_north(w as int, linked as int, c as int);
                    }
                    assert(s1.walk[i as int] == linked);
                }
                Step::LinkNorth(c, linked)
            }
            Step::LinkNorth(c, linked) => {
                proof {
                    lemma_grid_write_has(s0.cells, w, linked as int, Neighbor::North, true);
                    assert(upper_clear(s1.cells, c as int + 1));
                }
                Step::EraseWalk(c)
            }
            Step::Finished => Step::Direction(0),  // unreachable: ruled out by requires
        }
    }

    /// Advance one micro-step: replay behind the frontier (consuming no
    /// randomness), synthesize and append at it. A no-op once finished.
    #[verifier::rlimit(100)]
    pub fn next<R: RandomSource>(&mut self, rng: &mut R)
        requires
            old(self).inv(),
        ensures
            final(self).inv(),
            final(self).maze.width == old(self).maze.width,
            final(self).maze.cells@.len() == old(self).maze.cells@.len(),
            old(self).finished_spec() ==> *final(self) == *old(self) && *final(rng) == *old(rng),
            !old(self).finished_spec() ==> {
                &&& final(self).next == old(self).next + 1
                &&& old(self).steps@.len() <= final(self).steps@.len() <= old(self).steps@.len()
                    + 1
                &&& final(self).steps@.subrange(0, old(self).steps@.len() as int) == old(
                    self,
                ).steps@
                &&& final(self).maze.cells@ == run_steps(
                    old(self).init_state(),
                    old(self).w(),
                    final(self).steps@,
                    old(self).next + 1,
                ).cells
            },
            !old(self).finished_spec() && (old(self).next as int) < old(self).steps@.len() - 1
                ==> final(self).steps@ == old(self).steps@ && *final(rng) == *old(rng),
            !old(self).finished_spec() && (old(self).next as int) == old(self).steps@.len() - 1
                ==> final(self).steps@.len() == old(self).steps@.len() + 1,
    {
        let cur = self.steps[self.next];
        if matches!(cur, Step::Finished) {
            return ;
        }
        let ghost init = self.init_state();
        let ghost w = self.w();
        let ghost log0 = self.steps@;
        let ghost k = self.next as int;
        proof {
            lemma_run_len(init, w, log0, k);
        }
        match cur {
            Step::WalkEast(c) => {
                self.current_walk.push(c);
                self.maze.link(c, Neighbor::East);
            }
            Step::EraseWalk(_c) => {
                let n = self.current_walk.len();
                self.truncated_walk.append(&mut self.current_walk);
                self.truncated_walk.push(n);
            }
            Step::RandWalk(c) => {
                self.current_walk.push(c);
            }
            Step::LinkNorth(_c, linked) => {
                self.maze.link(linked, Neighbor::North);
            }
            _ => {}
        }
        proof {
            let s1 = run_steps(init, w, log0, k + 1);
            assert(self.maze.cells@ == s1.cells && self.current_walk@ == s1.walk
                && self.truncated_walk@ == s1.trunc) by {
                match cur {
                    Step::EraseWalk(_c) => {
                        assert(self.truncated_walk@ =~= s1.trunc);
                        assert(self.current_walk@ =~= s1.walk);
                    }
                    _ => {}
                }
            };
            assert(self.maze.sym()) by {
                match cur {
                    Step::WalkEast(c) => {
                        lemma_grid_write_sym(old(self).maze.cells@, w, c as int, Neighbor::East, true);
                    }
                    Step::LinkNorth(_c, linked) => {
                        lemma_grid_write_sym(
                            old(self).maze.cells@,
                            w,
                            linked as int,
                            Neighbor::North,
                            true,
                        );
                    }
                    _ => {}
                }
            };
        }
        if self.next == self.steps.len() - 1 {
            let ghost s1 = run_steps(init, w, log0, k + 1);
            proof {
                if cur == Step::Empty {
                    assert(k == 0);
                    lemma_grid_unlinked_sym(w, init.cells.len());
                }
            }
            let nx = self.synthesize(rng, cur, Ghost(run_steps(init, w, log0, k)));
            proof {
                lemma_log_push(init, w, log0, nx);
                lemma_run_push(init, w, log0, nx, k + 1);
            }
            self.steps.push(nx);
            proof {
                assert(self.steps@.subrange(0, log0.len() as int) =~= log0);
            }
        } else {
            proof {
                assert(self.steps@.subrange(0, log0.len() as int) =~= log0);
            }
        }
        self.next = self.next + 1;
    }

    /// Undo one micro-step: the exact inverse of the step being left,
    /// including restoring the exact membership of an archived run. A
    /// no-op at cursor zero.
    #[verifier::rlimit(100)]
    pub fn prev(&mut self)
        requires
            old(self).inv(),
        ensures
            final(self).inv(),
            old(self).next == 0 ==> *final(self) == *old(self),
            old(self).next > 0 ==> {
                &&& final(self).next == old(self).next - 1
                &&& final(self).steps@ == old(self).steps@
                &&& final(self).maze.width == old(self).maze.width
                &&& final(self).maze.cells@ == run_steps(
                    old(self).init_state(),
                    old(self).w(),
                    old(self).steps@,
                    old(self).next - 1,
                ).cells
            },
    {
        if self.next == 0 {
            return ;
        }
        self.next = self.next - 1;
        let cur = self.steps[self.next];
        let ghost init = self.init_state();
        let ghost w = self.w();
        let ghost log0 = self.steps@;
        let ghost k = self.next as int;
        let ghost s_prev = run_steps(init, w, log0, k);
        proof {
            lemma_run_len(init, w, log0, k);
            lemma_grid_unlinked_sym(w, init.cells.len());
            lemma_run_sym(init, w, log0, k);
            assert(step_enabled(s_prev, w, cur));
        }
        match cur {
            Step::WalkEast(c) => {
                proof {
                    assert(!grid_has(s_prev.cells, c as int, Neighbor::East));
                    lemma_sym_iff(s_prev.cells, w, c as int, Neighbor::East);
                    lemma_grid_write_undo(s_prev.cells, w, c as int, Neighbor::East, true);
                }
                self.current_walk.pop();
                self.maze.unlink(c, Neighbor::East);
                proof {
                    assert(self.current_walk@ =~= s_prev.walk);
                }
            }
            Step::EraseWalk(_c) => {
                // restore the exact run that was archived: its length sits
                // on top of the archive, its cells right below
                let n = self.truncated_walk.pop().unwrap();
                proof {
                    assert(self.truncated_walk@ =~= s_prev.trunc + s_prev.walk);
                    assert(n == s_prev.walk.len());
                }
                let at = self.truncated_walk.len() - n;
                let mut tail = self.truncated_walk.split_off(at);
                self.current_walk.append(&mut tail);
                proof {
                    assert(self.truncated_walk@ =~= s_prev.trunc);
                    assert(self.current_walk@ =~= s_prev.walk);
                }
            }
            Step::RandWalk(_c) => {
                self.current_walk.pop();
                proof {
                    assert(self.current_walk@ =~= s_prev.walk);
                }
            }
            Step::LinkNorth(_c, linked) => {
                proof {
                    assert(!grid_has(s_prev.cells, linked as int, Neighbor::North));
                    lemma_sym_iff(s_prev.cells, w, linked as int, Neighbor::North);
                    lemma_grid_write_undo(s_prev.cells, w, linked as int, Neighbor::North, true);
                }
                self.maze.unlink(linked, Neighbor::North);
            }
            _ => {}
        }
    }
}

/// With the cursor at step zero nothing has been applied yet: the grid is
/// fully unlinked and the run scratch empty, whatever has been recorded or
/// undone before.
pub proof fn lemma_at_step_zero_unlinked(g: SidewinderGen)
    requires
        g.inv(),
        g.next == 0,
    ensures
        forall|c: int, d: Neighbor| !grid_has(g.maze.cells@, c, d),
        g.current_walk@.len() == 0,
        g.truncated_walk@.len() == 0,
{
    lemma_grid_unlinked_sym(g.w(), g.maze.cells@.len());
}

} // verus!
