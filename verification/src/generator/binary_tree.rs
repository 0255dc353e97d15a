//! Binary Tree generation: walk the cells in row-major order and link each
//! one either north or east, chosen at random among the sides that exist.
//!
//! The generator is a step machine over an append-only log. Executing `next`
//! at the log's frontier synthesizes a new entry (consuming randomness
//! exactly once per random decision); executing it behind the frontier
//! replays the recorded entry and consumes no randomness at all. `prev`
//! applies the exact inverse of the step it moves back over.

use vstd::prelude::*;

use crate::maze::{
    Cell, Maze, Neighbor, Neighbor1, dims_ok, grid_has, grid_link, grid_set, grid_sym,
    grid_unlinked, grid_write, lemma_grid_unlinked_sym, lemma_grid_write_has,
    lemma_grid_write_sym, lemma_grid_write_undo, nb_at,
};
use crate::rng::RandomSource;

verus! {

/// One recorded micro-step of the Binary Tree algorithm.
#[derive(Clone, Copy, Debug, PartialEq, Eq, Structural)]
pub enum Step {
    /// The initial marker every log starts with.
    Empty,
    /// About to decide the link direction for this cell.
    Direction(usize),
    /// About to open the passage from this cell to the chosen neighbor.
    Link(usize, Neighbor1),
    /// The terminal marker.
    Finished,
}

/// No cell at index `c` or beyond has been given its north or east link yet.
pub open spec fn upper_clear(s: Seq<Cell>, c: int) -> bool {
    forall|y: int, d: Neighbor|
        c <= y < s.len() && (d == Neighbor::North || d == Neighbor::East)
            ==> !(#[trigger] grid_has(s, y, d))
}

/// When a step may stand at a point of the log where the grid is `s`.
pub open spec fn step_enabled(s: Seq<Cell>, w: nat, st: Step) -> bool {
    match st {
        Step::Empty => true,
        Step::Direction(c) => c <= s.len() && upper_clear(s, c as int),
        Step::Link(c, n1) => {
            &&& (c as int) < s.len()
            &&& nb_at(w, s.len(), c as int, n1.dir) == Some(n1.idx as int)
            &&& (n1.dir == Neighbor::North || n1.dir == Neighbor::East)
            &&& upper_clear(s, c as int)
        },
        Step::Finished => true,
    }
}

/// What executing a step does to the grid.
pub open spec fn step_effect(s: Seq<Cell>, w: nat, st: Step) -> Seq<Cell> {
    match st {
        Step::Link(c, n1) => grid_link(s, w, c as int, n1.dir),
        _ => s,
    }
}

/// The grid reached from `init` by executing the first `k` entries of `log`.
pub open spec fn run_steps(init: Seq<Cell>, w: nat, log: Seq<Step>, k: int) -> Seq<Cell>
    decreases k,
{
    if k <= 0 {
        init
    } else {
        step_effect(run_steps(init, w, log, k - 1), w, log[k - 1])
    }
}

/// Which entries may follow which: after the initial marker the walk of
/// the cells starts (or a degenerate grid finishes at once); a decision
/// step is followed by a link toward one of the cell's real north/east
/// neighbors, by a skip when it has neither, or by the terminal marker
/// only once the cells are exhausted; a link step moves to the next cell.
pub open spec fn succ_table(s: Seq<Cell>, w: nat, cur: Step, nxt: Step) -> bool {
    match cur {
        Step::Empty => if s.len() <= 1 {
            nxt == Step::Finished
        } else {
            nxt == Step::Direction(0)
        },
        Step::Direction(c) => if c == s.len() {
            nxt == Step::Finished
        } else if nb_at(w, s.len(), c as int, Neighbor::East) is None && nb_at(
            w,
            s.len(),
            c as int,
            Neighbor::North,
        ) is None {
            match nxt {
                Step::Direction(c2) => c2 == c + 1,
                _ => false,
            }
        } else {
            match nxt {
                Step::Link(c2, n1) => {
                    &&& c2 == c
                    &&& (n1.dir == Neighbor::East || n1.dir == Neighbor::North)
                    &&& nb_at(w, s.len(), c as int, n1.dir) == Some(n1.idx as int)
                },
                _ => false,
            }
        },
        Step::Link(c, _n1) => if c + 1 == s.len() {
            nxt == Step::Finished
        } else {
            match nxt {
                Step::Direction(c2) => c2 == c + 1,
                _ => false,
            }
        },
        Step::Finished => false,
    }
}

/// A well-formed log: starts with `Empty`, every entry is enabled at its
/// own point, `Finished` can only be the last entry, and every pair of
/// neighboring entries respects the successor table.
pub open spec fn log_ok(init: Seq<Cell>, w: nat, log: Seq<Step>) -> bool {
    &&& 1 <= log.len()
    &&& log[0] == Step::Empty
    &&& forall|i: int| 1 <= i < log.len() ==> #[trigger] log[i] != Step::Empty
    &&& forall|i: int|
        0 <= i < log.len() ==> step_enabled(run_steps(init, w, log, i), w, #[trigger] log[i])
    &&& forall|i: int| 0 <= i < log.len() - 1 ==> #[trigger] log[i] != Step::Finished
    &&& forall|i: int| #![trigger log.index(i)]
        0 <= i < log.len() - 1 ==> succ_table(run_steps(init, w, log, i + 1), w, log[i], log[i
            + 1])
}

/// A fresh entry that is enabled at the frontier and admissible after the
/// entry it follows extends a well-formed log to a well-formed log.
pub proof fn lemma_log_push(init: Seq<Cell>, w: nat, log: Seq<Step>, nx: Step)
    requires
        log_ok(init, w, log),
        log[log.len() - 1] != Step::Finished,
        nx != Step::Empty,
        step_enabled(run_steps(init, w, log, log.len() as int), w, nx),
        succ_table(run_steps(init, w, log, log.len() as int), w, log[log.len() - 1], nx),
    ensures
        log_ok(init, w, log.push(nx)),
{
    let log2 = log.push(nx);
    assert forall|i: int|
        0 <= i < log2.len() implies step_enabled(
        run_steps(init, w, log2, i),
        w,
        #[trigger] log2[i],
    ) by {
        lemma_run_push(init, w, log, nx, i);
        if i < log.len() {
            assert(log2[i] == log[i]);
        }
    };
    assert forall|i: int| #![trigger log2.index(i)]
        0 <= i < log2.len() - 1 implies succ_table(
        run_steps(init, w, log2, i + 1),
        w,
        log2[i],
        log2[i + 1],
    ) by {
        lemma_run_push(init, w, log, nx, i + 1);
        assert(log2[i] == log[i]);
        if i < log.len() - 1 {
            assert(log2[i + 1] == log[i + 1]);
        }
    };
    assert forall|i: int| 1 <= i < log2.len() implies #[trigger] log2[i] != Step::Empty by {
        if i < log.len() {
            assert(log2[i] == log[i]);
        }
    };
    assert forall|i: int| 0 <= i < log2.len() - 1 implies #[trigger] log2[i] != Step::Finished by {
        assert(log2[i] == log[i]);
    };
}

pub proof fn lemma_run_len(init: Seq<Cell>, w: nat, log: Seq<Step>, k: int)
    requires
        0 <= k,
    ensures
        run_steps(init, w, log, k).len() == init.len(),
    decreases k,
{
    if k > 0 {
        lemma_run_len(init, w, log, k - 1);
        let s = run_steps(init, w, log, k - 1);
        match log[k - 1] {
            Step::Link(c, n1) => {
                assert(step_effect(s, w, log[k - 1]) == grid_link(s, w, c as int, n1.dir));
                assert(grid_link(s, w, c as int, n1.dir).len() == s.len());
            }
            _ => {}
        }
    }
}

/// Appending to the log does not disturb the grid at earlier points.
pub proof fn lemma_run_push(init: Seq<Cell>, w: nat, log: Seq<Step>, st: Step, k: int)
    requires
        0 <= k <= log.len(),
    ensures
        run_steps(init, w, log.push(st), k) == run_steps(init, w, log, k),
    decreases k,
{
    if k > 0 {
        lemma_run_push(init, w, log, st, k - 1);
        assert(log.push(st)[k - 1] == log[k - 1]);
    }
}

/// Every grid along a well-formed log is symmetric.
pub proof fn lemma_run_sym(init: Seq<Cell>, w: nat, log: Seq<Step>, k: int)
    requires
        0 <= k,
        dims_ok(w, init.len()),
        grid_sym(init, w),
        forall|i: int|
            0 <= i < k ==> step_enabled(run_steps(init, w, log, i), w, #[trigger] log[i]),
    ensures
        grid_sym(run_steps(init, w, log, k), w),
        run_steps(init, w, log, k).len() == init.len(),
    decreases k,
{
    if k > 0 {
        lemma_run_sym(init, w, log, k - 1);
        let s = run_steps(init, w, log, k - 1);
        match log[k - 1] {
            Step::Link(c, n1) => {
                lemma_grid_write_sym(s, w, c as int, n1.dir, true);
            }
            _ => {}
        }
    }
}

/// The Binary Tree step machine.
pub struct BinaryTreeGen {
    pub maze: Maze,
    pub next: usize,
    pub steps: Vec<Step>,
}

impl BinaryTreeGen {
    /// The grid every run starts from: all cells walled in.
    pub open spec fn init_cells(self) -> Seq<Cell> {
        grid_unlinked(self.maze.cells@.len())
    }

    pub open spec fn w(self) -> nat {
        self.maze.width as nat
    }

    /// The machine's invariant: the maze always equals the replay of the
    /// log up to the cursor.
    pub open spec fn inv(self) -> bool {
        &&& self.maze.wf()
        &&& self.maze.sym()
        &&& (self.next as int) < self.steps@.len()
        &&& log_ok(self.init_cells(), self.w(), self.steps@)
        &&& self.maze.cells@ == run_steps(
            self.init_cells(),
            self.w(),
            self.steps@,
            self.next as int,
        )
    }

    /// The step currently pointed to is the terminal marker.
    pub open spec fn finished_spec(self) -> bool {
        self.steps@[self.next as int] == Step::Finished
    }

    pub fn new(width: usize, height: usize) -> (r: BinaryTreeGen)
        requires
            width * height <= usize::MAX,
        ensures
            r.inv(),
            r.next == 0,
            r.steps@ =~= seq![Step::Empty],
            r.maze.width == width,
            r.maze.cells@.len() == width * height,
            r.maze.cells@ == grid_unlinked((width * height) as nat),
    {
        let maze = Maze::new(width, height);
        let r = BinaryTreeGen { maze, next: 0, steps: vec![Step::Empty] };
        proof {
            assert(r.steps@[0] == Step::Empty);
            lemma_grid_unlinked_sym(r.w(), r.maze.cells@.len());
        }
        r
    }

    pub fn finished(&self) -> (r: bool)
        requires
            self.inv(),
        ensures
            r == self.finished_spec(),
    {
        matches!(self.steps[self.next], Step::Finished)
    }

    /// Whether the log has ever reached completion, wherever the cursor is.
    pub fn completed(&self) -> (r: bool)
        requires
            self.inv(),
        ensures
            r == (self.steps@.last() == Step::Finished),
    {
        matches!(self.steps[self.steps.len() - 1], Step::Finished)
    }

    pub fn steps_count(&self) -> (r: usize)
        ensures
            r == self.steps@.len(),
    {
        self.steps.len()
    }

    pub fn next_step(&self) -> (r: usize)
        ensures
            r == self.next,
    {
        self.next
    }

    pub fn maze(&self) -> (r: &Maze)
        ensures
            *r == self.maze,
    {
        &self.maze
    }

    /// Advance one micro-step: replay the recorded entry when behind the
    /// frontier (consuming no randomness), otherwise synthesize, apply and
    /// append a fresh one. A no-op once the cursor sits on `Finished`.
    #[verifier::rlimit(80)]
    pub fn next<R: RandomSource>(&mut self, rng: &mut R)
        requires
            old(self).inv(),
        ensures
            final(self).inv(),
            final(self).maze.width == old(self).maze.width,
            final(self).maze.cells@.len() == old(self).maze.cells@.len(),
            old(self).finished_spec() ==> *final(self) == *old(self) && *final(rng) == *old(rng),
            !old(self).finished_spec() ==> {
                &&& final(self).next == old(self).next + 1
                &&& old(self).steps@.len() <= final(self).steps@.len() <= old(self).steps@.len()
                    + 1
                &&& final(self).steps@.subrange(0, old(self).steps@.len() as int) == old(
                    self,
                ).steps@
                &&& final(self).maze.cells@ == run_steps(
                    old(self).init_cells(),
                    old(self).w(),
                    final(self).steps@,
                    old(self).next + 1,
                )
            },
            !old(self).finished_spec() && (old(self).next as int) < old(self).steps@.len() - 1
                ==> final(self).steps@ == old(self).steps@ && *final(rng) == *old(rng),
            !old(self).finished_spec() && (old(self).next as int) == old(self).steps@.len() - 1
                ==> final(self).steps@.len() == old(self).steps@.len() + 1,
    {
        let cur = self.steps[self.next];
        if matches!(cur, Step::Finished) {
            return ;
        }
        let ghost init = self.init_cells();
        let ghost w = self.w();
        let ghost log0 = self.steps@;
        let ghost k = self.next as int;
        proof {
            lemma_run_len(init, w, log0, k);
        }
        // apply the effect of the step being executed
        match cur {
            Step::Link(c, n1) => {
                self.maze.link(c, n1.dir);
            }
            _ => {}
        }
        proof {
            assert(self.maze.cells@ == run_steps(init, w, log0, k + 1));
            assert(self.maze.sym()) by {
                match cur {
                    Step::Link(c, n1) => {
                        lemma_grid_write_sym(old(self).maze.cells@, w, c as int, n1.dir, true);
                    }
                    _ => {}
                }
            };
        }
        if self.next == self.steps.len() - 1 {
            // at the frontier: synthesize the next entry from current state
            let nx = match cur {
                Step::Empty => {
                    if self.maze.len() <= 1 {
                        Step::Finished
                    } else {
                        Step::Direction(0)
                    }
                }
                Step::Direction(c) => {
                    if c == self.maze.len() {
                        Step::Finished
                    } else {
                        let mut cands: Vec<Neighbor1> = Vec::new();
                        match self.maze.neighbor_at(c, Neighbor::East) {
                            Some(n1) => cands.push(n1),
                            None => {}
                        }
                        match self.maze.neighbor_at(c, Neighbor::North) {
                            Some(n1) => cands.push(n1),
                            None => {}
                        }
                        if cands.len() == 0 {
                            Step::Direction(c + 1)
                        } else {
                            let i = rng.pick(cands.len());
                            Step::Link(c, cands[i])
                        }
                    }
                }
                Step::Link(c, _) => {
                    if c == self.maze.len() - 1 {
                        Step::Finished
                    } else {
                        Step::Direction(c + 1)
                    }
                }
                Step::Finished => Step::Empty,  // unreachable: handled above
            };
            proof {
                assert(step_enabled(self.maze.cells@, w, nx)) by {
                    match cur {
                        Step::Empty => {
                            assert(k == 0);
                            assert(self.maze.cells@ == init);
                            lemma_grid_unlinked_sym(w, init.len());
                        }
                        Step::Direction(c) => {
                            assert(upper_clear(self.maze.cells@, c as int));
                        }
                        Step::Link(c, n1) => {
                            // the write touches only (c, dir) and the mirror
                            // south/west flag of the neighbor
                            lemma_grid_write_has(
                                run_steps(init, w, log0, k),
                                w,
                                c as int,
                                n1.dir,
                                true,
                            );
                            assert(upper_clear(self.maze.cells@, c as int + 1));
                        }
                        Step::Finished => {}
                    }
                };
                assert(succ_table(self.maze.cells@, w, cur, nx));
                lemma_log_push(init, w, log0, nx);
                lemma_run_push(init, w, log0, nx, k + 1);
            }
            self.steps.push(nx);
            proof {
                assert(self.steps@.subrange(0, log0.len() as int) =~= log0);
            }
        } else {
            proof {
                assert(self.steps@.subrange(0, log0.len() as int) =~= log0);
            }
        }
        self.next = self.next + 1;
    }

    /// Undo one micro-step: move the cursor back and apply the exact
    /// inverse of the step being left. A no-op at cursor zero.
    pub fn prev(&mut self)
        requires
            old(self).inv(),
        ensures
            final(self).inv(),
            old(self).next == 0 ==> *final(self) == *old(self),
            old(self).next > 0 ==> {
                &&& final(self).next == old(self).next - 1
                &&& final(self).steps@ == old(self).steps@
                &&& final(self).maze.width == old(self).maze.width
                &&& final(self).maze.cells@ == run_steps(
                    old(self).init_cells(),
                    old(self).w(),
                    old(self).steps@,
                    old(self).next - 1,
                )
            },
    {
        if self.next == 0 {
            return ;
        }
        self.next = self.next - 1;
        let cur = self.steps[self.next];
        let ghost init = self.init_cells();
        let ghost w = self.w();
        let ghost log0 = self.steps@;
        let ghost k = self.next as int;
        proof {
            lemma_run_len(init, w, log0, k);
            lemma_grid_unlinked_sym(w, init.len());
            lemma_run_sym(init, w, log0, k);
        }
        match cur {
            Step::Link(c, n1) => {
                let ghost s_prev = run_steps(init, w, log0, k);
                proof {
                    assert(step_enabled(s_prev, w, cur));
                    assert(!grid_has(s_prev, c as int, n1.dir));
                    crate::maze::lemma_sym_iff(s_prev, w, c as int, n1.dir);
                    assert(!grid_has(s_prev, n1.idx as int, n1.dir.opp()));
                    lemma_grid_write_undo(s_prev, w, c as int, n1.dir, true);
                }
                self.maze.unlink(c, n1.dir);
            }
            _ => {}
        }
    }
}

/// With the cursor at step zero nothing has been applied yet: the grid is
/// fully unlinked, whatever has been recorded or undone before.
pub proof fn lemma_at_step_zero_unlinked(g: BinaryTreeGen)
    requires
        g.inv(),
        g.next == 0,
    ensures
        forall|c: int, d: Neighbor| !grid_has(g.maze.cells@, c, d),
{
    lemma_grid_unlinked_sym(g.w(), g.maze.cells@.len());
}

} // verus!
