//! Recursive Backtracker generation: walk to a random unvisited neighbor,
//! pushing the cell left behind onto an explicit stack; on a dead end, pop
//! the stack and resume from there; finished when the stack runs dry. The
//! stack and the list of fully completed cells are scratch state that is
//! derived by applying and reversing steps, never snapshotted.

use vstd::prelude::*;

use crate::maze::{
    Cell, Maze, Neighbor, Neighbor1, dims_ok, grid_has, grid_link, grid_sym, grid_unlinked,
    lemma_grid_unlinked_sym, lemma_grid_write_sym, lemma_grid_write_undo, lemma_sym_iff, nb_at,
};
use crate::rng::RandomSource;

verus! {

/// One recorded micro-step of the Recursive Backtracker algorithm.
#[derive(Clone, Copy, Debug, PartialEq, Eq, Structural)]
pub enum Step {
    /// The initial marker every log starts with.
    Empty,
    /// The walk stands on this cell and must choose where to go.
    Walk(usize),
    /// The walk hit a dead end: pop the stack and resume there.
    BackTrack,
    /// About to open the passage from this cell to the chosen neighbor.
    Link(usize, Neighbor1),
    /// The terminal marker.
    Finished,
}

/// The full abstract state the step machine drives: the grid plus its two
/// scratch vectors.
pub ghost struct RbState {
    pub cells: Seq<Cell>,
    pub stack: Seq<usize>,
    pub completed: Seq<usize>,
}

/// Scratch sanity: everything on the stack is a real cell index.
pub open spec fn state_ok(s: RbState) -> bool {
    forall|j: int| 0 <= j < s.stack.len() ==> (#[trigger] s.stack[j] as int) < s.cells.len()
}

pub open spec fn step_enabled(s: RbState, w: nat, st: Step) -> bool {
    state_ok(s) && match st {
        Step::Empty => true,
        Step::Walk(c) => (c as int) < s.cells.len(),
        Step::BackTrack => true,
        Step::Link(c, n1) => {
            &&& (c as int) < s.cells.len()
            &&& nb_at(w, s.cells.len(), c as int, n1.dir) == Some(n1.idx as int)
            &&& s.cells[n1.idx as int].links.none_set()
        },
        Step::Finished => true,
    }
}

pub open spec fn step_effect(s: RbState, w: nat, st: Step) -> RbState {
    match st {
        Step::Link(c, n1) => RbState {
            cells: grid_link(s.cells, w, c as int, n1.dir),
            stack: s.stack.push(c),
            completed: s.completed,
        },
        Step::BackTrack => {
            if s.stack.len() > 0 {
                RbState {
                    cells: s.cells,
                    stack: s.stack.drop_last(),
                    completed: s.completed.push(s.stack.last()),
                }
            } else {
                s
            }
        },
        _ => s,
    }
}

pub open spec fn run_steps(init: RbState, w: nat, log: Seq<Step>, k: int) -> RbState
    decreases k,
{
    if k <= 0 {
        init
    } else {
        step_effect(run_steps(init, w, log, k - 1), w, log[k - 1])
    }
}

/// Every existing neighbor of `c` already carries a link: the walk from
/// `c` has nowhere new to go.
pub open spec fn all_neighbors_visited(s: Seq<Cell>, w: nat, c: int) -> bool {
    forall|d: Neighbor| match #[trigger] nb_at(w, s.len(), c, d) {
        Some(m) => !s[m].links.none_set(),
        None => true,
    }
}

/// Which entries may follow which, judged at the state the first entry
/// executes in: a walk either links an unvisited neighbor or backtracks
/// because it has none; a backtrack resumes at the stack's top or ends
/// the generation exactly when the stack is empty.
pub open spec fn succ_table(s: RbState, w: nat, cur: Step, nxt: Step) -> bool {
    match cur {
        Step::Empty => if s.cells.len() <= 1 {
            nxt == Step::Finished
        } else {
            match nxt {
                Step::Walk(c2) => c2 == 0,
                _ => false,
            }
        },
        Step::Walk(c) => match nxt {
            Step::Link(c2, n1) => c2 == c && nb_at(w, s.cells.len(), c as int, n1.dir) == Some(
                n1.idx as int,
            ) && s.cells[n1.idx as int].links.none_set(),
            Step::BackTrack => all_neighbors_visited(s.cells, w, c as int),
            _ => false,
        },
        Step::BackTrack => match nxt {
            Step::Walk(c2) => s.stack.len() > 0 && c2 == s.stack.last(),
            Step::Finished => s.stack.len() == 0,
            _ => false,
        },
        Step::Link(_c, n1) => match nxt {
            Step::Walk(c2) => c2 == n1.idx,
            _ => false,
        },
        Step::Finished => false,
    }
}

/// A well-formed log: starts with `Empty`, every entry is enabled at its
/// own point, `Finished` only last, and every pair of neighboring entries
/// respects the successor table (which is what makes the backtrack undo
/// exact).
pub open spec fn log_ok(init: RbState, w: nat, log: Seq<Step>) -> bool {
    &&& 1 <= log.len()
    &&& log[0] == Step::Empty
    &&& forall|i: int| 1 <= i < log.len() ==> #[trigger] log[i] != Step::Empty
    &&& forall|i: int|
        0 <= i < log.len() ==> step_enabled(run_steps(init, w, log, i), w, #[trigger] log[i])
    &&& forall|i: int| 0 <= i < log.len() - 1 ==> #[trigger] log[i] != Step::Finished
    &&& forall|i: int| #![trigger log.index(i)]
        0 <= i < log.len() - 1 ==> succ_table(run_steps(init, w, log, i), w, log[i], log[i + 1])
}

pub proof fn lemma_run_len(init: RbState, w: nat, log: Seq<Step>, k: int)
    requires
        0 <= k,
    ensures
        run_steps(init, w, log, k).cells.len() == init.cells.len(),
    decreases k,
{
    if k > 0 {
        lemma_run_len(init, w, log, k - 1);
    }
}

/// Appending to the log does not disturb the state at earlier points.
pub proof fn lemma_run_push(init: RbState, w: nat, log: Seq<Step>, st: Step, k: int)
    requires
        0 <= k <= log.len(),
    ensures
        run_steps(init, w, log.push(st), k) == run_steps(init, w, log, k),
    decreases k,
{
    if k > 0 {
        lemma_run_push(init, w, log, st, k - 1);
        assert(log.push(st)[k - 1] == log[k - 1]);
    }
}

/// Every grid along a well-formed log is symmetric.
pub proof fn lemma_run_sym(init: RbState, w: nat, log: Seq<Step>, k: int)
    requires
        0 <= k,
        dims_ok(w, init.cells.len()),
        grid_sym(init.cells, w),
        forall|i: int|
            0 <= i < k ==> step_enabled(run_steps(init, w, log, i), w, #[trigger] log[i]),
    ensures
        grid_sym(run_steps(init, w, log, k).cells, w),
        run_steps(init, w, log, k).cells.len() == init.cells.len(),
    decreases k,
{
    if k > 0 {
        lemma_run_sym(init, w, log, k - 1);
        let s = run_steps(init, w, log, k - 1);
        match log[k - 1] {
            Step::Link(c, n1) => {
                lemma_grid_write_sym(s.cells, w, c as int, n1.dir, true);
            }
            _ => {}
        }
    }
}

/// A fresh entry that is enabled at the frontier (and consistent with a
/// `BackTrack` it follows) extends a well-formed log to a well-formed log.
pub proof fn lemma_log_push(init: RbState, w: nat, log: Seq<Step>, nx: Step)
    requires
        log_ok(init, w, log),
        log[log.len() - 1] != Step::Finished,
        nx != Step::Empty,
        step_enabled(run_steps(init, w, log, log.len() as int), w, nx),
        succ_table(run_steps(init, w, log, log.len() - 1), w, log[log.len() - 1], nx),
    ensures
        log_ok(init, w, log.push(nx)),
{
    let log2 = log.push(nx);
    assert forall|i: int|
        0 <= i < log2.len() implies step_enabled(
        run_steps(init, w, log2, i),
        w,
        #[trigger] log2[i],
    ) by {
        lemma_run_push(init, w, log, nx, i);
        if i < log.len() {
            assert(log2[i] == log[i]);
        }
    };
    assert forall|i: int| #![trigger log2.index(i)]
        0 <= i < log2.len() - 1 implies succ_table(
        run_steps(init, w, log2, i),
        w,
        log2[i],
        log2[i + 1],
    ) by {
        lemma_run_push(init, w, log, nx, i);
        assert(log2[i] == log[i]);
        if i < log.len() - 1 {
            assert(log2[i + 1] == log[i + 1]);
        }
    };
    assert forall|i: int| 1 <= i < log2.len() implies #[trigger] log2[i] != Step::Empty by {
        if i < log.len() {
            assert(log2[i] == log[i]);
        }
    };
    assert forall|i: int| 0 <= i < log2.len() - 1 implies #[trigger] log2[i] != Step::Finished by {
        assert(log2[i] == log[i]);
    };
}

/// The Recursive Backtracker step machine.
pub struct RecurBacktrackerGen {
    pub maze: Maze,
    pub next: usize,
    pub stack: Vec<usize>,
    pub completed: Vec<usize>,
    pub steps: Vec<Step>,
}

impl RecurBacktrackerGen {
    pub open spec fn init_state(self) -> RbState {
        RbState {
            cells: grid_unlinked(self.maze.cells@.len()),
            stack: Seq::empty(),
            completed: Seq::empty(),
        }
    }

    pub open spec fn w(self) -> nat {
        self.maze.width as nat
    }

    /// The machine's invariant: grid and scratch always equal the replay of
    /// the log up to the cursor.
    pub open spec fn inv(self) -> bool {
        &&& self.maze.wf()
        &&& self.maze.sym()
        &&& (self.next as int) < self.steps@.len()
        &&& log_ok(self.init_state(), self.w(), self.steps@)
        &&& self.maze.cells@ == run_steps(
            self.init_state(),
            self.w(),
            self.steps@,
            self.next as int,
        ).cells
        &&& self.stack@ == run_steps(
            self.init_state(),
            self.w(),
            self.steps@,
            self.next as int,
        ).stack
        &&& self.completed@ == run_steps(
            self.init_state(),
            self.w(),
            self.steps@,
            self.next as int,
        ).completed
    }

    pub open spec fn finished_spec(self) -> bool {
        self.steps@[self.next as int] == Step::Finished
    }

    pub fn new(width: usize, height: usize) -> (r: RecurBacktrackerGen)
        requires
            width * height <= usize::MAX,
        ensures
            r.inv(),
            r.next == 0,
            r.steps@ =~= seq![Step::Empty],
            r.maze.width == width,
            r.maze.cells@.len() == width * height,
            r.maze.cells@ == grid_unlinked((width * height) as nat),
    {
        let maze = Maze::new(width, height);
        let r = RecurBacktrackerGen {
            stack: Vec::new(),
            completed: Vec::new(),
            maze,
            next: 0,
            steps: vec![Step::Empty],
        };
        proof {
            assert(r.steps@[0] == Step::Empty);
            lemma_grid_unlinked_sym(r.w(), r.maze.cells@.len());
        }
        r
    }

    /// A random not-yet-visited neighbor of `cell` (no links at all), if any.
    pub fn unvisited_neighbor<R: RandomSource>(&self, rng: &mut R, cell: usize) -> (r: Option<
        Neighbor1,
    >)
        requires
            self.maze.wf(),
            cell < self.maze.cells@.len(),
        ensures
            match r {
                Some(n1) => {
                    &&& self.maze.spec_nb(cell as int, n1.dir) == Some(n1.idx as int)
                    &&& n1.idx < self.maze.cells@.len()
                    &&& self.maze.cells@[n1.idx as int].links.none_set()
                },
                None => all_neighbors_visited(
                    self.maze.cells@,
                    self.w(),
                    cell as int,
                ),
            },
    {
        let mut cands: Vec<Neighbor1> = Vec::new();
        let nbs = self.maze.neighbors(cell);
        let mut j: usize = 0;
        while j < 4
            invariant
                j <= 4,
                self.maze.wf(),
                cell < self.maze.cells@.len(),
                nbs.inner@.len() == 4,
                forall|i: int| 0 <= i < 4 ==> match #[trigger] nbs.inner@[i] {
                    Some(n1) => n1.dir == crate::maze::dir_order(i) && self.maze.spec_nb(
                        cell as int,
                        crate::maze::dir_order(i),
                    ) == Some(n1.idx as int) && n1.idx < self.maze.cells@.len(),
                    None => self.maze.spec_nb(cell as int, crate::maze::dir_order(i)) is None,
                },
                forall|i: int| 0 <= i < cands@.len() ==> {
                    &&& self.maze.spec_nb(cell as int, #[trigger] cands@[i].dir) == Some(
                        cands@[i].idx as int,
                    )
                    &&& cands@[i].idx < self.maze.cells@.len()
                    &&& self.maze.cells@[cands@[i].idx as int].links.none_set()
                },
                cands@.len() == 0 ==> forall|t: int|
                    0 <= t < j ==> match #[trigger] nbs.inner@[t] {
                        Some(n1) => !self.maze.cells@[n1.idx as int].links.none_set(),
                        None => true,
                    },
            decreases 4 - j,
        {
            match nbs.get(j) {
                Some(n1) => {
                    if self.maze.cell(n1.idx).links().is_empty() {
                        cands.push(n1);
                    }
                }
                None => {}
            }
            j = j + 1;
        }
        if cands.len() == 0 {
            proof {
                assert forall|d: Neighbor| match #[trigger] self.maze.spec_nb(cell as int, d) {
                    Some(m) => !self.maze.cells@[m].links.none_set(),
                    None => true,
                } by {
                    assert(d == crate::maze::dir_order(0) || d == crate::maze::dir_order(1) || d
                        == crate::maze::dir_order(2) || d == crate::maze::dir_order(3));
                    assert(match nbs.inner@[0] {
                        Some(n1) => !self.maze.cells@[n1.idx as int].links.none_set(),
                        None => true,
                    });
                    assert(match nbs.inner@[1] {
                        Some(n1) => !self.maze.cells@[n1.idx as int].links.none_set(),
                        None => true,
                    });
                    assert(match nbs.inner@[2] {
                        Some(n1) => !self.maze.cells@[n1.idx as int].links.none_set(),
                        None => true,
                    });
                    assert(match nbs.inner@[3] {
                        Some(n1) => !self.maze.cells@[n1.idx as int].links.none_set(),
                        None => true,
                    });
                };
            }
            None
        } else {
            let i = rng.pick(cands.len());
            Some(cands[i])
        }
    }

    pub fn finished(&self) -> (r: bool)
        requires
            self.inv(),
        ensures
            r == self.finished_spec(),
    {
        matches!(self.steps[self.next], Step::Finished)
    }

    pub fn completed(&self) -> (r: bool)
        requires
            self.inv(),
        ensures
            r == (self.steps@.last() == Step::Finished),
    {
        matches!(self.steps[self.steps.len() - 1], Step::Finished)
    }

    pub fn steps_count(&self) -> (r: usize)
        ensures
            r == self.steps@.len(),
    {
        self.steps.len()
    }

    pub fn next_step(&self) -> (r: usize)
        ensures
            r == self.next,
    {
        self.next
    }

    pub fn maze(&self) -> (r: &Maze)
        ensures
            *r == self.maze,
    {
        &self.maze
    }

    /// Synthesize the next entry from the current state, which has just
    /// executed `cur` starting from the state `s0`; `popped` is the cell a
    /// backtrack step took off the stack.
    #[verifier::rlimit(100)]
    fn synthesize<R: RandomSource>(
        &self,
        rng: &mut R,
        cur: Step,
        popped: Option<usize>,
        Ghost(s0): Ghost<RbState>,
    ) -> (nx: Step)
        requires
            self.maze.wf(),
            cur != Step::Finished,
            step_enabled(s0, self.w(), cur),
            self.maze.cells@ == step_effect(s0, self.w(), cur).cells,
            self.stack@ == step_effect(s0, self.w(), cur).stack,
            cur == Step::BackTrack ==> match popped {
                Some(cell) => s0.stack.len() > 0 && cell == s0.stack.last(),
                None => s0.stack.len() == 0,
            },
        ensures
            step_enabled(step_effect(s0, self.w(), cur), self.w(), nx),
            succ_table(s0, self.w(), cur, nx),
            nx != Step::Empty,
    {
        let ghost w = self.w();
        let ghost s1 = step_effect(s0, w, cur);
        proof {
            assert(s1.cells.len() == s0.cells.len());
            assert(state_ok(s1)) by {
                match cur {
                    Step::Link(c, _n1) => {
                        assert forall|j: int| 0 <= j < s1.stack.len() implies (
                        #[trigger] s1.stack[j] as int) < s1.cells.len() by {
                            if j < s0.stack.len() {
                                assert(s0.stack[j] < s0.cells.len());
                            }
                        };
                    }
                    _ => {}
                }
            };
        }
        match cur {
            Step::Empty => {
                if self.maze.len() <= 1 {
                    Step::Finished
                } else {
                    Step::Walk(0)
                }
            }
            Step::Walk(cell) => {
                match self.unvisited_neighbor(rng, cell) {
                    Some(n1) => Step::Link(cell, n1),
                    None => Step::BackTrack,
                }
            }
            Step::BackTrack => {
                match popped {
                    Some(cell) => Step::Walk(cell),
                    None => Step::Finished,
                }
            }
            Step::Link(_, n1) => Step::Walk(n1.idx),
            Step::Finished => Step::Empty,  // unreachable: ruled out by requires
        }
    }

    /// Advance one micro-step: replay behind the frontier (consuming no
    /// randomness), synthesize and append at it. A no-op once finished.
    #[verifier::rlimit(100)]
    pub fn next<R: RandomSource>(&mut self, rng: &mut R)
        requires
            old(self).inv(),
        ensures
            final(self).inv(),
            final(self).maze.width == old(self).maze.width,
            final(self).maze.cells@.len() == old(self).maze.cells@.len(),
            old(self).finished_spec() ==> *final(self) == *old(self) && *final(rng) == *old(rng),
            !old(self).finished_spec() ==> {
                &&& final(self).next == old(self).next + 1
                &&& old(self).steps@.len() <= final(self).steps@.len() <= old(self).steps@.len()
                    + 1
                &&& final(self).steps@.subrange(0, old(self).steps@.len() as int) == old(
                    self,
                ).steps@
                &&& final(self).maze.cells@ == run_steps(
                    old(self).init_state(),
                    old(self).w(),
                    final(self).steps@,
                    old(self).next + 1,
                ).cells
            },
            !old(self).finished_spec() && (old(self).next as int) < old(self).steps@.len() - 1
                ==> final(self).steps@ == old(self).steps@ && *final(rng) == *old(rng),
            !old(self).finished_spec() && (old(self).next as int) == old(self).steps@.len() - 1
                ==> final(self).steps@.len() == old(self).steps@.len() + 1,
    {
        let cur = self.steps[self.next];
        if matches!(cur, Step::Finished) {
            return ;
        }
        let ghost init = self.init_state();
        let ghost w = self.w();
        let ghost log0 = self.steps@;
        let ghost k = self.next as int;
        proof {
            lemma_run_len(init, w, log0, k);
        }
        let mut popped: Option<usize> = None;
        match cur {
            Step::Link(c, n1) => {
                self.stack.push(c);
                self.maze.link(c, n1.dir);
            }
            Step::BackTrack => {
                match self.stack.pop() {
                    Some(cell) => {
                        self.completed.push(cell);
                        popped = Some(cell);
                    }
                    None => {}
                }
            }
            _ => {}
        }
        proof {
            let s1 = run_steps(init, w, log0, k + 1);
            assert(self.maze.cells@ == s1.cells && self.stack@ == s1.stack && self.completed@
                == s1.completed) by {
                match cur {
                    Step::BackTrack => {
                        if old(self).stack@.len() > 0 {
                            assert(self.stack@ =~= old(self).stack@.drop_last());
                        }
                    }
                    _ => {}
                }
            };
            assert(self.maze.sym()) by {
                match cur {
                    Step::Link(c, n1) => {
                        lemma_grid_write_sym(old(self).maze.cells@, w, c as int, n1.dir, true);
                    }
                    _ => {}
                }
            };
        }
        if self.next == self.steps.len() - 1 {
            let nx = self.synthesize(rng, cur, popped, Ghost(run_steps(init, w, log0, k)));
            proof {
                lemma_log_push(init, w, log0, nx);
                lemma_run_push(init, w, log0, nx, k + 1);
            }
            self.steps.push(nx);
            proof {
                assert(self.steps@.subrange(0, log0.len() as int) =~= log0);
            }
        } else {
            proof {
                assert(self.steps@.subrange(0, log0.len() as int) =~= log0);
            }
        }
        self.next = self.next + 1;
    }

    /// Undo one micro-step: the exact inverse of the step being left. A
    /// no-op at cursor zero.
    #[verifier::rlimit(80)]
    pub fn prev(&mut self)
        requires
            old(self).inv(),
        ensures
            final(self).inv(),
            old(self).next == 0 ==> *final(self) == *old(self),
            old(self).next > 0 ==> {
                &&& final(self).next == old(self).next - 1
                &&& final(self).steps@ == old(self).steps@
                &&& final(self).maze.width == old(self).maze.width
                &&& final(self).maze.cells@ == run_steps(
                    old(self).init_state(),
                    old(self).w(),
                    old(self).steps@,
                    old(self).next - 1,
                ).cells
            },
    {
        if self.next == 0 {
            return ;
        }
        self.next = self.next - 1;
        let cur = self.steps[self.next];
        let ghost init = self.init_state();
        let ghost w = self.w();
        let ghost log0 = self.steps@;
        let ghost k = self.next as int;
        let ghost s_prev = run_steps(init, w, log0, k);
        proof {
            lemma_run_len(init, w, log0, k);
            lemma_grid_unlinked_sym(w, init.cells.len());
            lemma_run_sym(init, w, log0, k);
            assert(step_enabled(s_prev, w, cur));
        }
        match cur {
            Step::Link(c, n1) => {
                proof {
                    lemma_sym_iff(s_prev.cells, w, c as int, n1.dir);
                    assert(!grid_has(s_prev.cells, c as int, n1.dir));
                    assert(!grid_has(s_prev.cells, n1.idx as int, n1.dir.opp()));
                    lemma_grid_write_undo(s_prev.cells, w, c as int, n1.dir, true);
                }
                self.stack.pop();
                self.maze.unlink(c, n1.dir);
                proof {
                    assert(self.stack@ =~= s_prev.stack);
                }
            }
            Step::BackTrack => {
                if !matches!(self.steps[self.next + 1], Step::Finished) {
                    proof {
                        assert(succ_table(s_prev, w, cur, log0[k + 1]));
                        assert(s_prev.stack.len() > 0);
                    }
                    let cell = self.completed.pop().unwrap();
                    self.stack.push(cell);
                    proof {
                        assert(self.completed@ =~= s_prev.completed);
                        assert(self.stack@ =~= s_prev.stack);
                    }
                } else {
                    proof {
                        assert(succ_table(s_prev, w, cur, log0[k + 1]));
                        assert(s_prev.stack.len() == 0);
                    }
                }
            }
            _ => {}
        }
    }
}

/// With the cursor at step zero nothing has been applied yet: the grid is
/// fully unlinked and the scratch state empty, whatever has been recorded
/// or undone before.
pub proof fn lemma_at_step_zero_unlinked(g: RecurBacktrackerGen)
    requires
        g.inv(),
        g.next == 0,
    ensures
        forall|c: int, d: Neighbor| !grid_has(g.maze.cells@, c, d),
        g.stack@.len() == 0,
        g.completed@.len() == 0,
{
    lemma_grid_unlinked_sym(g.w(), g.maze.cells@.len());
}

} // verus!
