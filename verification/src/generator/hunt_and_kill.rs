//! Hunt-and-Kill generation: random-walk from cell to cell, linking into
//! unvisited neighbors; whenever the walk gets stuck, hunt for the first
//! unvisited cell adjacent to a visited one and continue from there. A cell
//! counts as visited exactly when it carries at least one link, so the
//! algorithm needs no scratch state besides the grid itself.

use vstd::prelude::*;

use crate::maze::{
    Cell, Maze, Neighbor, Neighbor1, dims_ok, grid_has, grid_link, grid_sym, grid_unlinked,
    lemma_grid_unlinked_sym, lemma_grid_write_sym, lemma_grid_write_undo, lemma_sym_iff, nb_at,
};
use crate::rng::RandomSource;

verus! {

/// One recorded micro-step of the Hunt-and-Kill algorithm.
#[derive(Clone, Copy, Debug, PartialEq, Eq, Structural)]
pub enum Step {
    /// The initial marker every log starts with.
    Empty,
    /// The walk stands on this cell and must choose where to go.
    Walk(usize),
    /// About to open the passage from this cell to the chosen neighbor.
    Link(usize, Neighbor1),
    /// The terminal marker.
    Finished,
}

/// When a step may stand at a point of the log where the grid is `s`. A
/// `Link` always has an unvisited endpoint, which is what makes it exactly
/// invertible.
pub open spec fn step_enabled(s: Seq<Cell>, w: nat, st: Step) -> bool {
    match st {
        Step::Empty => true,
        Step::Walk(c) => (c as int) < s.len(),
        Step::Link(c, n1) => {
            &&& (c as int) < s.len()
            &&& nb_at(w, s.len(), c as int, n1.dir) == Some(n1.idx as int)
            &&& (s[c as int].links.none_set() || s[n1.idx as int].links.none_set())
        },
        Step::Finished => true,
    }
}

pub open spec fn step_effect(s: Seq<Cell>, w: nat, st: Step) -> Seq<Cell> {
    match st {
        Step::Link(c, n1) => grid_link(s, w, c as int, n1.dir),
        _ => s,
    }
}

pub open spec fn run_steps(init: Seq<Cell>, w: nat, log: Seq<Step>, k: int) -> Seq<Cell>
    decreases k,
{
    if k <= 0 {
        init
    } else {
        step_effect(run_steps(init, w, log, k - 1), w, log[k - 1])
    }
}

/// Every existing neighbor of `c` already carries a link: the walk from
/// `c` has nowhere new to go.
pub open spec fn all_neighbors_visited(s: Seq<Cell>, w: nat, c: int) -> bool {
    forall|d: Neighbor| match #[trigger] nb_at(w, s.len(), c, d) {
        Some(m) => !s[m].links.none_set(),
        None => true,
    }
}

/// No existing neighbor of `c` carries a link: the hunt cannot enter here.
pub open spec fn all_neighbors_unvisited(s: Seq<Cell>, w: nat, c: int) -> bool {
    forall|d: Neighbor| match #[trigger] nb_at(w, s.len(), c, d) {
        Some(m) => s[m].links.none_set(),
        None => true,
    }
}

/// The hunt comes up empty: no unvisited cell touches a visited one.
pub open spec fn hunt_done(s: Seq<Cell>, w: nat) -> bool {
    forall|x: int|
        0 <= x < s.len() && (#[trigger] s[x]).links.none_set() ==> all_neighbors_unvisited(
            s,
            w,
            x,
        )
}

/// Which entries may follow which, judged at the state the first entry
/// executes in: a walk links one of its own unvisited neighbors, or — when
/// it has none — hunts an unvisited cell with a visited neighbor; the
/// terminal marker comes only when both the walk and the hunt are stuck.
pub open spec fn succ_table(s: Seq<Cell>, w: nat, cur: Step, nxt: Step) -> bool {
    match cur {
        Step::Empty => if s.len() <= 1 {
            nxt == Step::Finished
        } else {
            match nxt {
                Step::Walk(c2) => c2 == 0,
                _ => false,
            }
        },
        Step::Walk(c) => match nxt {
            Step::Link(c2, n1) => nb_at(w, s.len(), c2 as int, n1.dir) == Some(n1.idx as int)
                && ((c2 == c && s[n1.idx as int].links.none_set()) || (s[c2 as int]
                .links.none_set() && !s[n1.idx as int].links.none_set() && all_neighbors_visited(
                s,
                w,
                c as int,
            ))),
            Step::Finished => all_neighbors_visited(s, w, c as int) && hunt_done(s, w),
            _ => false,
        },
        Step::Link(_c, n1) => match nxt {
            Step::Walk(c2) => c2 == n1.idx,
            _ => false,
        },
        Step::Finished => false,
    }
}

pub open spec fn log_ok(init: Seq<Cell>, w: nat, log: Seq<Step>) -> bool {
    &&& 1 <= log.len()
    &&& log[0] == Step::Empty
    &&& forall|i: int| 1 <= i < log.len() ==> #[trigger] log[i] != Step::Empty
    &&& forall|i: int|
        0 <= i < log.len() ==> step_enabled(run_steps(init, w, log, i), w, #[trigger] log[i])
    &&& forall|i: int| 0 <= i < log.len() - 1 ==> #[trigger] log[i] != Step::Finished
    &&& forall|i: int| #![trigger log.index(i)]
        0 <= i < log.len() - 1 ==> succ_table(run_steps(init, w, log, i), w, log[i], log[i + 1])
}

/// A fresh entry that is enabled at the frontier and admissible after the
/// entry it follows extends a well-formed log to a well-formed log.
pub proof fn lemma_log_push(init: Seq<Cell>, w: nat, log: Seq<Step>, nx: Step)
    requires
        log_ok(init, w, log),
        log[log.len() - 1] != Step::Finished,
        nx != Step::Empty,
        step_enabled(run_steps(init, w, log, log.len() as int), w, nx),
        succ_table(run_steps(init, w, log, log.len() - 1), w, log[log.len() - 1], nx),
    ensures
        log_ok(init, w, log.push(nx)),
{
    let log2 = log.push(nx);
    assert forall|i: int|
        0 <= i < log2.len() implies step_enabled(
        run_steps(init, w, log2, i),
        w,
        #[trigger] log2[i],
    ) by {
        lemma_run_push(init, w, log, nx, i);
        if i < log.len() {
            assert(log2[i] == log[i]);
        }
    };
    assert forall|i: int| #![trigger log2.index(i)]
        0 <= i < log2.len() - 1 implies succ_table(
        run_steps(init, w, log2, i),
        w,
        log2[i],
        log2[i + 1],
    ) by {
        lemma_run_push(init, w, log, nx, i);
        assert(log2[i] == log[i]);
        if i < log.len() - 1 {
            assert(log2[i + 1] == log[i + 1]);
        }
    };
    assert forall|i: int| 1 <= i < log2.len() implies #[trigger] log2[i] != Step::Empty by {
        if i < log.len() {
            assert(log2[i] == log[i]);
        }
    };
    assert forall|i: int| 0 <= i < log2.len() - 1 implies #[trigger] log2[i] != Step::Finished by {
        assert(log2[i] == log[i]);
    };
}

pub proof fn lemma_run_len(init: Seq<Cell>, w: nat, log: Seq<Step>, k: int)
    requires
        0 <= k,
    ensures
        run_steps(init, w, log, k).len() == init.len(),
    decreases k,
{
    if k > 0 {
        lemma_run_len(init, w, log, k - 1);
    }
}

/// Appending to the log does not disturb the grid at earlier points.
pub proof fn lemma_run_push(init: Seq<Cell>, w: nat, log: Seq<Step>, st: Step, k: int)
    requires
        0 <= k <= log.len(),
    ensures
        run_steps(init, w, log.push(st), k) == run_steps(init, w, log, k),
    decreases k,
{
    if k > 0 {
        lemma_run_push(init, w, log, st, k - 1);
        assert(log.push(st)[k - 1] == log[k - 1]);
    }
}

/// Every grid along a well-formed log is symmetric.
pub proof fn lemma_run_sym(init: Seq<Cell>, w: nat, log: Seq<Step>, k: int)
    requires
        0 <= k,
        dims_ok(w, init.len()),
        grid_sym(init, w),
        forall|i: int|
            0 <= i < k ==> step_enabled(run_steps(init, w, log, i), w, #[trigger] log[i]),
    ensures
        grid_sym(run_steps(init, w, log, k), w),
        run_steps(init, w, log, k).len() == init.len(),
    decreases k,
{
    if k > 0 {
        lemma_run_sym(init, w, log, k - 1);
        let s = run_steps(init, w, log, k - 1);
        match log[k - 1] {
            Step::Link(c, n1) => {
                lemma_grid_write_sym(s, w, c as int, n1.dir, true);
            }
            _ => {}
        }
    }
}

/// The Hunt-and-Kill step machine.
pub struct HuntAndKillGen {
    pub maze: Maze,
    pub steps: Vec<Step>,
    pub next: usize,
}

impl HuntAndKillGen {
    pub open spec fn init_cells(self) -> Seq<Cell> {
        grid_unlinked(self.maze.cells@.len())
    }

    pub open spec fn w(self) -> nat {
        self.maze.width as nat
    }

    /// The machine's invariant: the maze always equals the replay of the
    /// log up to the cursor.
    pub open spec fn inv(self) -> bool {
        &&& self.maze.wf()
        &&& self.maze.sym()
        &&& (self.next as int) < self.steps@.len()
        &&& log_ok(self.init_cells(), self.w(), self.steps@)
        &&& self.maze.cells@ == run_steps(
            self.init_cells(),
            self.w(),
            self.steps@,
            self.next as int,
        )
    }

    pub open spec fn finished_spec(self) -> bool {
        self.steps@[self.next as int] == Step::Finished
    }

    pub fn new(width: usize, height: usize) -> (r: HuntAndKillGen)
        requires
            width * height <= usize::MAX,
        ensures
            r.inv(),
            r.next == 0,
            r.steps@ =~= seq![Step::Empty],
            r.maze.width == width,
            r.maze.cells@.len() == width * height,
            r.maze.cells@ == grid_unlinked((width * height) as nat),
    {
        let maze = Maze::new(width, height);
        let r = HuntAndKillGen { maze, next: 0, steps: vec![Step::Empty] };
        proof {
            assert(r.steps@[0] == Step::Empty);
            lemma_grid_unlinked_sym(r.w(), r.maze.cells@.len());
        }
        r
    }

    /// A random not-yet-visited neighbor of `cell` (no links at all);
    /// `None` exactly when every existing neighbor is already visited.
    pub fn unvisited_neighbor<R: RandomSource>(&self, rng: &mut R, cell: usize) -> (r: Option<
        Neighbor1,
    >)
        requires
            self.maze.wf(),
            cell < self.maze.cells@.len(),
        ensures
            match r {
                Some(n1) => {
                    &&& self.maze.spec_nb(cell as int, n1.dir) == Some(n1.idx as int)
                    &&& n1.idx < self.maze.cells@.len()
                    &&& self.maze.cells@[n1.idx as int].links.none_set()
                },
                None => all_neighbors_visited(self.maze.cells@, self.w(), cell as int),
            },
    {
        let mut cands: Vec<Neighbor1> = Vec::new();
        let nbs = self.maze.neighbors(cell);
        let mut j: usize = 0;
        while j < 4
            invariant
                j <= 4,
                self.maze.wf(),
                cell < self.maze.cells@.len(),
                nbs.inner@.len() == 4,
                forall|i: int| 0 <= i < 4 ==> match #[trigger] nbs.inner@[i] {
                    Some(n1) => n1.dir == crate::maze::dir_order(i) && self.maze.spec_nb(
                        cell as int,
                        crate::maze::dir_order(i),
                    ) == Some(n1.idx as int) && n1.idx < self.maze.cells@.len(),
                    None => self.maze.spec_nb(cell as int, crate::maze::dir_order(i)) is None,
                },
                forall|i: int| 0 <= i < cands@.len() ==> {
                    &&& self.maze.spec_nb(cell as int, #[trigger] cands@[i].dir) == Some(
                        cands@[i].idx as int,
                    )
                    &&& cands@[i].idx < self.maze.cells@.len()
                    &&& self.maze.cells@[cands@[i].idx as int].links.none_set()
                },
                cands@.len() == 0 ==> forall|t: int|
                    0 <= t < j ==> match #[trigger] nbs.inner@[t] {
                        Some(n1) => !self.maze.cells@[n1.idx as int].links.none_set(),
                        None => true,
                    },
            decreases 4 - j,
        {
            match nbs.get(j) {
                Some(n1) => {
                    if self.maze.cell(n1.idx).links().is_empty() {
                        cands.push(n1);
                    }
                }
                None => {}
            }
            j = j + 1;
        }
        if cands.len() == 0 {
            proof {
                assert forall|d: Neighbor| match #[trigger] self.maze.spec_nb(cell as int, d) {
                    Some(m) => !self.maze.cells@[m].links.none_set(),
                    None => true,
                } by {
                    assert(d == crate::maze::dir_order(0) || d == crate::maze::dir_order(1) || d
                        == crate::maze::dir_order(2) || d == crate::maze::dir_order(3));
                    assert(match nbs.inner@[0] {
                        Some(n1) => !self.maze.cells@[n1.idx as int].links.none_set(),
                        None => true,
                    });
                    assert(match nbs.inner@[1] {
                        Some(n1) => !self.maze.cells@[n1.idx as int].links.none_set(),
                        None => true,
                    });
                    assert(match nbs.inner@[2] {
                        Some(n1) => !self.maze.cells@[n1.idx as int].links.none_set(),
                        None => true,
                    });
                    assert(match nbs.inner@[3] {
                        Some(n1) => !self.maze.cells@[n1.idx as int].links.none_set(),
                        None => true,
                    });
                };
            }
            None
        } else {
            let i = rng.pick(cands.len());
            Some(cands[i])
        }
    }

    /// A random already-visited neighbor of `cell` (at least one link),
    /// returned together with `cell` itself; `None` exactly when every
    /// existing neighbor is still unvisited.
    pub fn neighbor_with_link<R: RandomSource>(&self, rng: &mut R, cell: usize) -> (r: Option<
        (usize, Neighbor1),
    >)
        requires
            self.maze.wf(),
            cell < self.maze.cells@.len(),
        ensures
            match r {
                Some((c, n1)) => {
                    &&& c == cell
                    &&& self.maze.spec_nb(cell as int, n1.dir) == Some(n1.idx as int)
                    &&& n1.idx < self.maze.cells@.len()
                    &&& !self.maze.cells@[n1.idx as int].links.none_set()
                },
                None => all_neighbors_unvisited(self.maze.cells@, self.w(), cell as int),
            },
    {
        let mut cands: Vec<Neighbor1> = Vec::new();
        let nbs = self.maze.neighbors(cell);
        let mut j: usize = 0;
        while j < 4
            invariant
                j <= 4,
                self.maze.wf(),
                cell < self.maze.cells@.len(),
                nbs.inner@.len() == 4,
                forall|i: int| 0 <= i < 4 ==> match #[trigger] nbs.inner@[i] {
                    Some(n1) => n1.dir == crate::maze::dir_order(i) && self.maze.spec_nb(
                        cell as int,
                        crate::maze::dir_order(i),
                    ) == Some(n1.idx as int) && n1.idx < self.maze.cells@.len(),
                    None => self.maze.spec_nb(cell as int, crate::maze::dir_order(i)) is None,
                },
                forall|i: int| 0 <= i < cands@.len() ==> {
                    &&& self.maze.spec_nb(cell as int, #[trigger] cands@[i].dir) == Some(
                        cands@[i].idx as int,
                    )
                    &&& cands@[i].idx < self.maze.cells@.len()
                    &&& !self.maze.cells@[cands@[i].idx as int].links.none_set()
                },
                cands@.len() == 0 ==> forall|t: int|
                    0 <= t < j ==> match #[trigger] nbs.inner@[t] {
                        Some(n1) => self.maze.cells@[n1.idx as int].links.none_set(),
                        None => true,
                    },
            decreases 4 - j,
        {
            match nbs.get(j) {
                Some(n1) => {
                    if self.maze.cell(n1.idx).links().is_partial() {
                        cands.push(n1);
                    }
                }
                None => {}
            }
            j = j + 1;
        }
        if cands.len() == 0 {
            proof {
                assert forall|d: Neighbor| match #[trigger] self.maze.spec_nb(cell as int, d) {
                    Some(m) => self.maze.cells@[m].links.none_set(),
                    None => true,
                } by {
                    assert(d == crate::maze::dir_order(0) || d == crate::maze::dir_order(1) || d
                        == crate::maze::dir_order(2) || d == crate::maze::dir_order(3));
                    assert(match nbs.inner@[0] {
                        Some(n1) => self.maze.cells@[n1.idx as int].links.none_set(),
                        None => true,
                    });
                    assert(match nbs.inner@[1] {
                        Some(n1) => self.maze.cells@[n1.idx as int].links.none_set(),
                        None => true,
                    });
                    assert(match nbs.inner@[2] {
                        Some(n1) => self.maze.cells@[n1.idx as int].links.none_set(),
                        None => true,
                    });
                    assert(match nbs.inner@[3] {
                        Some(n1) => self.maze.cells@[n1.idx as int].links.none_set(),
                        None => true,
                    });
                };
            }
            None
        } else {
            let i = rng.pick(cands.len());
            Some((cell, cands[i]))
        }
    }

    pub fn finished(&self) -> (r: bool)
        requires
            self.inv(),
        ensures
            r == self.finished_spec(),
    {
        matches!(self.steps[self.next], Step::Finished)
    }

    pub fn completed(&self) -> (r: bool)
        requires
            self.inv(),
        ensures
            r == (self.steps@.last() == Step::Finished),
    {
        matches!(self.steps[self.steps.len() - 1], Step::Finished)
    }

    pub fn steps_count(&self) -> (r: usize)
        ensures
            r == self.steps@.len(),
    {
        self.steps.len()
    }

    pub fn next_step(&self) -> (r: usize)
        ensures
            r == self.next,
    {
        self.next
    }

    pub fn maze(&self) -> (r: &Maze)
        ensures
            *r == self.maze,
    {
        &self.maze
    }

    /// Synthesize the next entry from the current state, which has just
    /// executed `cur` starting from the state `s0`.
    #[verifier::rlimit(100)]
    fn synthesize<R: RandomSource>(&self, rng: &mut R, cur: Step, Ghost(s0): Ghost<Seq<Cell>>)
        -> (nx: Step)
        requires
            self.maze.wf(),
            cur != Step::Finished,
            step_enabled(s0, self.w(), cur),
            self.maze.cells@ == step_effect(s0, self.w(), cur),
        ensures
            step_enabled(self.maze.cells@, self.w(), nx),
            succ_table(s0, self.w(), cur, nx),
            nx != Step::Empty,
    {
        let ghost w = self.w();
        match cur {
            Step::Empty => {
                if self.maze.len() <= 1 {
                    Step::Finished
                } else {
                    Step::Walk(0)
                }
            }
            Step::Walk(cell) => {
                proof {
                    assert(self.maze.cells@ == s0);
                }
                match self.unvisited_neighbor(rng, cell) {
                    Some(n1) => Step::Link(cell, n1),
                    None => {
                        // hunt: the first unvisited cell adjacent to a
                        // visited one
                        let mut found: Option<(usize, Neighbor1)> = None;
                        let mut idx: usize = 0;
                        let count = self.maze.len();
                        while idx < count && found.is_none()
                            invariant
                                self.maze.wf(),
                                count == self.maze.cells@.len(),
                                idx <= count,
                                match found {
                                    Some((c2, n2)) => {
                                        &&& (c2 as int) < self.maze.cells@.len()
                                        &&& self.maze.spec_nb(c2 as int, n2.dir) == Some(
                                            n2.idx as int,
                                        )
                                        &&& n2.idx < self.maze.cells@.len()
                                        &&& self.maze.cells@[c2 as int].links.none_set()
                                        &&& !self.maze.cells@[n2.idx as int].links.none_set()
                                    },
                                    None => forall|x: int|
                                        0 <= x < idx && (
                                        #[trigger] self.maze.cells@[x]).links.none_set()
                                            ==> all_neighbors_unvisited(
                                            self.maze.cells@,
                                            self.w(),
                                            x,
                                        ),
                                },
                            decreases count - idx,
                        {
                            if self.maze.cell(idx).links().is_empty() {
                                match self.neighbor_with_link(rng, idx) {
                                    Some((c2, n2)) => {
                                        found = Some((c2, n2));
                                    }
                                    None => {}
                                }
                            }
                            idx = idx + 1;
                        }
                        match found {
                            Some((c2, n2)) => Step::Link(c2, n2),
                            None => {
                                proof {
                                    assert(hunt_done(self.maze.cells@, w));
                                }
                                Step::Finished
                            }
                        }
                    }
                }
            }
            Step::Link(c, n1) => {
                proof {
                    crate::maze::lemma_nb_at_inverse(
                        self.w(),
                        s0.len(),
                        c as int,
                        n1.dir,
                    );
                }
                Step::Walk(n1.idx)
            }
            Step::Finished => Step::Walk(0),  // unreachable: ruled out by requires
        }
    }

    /// Advance one micro-step: replay behind the frontier (consuming no
    /// randomness), synthesize and append at it. A no-op once finished.
    #[verifier::rlimit(80)]
    pub fn next<R: RandomSource>(&mut self, rng: &mut R)
        requires
            old(self).inv(),
        ensures
            final(self).inv(),
            final(self).maze.width == old(self).maze.width,
            final(self).maze.cells@.len() == old(self).maze.cells@.len(),
            old(self).finished_spec() ==> *final(self) == *old(self) && *final(rng) == *old(rng),
            !old(self).finished_spec() ==> {
                &&& final(self).next == old(self).next + 1
                &&& old(self).steps@.len() <= final(self).steps@.len() <= old(self).steps@.len()
                    + 1
                &&& final(self).steps@.subrange(0, old(self).steps@.len() as int) == old(
                    self,
                ).steps@
                &&& final(self).maze.cells@ == run_steps(
                    old(self).init_cells(),
                    old(self).w(),
                    final(self).steps@,
                    old(self).next + 1,
                )
            },
            !old(self).finished_spec() && (old(self).next as int) < old(self).steps@.len() - 1
                ==> final(self).steps@ == old(self).steps@ && *final(rng) == *old(rng),
            !old(self).finished_spec() && (old(self).next as int) == old(self).steps@.len() - 1
                ==> final(self).steps@.len() == old(self).steps@.len() + 1,
    {
        let cur = self.steps[self.next];
        if matches!(cur, Step::Finished) {
            return ;
        }
        let ghost init = self.init_cells();
        let ghost w = self.w();
        let ghost log0 = self.steps@;
        let ghost k = self.next as int;
        proof {
            lemma_run_len(init, w, log0, k);
        }
        match cur {
            Step::Link(c, n1) => {
                self.maze.link(c, n1.dir);
            }
            _ => {}
        }
        proof {
            assert(self.maze.cells@ == run_steps(init, w, log0, k + 1));
            assert(self.maze.sym()) by {
                match cur {
                    Step::Link(c, n1) => {
                        lemma_grid_write_sym(old(self).maze.cells@, w, c as int, n1.dir, true);
                    }
                    _ => {}
                }
            };
        }
        if self.next == self.steps.len() - 1 {
            let nx = self.synthesize(rng, cur, Ghost(run_steps(init, w, log0, k)));
            proof {
                lemma_log_push(init, w, log0, nx);
                lemma_run_push(init, w, log0, nx, k + 1);
            }
            self.steps.push(nx);
            proof {
                assert(self.steps@.subrange(0, log0.len() as int) =~= log0);
            }
        } else {
            proof {
                assert(self.steps@.subrange(0, log0.len() as int) =~= log0);
            }
        }
        self.next = self.next + 1;
    }

    /// Undo one micro-step: the exact inverse of the step being left. A
    /// no-op at cursor zero.
    pub fn prev(&mut self)
        requires
            old(self).inv(),
        ensures
            final(self).inv(),
            old(self).next == 0 ==> *final(self) == *old(self),
            old(self).next > 0 ==> {
                &&& final(self).next == old(self).next - 1
                &&& final(self).steps@ == old(self).steps@
                &&& final(self).maze.width == old(self).maze.width
                &&& final(self).maze.cells@ == run_steps(
                    old(self).init_cells(),
                    old(self).w(),
                    old(self).steps@,
                    old(self).next - 1,
                )
            },
    {
        if self.next == 0 {
            return ;
        }
        self.next = self.next - 1;
        let cur = self.steps[self.next];
        let ghost init = self.init_cells();
        let ghost w = self.w();
        let ghost log0 = self.steps@;
        let ghost k = self.next as int;
        proof {
            lemma_run_len(init, w, log0, k);
            lemma_grid_unlinked_sym(w, init.len());
            lemma_run_sym(init, w, log0, k);
        }
        match cur {
            Step::Link(c, n1) => {
                let ghost s_prev = run_steps(init, w, log0, k);
                proof {
                    assert(step_enabled(s_prev, w, cur));
                    lemma_sym_iff(s_prev, w, c as int, n1.dir);
                    assert(!grid_has(s_prev, c as int, n1.dir));
                    assert(!grid_has(s_prev, n1.idx as int, n1.dir.opp()));
                    lemma_grid_write_undo(s_prev, w, c as int, n1.dir, true);
                }
                self.maze.unlink(c, n1.dir);
            }
            _ => {}
        }
    }
}

/// With the cursor at step zero nothing has been applied yet: the grid is
/// fully unlinked, whatever has been recorded or undone before.
pub proof fn lemma_at_step_zero_unlinked(g: HuntAndKillGen)
    requires
        g.inv(),
        g.next == 0,
    ensures
        forall|c: int, d: Neighbor| !grid_has(g.maze.cells@, c, d),
{
    lemma_grid_unlinked_sym(g.w(), g.maze.cells@.len());
}

} // verus!
