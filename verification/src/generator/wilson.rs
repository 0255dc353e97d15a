//! Wilson generation by loop-erased random walks: walk blindly from a
//! random unvisited cell; when the walk bites its own tail, erase the loop
//! (archiving it for undo); when it reaches a visited cell, commit the
//! whole walk as links, moving its cells out of the unvisited set; repeat
//! until no unvisited cell is left. Every loop erasure and every commit is
//! recorded so that it can be independently and order-exactly reversed.
//!
//! The proved contract of this machine ties the grid to the replay of the
//! log up to the cursor, next to the navigation discipline (append-only
//! log, replay consuming no randomness); the walk scratch (unvisited,
//! visited, current and archived walks) is exercised by tests.

use vstd::prelude::*;

use crate::maze::{
    Cell, Maze, Neighbor, dims_ok, grid_has, grid_link, grid_sym, grid_unlinked, grid_write,
    lemma_grid_unlinked_sym, lemma_grid_write_sym, lemma_grid_write_undo, lemma_nb_at_inverse,
    lemma_sym_iff, nb_at,
};
use crate::rng::RandomSource;
use vstd::arithmetic::div_mod::{lemma_fundamental_div_mod, lemma_fundamental_div_mod_converse};

verus! {

/// One committed passage: which cell was taken out of the unvisited list,
/// at which position it sat there, and which visited cell it was linked to.
#[derive(Clone, Copy, Debug, PartialEq, Eq, Structural)]
pub struct Link {
    pub unvisited_idx: usize,
    pub from: usize,
    pub to: usize,
}

/// One recorded micro-step of the Wilson algorithm.
#[derive(Clone, Copy, Debug, PartialEq, Eq, Structural)]
pub enum Step {
    /// The initial marker: seed the visited set with one cell.
    Empty,
    /// Begin a fresh walk at the last unvisited cell.
    StartWalk,
    /// The walk stands on this cell and must pick a direction.
    RandDir(usize),
    /// The walk moves from the first cell towards the second.
    Walk(usize, usize),
    /// The walk revisited this cell of its own path: erase the loop.
    EraseWalk(usize),
    /// The walk reached a visited cell: start committing it.
    FinishWalk(usize, usize),
    /// Commit one passage of the finished walk.
    Link(usize, usize),
    /// The terminal marker.
    Finished,
}

/// `b` is reachable from `a` in one step.
pub open spec fn is_adj(w: nat, n: nat, a: int, b: int) -> bool {
    exists|d: Neighbor| nb_at(w, n, a, d) == Some(b)
}

/// The unique direction that leads from `a` to its neighbor `b`.
pub open spec fn dir_to(w: nat, n: nat, a: int, b: int) -> Neighbor {
    choose|d: Neighbor| nb_at(w, n, a, d) == Some(b)
}

/// Adjacent cells are joined by exactly one direction.
pub proof fn lemma_dir_unique(w: nat, n: nat, a: int, b: int, d1: Neighbor, d2: Neighbor)
    requires
        dims_ok(w, n),
        0 <= a < n,
        nb_at(w, n, a, d1) == Some(b),
        nb_at(w, n, a, d2) == Some(b),
    ensures
        d1 == d2,
{
    lemma_nb_at_inverse(w, n, a, d1);
    lemma_nb_at_inverse(w, n, a, d2);
    assert(w >= 1);
    if d1 != d2 {
        assert(w == 1 ==> nb_at(w, n, a, Neighbor::East) is None && nb_at(
            w,
            n,
            a,
            Neighbor::West,
        ) is None);
    }
}

/// Every cell of a grid with at least two cells has some neighbor.
pub proof fn lemma_has_neighbor(w: nat, n: nat, c: int)
    requires
        dims_ok(w, n),
        n >= 2,
        0 <= c < n,
    ensures
        exists|d: Neighbor| nb_at(w, n, c, d) is Some,
{
    assert(w >= 1);
    if w == 1 {
        if c >= 1 {
            assert(nb_at(w, n, c, Neighbor::North) is Some);
        } else {
            assert(c + w < n);
            assert(nb_at(w, n, c, Neighbor::South) is Some);
        }
    } else {
        let wi = w as int;
        if c % wi != 0 {
            assert(nb_at(w, n, c, Neighbor::West) is Some);
        } else {
            assert((c + 1) % wi != 0) by {
                lemma_fundamental_div_mod(c, wi);
                lemma_fundamental_div_mod_converse(c + 1, wi, c / wi, 1);
            };
            assert(nb_at(w, n, c, Neighbor::East) is Some);
        }
    }
}

/// When a step may stand at a point of the log where the grid is `s`: a
/// commit joins two adjacent cells whose passage is still closed, which is
/// what makes its undo exact.
pub open spec fn step_enabled(s: Seq<Cell>, w: nat, st: Step) -> bool {
    match st {
        Step::RandDir(c) => (c as int) < s.len(),
        Step::Walk(c, n) => (c as int) < s.len() && (n as int) < s.len() && is_adj(
            w,
            s.len(),
            c as int,
            n as int,
        ),
        Step::EraseWalk(c) => (c as int) < s.len(),
        Step::FinishWalk(c, n) => (c as int) < s.len() && (n as int) < s.len() && is_adj(
            w,
            s.len(),
            c as int,
            n as int,
        ),
        Step::Link(f, t) => {
            &&& (f as int) < s.len()
            &&& (t as int) < s.len()
            &&& is_adj(w, s.len(), f as int, t as int)
            &&& !grid_has(s, f as int, dir_to(w, s.len(), f as int, t as int))
        },
        _ => true,
    }
}

/// What executing a step does to the grid: only a commit carves.
pub open spec fn step_effect(s: Seq<Cell>, w: nat, st: Step) -> Seq<Cell> {
    match st {
        Step::Link(f, t) => grid_link(s, w, f as int, dir_to(w, s.len(), f as int, t as int)),
        _ => s,
    }
}

/// The grid reached from `init` by executing the first `k` entries of `log`.
pub open spec fn run_steps(init: Seq<Cell>, w: nat, log: Seq<Step>, k: int) -> Seq<Cell>
    decreases k,
{
    if k <= 0 {
        init
    } else {
        step_effect(run_steps(init, w, log, k - 1), w, log[k - 1])
    }
}

/// Which entries may follow which, as far as the grid alone can tell: the
/// walk-bookkeeping successors (which cell a new walk seeds at, when a
/// commit chain ends) also depend on the unvisited list, so those rows
/// only pin the shape of what follows.
pub open spec fn succ_table(s: Seq<Cell>, w: nat, cur: Step, nxt: Step) -> bool {
    match cur {
        Step::Empty => if s.len() <= 1 {
            nxt == Step::Finished
        } else {
            nxt == Step::StartWalk
        },
        Step::StartWalk => match nxt {
            Step::RandDir(c2) => (c2 as int) < s.len(),
            Step::Finished => true,
            _ => false,
        },
        Step::RandDir(c) => match nxt {
            Step::Walk(c2, n2) => c2 == c && is_adj(w, s.len(), c as int, n2 as int) && (
            n2 as int) < s.len(),
            Step::Finished => s.len() <= 1,
            _ => false,
        },
        Step::Walk(c, n) => match nxt {
            Step::EraseWalk(e) => e == n,
            Step::RandDir(r2) => r2 == n,
            Step::FinishWalk(c2, n2) => c2 == c && n2 == n,
            _ => false,
        },
        Step::EraseWalk(c) => match nxt {
            Step::RandDir(c2) => c2 == c,
            _ => false,
        },
        Step::FinishWalk(c, n) => match nxt {
            Step::Link(c2, n2) => c2 == c && n2 == n,
            Step::StartWalk => grid_has(s, c as int, dir_to(w, s.len(), c as int, n as int)),
            Step::Finished => grid_has(s, c as int, dir_to(w, s.len(), c as int, n as int)),
            _ => false,
        },
        Step::Link(f, _t) => match nxt {
            Step::Link(t2, f2) => f2 == f && (t2 as int) < s.len(),
            Step::StartWalk => true,
            Step::Finished => true,
            _ => false,
        },
        Step::Finished => false,
    }
}

pub open spec fn log_ok(init: Seq<Cell>, w: nat, log: Seq<Step>) -> bool {
    &&& 1 <= log.len()
    &&& log[0] == Step::Empty
    &&& forall|i: int| 1 <= i < log.len() ==> #[trigger] log[i] != Step::Empty
    &&& forall|i: int|
        0 <= i < log.len() ==> step_enabled(run_steps(init, w, log, i), w, #[trigger] log[i])
    &&& forall|i: int| 0 <= i < log.len() - 1 ==> #[trigger] log[i] != Step::Finished
    &&& forall|i: int| #![trigger log.index(i)]
        0 <= i < log.len() - 1 ==> succ_table(run_steps(init, w, log, i), w, log[i], log[i + 1])
}

pub proof fn lemma_run_len(init: Seq<Cell>, w: nat, log: Seq<Step>, k: int)
    requires
        0 <= k,
    ensures
        run_steps(init, w, log, k).len() == init.len(),
    decreases k,
{
    if k > 0 {
        lemma_run_len(init, w, log, k - 1);
    }
}

/// Appending to the log does not disturb the grid at earlier points.
pub proof fn lemma_run_push(init: Seq<Cell>, w: nat, log: Seq<Step>, st: Step, k: int)
    requires
        0 <= k <= log.len(),
    ensures
        run_steps(init, w, log.push(st), k) == run_steps(init, w, log, k),
    decreases k,
{
    if k > 0 {
        lemma_run_push(init, w, log, st, k - 1);
        assert(log.push(st)[k - 1] == log[k - 1]);
    }
}

/// Every grid along a well-formed log is symmetric.
pub proof fn lemma_run_sym(init: Seq<Cell>, w: nat, log: Seq<Step>, k: int)
    requires
        0 <= k,
        dims_ok(w, init.len()),
        grid_sym(init, w),
        forall|i: int|
            0 <= i < k ==> step_enabled(run_steps(init, w, log, i), w, #[trigger] log[i]),
    ensures
        grid_sym(run_steps(init, w, log, k), w),
        run_steps(init, w, log, k).len() == init.len(),
    decreases k,
{
    if k > 0 {
        lemma_run_sym(init, w, log, k - 1);
        let s = run_steps(init, w, log, k - 1);
        match log[k - 1] {
            Step::Link(f, t) => {
                let d = dir_to(w, s.len(), f as int, t as int);
                if nb_at(w, s.len(), f as int, d) is Some {
                    lemma_grid_write_sym(s, w, f as int, d, true);
                }
            }
            _ => {}
        }
    }
}

/// A fresh entry that is enabled at the frontier and admissible after the
/// entry it follows extends a well-formed log to a well-formed log.
pub proof fn lemma_log_push(init: Seq<Cell>, w: nat, log: Seq<Step>, nx: Step)
    requires
        log_ok(init, w, log),
        log[log.len() - 1] != Step::Finished,
        nx != Step::Empty,
        step_enabled(run_steps(init, w, log, log.len() as int), w, nx),
        succ_table(run_steps(init, w, log, log.len() - 1), w, log[log.len() - 1], nx),
    ensures
        log_ok(init, w, log.push(nx)),
{
    let log2 = log.push(nx);
    assert forall|i: int|
        0 <= i < log2.len() implies step_enabled(
        run_steps(init, w, log2, i),
        w,
        #[trigger] log2[i],
    ) by {
        lemma_run_push(init, w, log, nx, i);
        if i < log.len() {
            assert(log2[i] == log[i]);
        }
    };
    assert forall|i: int| #![trigger log2.index(i)]
        0 <= i < log2.len() - 1 implies succ_table(
        run_steps(init, w, log2, i),
        w,
        log2[i],
        log2[i + 1],
    ) by {
        lemma_run_push(init, w, log, nx, i);
        assert(log2[i] == log[i]);
        if i < log.len() - 1 {
            assert(log2[i + 1] == log[i + 1]);
        }
    };
    assert forall|i: int| 1 <= i < log2.len() implies #[trigger] log2[i] != Step::Empty by {
        if i < log.len() {
            assert(log2[i] == log[i]);
        }
    };
    assert forall|i: int| 0 <= i < log2.len() - 1 implies #[trigger] log2[i] != Step::Finished by {
        assert(log2[i] == log[i]);
    };
}

/// Everything the undo of a commit needs: the recorded direction is the
/// unique one, both flags were clear before the commit, and carving the
/// passage back shut restores the exact previous grid.
proof fn lemma_uncommit(s_prev: Seq<Cell>, w: nat, from: usize, to: usize, d: Neighbor)
    requires
        dims_ok(w, s_prev.len()),
        grid_sym(s_prev, w),
        step_enabled(s_prev, w, Step::Link(from, to)),
        nb_at(w, s_prev.len(), from as int, d) == Some(to as int),
    ensures
        d == dir_to(w, s_prev.len(), from as int, to as int),
        !grid_has(s_prev, from as int, d),
        nb_at(w, s_prev.len(), from as int, d) is Some,
        grid_write(grid_write(s_prev, w, from as int, d, true), w, from as int, d, false)
            == s_prev,
{
    lemma_dir_unique(
        w,
        s_prev.len(),
        from as int,
        to as int,
        d,
        dir_to(w, s_prev.len(), from as int, to as int),
    );
    lemma_sym_iff(s_prev, w, from as int, d);
    lemma_grid_write_undo(s_prev, w, from as int, d, true);
}

/// The Wilson step machine.
pub struct WilsonGen {
    pub maze: Maze,
    pub unvisited: Vec<usize>,
    pub visited: Vec<usize>,
    pub links: Vec<Link>,
    pub current_walk: Vec<usize>,
    pub truncated_walk: Vec<usize>,
    pub steps: Vec<Step>,
    pub next: usize,
}

impl WilsonGen {
    pub open spec fn w(self) -> nat {
        self.maze.width as nat
    }

    /// The grid every run starts from: all cells walled in.
    pub open spec fn init_cells(self) -> Seq<Cell> {
        grid_unlinked(self.maze.cells@.len())
    }

    /// The machine's invariant: the grid always equals the replay of the
    /// log up to the cursor, and the walk scratch holds real cell indices.
    pub open spec fn inv(self) -> bool {
        &&& self.maze.wf()
        &&& self.maze.sym()
        &&& (self.next as int) < self.steps@.len()
        &&& log_ok(self.init_cells(), self.w(), self.steps@)
        &&& self.maze.cells@ == run_steps(
            self.init_cells(),
            self.w(),
            self.steps@,
            self.next as int,
        )
        &&& forall|i: int|
            0 <= i < self.unvisited@.len() ==> (#[trigger] self.unvisited@[i] as int)
                < self.maze.cells@.len()
        &&& forall|i: int|
            0 <= i < self.links@.len() ==> ((#[trigger] self.links@[i]).from as int)
                < self.maze.cells@.len()
        &&& forall|i: int|
            0 <= i < self.visited@.len() ==> (#[trigger] self.visited@[i] as int)
                < self.maze.cells@.len()
    }

    pub open spec fn finished_spec(self) -> bool {
        self.steps@[self.next as int] == Step::Finished
    }

    /// Build the generator, pre-shuffling the order in which unvisited
    /// cells will seed walks.
    pub fn new<R: RandomSource>(rng: &mut R, width: usize, height: usize) -> (r: WilsonGen)
        requires
            width * height <= usize::MAX,
        ensures
            r.inv(),
            r.next == 0,
            r.steps@ =~= seq![Step::Empty],
            r.maze.width == width,
            r.maze.cells@.len() == width * height,
            r.maze.cells@ == grid_unlinked((width * height) as nat),
            r.unvisited@.len() == width * height,
            forall|j: int|
                0 <= j < r.unvisited@.len() ==> (#[trigger] r.unvisited@[j] as int) < width
                    * height,
            forall|j1: int, j2: int|
                0 <= j1 < j2 < r.unvisited@.len() ==> r.unvisited@[j1] != r.unvisited@[j2],
            r.visited@.len() == 0,
            r.links@.len() == 0,
            r.current_walk@.len() == 0,
            r.truncated_walk@.len() == 0,
    {
        let maze = Maze::new(width, height);
        let count = maze.len();
        let mut unvisited: Vec<usize> = Vec::new();
        let mut i: usize = 0;
        while i < count
            invariant
                i <= count,
                unvisited@.len() == i,
                forall|j: int| 0 <= j < i ==> #[trigger] unvisited@[j] == j,
            decreases count - i,
        {
            unvisited.push(i);
            i = i + 1;
        }
        // Fisher-Yates shuffle driven by the caller's random source
        let mut k: usize = count;
        while k > 1
            invariant
                k <= count,
                unvisited@.len() == count,
                forall|j: int| 0 <= j < count ==> (#[trigger] unvisited@[j] as int) < count,
                forall|j1: int, j2: int|
                    0 <= j1 < j2 < count ==> unvisited@[j1] != unvisited@[j2],
            decreases k,
        {
            k = k - 1;
            let j = rng.pick(k + 1);
            let a = unvisited[k];
            let b = unvisited[j];
            unvisited.set(k, b);
            unvisited.set(j, a);
        }
        let r = WilsonGen {
            maze,
            next: 0,
            unvisited,
            visited: Vec::new(),
            links: Vec::new(),
            truncated_walk: Vec::new(),
            current_walk: Vec::new(),
            steps: vec![Step::Empty],
        };
        proof {
            assert(r.steps@[0] == Step::Empty);
            lemma_grid_unlinked_sym(r.w(), r.maze.cells@.len());
        }
        r
    }

    pub fn finished(&self) -> (r: bool)
        requires
            self.inv(),
        ensures
            r == self.finished_spec(),
    {
        matches!(self.steps[self.next], Step::Finished)
    }

    pub fn completed(&self) -> (r: bool)
        requires
            self.inv(),
        ensures
            r == (self.steps@.last() == Step::Finished),
    {
        matches!(self.steps[self.steps.len() - 1], Step::Finished)
    }

    pub fn steps_count(&self) -> (r: usize)
        ensures
            r == self.steps@.len(),
    {
        self.steps.len()
    }

    pub fn next_step(&self) -> (r: usize)
        ensures
            r == self.next,
    {
        self.next
    }

    pub fn maze(&self) -> (r: &Maze)
        ensures
            *r == self.maze,
    {
        &self.maze
    }

    /// Synthesize the next entry from the current state, which has just
    /// executed `cur` starting from the grid `s0`. `popped` is the walk
    /// cell a commit step took off the walk; `walk_hit`/`unv_hit` are the
    /// membership tests a walking step made before moving.
    #[verifier::rlimit(100)]
    fn synthesize<R: RandomSource>(
        &self,
        rng: &mut R,
        cur: Step,
        popped: Option<usize>,
        walk_hit: bool,
        unv_hit: bool,
        Ghost(s0): Ghost<Seq<Cell>>,
    ) -> (nx: Step)
        requires
            self.maze.wf(),
            cur != Step::Finished,
            step_enabled(s0, self.w(), cur),
            self.maze.cells@ == step_effect(s0, self.w(), cur),
            forall|i: int|
                0 <= i < self.unvisited@.len() ==> (#[trigger] self.unvisited@[i] as int)
                    < self.maze.cells@.len(),
        ensures
            step_enabled(self.maze.cells@, self.w(), nx),
            succ_table(s0, self.w(), cur, nx),
            nx != Step::Empty,
    {
        let ghost w = self.w();
        let count = self.maze.len();
        proof {
            assert(s0.len() == count);
        }
        match cur {
            Step::Empty => {
                if count <= 1 {
                    Step::Finished
                } else {
                    Step::StartWalk
                }
            }
            Step::StartWalk => {
                if self.unvisited.len() > 0 {
                    Step::RandDir(self.unvisited[self.unvisited.len() - 1])
                } else {
                    Step::Finished
                }
            }
            Step::RandDir(c) => {
                let nbs = self.maze.neighbors(c);
                let mut cands: Vec<usize> = Vec::new();
                let mut j: usize = 0;
                while j < 4
                    invariant
                        j <= 4,
                        self.maze.wf(),
                        (c as int) < self.maze.cells@.len(),
                        count == self.maze.cells@.len(),
                        nbs.inner@.len() == 4,
                        forall|i: int| 0 <= i < 4 ==> match #[trigger] nbs.inner@[i] {
                            Some(n1) => n1.dir == crate::maze::dir_order(i) && self.maze.spec_nb(
                                c as int,
                                crate::maze::dir_order(i),
                            ) == Some(n1.idx as int) && n1.idx < self.maze.cells@.len(),
                            None => self.maze.spec_nb(c as int, crate::maze::dir_order(i)) is None,
                        },
                        forall|t: int| 0 <= t < cands@.len() ==> is_adj(
                            self.w(),
                            self.maze.cells@.len(),
                            c as int,
                            (#[trigger] cands@[t]) as int,
                        ) && (cands@[t] as int) < self.maze.cells@.len(),
                        cands@.len() == 0 ==> forall|t: int|
                            0 <= t < j ==> #[trigger] nbs.inner@[t] is None,
                    decreases 4 - j,
                {
                    match nbs.get(j) {
                        Some(n1) => {
                            proof {
                                assert(nb_at(
                                    self.w(),
                                    self.maze.cells@.len(),
                                    c as int,
                                    crate::maze::dir_order(j as int),
                                ) == Some(n1.idx as int));
                            }
                            cands.push(n1.idx);
                        }
                        None => {}
                    }
                    j = j + 1;
                }
                if cands.len() > 0 {
                    let i = rng.pick(cands.len());
                    Step::Walk(c, cands[i])
                } else {
                    proof {
                        // only a single-cell grid leaves a cell neighborless
                        if count >= 2 {
                            lemma_has_neighbor(w, count as nat, c as int);
                            let d = choose|d: Neighbor| nb_at(w, count as nat, c as int, d) is Some;
                            assert(nb_at(w, count as nat, c as int, d) is Some);
                            assert(nbs.inner@[0] is None && nbs.inner@[1] is None && nbs.inner@[2]
                                is None && nbs.inner@[3] is None);
                            assert(self.maze.spec_nb(c as int, crate::maze::dir_order(0)) is None);
                            assert(self.maze.spec_nb(c as int, crate::maze::dir_order(1)) is None);
                            assert(self.maze.spec_nb(c as int, crate::maze::dir_order(2)) is None);
                            assert(self.maze.spec_nb(c as int, crate::maze::dir_order(3)) is None);
                            assert(d == crate::maze::dir_order(0) || d == crate::maze::dir_order(1)
                                || d == crate::maze::dir_order(2) || d == crate::maze::dir_order(
                                3,
                            ));
                            assert(false);
                        }
                    }
                    Step::Finished
                }
            }
            Step::Walk(c, n) => {
                if walk_hit {
                    Step::EraseWalk(n)
                } else if unv_hit {
                    Step::RandDir(n)
                } else {
                    Step::FinishWalk(c, n)
                }
            }
            Step::EraseWalk(c) => Step::RandDir(c),
            Step::FinishWalk(c, n) => {
                proof {
                    let dw = choose|dw: Neighbor|
                        nb_at(w, s0.len(), c as int, dw) == Some(n as int);
                    assert(nb_at(w, s0.len(), c as int, dw) == Some(n as int));
                    assert(self.maze.spec_nb(c as int, dw) == Some(n as int));
                }
                match self.maze.from_a_to_b(c, n) {
                    Some(d) => {
                        proof {
                            lemma_dir_unique(
                                w,
                                count as nat,
                                c as int,
                                n as int,
                                d,
                                dir_to(w, count as nat, c as int, n as int),
                            );
                        }
                        if !self.maze.cell(c).has_link(d) {
                            Step::Link(c, n)
                        } else {
                            // a passage already carved here would make the
                            // commit's undo inexact: end the walk instead
                            if self.unvisited.len() == 0 {
                                Step::Finished
                            } else {
                                Step::StartWalk
                            }
                        }
                    }
                    None => {
                        proof {
                            assert(false);
                        }
                        Step::Finished
                    }
                }
            }
            Step::Link(f, _t) => {
                match popped {
                    Some(t) if t < count => {
                        match self.maze.from_a_to_b(t, f) {
                            Some(d2) => {
                                if !self.maze.cell(t).has_link(d2) {
                                    proof {
                                        lemma_dir_unique(
                                            w,
                                            count as nat,
                                            t as int,
                                            f as int,
                                            d2,
                                            dir_to(w, count as nat, t as int, f as int),
                                        );
                                    }
                                    Step::Link(t, f)
                                } else {
                                    // already carved: end the chain here
                                    if self.unvisited.len() == 0 {
                                        Step::Finished
                                    } else {
                                        Step::StartWalk
                                    }
                                }
                            }
                            None => {
                                // the walk scratch no longer lines up with
                                // the grid: end the chain here
                                if self.unvisited.len() == 0 {
                                    Step::Finished
                                } else {
                                    Step::StartWalk
                                }
                            }
                        }
                    }
                    _ => {
                        if self.unvisited.len() == 0 {
                            Step::Finished
                        } else {
                            Step::StartWalk
                        }
                    }
                }
            }
            Step::Finished => Step::StartWalk,  // unreachable: ruled out by requires
        }
    }

    /// Advance one micro-step: replay behind the frontier (consuming no
    /// randomness), synthesize and append at it. A no-op once finished.
    #[verifier::rlimit(100)]
    pub fn next<R: RandomSource>(&mut self, rng: &mut R)
        requires
            old(self).inv(),
        ensures
            final(self).inv(),
            final(self).maze.width == old(self).maze.width,
            final(self).maze.cells@.len() == old(self).maze.cells@.len(),
            old(self).finished_spec() ==> *final(self) == *old(self) && *final(rng) == *old(rng),
            !old(self).finished_spec() ==> {
                &&& final(self).next == old(self).next + 1
                &&& old(self).steps@.len() <= final(self).steps@.len() <= old(self).steps@.len()
                    + 1
                &&& final(self).steps@.subrange(0, old(self).steps@.len() as int) == old(
                    self,
                ).steps@
                &&& final(self).maze.cells@ == run_steps(
                    old(self).init_cells(),
                    old(self).w(),
                    final(self).steps@,
                    old(self).next + 1,
                )
            },
            !old(self).finished_spec() && (old(self).next as int) < old(self).steps@.len() - 1
                ==> final(self).steps@ == old(self).steps@ && *final(rng) == *old(rng),
            !old(self).finished_spec() && (old(self).next as int) == old(self).steps@.len() - 1
                ==> final(self).steps@.len() == old(self).steps@.len() + 1,
    {
        let cur = self.steps[self.next];
        if matches!(cur, Step::Finished) {
            return ;
        }
        let ghost init = self.init_cells();
        let ghost w = self.w();
        let ghost log0 = self.steps@;
        let ghost k = self.next as int;
        let ghost s0 = run_steps(init, w, log0, k);
        proof {
            lemma_run_len(init, w, log0, k);
            assert(step_enabled(s0, w, cur));
        }
        // apply the effect of the step being executed; when replaying, this
        // is all that happens and no randomness is consumed
        let mut popped: Option<usize> = None;
        let mut walk_hit: bool = false;
        let mut unv_hit: bool = false;
        match cur {
            Step::Empty => {
                if self.maze.len() > 1 {
                    match self.unvisited.pop() {
                        Some(cell) => {
                            self.visited.push(cell);
                        }
                        None => {}
                    }
                }
            }
            Step::Walk(c, n) => {
                walk_hit = contains_cell(&self.current_walk, n);
                unv_hit = contains_cell(&self.unvisited, n);
                if walk_hit || unv_hit {
                    self.current_walk.push(c);
                }
            }
            Step::EraseWalk(c) => {
                match position_of(&self.current_walk, c) {
                    Some(idx) => {
                        let mut tail = self.current_walk.split_off(idx);
                        let n2 = tail.len();
                        self.truncated_walk.append(&mut tail);
                        self.truncated_walk.push(n2);
                    }
                    None => {}
                }
            }
            Step::Link(from, to) => {
                proof {
                    let dw = choose|dw: Neighbor|
                        nb_at(w, s0.len(), from as int, dw) == Some(to as int);
                    assert(nb_at(w, s0.len(), from as int, dw) == Some(to as int));
                    assert(self.maze.spec_nb(from as int, dw) == Some(to as int));
                }
                match self.maze.from_a_to_b(from, to) {
                    Some(d) => {
                        proof {
                            lemma_dir_unique(
                                w,
                                s0.len(),
                                from as int,
                                to as int,
                                d,
                                dir_to(w, s0.len(), from as int, to as int),
                            );
                            lemma_grid_write_sym(self.maze.cells@, w, from as int, d, true);
                        }
                        self.maze.link(from, d);
                        self.visited.push(from);
                        match position_of(&self.unvisited, from) {
                            Some(idx) => {
                                self.unvisited.swap_remove(idx);
                                self.links.push(Link { unvisited_idx: idx, from, to });
                            }
                            None => {}
                        }
                        if self.current_walk.len() > 0 {
                            popped = self.current_walk.pop();
                        }
                    }
                    None => {
                        proof {
                            assert(false);
                        }
                    }
                }
            }
            _ => {}
        }
        proof {
            assert(self.maze.cells@ == run_steps(init, w, log0, k + 1));
            assert(self.init_cells() == init);
        }
        if self.next == self.steps.len() - 1 {
            let nx = self.synthesize(rng, cur, popped, walk_hit, unv_hit, Ghost(s0));
            proof {
                lemma_log_push(init, w, log0, nx);
                lemma_run_push(init, w, log0, nx, k + 1);
            }
            self.steps.push(nx);
            proof {
                assert(self.steps@.subrange(0, log0.len() as int) =~= log0);
            }
        } else {
            proof {
                assert(self.steps@.subrange(0, log0.len() as int) =~= log0);
            }
        }
        self.next = self.next + 1;
    }

    /// Return the last committed cell to the unvisited slot it was taken
    /// from, sending the cell displaced back then to the end of the list.
    fn restore_scratch(&mut self)
        requires
            forall|i: int|
                0 <= i < old(self).unvisited@.len() ==> ((#[trigger] old(self).unvisited@[i]) as int)
                    < old(self).maze.cells@.len(),
            forall|i: int|
                0 <= i < old(self).links@.len() ==> (((#[trigger] old(self).links@[i]).from) as int)
                    < old(self).maze.cells@.len(),
            forall|i: int|
                0 <= i < old(self).visited@.len() ==> ((#[trigger] old(self).visited@[i]) as int)
                    < old(self).maze.cells@.len(),
        ensures
            final(self).maze == old(self).maze,
            final(self).steps == old(self).steps,
            final(self).next == old(self).next,
            final(self).current_walk == old(self).current_walk,
            final(self).truncated_walk == old(self).truncated_walk,
            forall|i: int|
                0 <= i < final(self).unvisited@.len() ==> ((#[trigger] final(self).unvisited@[i]) as int)
                    < final(self).maze.cells@.len(),
            forall|i: int|
                0 <= i < final(self).links@.len() ==> (((#[trigger] final(self).links@[i]).from) as int)
                    < final(self).maze.cells@.len(),
            forall|i: int|
                0 <= i < final(self).visited@.len() ==> ((#[trigger] final(self).visited@[i]) as int)
                    < final(self).maze.cells@.len(),
    {
        match self.links.pop() {
            Some(rec) => {
                self.visited.pop();
                if rec.unvisited_idx < self.unvisited.len() {
                    let moved = self.unvisited[rec.unvisited_idx];
                    self.unvisited.set(rec.unvisited_idx, rec.from);
                    self.unvisited.push(moved);
                } else {
                    self.unvisited.push(rec.from);
                }
            }
            None => {}
        }
    }

    /// Undo one micro-step: move the cursor back and invert the step being
    /// left; a committed passage is carved back shut exactly. A no-op at
    /// cursor zero.
    #[verifier::rlimit(100)]
    pub fn prev(&mut self)
        requires
            old(self).inv(),
        ensures
            final(self).inv(),
            old(self).next == 0 ==> *final(self) == *old(self),
            old(self).next > 0 ==> {
                &&& final(self).next == old(self).next - 1
                &&& final(self).steps@ == old(self).steps@
                &&& final(self).maze.width == old(self).maze.width
                &&& final(self).maze.cells@ == run_steps(
                    old(self).init_cells(),
                    old(self).w(),
                    old(self).steps@,
                    old(self).next - 1,
                )
            },
    {
        if self.next == 0 {
            return ;
        }
        self.next = self.next - 1;
        let cur = self.steps[self.next];
        let ghost init = self.init_cells();
        let ghost w = self.w();
        let ghost log0 = self.steps@;
        let ghost k = self.next as int;
        let ghost s_prev = run_steps(init, w, log0, k);
        proof {
            lemma_run_len(init, w, log0, k);
            lemma_grid_unlinked_sym(w, init.len());
            lemma_run_sym(init, w, log0, k);
            assert(step_enabled(s_prev, w, cur));
        }
        match cur {
            Step::Empty => {
                if self.maze.len() > 1 {
                    match self.visited.pop() {
                        Some(cell) => {
                            self.unvisited.push(cell);
                        }
                        None => {}
                    }
                }
            }
            Step::Walk(_c, _n) => {
                // the forward step pushed exactly when it did not finish
                if !matches!(self.steps[self.next + 1], Step::FinishWalk(_, _)) {
                    self.current_walk.pop();
                }
            }
            Step::EraseWalk(_c) => {
                match self.truncated_walk.pop() {
                    Some(n2) => {
                        if n2 <= self.truncated_walk.len() {
                            let at = self.truncated_walk.len() - n2;
                            let mut tail = self.truncated_walk.split_off(at);
                            self.current_walk.append(&mut tail);
                        }
                    }
                    None => {}
                }
            }
            Step::Link(from, to) => {
                proof {
                    let dw = choose|dw: Neighbor|
                        nb_at(w, s_prev.len(), from as int, dw) == Some(to as int);
                    assert(nb_at(w, s_prev.len(), from as int, dw) == Some(to as int));
                    assert(self.maze.spec_nb(from as int, dw) == Some(to as int));
                }
                match self.maze.from_a_to_b(from, to) {
                    Some(d) => {
                        proof {
                            // the commit carved a closed passage, so carving
                            // it back shut restores the exact previous grid
                            lemma_uncommit(s_prev, w, from, to, d);
                        }
                        self.maze.unlink(from, d);
                    }
                    None => {
                        proof {
                            assert(false);
                        }
                    }
                }
                self.restore_scratch();
                if let Step::Link(t, _f) = self.steps[self.next + 1] {
                    self.current_walk.push(t);
                }
            }
            _ => {}
        }
    }
}

/// The first position of `x` in `v`, by linear scan.
fn position_of(v: &Vec<usize>, x: usize) -> (r: Option<usize>)
    ensures
        match r {
            Some(i) => i < v@.len() && v@[i as int] == x && forall|j: int|
                0 <= j < i ==> v@[j] != x,
            None => !v@.contains(x),
        },
{
    let mut i: usize = 0;
    while i < v.len()
        invariant
            i <= v@.len(),
            forall|j: int| 0 <= j < i ==> v@[j] != x,
        decreases v@.len() - i,
    {
        if v[i] == x {
            return Some(i);
        }
        i = i + 1;
    }
    proof {
        if v@.contains(x) {
            let j = choose|j: int| 0 <= j < v@.len() && v@[j] == x;
            assert(v@[j] != x);
        }
    }
    None
}

fn contains_cell(v: &Vec<usize>, x: usize) -> (r: bool)
    ensures
        r == v@.contains(x),
{
    match position_of(v, x) {
        Some(i) => {
            proof {
                assert(v@[i as int] == x);
            }
            true
        }
        None => false,
    }
}

} // verus!
