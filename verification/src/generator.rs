//! The five maze generation algorithms, each a steppable, reversible,
//! replayable step machine, and the controller that dispatches a selected
//! algorithm through one uniform navigation surface.

pub mod binary_tree;
pub mod hunt_and_kill;
pub mod recur_backtracker;
pub mod sidewinder;
pub mod wilson;

use vstd::prelude::*;

use crate::maze::Maze;
use crate::rng::RandomSource;
use binary_tree::BinaryTreeGen;
use hunt_and_kill::HuntAndKillGen;
use recur_backtracker::RecurBacktrackerGen;
use sidewinder::SidewinderGen;
use wilson::WilsonGen;

verus! {

/// Which algorithm drives the generation.
#[derive(Clone, Copy, Debug, PartialEq, Eq, Structural)]
pub enum Generator {
    BinaryTree,
    Sidewind,
    Wilson,
    HuntAndKill,
    RecurBacktracker,
}

/// Which overlay to draw over a completed maze.
#[derive(Clone, Copy, Debug, PartialEq, Eq, Structural)]
pub enum Overlay {
    Distances,
    LongestPath,
}

/// A selected generator: a closed tagged variant, one case per algorithm,
/// dispatched through one shared navigation surface.
pub enum MazeGen {
    BinaryTree(Box<BinaryTreeGen>),
    Sidewind(Box<SidewinderGen>),
    Wilson(Box<WilsonGen>),
    HuntAndKill(Box<HuntAndKillGen>),
    RecurBacktracker(Box<RecurBacktrackerGen>),
}

impl MazeGen {
    pub open spec fn inv(self) -> bool {
        match self {
            MazeGen::BinaryTree(g) => g.inv(),
            MazeGen::Sidewind(g) => g.inv(),
            MazeGen::Wilson(g) => g.inv(),
            MazeGen::HuntAndKill(g) => g.inv(),
            MazeGen::RecurBacktracker(g) => g.inv(),
        }
    }

    /// The algorithm this generator runs.
    pub open spec fn kind(self) -> Generator {
        match self {
            MazeGen::BinaryTree(_) => Generator::BinaryTree,
            MazeGen::Sidewind(_) => Generator::Sidewind,
            MazeGen::Wilson(_) => Generator::Wilson,
            MazeGen::HuntAndKill(_) => Generator::HuntAndKill,
            MazeGen::RecurBacktracker(_) => Generator::RecurBacktracker,
        }
    }

    /// The cursor into the step log.
    pub open spec fn cursor(self) -> int {
        match self {
            MazeGen::BinaryTree(g) => g.next as int,
            MazeGen::Sidewind(g) => g.next as int,
            MazeGen::Wilson(g) => g.next as int,
            MazeGen::HuntAndKill(g) => g.next as int,
            MazeGen::RecurBacktracker(g) => g.next as int,
        }
    }

    /// How many entries the step log holds.
    pub open spec fn log_len(self) -> int {
        match self {
            MazeGen::BinaryTree(g) => g.steps@.len() as int,
            MazeGen::Sidewind(g) => g.steps@.len() as int,
            MazeGen::Wilson(g) => g.steps@.len() as int,
            MazeGen::HuntAndKill(g) => g.steps@.len() as int,
            MazeGen::RecurBacktracker(g) => g.steps@.len() as int,
        }
    }

    pub open spec fn finished_spec(self) -> bool {
        match self {
            MazeGen::BinaryTree(g) => g.finished_spec(),
            MazeGen::Sidewind(g) => g.finished_spec(),
            MazeGen::Wilson(g) => g.finished_spec(),
            MazeGen::HuntAndKill(g) => g.finished_spec(),
            MazeGen::RecurBacktracker(g) => g.finished_spec(),
        }
    }

    /// Whether the last entry of the log is the terminal marker: the
    /// algorithm has ever reached completion, wherever the cursor now sits.
    pub open spec fn completed_spec(self) -> bool {
        match self {
            MazeGen::BinaryTree(g) => g.steps@.last() == binary_tree::Step::Finished,
            MazeGen::Sidewind(g) => g.steps@.last() == sidewinder::Step::Finished,
            MazeGen::Wilson(g) => g.steps@.last() == wilson::Step::Finished,
            MazeGen::HuntAndKill(g) => g.steps@.last() == hunt_and_kill::Step::Finished,
            MazeGen::RecurBacktracker(g) => g.steps@.last() == recur_backtracker::Step::Finished,
        }
    }

    pub open spec fn maze_spec(self) -> Maze {
        match self {
            MazeGen::BinaryTree(g) => g.maze,
            MazeGen::Sidewind(g) => g.maze,
            MazeGen::Wilson(g) => g.maze,
            MazeGen::HuntAndKill(g) => g.maze,
            MazeGen::RecurBacktracker(g) => g.maze,
        }
    }

    /// The terminal marker can only sit at the very end of the log.
    pub proof fn lemma_finished_at_end(&self)
        requires
            self.inv(),
        ensures
            self.finished_spec() ==> self.cursor() == self.log_len() - 1,
    {
        if self.finished_spec() && self.cursor() < self.log_len() - 1 {
            match self {
                MazeGen::BinaryTree(g) => {
                    assert(g.steps@[g.next as int] != binary_tree::Step::Finished);
                }
                MazeGen::Sidewind(g) => {
                    assert(g.steps@[g.next as int] != sidewinder::Step::Finished);
                }
                MazeGen::Wilson(g) => {
                    assert(g.steps@[g.next as int] != wilson::Step::Finished);
                }
                MazeGen::HuntAndKill(g) => {
                    assert(g.steps@[g.next as int] != hunt_and_kill::Step::Finished);
                }
                MazeGen::RecurBacktracker(g) => {
                    assert(g.steps@[g.next as int] != recur_backtracker::Step::Finished);
                }
            }
        }
    }

    /// Build the selected algorithm over a fresh grid.
    pub fn create<R: RandomSource>(which: Generator, rng: &mut R, width: usize, height: usize)
        -> (r: MazeGen)
        requires
            width * height <= usize::MAX,
        ensures
            r.inv(),
            r.kind() == which,
            r.cursor() == 0,
            r.log_len() == 1,
            r.maze_spec().width == width,
            r.maze_spec().cells@.len() == width * height,
            forall|c: int, d: crate::maze::Neighbor| !crate::maze::grid_has(
                r.maze_spec().cells@,
                c,
                d,
            ),
    {
        let r = match which {
            Generator::BinaryTree => MazeGen::BinaryTree(Box::new(BinaryTreeGen::new(width, height))),
            Generator::Sidewind => MazeGen::Sidewind(Box::new(SidewinderGen::new(width, height))),
            Generator::Wilson => MazeGen::Wilson(Box::new(WilsonGen::new(rng, width, height))),
            Generator::HuntAndKill => MazeGen::HuntAndKill(
                Box::new(HuntAndKillGen::new(width, height)),
            ),
            Generator::RecurBacktracker => MazeGen::RecurBacktracker(
                Box::new(RecurBacktrackerGen::new(width, height)),
            ),
        };
        proof {
            crate::maze::lemma_grid_unlinked_sym(
                r.maze_spec().width as nat,
                r.maze_spec().cells@.len(),
            );
        }
        r
    }

    /// Advance one micro-step of the selected algorithm.
    #[verifier::rlimit(100)]
    pub fn next<R: RandomSource>(&mut self, rng: &mut R)
        requires
            old(self).inv(),
        ensures
            final(self).inv(),
            final(self).kind() == old(self).kind(),
            final(self).maze_spec().width == old(self).maze_spec().width,
            final(self).maze_spec().cells@.len() == old(self).maze_spec().cells@.len(),
            old(self).finished_spec() ==> *final(self) == *old(self),
            !old(self).finished_spec() ==> {
                &&& final(self).cursor() == old(self).cursor() + 1
                &&& old(self).log_len() <= final(self).log_len() <= old(self).log_len() + 1
            },
            !old(self).finished_spec() && old(self).cursor() < old(self).log_len() - 1
                ==> final(self).log_len() == old(self).log_len(),
    {
        match self {
            MazeGen::BinaryTree(g) => g.next(rng),
            MazeGen::Sidewind(g) => g.next(rng),
            MazeGen::Wilson(g) => g.next(rng),
            MazeGen::HuntAndKill(g) => g.next(rng),
            MazeGen::RecurBacktracker(g) => g.next(rng),
        }
    }

    /// Undo one micro-step of the selected algorithm.
    #[verifier::rlimit(100)]
    pub fn prev(&mut self)
        requires
            old(self).inv(),
        ensures
            final(self).inv(),
            final(self).kind() == old(self).kind(),
            final(self).maze_spec().width == old(self).maze_spec().width,
            final(self).maze_spec().cells@.len() == old(self).maze_spec().cells@.len(),
            old(self).cursor() == 0 ==> *final(self) == *old(self),
            old(self).cursor() > 0 ==> final(self).cursor() == old(self).cursor() - 1
                && final(self).log_len() == old(self).log_len(),
    {
        match self {
            MazeGen::BinaryTree(g) => g.prev(),
            MazeGen::Sidewind(g) => g.prev(),
            MazeGen::Wilson(g) => g.prev(),
            MazeGen::HuntAndKill(g) => g.prev(),
            MazeGen::RecurBacktracker(g) => g.prev(),
        }
    }

    /// Whether the step currently pointed to is the terminal marker.
    pub fn finished(&self) -> (r: bool)
        requires
            self.inv(),
        ensures
            r == self.finished_spec(),
    {
        match self {
            MazeGen::BinaryTree(g) => g.finished(),
            MazeGen::Sidewind(g) => g.finished(),
            MazeGen::Wilson(g) => g.finished(),
            MazeGen::HuntAndKill(g) => g.finished(),
            MazeGen::RecurBacktracker(g) => g.finished(),
        }
    }

    /// Whether the log has ever reached completion, wherever the cursor
    /// sits: true as soon as the last entry is the terminal marker.
    pub fn completed(&self) -> (r: bool)
        requires
            self.inv(),
        ensures
            r == self.completed_spec(),
            self.finished_spec() ==> r,
    {
        proof {
            self.lemma_finished_at_end();
        }
        match self {
            MazeGen::BinaryTree(g) => g.completed(),
            MazeGen::Sidewind(g) => g.completed(),
            MazeGen::Wilson(g) => g.completed(),
            MazeGen::HuntAndKill(g) => g.completed(),
            MazeGen::RecurBacktracker(g) => g.completed(),
        }
    }

    pub fn steps_count(&self) -> (r: usize)
        ensures
            r == self.log_len(),
    {
        match self {
            MazeGen::BinaryTree(g) => g.steps_count(),
            MazeGen::Sidewind(g) => g.steps_count(),
            MazeGen::Wilson(g) => g.steps_count(),
            MazeGen::HuntAndKill(g) => g.steps_count(),
            MazeGen::RecurBacktracker(g) => g.steps_count(),
        }
    }

    /// The current step: where the cursor sits in the log.
    pub fn next_step(&self) -> (r: usize)
        ensures
            r == self.cursor(),
    {
        match self {
            MazeGen::BinaryTree(g) => g.next_step(),
            MazeGen::Sidewind(g) => g.next_step(),
            MazeGen::Wilson(g) => g.next_step(),
            MazeGen::HuntAndKill(g) => g.next_step(),
            MazeGen::RecurBacktracker(g) => g.next_step(),
        }
    }

    /// Read-only access to the grid and its link state, for drawing.
    pub fn maze(&self) -> (r: &Maze)
        ensures
            *r == self.maze_spec(),
    {
        match self {
            MazeGen::BinaryTree(g) => g.maze(),
            MazeGen::Sidewind(g) => g.maze(),
            MazeGen::Wilson(g) => g.maze(),
            MazeGen::HuntAndKill(g) => g.maze(),
            MazeGen::RecurBacktracker(g) => g.maze(),
        }
    }

    /// Step backward or forward until the cursor sits on `step`; forward
    /// motion is bounded by the terminal marker. Every recorded step (any
    /// `step` up to `steps_count() - 1`) is reached exactly.
    pub fn goto_step<R: RandomSource>(&mut self, rng: &mut R, step: usize)
        requires
            old(self).inv(),
        ensures
            final(self).inv(),
            final(self).kind() == old(self).kind(),
            final(self).maze_spec().width == old(self).maze_spec().width,
            final(self).maze_spec().cells@.len() == old(self).maze_spec().cells@.len(),
            (step as int) <= old(self).cursor() ==> final(self).cursor() == step,
            old(self).cursor() < step && (step as int) <= old(self).log_len() - 1
                ==> final(self).cursor() == step,
            old(self).cursor() < step
                ==> final(self).cursor() == step || final(self).finished_spec(),
    {
        let ghost len0 = old(self).log_len();
        if step < self.next_step() {
            while step < self.next_step()
                invariant
                    self.inv(),
                    (step as int) <= self.cursor(),
                    self.kind() == old(self).kind(),
                    self.maze_spec().width == old(self).maze_spec().width,
                    self.maze_spec().cells@.len() == old(self).maze_spec().cells@.len(),
                decreases self.cursor(),
            {
                self.prev();
            }
        } else if step > self.next_step() {
            while step > self.next_step() && !self.finished()
                invariant
                    self.inv(),
                    self.cursor() <= step,
                    len0 <= self.log_len(),
                    self.kind() == old(self).kind(),
                    self.maze_spec().width == old(self).maze_spec().width,
                    self.maze_spec().cells@.len() == old(self).maze_spec().cells@.len(),
                decreases step - self.cursor(),
            {
                self.next(rng);
            }
            proof {
                if self.cursor() != step && (step as int) <= len0 - 1 {
                    self.lemma_finished_at_end();
                }
            }
        }
    }

    /// Run the algorithm forward until it reports `finished`.
    pub fn finish<R: RandomSource>(&mut self, rng: &mut R)
        requires
            old(self).inv(),
        ensures
            final(self).inv(),
            final(self).kind() == old(self).kind(),
            final(self).maze_spec().width == old(self).maze_spec().width,
            final(self).maze_spec().cells@.len() == old(self).maze_spec().cells@.len(),
            final(self).finished_spec() || final(self).log_len() > usize::MAX as int,
            old(self).finished_spec() ==> *final(self) == *old(self),
    {
        let mut fuel: usize = usize::MAX;
        while fuel > 0 && !self.finished()
            invariant
                self.inv(),
                self.kind() == old(self).kind(),
                self.maze_spec().width == old(self).maze_spec().width,
                self.maze_spec().cells@.len() == old(self).maze_spec().cells@.len(),
                self.cursor() >= usize::MAX - fuel,
                old(self).finished_spec() ==> *self == *old(self),
            decreases fuel,
        {
            self.next(rng);
            fuel = fuel - 1;
        }
        proof {
            if !self.finished_spec() {
                assert(self.cursor() >= usize::MAX);
                assert(self.log_len() > usize::MAX as int);
            }
        }
    }
}

} // verus!
