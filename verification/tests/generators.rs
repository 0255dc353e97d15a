use mazegen::dijkstra::{flood, longest_path, shortest_path};
use mazegen::generator::{Generator, MazeGen};
use mazegen::maze::{Maze, Neighbor};
use mazegen::rng::{SeededRandom, ZeroRandom};

const ALL: [Generator; 5] = [
    Generator::BinaryTree,
    Generator::Sidewind,
    Generator::Wilson,
    Generator::HuntAndKill,
    Generator::RecurBacktracker,
];

fn count_links(m: &Maze) -> usize {
    let mut total = 0;
    for c in 0..m.len() {
        for d in Neighbor::iter() {
            if m.cell(c).has_link(d) {
                total += 1;
            }
        }
    }
    total / 2
}

fn links_signature(m: &Maze) -> Vec<bool> {
    let mut sig = Vec::new();
    for c in 0..m.len() {
        for d in Neighbor::iter() {
            sig.push(m.cell(c).has_link(d));
        }
    }
    sig
}

fn assert_symmetric(m: &Maze) {
    for c in 0..m.len() {
        for d in Neighbor::iter() {
            match m.neighbor_at(c, d) {
                Some(n1) => {
                    assert_eq!(m.cell(c).has_link(d), m.cell(n1.idx).has_link(d.opposite()));
                }
                None => {
                    assert!(!m.cell(c).has_link(d));
                }
            }
        }
    }
}

#[test]
fn binary_tree_zero_rng_three_by_three() {
    // a source that always selects index zero makes Binary Tree link east
    // whenever the east neighbor exists, otherwise north
    let mut rng = ZeroRandom {};
    let mut g = MazeGen::create(Generator::BinaryTree, &mut rng, 3, 3);
    g.finish(&mut rng);
    let m = g.maze();
    for c in 0..m.len() {
        let east = m.neighbor_at(c, Neighbor::East);
        let north = m.neighbor_at(c, Neighbor::North);
        if east.is_some() {
            assert!(m.cell(c).has_link(Neighbor::East), "cell {} should link east", c);
        } else if north.is_some() {
            assert!(m.cell(c).has_link(Neighbor::North), "cell {} should link north", c);
        }
    }
    assert_eq!(count_links(m), 8);
}

#[test]
fn single_cell_grid_is_immediately_finished() {
    for which in ALL {
        let mut rng = SeededRandom::from_seed(42);
        let mut g = MazeGen::create(which, &mut rng, 1, 1);
        g.next(&mut rng);
        assert!(g.finished(), "{:?} should finish after the first step", which);
        assert_eq!(count_links(g.maze()), 0);
        assert_eq!(flood(0, g.maze()), vec![0]);
    }
}

#[test]
fn forward_then_backward_restores_blank_grid() {
    for which in ALL {
        let mut rng = SeededRandom::from_seed(99);
        let mut g = MazeGen::create(which, &mut rng, 4, 4);
        let mut n = 0;
        while !g.finished() {
            g.next(&mut rng);
            n += 1;
        }
        for _ in 0..n {
            g.prev();
        }
        assert_eq!(g.next_step(), 0, "{:?} should be back at step zero", which);
        assert_eq!(count_links(g.maze()), 0, "{:?} should have unlinked everything", which);
    }
}

#[test]
fn goto_step_reaches_every_recorded_step() {
    for which in ALL {
        let mut rng = SeededRandom::from_seed(5);
        let mut g = MazeGen::create(which, &mut rng, 3, 4);
        g.finish(&mut rng);
        let sc = g.steps_count();
        for s in 0..sc {
            g.goto_step(&mut rng, s);
            assert_eq!(g.next_step(), s, "{:?} did not reach step {}", which, s);
        }
    }
}

#[test]
fn replay_reproduces_link_state() {
    // from any step, undoing once and stepping forward once restores the
    // exact link state present before the undo
    for which in ALL {
        let mut rng = SeededRandom::from_seed(123);
        let mut g = MazeGen::create(which, &mut rng, 5, 4);
        g.finish(&mut rng);
        let sc = g.steps_count();
        for k in 1..sc {
            g.goto_step(&mut rng, k);
            let before = links_signature(g.maze());
            g.prev();
            g.next(&mut rng);
            assert_eq!(g.next_step(), k);
            assert_eq!(before, links_signature(g.maze()), "{:?} diverged at step {}", which, k);
        }
    }
}

#[test]
fn links_stay_symmetric_through_navigation() {
    for which in ALL {
        let mut rng = SeededRandom::from_seed(77);
        let mut g = MazeGen::create(which, &mut rng, 4, 3);
        while !g.finished() {
            g.next(&mut rng);
            assert_symmetric(g.maze());
        }
        for _ in 0..5 {
            g.prev();
            assert_symmetric(g.maze());
        }
    }
}

#[test]
fn finished_maze_is_a_spanning_tree() {
    // connected with exactly width*height - 1 passages, for all five
    for which in ALL {
        let mut rng = SeededRandom::from_seed(2024);
        let mut g = MazeGen::create(which, &mut rng, 4, 5);
        g.finish(&mut rng);
        assert!(g.finished() && g.completed());
        let m = g.maze();
        assert_eq!(count_links(m), 19, "{:?} did not carve a spanning tree", which);
        let distances = flood(0, m);
        for (i, d) in distances.iter().enumerate() {
            assert!(*d < 20, "{:?} left cell {} unreached", which, i);
        }
    }
}

#[test]
fn longest_path_is_at_least_any_shortest_path() {
    let mut rng = SeededRandom::from_seed(31);
    let mut g = MazeGen::create(Generator::RecurBacktracker, &mut rng, 5, 5);
    g.finish(&mut rng);
    let m = g.maze();
    let lp = longest_path(m);
    for (a, b) in [(0usize, 24usize), (3, 17), (7, 7), (20, 4)] {
        let distances = flood(a, m);
        let sp = shortest_path(a, b, m, &distances);
        assert!(
            lp.len() >= sp.len(),
            "diameter {} shorter than path {}..{} of {}",
            lp.len(),
            a,
            b,
            sp.len()
        );
    }
}

#[test]
fn flood_and_paths_exact_values() {
    let mut m = Maze::new(2, 2);
    m.link(0, Neighbor::East);
    m.link(0, Neighbor::South);
    m.link(2, Neighbor::East);
    assert_eq!(flood(0, &m), vec![0, 1, 1, 2]);
    let d0 = flood(0, &m);
    assert_eq!(shortest_path(0, 3, &m, &d0), vec![0, 2, 3]);
    assert_eq!(longest_path(&m), vec![3, 2, 0, 1]);
}

#[test]
fn completed_stays_true_behind_the_cursor() {
    let mut rng = SeededRandom::from_seed(8);
    let mut g = MazeGen::create(Generator::HuntAndKill, &mut rng, 3, 3);
    g.finish(&mut rng);
    assert!(g.completed());
    g.prev();
    g.prev();
    assert!(!g.finished());
    assert!(g.completed(), "completion is about the log, not the cursor");
}

#[test]
fn direct_generator_surface() {
    // the individual machines expose the same navigation surface
    let mut rng = SeededRandom::from_seed(3);
    let mut bt = mazegen::generator::binary_tree::BinaryTreeGen::new(2, 2);
    assert_eq!(bt.next_step(), 0);
    assert_eq!(bt.steps_count(), 1);
    assert!(!bt.finished());
    while !bt.finished() {
        bt.next(&mut rng);
    }
    assert!(bt.completed());
    assert_eq!(count_links(bt.maze()), 3);
    let mut hk = mazegen::generator::hunt_and_kill::HuntAndKillGen::new(2, 2);
    while !hk.finished() {
        hk.next(&mut rng);
    }
    assert_eq!(count_links(hk.maze()), 3);
    let mut rb = mazegen::generator::recur_backtracker::RecurBacktrackerGen::new(2, 2);
    while !rb.finished() {
        rb.next(&mut rng);
    }
    assert_eq!(count_links(rb.maze()), 3);
    let mut sw = mazegen::generator::sidewinder::SidewinderGen::new(2, 2);
    while !sw.finished() {
        sw.next(&mut rng);
    }
    assert_eq!(count_links(sw.maze()), 3);
    let mut wi = mazegen::generator::wilson::WilsonGen::new(&mut rng, 2, 2);
    while !wi.finished() {
        wi.next(&mut rng);
    }
    assert_eq!(count_links(wi.maze()), 3);
}

#[test]
fn prev_at_zero_and_next_at_finish_are_no_ops() {
    let mut rng = SeededRandom::from_seed(11);
    let mut g = MazeGen::create(Generator::Sidewind, &mut rng, 3, 3);
    g.prev();
    assert_eq!(g.next_step(), 0);
    g.finish(&mut rng);
    let sc = g.steps_count();
    let cur = g.next_step();
    g.next(&mut rng);
    assert_eq!(g.next_step(), cur);
    assert_eq!(g.steps_count(), sc);
}

#[test]
fn zero_sized_grids_are_degenerate_but_safe() {
    for which in ALL {
        let mut rng = SeededRandom::from_seed(1);
        let mut g = MazeGen::create(which, &mut rng, 0, 5);
        g.next(&mut rng);
        assert!(g.finished(), "{:?} should finish an empty grid at once", which);
        assert_eq!(count_links(g.maze()), 0);
        assert_eq!(flood(0, g.maze()), Vec::<usize>::new());
        assert_eq!(longest_path(g.maze()), Vec::<usize>::new());
    }
}

#[test]
fn replay_ignores_the_random_source() {
    // retracing previously-visited history reproduces the identical maze,
    // whatever random source is supplied during the replay
    for which in ALL {
        let mut rng = SeededRandom::from_seed(55);
        let mut g = MazeGen::create(which, &mut rng, 4, 4);
        g.finish(&mut rng);
        let recorded = links_signature(g.maze());
        let sc = g.steps_count();
        g.goto_step(&mut rng, 0);
        let mut other = SeededRandom::from_seed(999_999);
        while !g.finished() {
            g.next(&mut other);
        }
        assert_eq!(g.steps_count(), sc, "{:?} extended the log during replay", which);
        assert_eq!(recorded, links_signature(g.maze()), "{:?} replay diverged", which);
    }
}
