//! Sidewinder generation over the standalone `Grid`: runs of cells are
//! extended eastward and closed northward from a random member; the
//! resulting link set is returned symmetrically closed.

use vstd::prelude::*;

use crate::grid::{
    Cell, Direction, Grid, east_ok, lemma_row_major_ids, lemma_sym_closed_push2, north_ok,
    sym_closed,
};
use crate::rng::RandomSource;

verus! {

/// The link set a Sidewinder walk leaves behind after its first `k`
/// cells: each cell with a north or east neighbor appends exactly one
/// pair — eastward from itself, or northward from some earlier cell of
/// its run — immediately followed by that pair's mirror; every other cell
/// appends nothing.
pub open spec fn sw_shape(g: Grid, k: int, s: Seq<(i16, i16)>) -> bool
    decreases k,
{
    if k <= 0 {
        s.len() == 0
    } else if north_ok(g, k - 1) || east_ok(g, k - 1) {
        &&& s.len() >= 2
        &&& sw_shape(g, k - 1, s.subrange(0, s.len() - 2))
        &&& {
            let a = s[s.len() - 2];
            let b = s[s.len() - 1];
            &&& b == (a.1, a.0)
            &&& ((east_ok(g, k - 1) && a.0 == (k - 1) as i16 && a.1 == (k - 1 + 1) as i16) || (
            north_ok(g, k - 1) && exists|m: int|
                0 <= m < k && #[trigger] north_ok(g, m) && a.0 == m as i16 && a.1 == (m
                    + g.columns) as i16))
        }
    } else {
        sw_shape(g, k - 1, s)
    }
}

/// Collect the symmetric link set of a Sidewinder run over `grid`; the
/// caller installs it with `set_links`. For every outcome of the random
/// source, the result has exactly the per-cell shape `sw_shape` describes.
#[verifier::rlimit(100)]
pub fn sidewinder<R: RandomSource>(grid: &Grid, rng: &mut R) -> (r: Vec<(i16, i16)>)
    requires
        grid.wf(),
    ensures
        sym_closed(r@),
        sw_shape(*grid, grid.cells@.len() as int, r@),
{
    let mut result: Vec<(i16, i16)> = Vec::new();
    let mut run_buf: Vec<Cell> = Vec::new();
    let count = grid.cells().len();
    let mut k: usize = 0;
    while k < count
        invariant
            grid.wf(),
            count == grid.cells@.len(),
            k <= count,
            sym_closed(result@),
            sw_shape(*grid, k as int, result@),
            forall|t: int|
                0 <= t < run_buf@.len() ==> 0 <= (#[trigger] run_buf@[t]).id < k && run_buf@[t]
                    == grid.cells@[run_buf@[t].id as int],
        decreases count - k,
    {
        let cell: Cell = grid.cells()[k];
        proof {
            lemma_row_major_ids(*grid, k as int);
        }
        // the directions that stay inside the grid, north then east
        let mut cands: Vec<(Cell, Direction)> = Vec::new();
        let mut got_north: bool = false;
        let mut got_east: bool = false;
        let mut north_id: i16 = 0;
        match grid.neighbor(&cell, Direction::NORTH) {
            Some(c2) => {
                proof {
                    lemma_row_major_ids(*grid, k as int + grid.columns as int);
                    assert(north_ok(*grid, k as int));
                    assert(c2.id == (k as int + grid.columns as int) as i16);
                }
                cands.push((c2, Direction::NORTH));
                got_north = true;
                north_id = c2.id();
            }
            None => {}
        }
        match grid.neighbor(&cell, Direction::EAST) {
            Some(c2) => {
                proof {
                    lemma_row_major_ids(*grid, k as int + 1);
                    assert(east_ok(*grid, k as int));
                    assert(c2.id == (k as int + 1) as i16);
                }
                cands.push((c2, Direction::EAST));
                got_east = true;
            }
            None => {}
        }
        proof {
            assert(got_north == north_ok(*grid, k as int));
            assert(got_east == east_ok(*grid, k as int));
            assert(forall|t: int|
                0 <= t < cands@.len() ==> ((#[trigger] cands@[t]).1 == Direction::NORTH
                    && north_ok(*grid, k as int) && cands@[t].0.id == (k as int
                    + grid.columns as int) as i16) || (cands@[t].1 == Direction::EAST && east_ok(
                    *grid,
                    k as int,
                ) && cands@[t].0.id == (k as int + 1) as i16));
        }
        if cands.len() > 0 {
            let (target, dir) = cands[rng.pick(cands.len())];
            run_buf.push(cell);
            proof {
                assert(forall|t: int|
                    0 <= t < run_buf@.len() ==> 0 <= (#[trigger] run_buf@[t]).id < k + 1
                        && run_buf@[t] == grid.cells@[run_buf@[t].id as int]);
            }
            let ghost mut mw: int = 0;
            let pair: (i16, i16) = match dir {
                Direction::EAST => (cell.id(), target.id()),
                _ => {
                    // close the run: link a random member north; fall back
                    // to this cell if the drawn member lacks a north row
                    let member = run_buf[rng.pick(run_buf.len())];
                    proof {
                        lemma_row_major_ids(*grid, member.id as int);
                    }
                    let p: (i16, i16) = match grid.neighbor(&member, Direction::NORTH) {
                        Some(nb) => {
                            proof {
                                lemma_row_major_ids(
                                    *grid,
                                    member.id as int + grid.columns as int,
                                );
                                mw = member.id as int;
                                assert(north_ok(*grid, mw));
                                assert(nb.id == (mw + grid.columns) as i16);
                            }
                            (member.id(), nb.id())
                        }
                        None => {
                            proof {
                                mw = k as int;
                            }
                            (cell.id(), north_id)
                        }
                    };
                    run_buf.clear();
                    p
                }
            };
            proof {
                assert((east_ok(*grid, k as int) && pair.0 == k as i16 && pair.1 == (k as int
                    + 1) as i16) || (north_ok(*grid, k as int) && 0 <= mw < k as int + 1
                    && north_ok(*grid, mw) && pair.0 == mw as i16 && pair.1 == (mw
                    + grid.columns) as i16));
            }
            let ghost before = result@;
            proof {
                lemma_sym_closed_push2(result@, pair.0, pair.1);
            }
            result.push((pair.0, pair.1));
            result.push((pair.1, pair.0));
            proof {
                assert(result@.subrange(0, result@.len() - 2) =~= before);
                assert(sw_shape(*grid, k as int + 1, result@));
            }
        }
        k = k + 1;
    }
    result
}

} // verus!
