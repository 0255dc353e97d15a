//! Binary Tree generation over the standalone `Grid`: every cell links to
//! a random one of its north/east neighbors, and the resulting link set is
//! returned symmetrically closed.

use vstd::prelude::*;

use crate::grid::{
    Cell, Direction, Grid, east_ok, lemma_row_major_ids, lemma_sym_closed_push2, north_ok,
    sym_closed,
};
use crate::rng::RandomSource;

verus! {

/// Cell `k` owns a north or east neighbor and therefore contributes a pair.
pub open spec fn eligible(g: Grid, k: int) -> bool {
    north_ok(g, k) || east_ok(g, k)
}

/// The link set a Binary Tree walk leaves behind after its first `k`
/// cells: each eligible cell appends exactly one pair towards its north or
/// east neighbor, immediately followed by that pair's mirror; every other
/// cell appends nothing.
pub open spec fn bt_shape(g: Grid, k: int, s: Seq<(i16, i16)>) -> bool
    decreases k,
{
    if k <= 0 {
        s.len() == 0
    } else if eligible(g, k - 1) {
        &&& s.len() >= 2
        &&& bt_shape(g, k - 1, s.subrange(0, s.len() - 2))
        &&& {
            let a = s[s.len() - 2];
            let b = s[s.len() - 1];
            &&& a.0 == (k - 1) as i16
            &&& ((north_ok(g, k - 1) && a.1 == (k - 1 + g.columns) as i16) || (east_ok(g, k - 1)
                && a.1 == (k - 1 + 1) as i16))
            &&& b == (a.1, a.0)
        }
    } else {
        bt_shape(g, k - 1, s)
    }
}

/// Collect the symmetric link set of a Binary Tree run over `grid`; the
/// caller installs it with `set_links`. For every outcome of the random
/// source, the result has exactly the per-cell shape `bt_shape` describes.
#[verifier::rlimit(100)]
pub fn binary_tree<R: RandomSource>(grid: &Grid, rng: &mut R) -> (r: Vec<(i16, i16)>)
    requires
        grid.wf(),
    ensures
        sym_closed(r@),
        bt_shape(*grid, grid.cells@.len() as int, r@),
{
    let mut result: Vec<(i16, i16)> = Vec::new();
    let count = grid.cells().len();
    let mut k: usize = 0;
    while k < count
        invariant
            grid.wf(),
            count == grid.cells@.len(),
            k <= count,
            sym_closed(result@),
            bt_shape(*grid, k as int, result@),
        decreases count - k,
    {
        let cell: Cell = grid.cells()[k];
        proof {
            lemma_row_major_ids(*grid, k as int);
        }
        let mut cands: Vec<i16> = Vec::new();
        let mut got_north: bool = false;
        let mut got_east: bool = false;
        match grid.neighbor(&cell, Direction::NORTH) {
            Some(c2) => {
                proof {
                    lemma_row_major_ids(*grid, k as int + grid.columns as int);
                }
                cands.push(c2.id());
                got_north = true;
            }
            None => {}
        }
        match grid.neighbor(&cell, Direction::EAST) {
            Some(c2) => {
                proof {
                    lemma_row_major_ids(*grid, k as int + 1);
                }
                cands.push(c2.id());
                got_east = true;
            }
            None => {}
        }
        proof {
            assert(got_north == north_ok(*grid, k as int));
            assert(got_east == east_ok(*grid, k as int));
        }
        if cands.len() > 0 {
            let t = cands[rng.pick(cands.len())];
            let ghost before = result@;
            proof {
                lemma_sym_closed_push2(result@, cell.id, t);
            }
            result.push((cell.id(), t));
            result.push((t, cell.id()));
            proof {
                assert(result@.subrange(0, result@.len() - 2) =~= before);
            }
        }
        k = k + 1;
    }
    result
}

} // verus!
