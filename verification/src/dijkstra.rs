//! Path-finding over a maze: flood-fill distances through passages, and
//! longest/shortest path extraction for overlays. On a completed maze the
//! link graph is a spanning tree, so a simple worklist suffices.

use vstd::prelude::*;

use crate::maze::{Maze, Neighbor};

verus! {

/// There is a passage leading from cell `a` to cell `b`.
pub open spec fn linked_adj(m: Maze, a: int, b: int) -> bool {
    exists|d: Neighbor| m.spec_nb(a, d) == Some(b) && m.spec_has(a, d)
}

/// Every consecutive pair of the sequence is joined by a passage.
pub open spec fn path_ok(m: Maze, p: Seq<usize>) -> bool {
    &&& forall|i: int| 0 <= i < p.len() ==> (#[trigger] p[i] as int) < m.cells@.len()
    &&& forall|i: int| 0 <= i < p.len() - 1 ==> linked_adj(m, #[trigger] p[i] as int, p[i + 1] as int)
}

/// `b` can be reached from `a` in at most `n` passages.
pub open spec fn reachable_in(m: Maze, a: int, b: int, n: nat) -> bool
    decreases n,
{
    a == b || (n > 0 && exists|mid: int|
        #[trigger] linked_adj(m, mid, b) && reachable_in(m, a, mid, (n - 1) as nat))
}

/// The sum of all entries, the potential that flood-fill burns down.
pub open spec fn sum_of(s: Seq<usize>) -> int
    decreases s.len(),
{
    if s.len() == 0 {
        0
    } else {
        sum_of(s.drop_last()) + s.last()
    }
}

proof fn lemma_sum_nonneg(s: Seq<usize>)
    ensures
        sum_of(s) >= 0,
    decreases s.len(),
{
    if s.len() > 0 {
        lemma_sum_nonneg(s.drop_last());
    }
}

/// Updating one entry moves the sum by exactly the difference.
proof fn lemma_sum_update(s: Seq<usize>, i: int, v: usize)
    requires
        0 <= i < s.len(),
    ensures
        sum_of(s.update(i, v)) == sum_of(s) - s[i] + v,
    decreases s.len(),
{
    if i == s.len() - 1 {
        assert(s.update(i, v).drop_last() =~= s.drop_last());
    } else {
        assert(s.update(i, v).drop_last() =~= s.drop_last().update(i, v));
        lemma_sum_update(s.drop_last(), i, v);
        assert(s.update(i, v).last() == s.last());
    }
}

/// Every passage out of `a` leads to a cell at most one step farther.
pub open spec fn settled(m: Maze, ds: Seq<usize>, a: int) -> bool {
    forall|b: int| #[trigger] linked_adj(m, a, b) ==> ds[b] <= ds[a] + 1
}

/// Some pending entry will re-settle `a`: it carries `a` at its current
/// distance plus one.
pub open spec fn has_witness(pend: Seq<(usize, usize)>, ds: Seq<usize>, a: int) -> bool {
    exists|q: int| 0 <= q < pend.len() && (#[trigger] pend[q]).0 == a && pend[q].1 == ds[a] + 1
}

/// Locally consistent distances bound every reachable cell: the flood
/// cannot overestimate once every cell is settled.
proof fn lemma_settled_bounds(m: Maze, from: int, ds: Seq<usize>, c: int, n: nat)
    requires
        ds.len() == m.cells@.len(),
        0 <= from < ds.len(),
        ds[from] == 0,
        forall|a: int| 0 <= a < ds.len() ==> #[trigger] settled(m, ds, a),
        0 <= c < ds.len(),
        reachable_in(m, from, c, n),
    ensures
        ds[c] as int <= n,
    decreases n,
{
    if c != from {
        let mid = choose|mid: int|
            #[trigger] linked_adj(m, mid, c) && reachable_in(m, from, mid, (n - 1) as nat);
        assert(0 <= mid < ds.len()) by {
            let d = choose|d: Neighbor| m.spec_nb(mid, d) == Some(c) && m.spec_has(mid, d);
            assert(m.spec_nb(mid, d) is Some);
        };
        lemma_settled_bounds(m, from, ds, mid, (n - 1) as nat);
        assert(settled(m, ds, mid));
        assert(linked_adj(m, mid, c));
    }
}

/// Exactly what `flood` computes: minimal passage counts from `from`,
/// the sentinel (the cell count) on unreachable cells. The two walk
/// clauses pin every entry, so any two vectors satisfying this agree.
pub open spec fn flood_post(m: Maze, from: int, ds: Seq<usize>) -> bool {
    &&& ds.len() == m.cells@.len()
    &&& 0 <= from < ds.len()
    &&& ds[from] == 0
    &&& forall|i: int| 0 <= i < ds.len() ==> #[trigger] ds[i] <= ds.len()
    &&& forall|i: int| 0 <= i < ds.len() ==> ((#[trigger] ds[i] == 0) <==> i == from)
    &&& forall|c: int|
        0 <= c < ds.len() && #[trigger] ds[c] < ds.len() ==> reachable_in(m, from, c, ds[c] as nat)
    &&& forall|c: int, n: nat|
        0 <= c < ds.len() && #[trigger] reachable_in(m, from, c, n) ==> ds[c] as int <= n
}

/// All facts the flood loop maintains about its distance vector.
pub open spec fn flood_inv(m: Maze, from: int, ds: Seq<usize>) -> bool {
    &&& ds.len() == m.cells@.len()
    &&& 0 <= from < ds.len()
    &&& ds[from] == 0
    &&& forall|j: int| 0 <= j < ds.len() ==> #[trigger] ds[j] <= ds.len()
    &&& forall|j: int| 0 <= j < ds.len() ==> ((#[trigger] ds[j] == 0) <==> j == from)
    &&& forall|c: int|
        0 <= c < ds.len() && #[trigger] ds[c] < ds.len() ==> reachable_in(m, from, c, ds[c] as nat)
}

/// All facts the flood loop maintains about its worklist.
pub open spec fn pend_inv(m: Maze, from: int, ds: Seq<usize>, pend: Seq<(usize, usize)>) -> bool {
    &&& forall|p: int|
        0 <= p < pend.len() ==> (#[trigger] pend[p]).0 < ds.len() && 1 <= pend[p].1 <= ds.len()
    &&& forall|p: int|
        0 <= p < pend.len() ==> reachable_in(m, from, (#[trigger] pend[p]).0 as int, (pend[p].1
            - 1) as nat)
}

/// Relax a single linked neighbor `target` of a popped cell: if it lies
/// farther than `distance`, pull it down and re-queue it. Distances never
/// grow, every cell keeps being settled or witnessed, and the potential
/// strictly drops whenever the worklist grows.
#[verifier::rlimit(100)]
fn relax_one(
    maze: &Maze,
    from: usize,
    distances: &mut Vec<usize>,
    pending: &mut Vec<(usize, usize)>,
    current: usize,
    distance: usize,
    target: usize,
)
    requires
        maze.wf(),
        maze.sym(),
        current < maze.spec_len(),
        1 <= distance <= maze.spec_len(),
        (target as int) < maze.spec_len(),
        target != current,
        linked_adj(*maze, current as int, target as int),
        flood_inv(*maze, from as int, old(distances)@),
        pend_inv(*maze, from as int, old(distances)@, old(pending)@),
        reachable_in(*maze, from as int, current as int, (distance - 1) as nat),
        forall|a: int|
            0 <= a < old(distances)@.len() && a != (current as int) ==> #[trigger] settled(
                *maze,
                old(distances)@,
                a,
            ) || has_witness(old(pending)@, old(distances)@, a),
    ensures
        flood_inv(*maze, from as int, final(distances)@),
        pend_inv(*maze, from as int, final(distances)@, final(pending)@),
        final(distances)@.len() == old(distances)@.len(),
        final(distances)@[target as int] <= distance,
        forall|x: int|
            0 <= x < old(distances)@.len() ==> final(distances)@[x] <= #[trigger] old(
                distances,
            )@[x],
        final(distances)@[current as int] == old(distances)@[current as int],
        forall|a: int|
            0 <= a < final(distances)@.len() && a != (current as int) ==> #[trigger] settled(
                *maze,
                final(distances)@,
                a,
            ) || has_witness(final(pending)@, final(distances)@, a),
        settled(*maze, old(distances)@, current as int) ==> settled(
            *maze,
            final(distances)@,
            current as int,
        ),
        has_witness(old(pending)@, old(distances)@, current as int) ==> has_witness(
            final(pending)@,
            final(distances)@,
            current as int,
        ),
        sum_of(final(distances)@) <= sum_of(old(distances)@),
        sum_of(final(distances)@) == sum_of(old(distances)@) ==> final(pending)@ == old(
            pending,
        )@,
{
    let total = maze.len();
    let ghost count = maze.spec_len();
    let dn = distances[target];
    if dn == total || dn > distance {
        proof {
            lemma_sum_update(distances@, target as int, distance);
            assert(reachable_in(*maze, from as int, target as int, distance as nat));
        }
        let ghost ds_old = distances@;
        distances.set(target, distance);
        proof {
            assert forall|a: int|
                0 <= a < count && a != (target as int) && settled(*maze, ds_old, a) implies
                settled(*maze, distances@, a) by {
                assert forall|b: int| #[trigger] linked_adj(*maze, a, b) implies distances@[b]
                    <= distances@[a] + 1 by {
                    assert(ds_old[b] <= ds_old[a] + 1);
                };
            };
            assert forall|a: int|
                0 <= a < count && a != (target as int) && has_witness(
                    pending@,
                    ds_old,
                    a,
                ) implies has_witness(pending@, distances@, a) by {
                let q = choose|q: int|
                    0 <= q < pending@.len() && (#[trigger] pending@[q]).0 == a && pending@[q].1
                        == ds_old[a] + 1;
                assert(pending@[q].1 == distances@[a] + 1);
            };
        }
        if distance < total {
            let ghost pend_mid = pending@;
            pending.push((target, distance + 1));
            proof {
                assert(pending@[pending@.len() - 1].0 == target && pending@[pending@.len() - 1].1
                    == distances@[target as int] + 1);
                assert(has_witness(pending@, distances@, target as int));
                assert forall|a: int|
                    0 <= a < count && has_witness(pend_mid, distances@, a) implies has_witness(
                    pending@,
                    distances@,
                    a,
                ) by {
                    let q = choose|q: int|
                        0 <= q < pend_mid.len() && (#[trigger] pend_mid[q]).0 == a && pend_mid[q].1
                            == distances@[a] + 1;
                    assert(pending@[q] == pend_mid[q]);
                };
            }
        } else {
            proof {
                // distance equals the sentinel: the entry kept its value
                assert(ds_old[target as int] == count);
                assert(distances@ =~= ds_old);
                assert(distances@ == ds_old);
            }
        }
    }
    proof {
        assert forall|a: int|
            0 <= a < distances@.len() && a != (current as int) implies #[trigger] settled(
            *maze,
            distances@,
            a,
        ) || has_witness(pending@, distances@, a) by {
            assert(settled(*maze, old(distances)@, a) || has_witness(
                old(pending)@,
                old(distances)@,
                a,
            ));
        };
    }
}

/// Relax every linked neighbor of `current`: any neighbor farther than
/// `distance` is pulled down to it and re-queued. Every cell ends settled
/// or with a live worklist witness, and the potential never grows.
#[verifier::rlimit(100)]
fn relax_neighbors(
    maze: &Maze,
    from: usize,
    distances: &mut Vec<usize>,
    pending: &mut Vec<(usize, usize)>,
    current: usize,
    distance: usize,
)
    requires
        maze.wf(),
        maze.sym(),
        current < maze.spec_len(),
        1 <= distance <= maze.spec_len(),
        flood_inv(*maze, from as int, old(distances)@),
        pend_inv(*maze, from as int, old(distances)@, old(pending)@),
        reachable_in(*maze, from as int, current as int, (distance - 1) as nat),
        forall|a: int|
            0 <= a < old(distances)@.len() && a != (current as int) ==> #[trigger] settled(
                *maze,
                old(distances)@,
                a,
            ) || has_witness(old(pending)@, old(distances)@, a),
        distance == old(distances)@[current as int] + 1 || settled(
            *maze,
            old(distances)@,
            current as int,
        ) || has_witness(old(pending)@, old(distances)@, current as int),
    ensures
        flood_inv(*maze, from as int, final(distances)@),
        pend_inv(*maze, from as int, final(distances)@, final(pending)@),
        forall|a: int|
            0 <= a < final(distances)@.len() ==> #[trigger] settled(*maze, final(distances)@, a)
                || has_witness(final(pending)@, final(distances)@, a),
        sum_of(final(distances)@) <= sum_of(old(distances)@),
        sum_of(final(distances)@) == sum_of(old(distances)@) ==> final(pending)@ == old(
            pending,
        )@,
{
    let ghost count = maze.spec_len();
    let ghost sum0 = sum_of(distances@);
    let ghost pend0 = pending@;
    let ghost dc0 = distances@[current as int];
    let nbs = maze.linked_neighbors(current);
    proof {
        assert forall|t: int|
            0 <= t < nbs@.len() implies (#[trigger] nbs@[t].idx as int) < count && nbs@[t].idx
                != current by {
            assert(maze.spec_nb(current as int, nbs@[t].dir) == Some(nbs@[t].idx as int));
            crate::maze::lemma_nb_at_inverse(
                maze.width as nat,
                maze.cells@.len(),
                current as int,
                nbs@[t].dir,
            );
        };
    }
    let mut j: usize = 0;
    while j < nbs.len()
        invariant
            maze.wf(),
            maze.sym(),
            count == maze.spec_len(),
            current < count,
            from < count,
            1 <= distance <= count,
            j <= nbs@.len(),
            forall|t: int| 0 <= t < nbs@.len() ==> (#[trigger] nbs@[t].idx as int) < count
                && nbs@[t].idx != current,
            forall|t: int| 0 <= t < nbs@.len() ==> maze.spec_nb(
                current as int,
                #[trigger] nbs@[t].dir,
            ) == Some(nbs@[t].idx as int) && maze.spec_has(current as int, nbs@[t].dir),
            forall|d: Neighbor| maze.spec_has(current as int, d) ==> crate::maze::has_dir(
                nbs@,
                d,
            ),
            flood_inv(*maze, from as int, distances@),
            pend_inv(*maze, from as int, distances@, pending@),
            reachable_in(*maze, from as int, current as int, (distance - 1) as nat),
            distances@[current as int] == dc0,
            forall|a: int|
                0 <= a < count && a != (current as int) ==> #[trigger] settled(
                    *maze,
                    distances@,
                    a,
                ) || has_witness(pending@, distances@, a),
            distance == dc0 + 1 || settled(*maze, distances@, current as int) || has_witness(
                pending@,
                distances@,
                current as int,
            ),
            forall|t: int| 0 <= t < j ==> distances@[#[trigger] nbs@[t].idx as int] <= distance,
            sum_of(distances@) <= sum0,
            sum_of(distances@) == sum0 ==> pending@ == pend0,
        decreases nbs@.len() - j,
    {
        let n1 = nbs[j];
        let ghost ds_before = distances@;
        proof {
            assert(maze.spec_nb(current as int, nbs@[j as int].dir) == Some(
                nbs@[j as int].idx as int,
            ));
            assert(linked_adj(*maze, current as int, n1.idx as int));
        }
        relax_one(maze, from, distances, pending, current, distance, n1.idx);
        proof {
            assert forall|t: int| 0 <= t < j + 1 implies distances@[#[trigger] nbs@[t].idx as int]
                <= distance by {
                if t < j {
                    assert(ds_before[nbs@[t].idx as int] <= distance);
                    assert(distances@[nbs@[t].idx as int] <= ds_before[nbs@[t].idx as int]);
                }
            };
        }
        j = j + 1;
    }
    proof {
        // once every neighbor sits within one step, current is settled
        if distance == dc0 + 1 {
            assert forall|b: int| #[trigger] linked_adj(*maze, current as int, b) implies
                distances@[b] <= distances@[current as int] + 1 by {
                let d = choose|d: Neighbor|
                    maze.spec_nb(current as int, d) == Some(b) && maze.spec_has(current as int, d);
                assert(crate::maze::has_dir(nbs@, d));
                let t = choose|t: int| 0 <= t < nbs@.len() && nbs@[t].dir == d;
                assert(nbs@[t].idx == b);
                assert(distances@[nbs@[t].idx as int] <= distance);
            };
            assert(settled(*maze, distances@, current as int));
        }
    }
}

/// Flood-fill distances from `from`, expanding over linked neighbors only.
/// The result is pinned exactly: every value below the sentinel is the
/// length of a real walk to that cell, and no cell ends up farther than
/// any walk that reaches it — so each entry is the minimal passage count,
/// and cells carrying the sentinel (the cell count) are unreachable.
#[verifier::rlimit(100)]
pub fn flood(from: usize, maze: &Maze) -> (r: Vec<usize>)
    requires
        maze.wf(),
        maze.sym(),
        maze.spec_len() > 0 ==> from < maze.spec_len(),
    ensures
        r@.len() == maze.spec_len(),
        maze.spec_len() > 0 ==> r@[from as int] == 0,
        forall|i: int| 0 <= i < r@.len() ==> #[trigger] r@[i] <= maze.spec_len(),
        forall|i: int| 0 <= i < r@.len() ==> ((r@[i] == 0) <==> i == from),
        forall|c: int|
            0 <= c < r@.len() && #[trigger] r@[c] < maze.spec_len() ==> reachable_in(
                *maze,
                from as int,
                c,
                r@[c] as nat,
            ),
        forall|c: int, n: nat|
            0 <= c < r@.len() && #[trigger] reachable_in(*maze, from as int, c, n) ==> r@[c] as int
                <= n,
        maze.spec_len() > 0 ==> flood_post(*maze, from as int, r@),
{
    let count = maze.len();
    if count == 0 {
        return Vec::new();
    }
    let mut distances: Vec<usize> = Vec::new();
    let mut i: usize = 0;
    while i < count
        invariant
            i <= count,
            distances@.len() == i,
            forall|j: int| 0 <= j < i ==> #[trigger] distances@[j] == count,
        decreases count - i,
    {
        distances.push(count);
        i = i + 1;
    }
    distances.set(from, 0);
    let mut pending: Vec<(usize, usize)> = Vec::new();
    pending.push((from, 1));
    proof {
        assert(reachable_in(*maze, from as int, from as int, 0));
        assert forall|a: int| 0 <= a < count && a != from implies settled(
            *maze,
            distances@,
            a,
        ) by {
            assert(distances@[a] == count);
        };
        assert(pending@[0].0 == from && pending@[0].1 == distances@[from as int] + 1);
        assert(has_witness(pending@, distances@, from as int));
        lemma_sum_nonneg(distances@);
    }
    while pending.len() > 0
        invariant
            maze.wf(),
            maze.sym(),
            count == maze.spec_len(),
            0 < count,
            from < count,
            flood_inv(*maze, from as int, distances@),
            pend_inv(*maze, from as int, distances@, pending@),
            forall|a: int|
                0 <= a < count ==> #[trigger] settled(*maze, distances@, a) || has_witness(
                    pending@,
                    distances@,
                    a,
                ),
        decreases sum_of(distances@), pending@.len(),
    {
        let ghost sum_head = sum_of(distances@);
        let ghost len_head = pending@.len();
        proof {
            lemma_sum_nonneg(distances@);
        }
        let ghost pend0 = pending@;
        let (current, distance) = pending.pop().unwrap();
        proof {
            // witnesses of other cells sat below the popped entry
            assert forall|a: int|
                0 <= a < count && a != (current as int) && has_witness(
                    pend0,
                    distances@,
                    a,
                ) implies has_witness(pending@, distances@, a) by {
                let q = choose|q: int|
                    0 <= q < pend0.len() && (#[trigger] pend0[q]).0 == a && pend0[q].1
                        == distances@[a] + 1;
                assert(pending@[q] == pend0[q]);
            };
            // current either keeps an older witness or was popped at its
            // live distance
            if !settled(*maze, distances@, current as int) {
                let q = choose|q: int|
                    0 <= q < pend0.len() && (#[trigger] pend0[q]).0 == current && pend0[q].1
                        == distances@[current as int] + 1;
                if q < pend0.len() - 1 {
                    assert(pending@[q] == pend0[q]);
                    assert(has_witness(pending@, distances@, current as int));
                } else {
                    assert(distance == distances@[current as int] + 1);
                }
            }
        }
        relax_neighbors(maze, from, &mut distances, &mut pending, current, distance);
        proof {
            lemma_sum_nonneg(distances@);
            assert(sum_of(distances@) < sum_head || (sum_of(distances@) == sum_head
                && pending@.len() < len_head));
        }
    }
    proof {
        assert forall|a: int| 0 <= a < count implies #[trigger] settled(
            *maze,
            distances@,
            a,
        ) by {
            if has_witness(pending@, distances@, a) {
                let q = choose|q: int|
                    0 <= q < pending@.len() && (#[trigger] pending@[q]).0 == a && pending@[q].1
                        == distances@[a] + 1;
            }
        };
        assert forall|c: int, n: nat|
            0 <= c < count && #[trigger] reachable_in(*maze, from as int, c, n) implies
            distances@[c] as int <= n by {
            lemma_settled_bounds(*maze, from as int, distances@, c, n);
        };
    }
    distances
}

/// The position `i` holds a largest element and is the last to do so.
pub open spec fn is_last_argmax(v: Seq<usize>, i: int) -> bool {
    &&& 0 <= i < v.len()
    &&& forall|j: int| 0 <= j < v.len() ==> #[trigger] v[j] <= v[i]
    &&& forall|j: int| i < j < v.len() ==> #[trigger] v[j] < v[i]
}

/// The position of a largest element; when several are equally large, the
/// last of them.
fn argmax(v: &Vec<usize>) -> (r: usize)
    requires
        v@.len() > 0,
    ensures
        is_last_argmax(v@, r as int),
{
    let mut best: usize = 0;
    let mut i: usize = 1;
    while i < v.len()
        invariant
            1 <= i <= v@.len(),
            best < i,
            forall|j: int| 0 <= j < i ==> #[trigger] v@[j] <= v@[best as int],
            forall|j: int| best < j < i ==> #[trigger] v@[j] < v@[best as int],
        decreases v@.len() - i,
    {
        if v[i] >= v[best] {
            best = i;
        }
        i = i + 1;
    }
    best
}

/// The linked neighbor of `current` with the smallest precomputed
/// distance; the first such neighbor when several are equally near.
fn nearest_linked_neighbor(maze: &Maze, distances: &[usize], current: usize) -> (r: Option<usize>)
    requires
        maze.wf(),
        maze.sym(),
        current < maze.spec_len(),
        distances@.len() == maze.spec_len(),
    ensures
        match r {
            Some(nxt) => linked_adj(*maze, current as int, nxt as int) && (nxt as int)
                < maze.spec_len(),
            None => true,
        },
{
    let nbs = maze.linked_neighbors(current);
    if nbs.len() == 0 {
        return None;
    }
    proof {
        assert forall|t: int|
            0 <= t < nbs@.len() implies (#[trigger] nbs@[t].idx as int) < maze.spec_len() by {
            assert(maze.spec_nb(current as int, nbs@[t].dir) == Some(nbs@[t].idx as int));
        };
    }
    let mut best: usize = 0;
    let mut bj: usize = 1;
    while bj < nbs.len()
        invariant
            1 <= bj <= nbs@.len(),
            best < bj,
            distances@.len() == maze.spec_len(),
            forall|t: int| 0 <= t < nbs@.len() ==> (#[trigger] nbs@[t].idx as int)
                < maze.spec_len(),
        decreases nbs@.len() - bj,
    {
        if distances[nbs[bj].idx] < distances[nbs[best].idx] {
            best = bj;
        }
        bj = bj + 1;
    }
    let chosen = nbs[best];
    proof {
        assert(linked_adj(*maze, current as int, chosen.idx as int)) by {
            assert(maze.spec_nb(current as int, chosen.dir) == Some(chosen.idx as int));
            assert(maze.spec_has(current as int, chosen.dir));
        };
    }
    Some(chosen.idx)
}

/// A passage can be walked in both directions: links are symmetric.
pub proof fn lemma_linked_adj_sym(m: Maze, a: int, b: int)
    requires
        m.wf(),
        m.sym(),
        linked_adj(m, a, b),
    ensures
        linked_adj(m, b, a),
{
    let d = choose|d: Neighbor| m.spec_nb(a, d) == Some(b) && m.spec_has(a, d);
    crate::maze::lemma_nb_at_inverse(m.width as nat, m.cells@.len(), a, d);
    crate::maze::lemma_sym_iff(m.cells@, m.width as nat, a, d);
    assert(m.spec_nb(b, d.opp()) == Some(a) && m.spec_has(b, d.opp()));
}

/// Reversing a linked walk gives a linked walk with the endpoints swapped,
/// and an inner cell stays inner.
#[verifier::rlimit(100)]
proof fn lemma_reversed_walk(m: Maze, b: Seq<usize>, p: Seq<usize>, from: usize, to: usize)
    requires
        m.wf(),
        m.sym(),
        b.len() >= 1,
        b[0] == to,
        path_ok(m, b),
        forall|i: int| 0 <= i < b.len() - 1 ==> #[trigger] b[i] != from,
        p.len() == b.len(),
        forall|k: int| 0 <= k < p.len() ==> #[trigger] p[k] == b[b.len() - 1 - k],
    ensures
        p.len() >= 1,
        p.last() == to,
        path_ok(m, p),
        p.contains(from) ==> p[0] == from,
{
    let count = b.len() as int;
    assert(p.last() == b[0]);
    assert forall|k: int| 0 <= k < p.len() - 1 implies linked_adj(
        m,
        #[trigger] p[k] as int,
        p[k + 1] as int,
    ) by {
        let j = count - 2 - k;
        assert(p[k] == b[j + 1]);
        assert(p[k + 1] == b[j]);
        assert(linked_adj(m, b[j] as int, b[j + 1] as int));
        lemma_linked_adj_sym(m, b[j] as int, b[j + 1] as int);
    };
    assert forall|k: int| 0 <= k < p.len() implies (#[trigger] p[k] as int) < m.cells@.len() by {
        assert(p[k] == b[count - 1 - k]);
    };
    if p.contains(from) {
        let k = choose|k: int| 0 <= k < p.len() && p[k] == from;
        assert(b[count - 1 - k] == from);
        assert(b.last() == from);
        assert(p[0] == b[count - 1]);
    }
}

/// The input in reverse order.
fn reversed(v: &Vec<usize>) -> (r: Vec<usize>)
    ensures
        r@.len() == v@.len(),
        forall|k: int| 0 <= k < r@.len() ==> #[trigger] r@[k] == v@[v@.len() - 1 - k],
{
    let count = v.len();
    let mut out: Vec<usize> = Vec::new();
    let mut i: usize = count;
    while i > 0
        invariant
            count == v@.len(),
            i <= count,
            out@.len() == count - i,
            forall|k: int| 0 <= k < out@.len() ==> #[trigger] out@[k] == v@[count - 1 - k],
        decreases i,
    {
        i = i - 1;
        out.push(v[i]);
    }
    out
}

/// Appending a linked neighbor of the tail keeps a walk linked.
proof fn lemma_path_extend(m: Maze, b: Seq<usize>, c: usize)
    requires
        path_ok(m, b),
        b.len() >= 1,
        linked_adj(m, b.last() as int, c as int),
        (c as int) < m.cells@.len(),
    ensures
        path_ok(m, b.push(c)),
{
    assert forall|i: int| 0 <= i < b.push(c).len() - 1 implies linked_adj(
        m,
        #[trigger] b.push(c)[i] as int,
        b.push(c)[i + 1] as int,
    ) by {
        if i < b.len() - 1 {
            assert(b.push(c)[i] == b[i]);
            assert(b.push(c)[i + 1] == b[i + 1]);
        } else {
            assert(b.push(c)[i] == b.last());
            assert(b.push(c)[i + 1] == c);
        }
    };
    assert forall|i: int| 0 <= i < b.push(c).len() implies (#[trigger] b.push(c)[i] as int)
        < m.cells@.len() by {
        if i < b.len() {
            assert(b.push(c)[i] == b[i]);
        }
    };
}

/// The raw backward walk: start at `to` and keep stepping to the nearest
/// linked neighbor until `from` is reached or no passage leads on.
#[verifier::rlimit(100)]
fn walk_toward_source(from: usize, to: usize, maze: &Maze, distances: &[usize]) -> (b: Vec<usize>)
    requires
        maze.wf(),
        maze.sym(),
        from < maze.spec_len(),
        to < maze.spec_len(),
        distances@.len() == maze.spec_len(),
    ensures
        b@.len() >= 1,
        b@[0] == to,
        path_ok(*maze, b@),
        forall|i: int| 0 <= i < b@.len() - 1 ==> #[trigger] b@[i] != from,
{
    let mut breadcrumbs: Vec<usize> = Vec::new();
    breadcrumbs.push(to);
    let mut current: usize = to;
    let mut fuel: usize = maze.len();
    let mut stuck: bool = false;
    while current != from && fuel > 0 && !stuck
        invariant
            maze.wf(),
            maze.sym(),
            from < maze.spec_len(),
            distances@.len() == maze.spec_len(),
            current < maze.spec_len(),
            breadcrumbs@.len() >= 1,
            breadcrumbs@[0] == to,
            breadcrumbs@.last() == current,
            path_ok(*maze, breadcrumbs@),
            forall|i: int| 0 <= i < breadcrumbs@.len() - 1 ==> #[trigger] breadcrumbs@[i] != from,
        decreases fuel,
    {
        fuel = fuel - 1;
        match nearest_linked_neighbor(maze, distances, current) {
            Some(chosen) => {
                proof {
                    lemma_path_extend(*maze, breadcrumbs@, chosen);
                }
                breadcrumbs.push(chosen);
                current = chosen;
            }
            None => {
                stuck = true;
            }
        }
    }
    breadcrumbs
}

/// Walk backward from `to`, at each step moving to the linked neighbor
/// with the smallest precomputed distance, until `from` is reached (or no
/// passage leads on), then return the walk reversed: an ordered sequence
/// of cell indices from source to destination. `distances` must have been
/// flooded from `from` for the walk to arrive; the result always ends at
/// `to`, follows passages only, and starts at `from` whenever it contains
/// it.
pub fn shortest_path(from: usize, to: usize, maze: &Maze, distances: &[usize]) -> (r: Vec<usize>)
    requires
        maze.wf(),
        maze.sym(),
        from < maze.spec_len(),
        to < maze.spec_len(),
        distances@.len() == maze.spec_len(),
    ensures
        r@.len() >= 1,
        r@.last() == to,
        path_ok(*maze, r@),
        r@.contains(from) ==> r@[0] == from,
{
    let breadcrumbs = walk_toward_source(from, to, maze, distances);
    // the walk went destination-first: hand it back source-first
    let path = reversed(&breadcrumbs);
    proof {
        lemma_reversed_walk(*maze, breadcrumbs@, path@, from, to);
    }
    path
}

/// The tree's diameter by double flood-fill: flood from an arbitrary cell,
/// take the farthest cell as the source, flood again, take its farthest
/// cell as the destination, and walk the shortest path between the two.
pub fn longest_path(maze: &Maze) -> (r: Vec<usize>)
    requires
        maze.wf(),
        maze.sym(),
    ensures
        maze.spec_len() == 0 ==> r@.len() == 0,
        maze.spec_len() > 0 ==> r@.len() >= 1,
        path_ok(*maze, r@),
{
    if maze.len() == 0 {
        return Vec::new();
    }
    let distances = flood(0, maze);
    let from = argmax(&distances);
    let new_distances = flood(from, maze);
    let to = argmax(&new_distances);
    shortest_path(from, to, maze, new_distances.as_slice())
}

} // verus!
