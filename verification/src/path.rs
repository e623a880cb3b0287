//! Passage-constrained pathfinding: an explicit-stack depth-first search
//! that records the cell each cell was discovered from, then reconstructs
//! the start-to-end path by walking those discovery links backwards. Over a
//! spanning tree that chain is exactly the unique passage path, whatever
//! order the branches were explored in.

use vstd::prelude::*;

use crate::MazeError;
use crate::generate::{
    count_true, lemma_count_true_le_len, lemma_count_true_update, lemma_count_true_zero,
    lemma_tree_connected, passages_adjacent, spans_grid,
};
use crate::passage::{
    edge, is_passage_walk, lemma_connected_stays_marked, lemma_connected_sym,
    lemma_connected_trans, there_is_no_passage_here,
};
use crate::rng::shuffle_cells;
use crate::topology::{
    adjacent, find_neighbors, has_down, has_left, has_right, has_up, lemma_adjacent_iff_neighbor,
};
use rand::rngs::SmallRng;

verus! {

/// Every passage out of `c` leads to a cell of the grid that is already
/// marked: nothing new can be discovered from `c`.
spec fn closed_out(vis: Seq<bool>, ps: Seq<(usize, usize)>, c: usize, n: int) -> bool {
    forall|d: usize| #[trigger] edge(ps, c, d) ==> d < n && vis[d as int]
}

/// The passage-connected, still-undiscovered continuations from `node`, the
/// moves the search may explore next. When every passage joins grid-adjacent
/// cells, the list together with the markers covers every passage out of
/// `node`.
#[verifier::loop_isolation(false)]
fn collect_continuations(
    node: usize,
    width: usize,
    height: usize,
    visited: &Vec<bool>,
    passages: &Vec<(usize, usize)>,
) -> (cands: Vec<usize>)
    requires
        width >= 1,
        height >= 1,
        width * height <= usize::MAX,
        node < width * height,
        visited@.len() == width * height,
    ensures
        forall|k: int|
            0 <= k < cands@.len() ==> (#[trigger] cands@[k]) < width * height && edge(
                passages@,
                node,
                cands@[k],
            ),
        passages_adjacent(passages@, width as int, height as int) ==> forall|b: usize|
            #[trigger] edge(passages@, node, b) ==> visited@[b as int] || cands@.contains(b),
{
    broadcast use vstd::seq_lib::lemma_seq_contains_after_push;

    let neigh = find_neighbors(node, width, height);
    let mut cands: Vec<usize> = Vec::new();
    let mut d: usize = 0;
    while d < 4
        invariant
            0 <= d <= 4,
            forall|k: int|
                0 <= k < cands@.len() ==> (#[trigger] cands@[k]) < width * height && edge(
                    passages@,
                    node,
                    cands@[k],
                ),
            forall|dd: int|
                0 <= dd < d && (#[trigger] neigh@[dd]).is_some() ==> visited@[neigh@[dd].unwrap() as int]
                    || !edge(passages@, node, neigh@[dd].unwrap()) || cands@.contains(
                    neigh@[dd].unwrap(),
                ),
        decreases 4 - d,
    {
        if let Some(n) = neigh[d] {
            proof {
                assert(neigh@[d as int].is_some());
            }
            if !visited[n] && !there_is_no_passage_here(node, n, passages) {
                cands.push(n);
            }
        }
        d = d + 1;
    }
    proof {
        if passages_adjacent(passages@, width as int, height as int) {
            assert forall|b: usize| #[trigger] edge(passages@, node, b) implies visited@[b as int]
                || cands@.contains(b) by {
                let i = choose|i: int|
                    0 <= i < passages@.len() && ((passages@[i].0 == node && passages@[i].1 == b)
                        || (passages@[i].0 == b && passages@[i].1 == node));
                assert(adjacent(
                    passages@[i].0 as int,
                    passages@[i].1 as int,
                    width as int,
                    height as int,
                ));
                assert(adjacent(node as int, b as int, width as int, height as int));
                lemma_adjacent_iff_neighbor(node as int, b as int, width as int, height as int);
                if has_up(node as int, width as int, height as int) && b as int == node + width {
                    assert(neigh@[0].is_some() && neigh@[0].unwrap() == b);
                } else if has_down(node as int, width as int) && b as int == node - width {
                    assert(neigh@[1].is_some() && neigh@[1].unwrap() == b);
                } else if has_left(node as int, width as int) && b as int == node - 1 {
                    assert(neigh@[2].is_some() && neigh@[2].unwrap() == b);
                } else if has_right(node as int, width as int) && b as int == node + 1 {
                    assert(neigh@[3].is_some() && neigh@[3].unwrap() == b);
                }
            }
        }
    }
    cands
}

/// Find the path from `start` to `end` through the passage list, leaving it
/// in `pruned_path`. The search follows only open passages, never raw grid
/// adjacency, and explores branches in an order drawn from `rng`; over a
/// spanning tree the resulting path is unique regardless of that order.
///
/// On success `pruned_path` holds a simple walk from `start` to `end`: its
/// first element is `start`, its last is `end`, every consecutive pair is
/// joined by a passage, no cell repeats, and it is no longer than the grid.
/// Success is owed whenever the passage list is a spanning tree of the grid
/// (`spans_grid`, what `find_passages` produces). A grid with a zero
/// dimension is reported as `InvalidDimensions`; a passage list over which
/// the search cannot reach `end` (one that breaks the spanning-tree
/// precondition) is reported as `UnreachableTarget`, never returned as a
/// wrong path.
#[verifier::loop_isolation(false)]
#[verifier::rlimit(60)]
pub fn find_path(
    start: usize,
    end: usize,
    width: usize,
    height: usize,
    passages: &Vec<(usize, usize)>,
    visited: &mut Vec<bool>,
    stack: &mut Vec<usize>,
    paths: &mut Vec<usize>,
    pruned_path: &mut Vec<usize>,
    rng: &mut SmallRng,
) -> (r: Result<(), MazeError>)
    requires
        width * height <= usize::MAX,
        width >= 1 && height >= 1 ==> start < width * height && end < width * height,
        old(visited)@.len() == width * height,
        forall|c: int| 0 <= c < old(visited)@.len() ==> !old(visited)@[c],
        old(stack)@.len() == 0,
        old(paths)@.len() == 0,
        old(pruned_path)@.len() == 0,
    ensures
        (width == 0 || height == 0) <==> r == Err::<(), MazeError>(MazeError::InvalidDimensions),
        width >= 1 && height >= 1 && start == end ==> r is Ok,
        (width >= 1 && height >= 1 && exists|root: usize|
            spans_grid(passages@, width as int, height as int, root)) ==> r is Ok,
        r is Ok ==> is_passage_walk(final(pruned_path)@, passages@, start, end),
        r is Ok ==> forall|i: int, j: int|
            0 <= i < j < final(pruned_path)@.len() ==> final(pruned_path)@[i] != final(pruned_path)@[j],
        r is Ok ==> final(pruned_path)@.len() <= width * height,
        r is Ok ==> forall|i: int|
            0 <= i < final(pruned_path)@.len() ==> (#[trigger] final(pruned_path)@[i]) < width
                * height,
        r is Ok && start == end ==> final(pruned_path)@ == seq![start],
{
    broadcast use vstd::seq_lib::lemma_seq_contains_after_push;

    if width == 0 || height == 0 {
        return Err(MazeError::InvalidDimensions);
    }
    let num_cells = width * height;

    if start == end {
        visited.set(start, true);
        pruned_path.push(start);
        proof {
            assert(pruned_path@ =~= seq![start]);
        }
        return Ok(());
    }

    proof {
        lemma_count_true_zero(old(visited)@);
        lemma_count_true_update(old(visited)@, start as int);
    }
    visited.set(start, true);
    stack.push(start);
    // one discovery link per cell, filled in as cells are found
    let mut i: usize = 0;
    while i < num_cells
        invariant
            0 <= i <= num_cells,
            paths@.len() == i,
        decreases num_cells - i,
    {
        paths.push(0);
        i = i + 1;
    }

    let ghost mut ord: Seq<int> = Seq::new(num_cells as nat, |c: int| 0);
    let ghost mut stamp: int = 1;

    while stack.len() > 0
        invariant
            visited@.len() == num_cells,
            paths@.len() == num_cells,
            ord.len() == num_cells,
            visited@[start as int],
            stamp == count_true(visited@),
            count_true(visited@) <= num_cells,
            forall|k: int|
                0 <= k < stack@.len() ==> (#[trigger] stack@[k]) < num_cells
                    && visited@[stack@[k] as int],
            forall|k1: int, k2: int| 0 <= k1 < k2 < stack@.len() ==> stack@[k1] != stack@[k2],
            forall|c: int| 0 <= c < num_cells && #[trigger] visited@[c] ==> 0 <= ord[c] < stamp,
            forall|c: int|
                0 <= c < num_cells && #[trigger] visited@[c] && c != start ==> paths@[c]
                    < num_cells && visited@[paths@[c] as int] && edge(
                    passages@,
                    paths@[c],
                    c as usize,
                ) && ord[paths@[c] as int] < ord[c],
            passages_adjacent(passages@, width as int, height as int) ==> forall|c: usize|
                c < num_cells && #[trigger] visited@[c as int] ==> stack@.contains(c)
                    || closed_out(visited@, passages@, c, num_cells as int),
        decreases stack@.len() + num_cells - count_true(visited@),
    {
        let ghost pre_stack = stack@;
        let node = stack.pop().unwrap();
        proof {
            assert(pre_stack[pre_stack.len() - 1] == node);
            assert forall|c: usize|
                pre_stack.contains(c) && c != node implies stack@.contains(c) by {
                let k = choose|k: int| 0 <= k < pre_stack.len() && pre_stack[k] == c;
                assert(k < pre_stack.len() - 1);
                assert(stack@[k] == c);
            }
        }
        let mut conts = collect_continuations(node, width, height, visited, passages);
        let ghost pre_shuffle = conts@;
        shuffle_cells(&mut conts, rng);
        proof {
            assert forall|k: int| 0 <= k < conts@.len() implies (#[trigger] conts@[k]) < num_cells
                && edge(passages@, node, conts@[k]) by {
                assert(conts@.contains(conts@[k]));
                assert(pre_shuffle.contains(conts@[k]));
                let w = choose|w: int| 0 <= w < pre_shuffle.len() && pre_shuffle[w] == conts@[k];
                assert(pre_shuffle[w] < num_cells && edge(passages@, node, pre_shuffle[w]));
            }
            assert forall|b: usize|
                passages_adjacent(passages@, width as int, height as int) && #[trigger] edge(
                    passages@,
                    node,
                    b,
                ) implies (b < num_cells && visited@[b as int]) || exists|k: int|
                0 <= k < conts@.len() && (#[trigger] conts@[k]) == b by {
                if !visited@[b as int] {
                    assert(pre_shuffle.contains(b));
                    assert(conts@.contains(b));
                    let k = choose|k: int| 0 <= k < conts@.len() && conts@[k] == b;
                    assert((#[trigger] conts@[k]) == b);
                }
            }
        }

        let ghost mid_diff = stack@.len() as int - count_true(visited@) as int;
        let mut i: usize = 0;
        while i < conts.len()
            invariant
                0 <= i <= conts@.len(),
                stack@.len() as int - count_true(visited@) as int == mid_diff,
                visited@.len() == num_cells,
                paths@.len() == num_cells,
                ord.len() == num_cells,
                visited@[start as int],
                node < num_cells,
                visited@[node as int],
                stamp == count_true(visited@),
                count_true(visited@) <= num_cells,
                forall|k: int|
                    0 <= k < stack@.len() ==> (#[trigger] stack@[k]) < num_cells
                        && visited@[stack@[k] as int],
                forall|k1: int, k2: int| 0 <= k1 < k2 < stack@.len() ==> stack@[k1] != stack@[k2],
                forall|c: int|
                    0 <= c < num_cells && #[trigger] visited@[c] ==> 0 <= ord[c] < stamp,
                forall|c: int|
                    0 <= c < num_cells && #[trigger] visited@[c] && c != start ==> paths@[c]
                        < num_cells && visited@[paths@[c] as int] && edge(
                        passages@,
                        paths@[c],
                        c as usize,
                    ) && ord[paths@[c] as int] < ord[c],
                passages_adjacent(passages@, width as int, height as int) ==> forall|c: usize|
                    c < num_cells && #[trigger] visited@[c as int] ==> stack@.contains(c)
                        || closed_out(visited@, passages@, c, num_cells as int) || c == node,
                forall|b: usize|
                    passages_adjacent(passages@, width as int, height as int) && #[trigger] edge(
                        passages@,
                        node,
                        b,
                    ) ==> (b < num_cells && visited@[b as int]) || exists|k: int|
                        i <= k < conts@.len() && (#[trigger] conts@[k]) == b,
            decreases conts@.len() - i,
        {
            let c = conts[i];
            if !visited[c] {
                let ghost pre_vis = visited@;
                let ghost pre_ord = ord;
                visited.set(c, true);
                paths.set(c, node);
                proof {
                    lemma_count_true_update(pre_vis, c as int);
                    ord = ord.update(c as int, stamp);
                    stamp = stamp + 1;
                    lemma_count_true_le_len(visited@);
                    // the fresh cell was on no stack entry, so pushing it
                    // keeps the entries distinct
                    assert forall|k: int| 0 <= k < stack@.len() implies (#[trigger] stack@[k])
                        != c by {
                        assert(pre_vis[stack@[k] as int]);
                    }
                    // discovery links of other cells do not point at the
                    // fresh cell, so their stamps are untouched
                    assert forall|d: int|
                        0 <= d < num_cells && #[trigger] visited@[d] && d != start && d != c as int
                        implies paths@[d] < num_cells && visited@[paths@[d] as int] && edge(
                        passages@,
                        paths@[d],
                        d as usize,
                    ) && ord[paths@[d] as int] < ord[d] by {
                        assert(pre_vis[d]);
                        assert(pre_vis[paths@[d] as int]);
                        assert(paths@[d] as int != c as int);
                    }
                }
                stack.push(c);
            }
            proof {
                assert forall|b: usize|
                    passages_adjacent(passages@, width as int, height as int) && #[trigger] edge(
                        passages@,
                        node,
                        b,
                    ) implies (b < num_cells && visited@[b as int]) || exists|k: int|
                    i + 1 <= k < conts@.len() && (#[trigger] conts@[k]) == b by {
                    if !(b < num_cells && visited@[b as int]) {
                        let k = choose|k: int| i <= k < conts@.len() && (#[trigger] conts@[k]) == b;
                        assert(visited@[c as int]);
                        assert(k != i);
                    }
                }
            }
            i = i + 1;
        }
        proof {
            if passages_adjacent(passages@, width as int, height as int) {
                assert forall|c: usize|
                    c < num_cells && #[trigger] visited@[c as int] implies stack@.contains(c)
                    || closed_out(visited@, passages@, c, num_cells as int) by {
                    if c == node {
                        assert forall|d: usize| #[trigger] edge(passages@, node, d) implies d
                            < num_cells && visited@[d as int] by {
                        }
                        assert(closed_out(visited@, passages@, node, num_cells as int));
                    }
                }
            }
        }
    }

    // the stack has drained; on a spanning tree the whole grid, `end`
    // included, has been discovered by now
    if !visited[end] {
        proof {
            if exists|root: usize| spans_grid(passages@, width as int, height as int, root) {
                let root = choose|root: usize|
                    spans_grid(passages@, width as int, height as int, root);
                lemma_tree_connected(passages@, root, start);
                lemma_tree_connected(passages@, root, end);
                lemma_connected_sym(passages@, root, start);
                lemma_connected_trans(passages@, start, root, end);
                assert forall|c: usize, d: usize|
                    c < visited@.len() && visited@[c as int] && #[trigger] edge(
                        passages@,
                        c,
                        d,
                    ) implies d < visited@.len() && visited@[d as int] by {
                    assert(!stack@.contains(c));
                    assert(closed_out(visited@, passages@, c, num_cells as int));
                }
                lemma_connected_stays_marked(visited@, passages@, start, end);
            }
        }
        return Err(MazeError::UnreachableTarget);
    }

    // walk the discovery links backwards from the end; they strictly
    // decrease in discovery time, so this chain is simple and reaches start
    let mut cur = end;
    pruned_path.push(end);
    proof {
        assert(pruned_path@ =~= seq![end]);
    }
    while cur != start
        invariant
            cur < num_cells,
            visited@[cur as int],
            pruned_path@.len() >= 1,
            pruned_path@[0] == cur,
            pruned_path@[pruned_path@.len() - 1] == end,
            forall|k: int|
                0 <= k < pruned_path@.len() ==> (#[trigger] pruned_path@[k]) < num_cells,
            forall|k: int|
                0 <= k < pruned_path@.len() - 1 ==> edge(
                    passages@,
                    #[trigger] pruned_path@[k],
                    pruned_path@[k + 1],
                ),
            forall|k1: int, k2: int|
                0 <= k1 < k2 < pruned_path@.len() ==> ord[pruned_path@[k1] as int] < ord[pruned_path@[k2] as int],
            pruned_path@.len() + ord[cur as int] <= num_cells,
            0 <= ord[cur as int],
        decreases ord[cur as int],
    {
        let prev = paths[cur];
        proof {
            assert(visited@[cur as int] && cur as int != start as int);
        }
        let ghost pre = pruned_path@;
        pruned_path.insert(0, prev);
        proof {
            assert(pruned_path@ =~= seq![prev] + pre);
            assert forall|k: int| 0 <= k < pruned_path@.len() - 1 implies edge(
                passages@,
                #[trigger] pruned_path@[k],
                pruned_path@[k + 1],
            ) by {
                if k >= 1 {
                    assert(pruned_path@[k] == pre[k - 1]);
                    assert(pruned_path@[k + 1] == pre[k]);
                }
            }
        }
        cur = prev;
    }
    proof {
        assert(is_passage_walk(pruned_path@, passages@, start, end));
        assert forall|i: int, j: int| 0 <= i < j < pruned_path@.len() implies pruned_path@[i]
            != pruned_path@[j] by {
            assert(ord[pruned_path@[i] as int] < ord[pruned_path@[j] as int]);
        }
    }
    Ok(())
}

/// The single next move from `start` toward `end`: the second cell of the
/// path that `find_path` computes, or `start` itself when the two coincide.
/// Each call is an independent, full re-search over the passage list; the
/// full path it found is left in `pruned_path`. As with `find_path`,
/// success is owed whenever the passage list is a spanning tree of the
/// grid.
pub fn next_node_in_path(
    start: usize,
    end: usize,
    width: usize,
    height: usize,
    passages: &Vec<(usize, usize)>,
    visited: &mut Vec<bool>,
    stack: &mut Vec<usize>,
    paths: &mut Vec<usize>,
    pruned_path: &mut Vec<usize>,
    rng: &mut SmallRng,
) -> (r: Result<usize, MazeError>)
    requires
        width * height <= usize::MAX,
        width >= 1 && height >= 1 ==> start < width * height && end < width * height,
        old(visited)@.len() == width * height,
        forall|c: int| 0 <= c < old(visited)@.len() ==> !old(visited)@[c],
        old(stack)@.len() == 0,
        old(paths)@.len() == 0,
        old(pruned_path)@.len() == 0,
    ensures
        (width == 0 || height == 0) <==> r == Err::<usize, MazeError>(
            MazeError::InvalidDimensions,
        ),
        width >= 1 && height >= 1 && start == end ==> r is Ok,
        (width >= 1 && height >= 1 && exists|root: usize|
            spans_grid(passages@, width as int, height as int, root)) ==> r is Ok,
        r is Ok ==> is_passage_walk(final(pruned_path)@, passages@, start, end),
        r is Ok ==> forall|i: int, j: int|
            0 <= i < j < final(pruned_path)@.len() ==> final(pruned_path)@[i] != final(pruned_path)@[j],
        r is Ok ==> final(pruned_path)@.len() <= width * height,
        r is Ok && start == end ==> r->Ok_0 == start && final(pruned_path)@ == seq![start],
        r is Ok && start != end ==> final(pruned_path)@.len() >= 2
            && r->Ok_0 == final(pruned_path)@[1]
            && edge(passages@, start, r->Ok_0),
{
    let res = find_path(start, end, width, height, passages, visited, stack, paths, pruned_path, rng);
    match res {
        Err(e) => Err(e),
        Ok(()) => {
            if pruned_path.len() > 1 {
                proof {
                    assert(edge(passages@, pruned_path@[0], pruned_path@[1]));
                }
                Ok(pruned_path[1])
            } else {
                proof {
                    assert(pruned_path@[0] == start && pruned_path@[pruned_path@.len() - 1]
                        == end);
                }
                Ok(start)
            }
        },
    }
}

} // verus!
