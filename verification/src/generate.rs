//! Randomized spanning-tree maze generation: a depth-first backtracker that
//! carves passages into an initially fully walled grid.

use vstd::prelude::*;

use crate::MazeError;
use crate::passage::{
    connected, edge, lemma_connected_refl, lemma_connected_step, there_is_no_passage_here,
};
use crate::rng::shuffle_cells;
use crate::topology::{
    adjacent, find_neighbors, has_down, has_left, has_right, has_up, lemma_adjacent_iff_neighbor,
};
use rand::rngs::SmallRng;

verus! {

/// How many entries of `s` are `true`.
pub open spec fn count_true(s: Seq<bool>) -> nat
    decreases s.len(),
{
    if s.len() == 0 {
        0
    } else {
        count_true(s.drop_last()) + if s.last() {
            1nat
        } else {
            0nat
        }
    }
}

/// The cell `c` is the far end of some passage: the cell that was fresh when
/// that passage was carved.
pub open spec fn is_second(ps: Seq<(usize, usize)>, c: int) -> bool {
    exists|i: int| 0 <= i < ps.len() && (#[trigger] ps[i]).1 == c
}

/// The passage list grew one fresh cell at a time from `root`: no passage
/// leads back to `root`, no two passages share their far end, and every
/// passage starts from `root` or from the far end of an earlier passage.
/// This is the witness that the passage graph is acyclic: each passage joins
/// an already reached cell to one not touched before.
pub open spec fn tree_shaped(ps: Seq<(usize, usize)>, root: usize) -> bool {
    &&& forall|i: int| 0 <= i < ps.len() ==> (#[trigger] ps[i]).1 != root
    &&& forall|i: int, j: int|
        0 <= i < j < ps.len() ==> (#[trigger] ps[i]).1 != (#[trigger] ps[j]).1
    &&& forall|i: int|
        0 <= i < ps.len() ==> ((#[trigger] ps[i]).0 == root || exists|j: int|
            0 <= j < i && (#[trigger] ps[j]).1 == ps[i].0)
}

/// The passage list is a spanning tree of the grid, grown from `root`: it
/// is tree-shaped, joins only grid-adjacent cells, and reaches every cell.
/// This is exactly what `find_passages` establishes, and what the path
/// finder is owed success on.
pub open spec fn spans_grid(
    ps: Seq<(usize, usize)>,
    width: int,
    height: int,
    root: usize,
) -> bool {
    &&& root < width * height
    &&& tree_shaped(ps, root)
    &&& passages_adjacent(ps, width, height)
    &&& forall|c: int| 0 <= c < width * height && c != root ==> is_second(ps, c)
}

/// Every passage joins two grid-adjacent cells.
pub open spec fn passages_adjacent(ps: Seq<(usize, usize)>, width: int, height: int) -> bool {
    forall|i: int|
        0 <= i < ps.len() ==> adjacent(
            (#[trigger] ps[i]).0 as int,
            ps[i].1 as int,
            width,
            height,
        )
}

/// The visited markers hold exactly the cells the passage list has reached:
/// the root and every passage's far end.
pub open spec fn visited_matches(vis: Seq<bool>, ps: Seq<(usize, usize)>, root: usize) -> bool {
    forall|c: int| 0 <= c < vis.len() ==> (#[trigger] vis[c] <==> (c == root || is_second(ps, c)))
}

/// As `visited_matches`, except that the cell `ex` (the one the walk is just
/// entering) is not yet marked.
pub open spec fn visited_matches_except(
    vis: Seq<bool>,
    ps: Seq<(usize, usize)>,
    root: usize,
    ex: int,
) -> bool {
    forall|c: int|
        0 <= c < vis.len() ==> (#[trigger] vis[c] <==> ((c == root || is_second(ps, c)) && c
            != ex))
}

/// Every grid neighbor of `c` is marked visited.
pub open spec fn cell_closed(vis: Seq<bool>, c: int, width: int, height: int) -> bool {
    forall|b: int| adjacent(c, b, width, height) ==> vis[b]
}

/// A sequence with no `true` entry counts zero.
pub(crate) proof fn lemma_count_true_zero(s: Seq<bool>)
    requires
        forall|c: int| 0 <= c < s.len() ==> !s[c],
    ensures
        count_true(s) == 0,
    decreases s.len(),
{
    if s.len() > 0 {
        lemma_count_true_zero(s.drop_last());
    }
}

/// A sequence with every entry `true` counts its full length.
pub(crate) proof fn lemma_count_true_full(s: Seq<bool>)
    requires
        forall|c: int| 0 <= c < s.len() ==> s[c],
    ensures
        count_true(s) == s.len(),
    decreases s.len(),
{
    if s.len() > 0 {
        lemma_count_true_full(s.drop_last());
    }
}

/// No sequence counts more `true` entries than it has entries.
pub(crate) proof fn lemma_count_true_le_len(s: Seq<bool>)
    ensures
        count_true(s) <= s.len(),
    decreases s.len(),
{
    if s.len() > 0 {
        lemma_count_true_le_len(s.drop_last());
    }
}

/// Turning one `false` entry `true` raises the count by one.
pub(crate) proof fn lemma_count_true_update(s: Seq<bool>, i: int)
    requires
        0 <= i < s.len(),
        !s[i],
    ensures
        count_true(s.update(i, true)) == count_true(s) + 1,
    decreases s.len(),
{
    let t = s.update(i, true);
    if i == s.len() - 1 {
        assert(t.drop_last() =~= s.drop_last());
    } else {
        assert(t.drop_last() =~= s.drop_last().update(i, true));
        lemma_count_true_update(s.drop_last(), i);
        assert(t.last() == s.last());
    }
}

/// Both endpoints of any passage of a tree-shaped list are already marked
/// when the markers match the list.
proof fn lemma_edge_endpoints_visited(
    vis: Seq<bool>,
    ps: Seq<(usize, usize)>,
    root: usize,
    a: usize,
    b: usize,
)
    requires
        visited_matches(vis, ps, root),
        tree_shaped(ps, root),
        edge(ps, a, b),
        a < vis.len(),
        b < vis.len(),
    ensures
        vis[a as int],
        vis[b as int],
{
    let i = choose|i: int|
        0 <= i < ps.len() && ((ps[i].0 == a && ps[i].1 == b) || (ps[i].0 == b && ps[i].1 == a));
    assert(ps[i].0 == root || is_second(ps, ps[i].0 as int));
    assert(is_second(ps, ps[i].1 as int));
}

/// Carving one more passage from an already reached cell `a` to a fresh cell
/// `b` keeps the list tree-shaped, and `b` becomes one of its far ends.
proof fn lemma_tree_shaped_push(ps: Seq<(usize, usize)>, root: usize, a: usize, b: usize)
    requires
        tree_shaped(ps, root),
        b != root,
        !is_second(ps, b as int),
        a as int == root as int || is_second(ps, a as int),
    ensures
        tree_shaped(ps.push((a, b)), root),
        is_second(ps.push((a, b)), b as int),
{
    let qs = ps.push((a, b));
    assert(qs[qs.len() - 1] == (a, b));
    assert forall|i: int, j: int| 0 <= i < j < qs.len() implies (#[trigger] qs[i]).1 != (
    #[trigger] qs[j]).1 by {
        if j == qs.len() - 1 {
            assert(qs[i] == ps[i]);
        }
    }
    assert forall|i: int|
        0 <= i < qs.len() implies ((#[trigger] qs[i]).0 == root || exists|j: int|
        0 <= j < i && (#[trigger] qs[j]).1 == qs[i].0) by {
        if i < qs.len() - 1 {
            assert(qs[i] == ps[i]);
            if ps[i].0 != root {
                let j = choose|j: int| 0 <= j < i && (#[trigger] ps[j]).1 == ps[i].0;
                assert(qs[j].1 == qs[i].0);
            }
        } else {
            if a as int != root as int {
                let j = choose|j: int| 0 <= j < ps.len() && (#[trigger] ps[j]).1 == a as int;
                assert(qs[j].1 == qs[i].0);
            }
        }
    }
}

/// When the markers match the list, recording a passage to a still-unmarked
/// cell `b` leaves them matching the grown list with `b` as the one
/// exception.
proof fn lemma_matches_except_push(
    vis: Seq<bool>,
    ps: Seq<(usize, usize)>,
    root: usize,
    a: usize,
    b: usize,
)
    requires
        visited_matches(vis, ps, root),
        b < vis.len(),
        !vis[b as int],
    ensures
        visited_matches_except(vis, ps.push((a, b)), root, b as int),
{
    let qs = ps.push((a, b));
    assert forall|c: int| 0 <= c < vis.len() implies (#[trigger] vis[c] <==> ((c == root
        || is_second(qs, c)) && c != b as int)) by {
        if c != b as int {
            if is_second(qs, c) {
                let w = choose|w: int| 0 <= w < qs.len() && (#[trigger] qs[w]).1 == c;
                assert(w < ps.len());
                assert(ps[w].1 == c);
            }
            if is_second(ps, c) {
                let w = choose|w: int| 0 <= w < ps.len() && (#[trigger] ps[w]).1 == c;
                assert(qs[w].1 == c);
            }
        }
    }
}

/// A cell whose neighbors are all marked keeps that property as more cells
/// are marked.
proof fn lemma_closed_monotone(pre: Seq<bool>, now: Seq<bool>, c: int, width: int, height: int)
    requires
        pre.len() == now.len(),
        pre.len() == width * height,
        cell_closed(pre, c, width, height),
        forall|x: int| 0 <= x < pre.len() && #[trigger] pre[x] ==> now[x],
    ensures
        cell_closed(now, c, width, height),
{
    assert forall|b: int| adjacent(c, b, width, height) implies now[b] by {
        assert(pre[b]);
    }
}

/// The still-unvisited grid neighbors of `index`, in fixed direction order:
/// the candidates the walk may carve into. Every grid neighbor of `index`
/// is either already visited or among the candidates.
#[verifier::loop_isolation(false)]
fn collect_candidates(
    index: usize,
    width: usize,
    height: usize,
    visited: &Vec<bool>,
    passages: &Vec<(usize, usize)>,
    root: Ghost<usize>,
) -> (cands: Vec<usize>)
    requires
        width >= 1,
        height >= 1,
        width * height <= usize::MAX,
        index < width * height,
        root@ < width * height,
        visited@.len() == width * height,
        tree_shaped(passages@, root@),
        visited_matches(visited@, passages@, root@),
    ensures
        forall|k: int|
            0 <= k < cands@.len() ==> adjacent(
                index as int,
                (#[trigger] cands@[k]) as int,
                width as int,
                height as int,
            ),
        forall|b: int|
            adjacent(index as int, b, width as int, height as int) ==> visited@[b]
                || cands@.contains(b as usize),
{
    broadcast use vstd::seq_lib::lemma_seq_contains_after_push;

    let neigh = find_neighbors(index, width, height);
    let mut cands: Vec<usize> = Vec::new();
    let mut d: usize = 0;
    while d < 4
        invariant
            0 <= d <= 4,
            forall|k: int|
                0 <= k < cands@.len() ==> adjacent(
                    index as int,
                    (#[trigger] cands@[k]) as int,
                    width as int,
                    height as int,
                ),
            forall|dd: int|
                0 <= dd < d && (#[trigger] neigh@[dd]).is_some() ==> visited@[neigh@[dd].unwrap() as int]
                    || cands@.contains(neigh@[dd].unwrap()),
        decreases 4 - d,
    {
        if let Some(n) = neigh[d] {
            if !visited[n] && there_is_no_passage_here(index, n, passages) {
                cands.push(n);
            } else {
                proof {
                    if !visited@[n as int] {
                        // a passage never reaches an unvisited cell
                        lemma_edge_endpoints_visited(visited@, passages@, root@, index, n);
                    }
                }
            }
        }
        d = d + 1;
    }
    proof {
        assert forall|b: int|
            adjacent(index as int, b, width as int, height as int) implies visited@[b]
            || cands@.contains(b as usize) by {
            lemma_adjacent_iff_neighbor(index as int, b, width as int, height as int);
            if has_up(index as int, width as int, height as int) && b == index + width {
                assert(neigh@[0].is_some() && neigh@[0].unwrap() as int == b);
            } else if has_down(index as int, width as int) && b == index - width {
                assert(neigh@[1].is_some() && neigh@[1].unwrap() as int == b);
            } else if has_left(index as int, width as int) && b == index - 1 {
                assert(neigh@[2].is_some() && neigh@[2].unwrap() as int == b);
            } else if has_right(index as int, width as int) && b == index + 1 {
                assert(neigh@[3].is_some() && neigh@[3].unwrap() as int == b);
            }
        }
    }
    cands
}

/// One step of the depth-first walk: mark `index`, then carve a passage to
/// each still-unvisited neighbor in shuffled order and recurse through it.
#[verifier::loop_isolation(false)]
#[verifier::rlimit(60)]
fn grow(
    index: usize,
    width: usize,
    height: usize,
    visited: &mut Vec<bool>,
    passages: &mut Vec<(usize, usize)>,
    rng: &mut SmallRng,
    root: Ghost<usize>,
)
    requires
        width >= 1,
        height >= 1,
        width * height <= usize::MAX,
        index < width * height,
        root@ < width * height,
        old(visited)@.len() == width * height,
        !old(visited)@[index as int],
        root@ == index || is_second(old(passages)@, index as int),
        count_true(old(visited)@) == old(passages)@.len(),
        tree_shaped(old(passages)@, root@),
        passages_adjacent(old(passages)@, width as int, height as int),
        visited_matches_except(old(visited)@, old(passages)@, root@, index as int),
    ensures
        final(visited)@.len() == width * height,
        forall|c: int|
            0 <= c < width * height && #[trigger] old(visited)@[c] ==> final(visited)@[c],
        final(visited)@[index as int],
        old(passages)@.is_prefix_of(final(passages)@),
        count_true(final(visited)@) == final(passages)@.len() + 1,
        tree_shaped(final(passages)@, root@),
        passages_adjacent(final(passages)@, width as int, height as int),
        visited_matches(final(visited)@, final(passages)@, root@),
        forall|c: int|
            0 <= c < width * height && #[trigger] final(visited)@[c] && !old(visited)@[c]
                ==> cell_closed(final(visited)@, c, width as int, height as int),
    decreases width * height - count_true(old(visited)@),
{
    visited.set(index, true);
    proof {
        lemma_count_true_update(old(visited)@, index as int);
        assert(visited_matches(visited@, passages@, root@));
    }

    let mut cands = collect_candidates(index, width, height, visited, passages, root);

    let ghost pre_shuffle = cands@;
    shuffle_cells(&mut cands, rng);

    proof {
        assert forall|k: int| 0 <= k < cands@.len() implies adjacent(
            index as int,
            (#[trigger] cands@[k]) as int,
            width as int,
            height as int,
        ) by {
            assert(cands@.contains(cands@[k]));
            assert(pre_shuffle.contains(cands@[k]));
            let i = choose|i: int| 0 <= i < pre_shuffle.len() && pre_shuffle[i] == cands@[k];
            assert(adjacent(index as int, pre_shuffle[i] as int, width as int, height as int));
        }
    }

    let ghost entry_vis = visited@;
    let ghost entry_ps = passages@;
    proof {
        assert forall|b: int|
            adjacent(index as int, b, width as int, height as int) implies visited@[b] || exists|
            k: int,
        | 0 <= k < cands@.len() && (#[trigger] cands@[k]) as int == b by {
            if !visited@[b] {
                assert(pre_shuffle.contains(b as usize));
                assert(cands@.contains(b as usize));
                let k = choose|k: int| 0 <= k < cands@.len() && cands@[k] == b as usize;
                assert((#[trigger] cands@[k]) as int == b);
            }
        }
    }
    let mut j: usize = 0;
    while j < cands.len()
        invariant
            0 <= j <= cands@.len(),
            visited@.len() == width * height,
            visited@[index as int],
            forall|k: int|
                0 <= k < cands@.len() ==> adjacent(
                    index as int,
                    (#[trigger] cands@[k]) as int,
                    width as int,
                    height as int,
                ),
            count_true(visited@) == passages@.len() + 1,
            tree_shaped(passages@, root@),
            passages_adjacent(passages@, width as int, height as int),
            visited_matches(visited@, passages@, root@),
            entry_ps.is_prefix_of(passages@),
            forall|c: int| 0 <= c < width * height && #[trigger] entry_vis[c] ==> visited@[c],
            forall|c: int|
                0 <= c < width * height && #[trigger] visited@[c] && !entry_vis[c] ==> cell_closed(
                    visited@,
                    c,
                    width as int,
                    height as int,
                ),
            forall|b: int|
                adjacent(index as int, b, width as int, height as int) ==> visited@[b] || exists|
                    k: int,
                |
                    j <= k < cands@.len() && (#[trigger] cands@[k]) as int == b,
        decreases cands@.len() - j,
    {
        let pass = cands[j];
        proof {
            assert(adjacent(index as int, pass as int, width as int, height as int));
        }
        if !visited[pass] {
            let ghost pre_ps = passages@;
            let ghost pre_vis = visited@;
            passages.push((index, pass));
            proof {
                assert(passages@ =~= pre_ps.push((index, pass)));
                assert(pre_ps.is_prefix_of(passages@)) by {
                    assert(pre_ps =~= passages@.subrange(0, pre_ps.len() as int));
                }
                crate::passage::lemma_prefix_trans(entry_ps, pre_ps, passages@);
                // the fresh far end was not reached before, the near end was
                assert(!visited@[pass as int] && visited@[index as int]);
                assert(!is_second(pre_ps, pass as int) && pass as int != root@);
                assert(index as int == root@ || is_second(pre_ps, index as int));
                lemma_tree_shaped_push(pre_ps, root@, index, pass);
                lemma_matches_except_push(pre_vis, pre_ps, root@, index, pass);
                assert forall|i: int|
                    0 <= i < passages@.len() implies adjacent(
                    (#[trigger] passages@[i]).0 as int,
                    passages@[i].1 as int,
                    width as int,
                    height as int,
                ) by {
                    if i < pre_ps.len() {
                        assert(passages@[i] == pre_ps[i]);
                        assert(adjacent(pre_ps[i].0 as int, pre_ps[i].1 as int, width as int, height as int));
                    } else {
                        assert(passages@[i] == (index, pass));
                    }
                }
                lemma_count_true_le_len(visited@);
            }
            grow(pass, width, height, visited, passages, rng, root);
            proof {
                crate::passage::lemma_prefix_trans(entry_ps, pre_ps.push((index, pass)), passages@);
                assert forall|c: int|
                    0 <= c < width * height && #[trigger] visited@[c] && !entry_vis[c] implies
                    cell_closed(visited@, c, width as int, height as int) by {
                    if pre_vis[c] {
                        assert(cell_closed(pre_vis, c, width as int, height as int));
                        lemma_closed_monotone(pre_vis, visited@, c, width as int, height as int);
                    }
                }
            }
        }
        proof {
            assert forall|b: int|
                adjacent(index as int, b, width as int, height as int) implies visited@[b]
                || exists|k: int|
                j + 1 <= k < cands@.len() && (#[trigger] cands@[k]) as int == b by {
                if !visited@[b] {
                    let k = choose|k: int|
                        j <= k < cands@.len() && (#[trigger] cands@[k]) as int == b;
                    assert(visited@[pass as int]);
                    assert(k != j);
                    assert(j + 1 <= k < cands@.len() && (#[trigger] cands@[k]) as int == b);
                }
            }
        }
        j = j + 1;
    }
}

/// Generate a perfect maze: starting from `index`, carve a randomized
/// depth-first spanning tree into `passages`, marking cells in `visited` as
/// they are reached.
///
/// On success the passage list holds exactly `width * height - 1` passages,
/// joins only grid-adjacent cells, reaches every cell of the grid
/// (`visited_matches` names each), grew one fresh cell at a time
/// (`tree_shaped`, the acyclicity witness), and connects every cell to the
/// start (`connected`): a spanning tree.
pub fn find_passages(
    index: usize,
    width: usize,
    height: usize,
    visited: &mut Vec<bool>,
    passages: &mut Vec<(usize, usize)>,
    rng: &mut SmallRng,
) -> (r: Result<(), MazeError>)
    requires
        width * height <= usize::MAX,
        width >= 1 && height >= 1 ==> index < width * height,
        old(visited)@.len() == width * height,
        forall|c: int| 0 <= c < old(visited)@.len() ==> !old(visited)@[c],
        old(passages)@.len() == 0,
    ensures
        r is Err <==> (width == 0 || height == 0),
        r is Err ==> r == Err::<(), MazeError>(MazeError::InvalidDimensions) && final(visited)@
            == old(visited)@ && final(passages)@ == old(passages)@,
        r is Ok ==> {
            &&& final(visited)@.len() == width * height
            &&& forall|c: int| 0 <= c < width * height ==> final(visited)@[c]
            &&& final(passages)@.len() == width * height - 1
            &&& passages_adjacent(final(passages)@, width as int, height as int)
            &&& forall|i: int|
                0 <= i < final(passages)@.len() ==> (#[trigger] final(passages)@[i]).0
                    != final(passages)@[i].1
            &&& tree_shaped(final(passages)@, index)
            &&& visited_matches(final(visited)@, final(passages)@, index)
            &&& forall|c: int|
                0 <= c < width * height && c != index ==> is_second(final(passages)@, c)
            &&& forall|c: usize| c < width * height ==> connected(final(passages)@, index, c)
            &&& spans_grid(final(passages)@, width as int, height as int, index)
        },
{
    if width == 0 || height == 0 {
        return Err(MazeError::InvalidDimensions);
    }
    proof {
        lemma_count_true_zero(old(visited)@);
    }
    grow(index, width, height, visited, passages, rng, Ghost(index));
    proof {
        assert forall|c: int| 0 <= c < width * height && visited@[c] implies cell_closed(
            visited@,
            c,
            width as int,
            height as int,
        ) by {
            assert(!old(visited)@[c]);
        }
        crate::topology::lemma_closed_set_covers(
            visited@,
            width as int,
            height as int,
            index as int,
        );
        lemma_count_true_full(visited@);
        assert forall|i: int| 0 <= i < passages@.len() implies (#[trigger] passages@[i]).0
            != passages@[i].1 by {
            assert(adjacent(passages@[i].0 as int, passages@[i].1 as int, width as int, height as int));
        }
        assert forall|c: int| 0 <= c < width * height && c != index implies is_second(
            passages@,
            c,
        ) by {
            assert(visited@[c]);
        }
        assert forall|c: usize| c < width * height implies connected(passages@, index, c) by {
            assert(visited@[c as int]);
            lemma_tree_connected(passages@, index, c);
        }
    }
    Ok(())
}

/// Law: in a tree-shaped passage list no two passages join the same pair of
/// cells, in either orientation.
pub proof fn lemma_no_duplicate_passages(ps: Seq<(usize, usize)>, root: usize)
    requires
        tree_shaped(ps, root),
    ensures
        forall|i: int, j: int|
            0 <= i < j < ps.len() ==> !((#[trigger] ps[i]).0 == (#[trigger] ps[j]).0 && ps[i].1
                == ps[j].1) && !(ps[i].0 == ps[j].1 && ps[i].1 == ps[j].0),
{
    assert forall|i: int, j: int|
        0 <= i < j < ps.len() implies !((#[trigger] ps[i]).0 == (#[trigger] ps[j]).0 && ps[i].1
        == ps[j].1) && !(ps[i].0 == ps[j].1 && ps[i].1 == ps[j].0) by {
        if ps[i].0 == ps[j].1 && ps[i].1 == ps[j].0 {
            // the later passage's far end would be an earlier near end,
            // which is the root or some yet earlier far end
            assert(ps[i].0 == root || exists|k: int| 0 <= k < i && (#[trigger] ps[k]).1 == ps[i].0);
            if ps[i].0 != root {
                let k = choose|k: int| 0 <= k < i && (#[trigger] ps[k]).1 == ps[i].0;
                assert(ps[k].1 == ps[j].1);
            }
        }
    }
}

/// Law: a tree-shaped passage list connects its root to every cell it
/// touches: the root itself and the far end of every passage.
pub proof fn lemma_tree_connected(ps: Seq<(usize, usize)>, root: usize, c: usize)
    requires
        tree_shaped(ps, root),
        c == root || is_second(ps, c as int),
    ensures
        connected(ps, root, c),
{
    if c == root {
        lemma_connected_refl(ps, root);
    } else {
        let i = choose|i: int| 0 <= i < ps.len() && (#[trigger] ps[i]).1 == c as int;
        assert(ps[i].1 == c);
        lemma_second_connected(ps, root, i);
    }
}

/// The far end of the `i`-th passage of a tree-shaped list is connected to
/// the root: walk the carving order backwards.
proof fn lemma_second_connected(ps: Seq<(usize, usize)>, root: usize, i: int)
    requires
        tree_shaped(ps, root),
        0 <= i < ps.len(),
    ensures
        connected(ps, root, ps[i].1),
    decreases i,
{
    if ps[i].0 == root {
        lemma_connected_refl(ps, root);
    } else {
        let j = choose|j: int| 0 <= j < i && (#[trigger] ps[j]).1 == ps[i].0;
        lemma_second_connected(ps, root, j);
    }
    assert(edge(ps, ps[i].0, ps[i].1));
    lemma_connected_step(ps, root, ps[i].0, ps[i].1);
}

} // verus!
