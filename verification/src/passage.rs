//! The passage list and its edge predicate: a passage is an unordered pair
//! of cell indices, stored as an ordered pair and compared symmetrically.

use vstd::prelude::*;

verus! {

/// The passage list `ps` holds an open connection between `a` and `b`, in
/// either orientation.
pub open spec fn edge(ps: Seq<(usize, usize)>, a: usize, b: usize) -> bool {
    exists|i: int|
        0 <= i < ps.len() && ((ps[i].0 == a && ps[i].1 == b) || (ps[i].0 == b && ps[i].1 == a))
}

/// `p` is a walk through the passage list `ps` from `a` to `b`: it starts at
/// `a`, ends at `b`, and every consecutive pair of cells is joined by a
/// passage.
pub open spec fn is_passage_walk(p: Seq<usize>, ps: Seq<(usize, usize)>, a: usize, b: usize) -> bool {
    &&& p.len() >= 1
    &&& p[0] == a
    &&& p[p.len() - 1] == b
    &&& forall|i: int| 0 <= i < p.len() - 1 ==> edge(ps, #[trigger] p[i], p[i + 1])
}

/// The cells `a` and `b` lie in the same connected component of the passage
/// graph.
pub open spec fn connected(ps: Seq<(usize, usize)>, a: usize, b: usize) -> bool {
    exists|p: Seq<usize>| is_passage_walk(p, ps, a, b)
}

/// There is no passage between `index` and `neighbor`: the linear scan that
/// every other component uses as its single source of truth for "is this
/// wall open".
pub fn there_is_no_passage_here(
    index: usize,
    neighbor: usize,
    passages: &Vec<(usize, usize)>,
) -> (r: bool)
    ensures
        r == !edge(passages@, index, neighbor),
{
    let n = passages.len();
    let mut i: usize = 0;
    while i < n
        invariant
            n == passages@.len(),
            0 <= i <= n,
            forall|j: int|
                0 <= j < i ==> !((#[trigger] passages@[j]).0 == index && passages@[j].1 == neighbor)
                    && !(passages@[j].0 == neighbor && passages@[j].1 == index),
        decreases n - i,
    {
        let pass = passages[i];
        if (index == pass.0 && neighbor == pass.1) || (index == pass.1 && neighbor == pass.0) {
            return false;
        }
        i = i + 1;
    }
    true
}

/// A walk can be extended by one passage: from a walk reaching `b` and a
/// passage joining `b` to `c`, a walk reaching `c` exists.
pub proof fn lemma_connected_step(ps: Seq<(usize, usize)>, a: usize, b: usize, c: usize)
    requires
        connected(ps, a, b),
        edge(ps, b, c),
    ensures
        connected(ps, a, c),
{
    let p = choose|p: Seq<usize>| is_passage_walk(p, ps, a, b);
    let q = p.push(c);
    assert(q[q.len() - 1] == c);
    assert forall|i: int| 0 <= i < q.len() - 1 implies edge(ps, #[trigger] q[i], q[i + 1]) by {
        if i < p.len() - 1 {
            assert(edge(ps, p[i], p[i + 1]));
        } else {
            assert(q[i] == b && q[i + 1] == c);
        }
    }
    assert(is_passage_walk(q, ps, a, c));
}

/// Every cell is connected to itself: the one-cell walk.
pub proof fn lemma_connected_refl(ps: Seq<(usize, usize)>, a: usize)
    ensures
        connected(ps, a, a),
{
    let p = seq![a];
    assert(is_passage_walk(p, ps, a, a));
}

/// Being a prefix is transitive.
pub proof fn lemma_prefix_trans<T>(a: Seq<T>, b: Seq<T>, c: Seq<T>)
    requires
        a.is_prefix_of(b),
        b.is_prefix_of(c),
    ensures
        a.is_prefix_of(c),
{
    assert(a =~= c.subrange(0, a.len() as int)) by {
        assert forall|i: int| 0 <= i < a.len() implies a[i] == c[i] by {
            assert(a[i] == b.subrange(0, a.len() as int)[i]);
            assert(b[i] == c.subrange(0, b.len() as int)[i]);
        }
    }
}

/// Connectivity is symmetric: a walk read backwards is a walk, since a
/// passage joins its two cells in either orientation.
pub proof fn lemma_connected_sym(ps: Seq<(usize, usize)>, a: usize, b: usize)
    requires
        connected(ps, a, b),
    ensures
        connected(ps, b, a),
{
    let p = choose|p: Seq<usize>| is_passage_walk(p, ps, a, b);
    let n = p.len() as int;
    let q = Seq::new(p.len(), |i: int| p[n - 1 - i]);
    assert(q[0] == b && q[q.len() - 1] == a);
    assert forall|i: int| 0 <= i < q.len() - 1 implies edge(ps, #[trigger] q[i], q[i + 1]) by {
        let j = n - 2 - i;
        assert(edge(ps, p[j], p[j + 1]));
        let w = choose|w: int|
            0 <= w < ps.len() && ((ps[w].0 == p[j] && ps[w].1 == p[j + 1]) || (ps[w].0 == p[j + 1]
                && ps[w].1 == p[j]));
        assert(q[i] == p[j + 1] && q[i + 1] == p[j]);
    }
    assert(is_passage_walk(q, ps, b, a));
}

/// Connectivity is transitive: two walks sharing their middle cell join
/// into one.
pub proof fn lemma_connected_trans(ps: Seq<(usize, usize)>, a: usize, b: usize, c: usize)
    requires
        connected(ps, a, b),
        connected(ps, b, c),
    ensures
        connected(ps, a, c),
{
    let p = choose|p: Seq<usize>| is_passage_walk(p, ps, a, b);
    let q = choose|q: Seq<usize>| is_passage_walk(q, ps, b, c);
    if q.len() == 1 {
        assert(b == c);
        assert(is_passage_walk(p, ps, a, c));
    } else {
        let r = p + q.drop_first();
        assert(r.len() == p.len() + q.len() - 1);
        assert(r[0] == a);
        assert(r[r.len() - 1] == q[q.len() - 1]);
        assert forall|i: int| 0 <= i < r.len() - 1 implies edge(ps, #[trigger] r[i], r[i + 1]) by {
            if i < p.len() - 1 {
                assert(r[i] == p[i] && r[i + 1] == p[i + 1]);
                assert(edge(ps, p[i], p[i + 1]));
            } else if i == p.len() - 1 {
                assert(r[i] == p[p.len() - 1]);
                assert(r[i + 1] == q.drop_first()[0]);
                assert(edge(ps, q[0], q[1]));
            } else {
                let j = i - p.len() + 1;
                assert(r[i] == q[j] && r[i + 1] == q[j + 1]);
                assert(edge(ps, q[j], q[j + 1]));
            }
        }
        assert(is_passage_walk(r, ps, a, c));
    }
}

/// Every cell of a walk whose first cell is marked stays marked, when each
/// passage out of a marked cell leads to a marked cell.
proof fn lemma_walk_stays_marked(vis: Seq<bool>, ps: Seq<(usize, usize)>, p: Seq<usize>, k: int)
    requires
        0 <= k < p.len(),
        p[0] < vis.len(),
        vis[p[0] as int],
        forall|i: int| 0 <= i < p.len() - 1 ==> edge(ps, #[trigger] p[i], p[i + 1]),
        forall|c: usize, d: usize|
            c < vis.len() && vis[c as int] && #[trigger] edge(ps, c, d) ==> d < vis.len() && vis[d as int],
    ensures
        p[k] < vis.len() && vis[p[k] as int],
    decreases k,
{
    if k > 0 {
        lemma_walk_stays_marked(vis, ps, p, k - 1);
        assert(edge(ps, p[k - 1], p[k]));
    }
}

/// When the marked set holds `a` and every passage out of a marked cell
/// leads into the set, everything connected to `a` is marked too.
pub proof fn lemma_connected_stays_marked(
    vis: Seq<bool>,
    ps: Seq<(usize, usize)>,
    a: usize,
    b: usize,
)
    requires
        connected(ps, a, b),
        a < vis.len(),
        vis[a as int],
        forall|c: usize, d: usize|
            c < vis.len() && vis[c as int] && #[trigger] edge(ps, c, d) ==> d < vis.len() && vis[d as int],
    ensures
        b < vis.len(),
        vis[b as int],
{
    let p = choose|p: Seq<usize>| is_passage_walk(p, ps, a, b);
    lemma_walk_stays_marked(vis, ps, p, p.len() - 1);
}

} // verus!
