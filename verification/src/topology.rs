//! Grid topology: the pure mapping from a cell index and the grid dimensions
//! to its four optional neighbors.

use vstd::prelude::*;

verus! {

/// Two cells are adjacent when they sit side by side on the grid: same
/// column with rows differing by one, or same row with columns differing by
/// one. Cell indices are row-major, so the cell above `a` is `a + width`.
pub open spec fn adjacent(a: int, b: int, width: int, height: int) -> bool {
    &&& 0 <= a < width * height
    &&& 0 <= b < width * height
    &&& {
        ||| b == a + width
        ||| b == a - width
        ||| (b == a + 1 && (a + 1) % width != 0)
        ||| (b == a - 1 && a % width != 0)
    }
}

/// The cell `a` has a neighbor above it: one more full row still fits.
pub open spec fn has_up(a: int, width: int, height: int) -> bool {
    a + width < width * height
}

/// The cell `a` has a neighbor below it: it is not in the bottom row.
pub open spec fn has_down(a: int, width: int) -> bool {
    a >= width
}

/// The cell `a` has a neighbor to its left: it is not in the leftmost column.
pub open spec fn has_left(a: int, width: int) -> bool {
    a % width != 0
}

/// The cell `a` has a neighbor to its right: it is not in the rightmost
/// column.
pub open spec fn has_right(a: int, width: int) -> bool {
    (a + 1) % width != 0
}

/// Adjacency holds exactly when one of the four neighbor directions applies.
pub proof fn lemma_adjacent_iff_neighbor(a: int, b: int, width: int, height: int)
    requires
        width >= 1,
        height >= 1,
        0 <= a < width * height,
    ensures
        adjacent(a, b, width, height) <==> {
            ||| (has_up(a, width, height) && b == a + width)
            ||| (has_down(a, width) && b == a - width)
            ||| (has_left(a, width) && b == a - 1)
            ||| (has_right(a, width) && b == a + 1)
        },
{
    lemma_cell_arith(a, width, height);
}

/// Boundary arithmetic shared by the neighbor reasoning: a cell with an open
/// right side is not the last cell, and a cell off the leftmost column is
/// not cell zero.
pub proof fn lemma_cell_arith(a: int, width: int, height: int)
    requires
        width >= 1,
        height >= 1,
        0 <= a < width * height,
    ensures
        (a + 1) % width != 0 ==> a + 1 < width * height,
        a % width != 0 ==> a >= 1,
        width * height >= width,
{
    assert(width * height >= width) by (nonlinear_arith)
        requires
            width >= 1,
            height >= 1,
    {
    }
    if a % width != 0 {
        if a == 0 {
            vstd::arithmetic::div_mod::lemma_mod_multiples_basic(0, width);
            assert(a % width == 0);
        }
    }
    if (a + 1) % width != 0 && a + 1 == width * height {
        vstd::arithmetic::div_mod::lemma_mod_multiples_basic(height, width);
        assert((height * width) % width == 0);
        assert(width * height == height * width) by (nonlinear_arith) {
        }
    }
}

/// Marked cells spread along a column: from a marked cell, adjacency
/// closure marks the cell in any other row of the same column.
proof fn lemma_walk_vert(vis: Seq<bool>, width: int, height: int, col: int, r1: int, r2: int)
    requires
        width >= 1,
        height >= 1,
        vis.len() == width * height,
        0 <= col < width,
        0 <= r1 < height,
        0 <= r2 < height,
        vis[r1 * width + col],
        forall|c: int, b: int|
            0 <= c < width * height && vis[c] && adjacent(c, b, width, height) ==> vis[b],
    ensures
        vis[r2 * width + col],
    decreases
            (if r1 <= r2 {
                r2 - r1
            } else {
                r1 - r2
            }),
{
    if r1 < r2 {
        let a = r1 * width + col;
        let b = (r1 + 1) * width + col;
        assert(0 <= a < width * height && 0 <= b < width * height && b == a + width)
            by (nonlinear_arith)
            requires
                width >= 1,
                height >= 1,
                0 <= col < width,
                0 <= r1,
                r1 + 1 < height,
                a == r1 * width + col,
                b == (r1 + 1) * width + col,
        {
        }
        assert(adjacent(a, b, width, height));
        lemma_walk_vert(vis, width, height, col, r1 + 1, r2);
    } else if r1 > r2 {
        let a = r1 * width + col;
        let b = (r1 - 1) * width + col;
        assert(0 <= b < width * height && 0 <= a < width * height && b == a - width)
            by (nonlinear_arith)
            requires
                width >= 1,
                height >= 1,
                0 <= col < width,
                1 <= r1 < height,
                a == r1 * width + col,
                b == (r1 - 1) * width + col,
        {
        }
        assert(adjacent(a, b, width, height));
        lemma_walk_vert(vis, width, height, col, r1 - 1, r2);
    }
}

/// Marked cells spread along a row: from a marked cell, adjacency closure
/// marks the cell in any other column of the same row.
proof fn lemma_walk_horiz(vis: Seq<bool>, width: int, height: int, row: int, c1: int, c2: int)
    requires
        width >= 1,
        height >= 1,
        vis.len() == width * height,
        0 <= row < height,
        0 <= c1 < width,
        0 <= c2 < width,
        vis[row * width + c1],
        forall|c: int, b: int|
            0 <= c < width * height && vis[c] && adjacent(c, b, width, height) ==> vis[b],
    ensures
        vis[row * width + c2],
    decreases
            (if c1 <= c2 {
                c2 - c1
            } else {
                c1 - c2
            }),
{
    if c1 < c2 {
        let a = row * width + c1;
        let b = row * width + (c1 + 1);
        vstd::arithmetic::div_mod::lemma_mod_multiples_vanish(row, c1 + 1, width);
        vstd::arithmetic::div_mod::lemma_small_mod((c1 + 1) as nat, width as nat);
        assert(0 <= a < width * height && 0 <= b < width * height && b == a + 1 && (a + 1) % width
            != 0) by (nonlinear_arith)
            requires
                width >= 1,
                height >= 1,
                0 <= row < height,
                0 <= c1,
                c1 + 1 < width,
                a == row * width + c1,
                b == row * width + (c1 + 1),
                (width * row + (c1 + 1)) % width == (c1 + 1) % width,
                (c1 + 1) % width == c1 + 1,
        {
        }
        assert(adjacent(a, b, width, height));
        lemma_walk_horiz(vis, width, height, row, c1 + 1, c2);
    } else if c1 > c2 {
        let a = row * width + c1;
        let b = row * width + (c1 - 1);
        vstd::arithmetic::div_mod::lemma_mod_multiples_vanish(row, c1, width);
        vstd::arithmetic::div_mod::lemma_small_mod(c1 as nat, width as nat);
        assert(0 <= b < width * height && 0 <= a < width * height && b == a - 1 && a % width != 0)
            by (nonlinear_arith)
            requires
                width >= 1,
                height >= 1,
                0 <= row < height,
                1 <= c1 < width,
                a == row * width + c1,
                b == row * width + (c1 - 1),
                (width * row + c1) % width == c1 % width,
                c1 % width == c1,
        {
        }
        assert(adjacent(a, b, width, height));
        lemma_walk_horiz(vis, width, height, row, c1 - 1, c2);
    }
}

/// A set of marked cells that contains `start` and is closed under grid
/// adjacency covers the whole grid: any cell is reached by first walking to
/// its row, then along it.
pub proof fn lemma_closed_set_covers(vis: Seq<bool>, width: int, height: int, start: int)
    requires
        width >= 1,
        height >= 1,
        vis.len() == width * height,
        0 <= start < width * height,
        vis[start],
        forall|c: int, b: int|
            0 <= c < width * height && vis[c] && adjacent(c, b, width, height) ==> vis[b],
    ensures
        forall|c: int| 0 <= c < width * height ==> vis[c],
{
    let sr = start / width;
    let sc = start % width;
    vstd::arithmetic::div_mod::lemma_fundamental_div_mod(start, width);
    vstd::arithmetic::div_mod::lemma_mod_bound(start, width);
    assert(0 <= sr < height && start == sr * width + sc) by (nonlinear_arith)
        requires
            width >= 1,
            height >= 1,
            0 <= start < width * height,
            start == width * sr + sc,
            0 <= sc < width,
    {
    }
    assert forall|c: int| 0 <= c < width * height implies vis[c] by {
        let cr = c / width;
        let cc = c % width;
        vstd::arithmetic::div_mod::lemma_fundamental_div_mod(c, width);
        vstd::arithmetic::div_mod::lemma_mod_bound(c, width);
        assert(0 <= cr < height && c == cr * width + cc) by (nonlinear_arith)
            requires
                width >= 1,
                height >= 1,
                0 <= c < width * height,
                c == width * cr + cc,
                0 <= cc < width,
        {
        }
        lemma_walk_vert(vis, width, height, sc, sr, cr);
        lemma_walk_horiz(vis, width, height, cr, sc, cc);
    }
}

/// The four optional neighbors of `index`, in the fixed order up, down,
/// left, right; a direction is absent when `index` lies on that edge of the
/// grid.
pub fn find_neighbors(index: usize, width: usize, height: usize) -> (r: [Option<usize>; 4])
    requires
        width >= 1,
        height >= 1,
        width * height <= usize::MAX,
        index < width * height,
    ensures
        r@.len() == 4,
        r@[0] == (if has_up(index as int, width as int, height as int) {
            Some((index + width) as usize)
        } else {
            None::<usize>
        }),
        r@[1] == (if has_down(index as int, width as int) {
            Some((index - width) as usize)
        } else {
            None::<usize>
        }),
        r@[2] == (if has_left(index as int, width as int) {
            Some((index - 1) as usize)
        } else {
            None::<usize>
        }),
        r@[3] == (if has_right(index as int, width as int) {
            Some((index + 1) as usize)
        } else {
            None::<usize>
        }),
        forall|k: int|
            0 <= k < 4 && r@[k].is_some() ==> adjacent(
                index as int,
                r@[k].unwrap() as int,
                width as int,
                height as int,
            ),
{
    proof {
        lemma_cell_arith(index as int, width as int, height as int);
    }
    let num_cells = width * height;

    let up = if index < num_cells - width {
        Some(index + width)
    } else {
        None
    };

    let down = if index > width - 1 {
        Some(index - width)
    } else {
        None
    };

    let left = if index % width != 0 {
        Some(index - 1)
    } else {
        None
    };

    let right = if (index + 1) % width != 0 {
        Some(index + 1)
    } else {
        None
    };

    proof {
        lemma_adjacent_iff_neighbor(index as int, index + width, width as int, height as int);
        lemma_adjacent_iff_neighbor(index as int, index - width, width as int, height as int);
        lemma_adjacent_iff_neighbor(index as int, index - 1, width as int, height as int);
        lemma_adjacent_iff_neighbor(index as int, index + 1, width as int, height as int);
    }
    [up, down, left, right]
}

} // verus!
