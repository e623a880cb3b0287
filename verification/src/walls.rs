//! Wall bitmask derivation: one mask per row boundary and one per column
//! boundary, with bit `k` set where a wall stands at the k-th position along
//! that boundary. The outer perimeter is always fully walled.

use vstd::prelude::*;

use crate::MazeError;
use crate::passage::{edge, there_is_no_passage_here};

verus! {

/// Bit `k` of the mask `m` is set.
pub open spec fn bit16(m: u16, k: u16) -> bool {
    (m >> k) & 1u16 == 1u16
}

/// A wall stands in row boundary `h` (between rows `h - 1` and `h`) at
/// column `k`: no passage joins the cells above and below that spot.
pub open spec fn row_wall_bit(ps: Seq<(usize, usize)>, width: int, h: int, k: int) -> bool {
    !edge(ps, (h * width + k) as usize, ((h - 1) * width + k) as usize)
}

/// A wall stands in column boundary `w` (between columns `w - 1` and `w`) at
/// row `k`: no passage joins the cells left and right of that spot.
pub open spec fn col_wall_bit(ps: Seq<(usize, usize)>, width: int, w: int, k: int) -> bool {
    !edge(ps, (k * width + w) as usize, (k * width + w - 1) as usize)
}

/// The mask for row boundary `h` is correct: an outer boundary is all ones
/// across the grid's width, and an interior one has bit `k` set exactly
/// where a wall stands there.
pub open spec fn row_mask_ok(
    m: u16,
    ps: Seq<(usize, usize)>,
    width: int,
    height: int,
    h: int,
) -> bool {
    if h == 0 || h == height {
        forall|k: u16| k < 16 ==> (bit16(m, k) <==> (k as int) < width)
    } else {
        forall|k: u16|
            k < 16 ==> (bit16(m, k) <==> ((k as int) < width && row_wall_bit(ps, width, h, k as int)))
    }
}

/// The mask for column boundary `w` is correct, as `row_mask_ok` with the
/// axes swapped.
pub open spec fn col_mask_ok(
    m: u16,
    ps: Seq<(usize, usize)>,
    width: int,
    height: int,
    w: int,
) -> bool {
    if w == 0 || w == width {
        forall|k: u16| k < 16 ==> (bit16(m, k) <==> (k as int) < height)
    } else {
        forall|k: u16|
            k < 16 ==> (bit16(m, k) <==> ((k as int) < height && col_wall_bit(ps, width, w, k as int)))
    }
}

/// A mask with exactly its lowest `n` bits set.
#[verifier::loop_isolation(false)]
fn full_mask(n: usize) -> (m: u16)
    requires
        n <= 16,
    ensures
        forall|k: u16| k < 16 ==> (bit16(m, k) <==> (k as usize) < n),
{
    let mut m: u16 = 0;
    proof {
        assert forall|k: u16| k < 16 implies !bit16(0u16, k) by {
            assert((0u16 >> k) & 1u16 != 1u16) by (bit_vector);
        }
    }
    let mut i: usize = 0;
    while i < n
        invariant
            0 <= i <= n,
            forall|k: u16| k < 16 ==> (bit16(m, k) <==> (k as usize) < i),
        decreases n - i,
    {
        let iw: u16 = i as u16;
        let m2: u16 = m | (1u16 << iw);
        proof {
            assert forall|k: u16| k < 16 implies (bit16(m2, k) <==> (bit16(m, k) || k == iw)) by {
                assert((((m | (1u16 << iw)) >> k) & 1u16 == 1u16) <==> (((m >> k) & 1u16 == 1u16)
                    || k == iw)) by (bit_vector)
                    requires
                        k < 16,
                        iw < 16,
                ;
            }
        }
        m = m2;
        i = i + 1;
    }
    m
}

/// Derive the wall bitmasks of a maze: one mask per row boundary into
/// `horizontal_walls` (`height + 1` of them) and one per column boundary
/// into `vertical_walls` (`width + 1`). Boundary 0 and the last boundary are
/// always all ones; an interior bit is 0 exactly where a passage crosses
/// that boundary.
#[verifier::loop_isolation(false)]
pub fn find_walls(
    width: usize,
    height: usize,
    passages: &Vec<(usize, usize)>,
    horizontal_walls: &mut Vec<u16>,
    vertical_walls: &mut Vec<u16>,
) -> (r: Result<(), MazeError>)
    requires
        width <= 16,
        height <= 16,
        old(horizontal_walls)@.len() == height + 1,
        old(vertical_walls)@.len() == width + 1,
    ensures
        r is Err <==> (width == 0 || height == 0),
        r is Err ==> r == Err::<(), MazeError>(MazeError::InvalidDimensions)
            && final(horizontal_walls)@ == old(horizontal_walls)@
            && final(vertical_walls)@ == old(vertical_walls)@,
        final(horizontal_walls)@.len() == height + 1,
        final(vertical_walls)@.len() == width + 1,
        r is Ok ==> forall|h: int|
            0 <= h <= height ==> row_mask_ok(
                #[trigger] final(horizontal_walls)@[h],
                passages@,
                width as int,
                height as int,
                h,
            ),
        r is Ok ==> forall|w: int|
            0 <= w <= width ==> col_mask_ok(
                #[trigger] final(vertical_walls)@[w],
                passages@,
                width as int,
                height as int,
                w,
            ),
{
    if width == 0 || height == 0 {
        return Err(MazeError::InvalidDimensions);
    }

    let all_cols = full_mask(width);
    let all_rows = full_mask(height);

    let mut h: usize = 0;
    while h < height + 1
        invariant
            0 <= h <= height + 1,
            horizontal_walls@.len() == height + 1,
            vertical_walls@.len() == width + 1,
            forall|hh: int|
                0 <= hh < h ==> row_mask_ok(
                    #[trigger] horizontal_walls@[hh],
                    passages@,
                    width as int,
                    height as int,
                    hh,
                ),
        decreases height + 1 - h,
    {
        if h == 0 || h == height {
            horizontal_walls.set(h, all_cols);
        } else {
            let mut m: u16 = 0;
            proof {
                assert forall|k: u16| k < 16 implies !bit16(0u16, k) by {
                    assert((0u16 >> k) & 1u16 != 1u16) by (bit_vector);
                }
            }
            let mut w: usize = 0;
            while w < width
                invariant
                    1 <= h < height,
                    0 <= w <= width,
                    forall|k: u16|
                        k < 16 ==> (bit16(m, k) <==> ((k as usize) < w && row_wall_bit(
                            passages@,
                            width as int,
                            h as int,
                            k as int,
                        ))),
                decreases width - w,
            {
                proof {
                    assert(h * width + w < 256 && h * width + w >= width) by (nonlinear_arith)
                        requires
                            1 <= h <= 15,
                            width <= 16,
                            w < width,
                    {
                    }
                    assert(h * width + w - width == (h - 1) * width + w) by (nonlinear_arith) {
                    }
                }
                let ind = h * width + w;
                if there_is_no_passage_here(ind, ind - width, passages) {
                    let ww: u16 = w as u16;
                    let m2: u16 = m | (1u16 << ww);
                    proof {
                        assert forall|k: u16| k < 16 implies (bit16(m2, k) <==> (bit16(m, k) || k
                            == ww)) by {
                            assert((((m | (1u16 << ww)) >> k) & 1u16 == 1u16) <==> (((m >> k)
                                & 1u16 == 1u16) || k == ww)) by (bit_vector)
                                requires
                                    k < 16,
                                    ww < 16,
                            ;
                        }
                    }
                    m = m2;
                }
                w = w + 1;
            }
            horizontal_walls.set(h, m);
        }
        h = h + 1;
    }

    let mut w: usize = 0;
    while w < width + 1
        invariant
            0 <= w <= width + 1,
            horizontal_walls@.len() == height + 1,
            vertical_walls@.len() == width + 1,
            forall|hh: int|
                0 <= hh <= height ==> row_mask_ok(
                    #[trigger] horizontal_walls@[hh],
                    passages@,
                    width as int,
                    height as int,
                    hh,
                ),
            forall|ww: int|
                0 <= ww < w ==> col_mask_ok(
                    #[trigger] vertical_walls@[ww],
                    passages@,
                    width as int,
                    height as int,
                    ww,
                ),
        decreases width + 1 - w,
    {
        if w == 0 || w == width {
            vertical_walls.set(w, all_rows);
        } else {
            let mut m: u16 = 0;
            proof {
                assert forall|k: u16| k < 16 implies !bit16(0u16, k) by {
                    assert((0u16 >> k) & 1u16 != 1u16) by (bit_vector);
                }
            }
            let mut hh: usize = 0;
            while hh < height
                invariant
                    1 <= w < width,
                    0 <= hh <= height,
                    forall|k: u16|
                        k < 16 ==> (bit16(m, k) <==> ((k as usize) < hh && col_wall_bit(
                            passages@,
                            width as int,
                            w as int,
                            k as int,
                        ))),
                decreases height - hh,
            {
                proof {
                    assert(hh * width + w < 256 && hh * width + w >= 1) by (nonlinear_arith)
                        requires
                            1 <= w < width,
                            width <= 16,
                            hh <= 15,
                    {
                    }
                }
                let ind = hh * width + w;
                if there_is_no_passage_here(ind, ind - 1, passages) {
                    let hw: u16 = hh as u16;
                    let m2: u16 = m | (1u16 << hw);
                    proof {
                        assert forall|k: u16| k < 16 implies (bit16(m2, k) <==> (bit16(m, k) || k
                            == hw)) by {
                            assert((((m | (1u16 << hw)) >> k) & 1u16 == 1u16) <==> (((m >> k)
                                & 1u16 == 1u16) || k == hw)) by (bit_vector)
                                requires
                                    k < 16,
                                    hw < 16,
                            ;
                        }
                    }
                    m = m2;
                }
                hh = hh + 1;
            }
            vertical_walls.set(w, m);
        }
        w = w + 1;
    }

    Ok(())
}

} // verus!
