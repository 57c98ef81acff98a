//! The feature extractor: box-filter binarization of the canvas.
//!
//! The classifier consumes a fixed 28x28 grid. Each output cell looks at a
//! square block of canvas pixels, sums their intensities and goes to 1 when
//! the sum exceeds half the block area, else 0 — a majority binarization,
//! not an anti-aliased grayscale, reproduced exactly because the model was
//! trained against this preprocessing.

use vstd::prelude::*;

use crate::canvas::RasterCanvas;

verus! {

/// Side length of the classifier's input grid.
pub const INPUT_SIZE: u32 = 28;

/// Sum of the intensities of `n` pixels of row `y` starting at `x0`.
pub open spec fn row_sum(c: RasterCanvas, x0: int, y: int, n: nat) -> int
    decreases n,
{
    if n == 0 {
        0
    } else {
        row_sum(c, x0, y, (n - 1) as nat) + c.pix(x0 + n - 1, y)
    }
}

/// Sum of the intensities of a `w`-wide, `rows`-high block with top-left
/// corner `(x0, y0)`.
pub open spec fn block_sum(c: RasterCanvas, x0: int, y0: int, w: nat, rows: nat) -> int
    decreases rows,
{
    if rows == 0 {
        0
    } else {
        block_sum(c, x0, y0, w, (rows - 1) as nat) + row_sum(c, x0, y0 + rows - 1, w)
    }
}

/// Canvas pixels per grid cell along each axis.
pub open spec fn cell_pixel_size(c: RasterCanvas) -> int {
    c.spec_width() / (INPUT_SIZE as int)
}

/// One cell of the classifier grid: 1 when the block sum strictly exceeds
/// half the block area, `sum > pixel_size^2 / 2`, else 0.
pub open spec fn cell_value(c: RasterCanvas, cx: int, cy: int) -> u8 {
    let ps = cell_pixel_size(c);
    if block_sum(c, cx * ps, cy * ps, ps as nat, ps as nat) > ps * ps / 2 {
        1u8
    } else {
        0u8
    }
}

/// A row sum stays between 0 and full intensity times its width.
pub proof fn lemma_row_sum_bounds(c: RasterCanvas, x0: int, y: int, n: nat)
    ensures
        0 <= row_sum(c, x0, y, n) <= 255 * n,
    decreases n,
{
    if n > 0 {
        lemma_row_sum_bounds(c, x0, y, (n - 1) as nat);
    }
}

/// A block sum stays between 0 and full intensity times its area.
pub proof fn lemma_block_sum_bounds(c: RasterCanvas, x0: int, y0: int, w: nat, rows: nat)
    ensures
        0 <= block_sum(c, x0, y0, w, rows) <= 255 * w * rows,
    decreases rows,
{
    if rows > 0 {
        lemma_block_sum_bounds(c, x0, y0, w, (rows - 1) as nat);
        lemma_row_sum_bounds(c, x0, y0 + rows - 1, w);
        assert(255 * w * ((rows - 1) as nat) + 255 * w == 255 * w * rows) by (nonlinear_arith)
            requires
                rows >= 1,
        ;
    } else {
        assert(255 * w * 0 == 0) by (nonlinear_arith);
    }
}

/// A row of constant intensity sums to that intensity times its width.
proof fn lemma_row_sum_const(c: RasterCanvas, x0: int, y: int, n: nat, v: u8)
    requires
        forall|x: int| x0 <= x < x0 + n ==> c.pix(x, y) == v,
    ensures
        row_sum(c, x0, y, n) == (v as int) * n,
    decreases n,
{
    if n > 0 {
        lemma_row_sum_const(c, x0, y, (n - 1) as nat, v);
        assert(c.pix(x0 + n - 1, y) == v);
        assert((v as int) * ((n - 1) as nat) + v == (v as int) * n) by (nonlinear_arith)
            requires
                n >= 1,
        ;
    } else {
        assert((v as int) * 0 == 0) by (nonlinear_arith);
    }
}

/// A block of constant intensity sums to that intensity times its area.
proof fn lemma_block_sum_const(c: RasterCanvas, x0: int, y0: int, w: nat, rows: nat, v: u8)
    requires
        forall|x: int, y: int| x0 <= x < x0 + w && y0 <= y < y0 + rows ==> c.pix(x, y) == v,
    ensures
        block_sum(c, x0, y0, w, rows) == (v as int) * w * rows,
    decreases rows,
{
    if rows > 0 {
        lemma_block_sum_const(c, x0, y0, w, (rows - 1) as nat, v);
        lemma_row_sum_const(c, x0, y0 + rows - 1, w, v);
        assert((v as int) * w * ((rows - 1) as nat) + (v as int) * w == (v as int) * w * rows) by (
        nonlinear_arith)
            requires
                rows >= 1,
        ;
    } else {
        assert((v as int) * w * 0 == 0) by (nonlinear_arith);
    }
}

/// A cell whose block of canvas pixels is fully saturated reads 1.
pub proof fn lemma_cell_of_full_block(c: RasterCanvas, cx: int, cy: int)
    requires
        c.wf(),
        cell_pixel_size(c) >= 1,
        forall|x: int, y: int|
            cx * cell_pixel_size(c) <= x < cx * cell_pixel_size(c) + cell_pixel_size(c) && cy
                * cell_pixel_size(c) <= y < cy * cell_pixel_size(c) + cell_pixel_size(c)
                ==> c.pix(x, y) == 255,
    ensures
        cell_value(c, cx, cy) == 1,
{
    let ps = cell_pixel_size(c);
    lemma_block_sum_const(c, cx * ps, cy * ps, ps as nat, ps as nat, 255);
    let area = ps * ps;
    assert(area >= 1) by (nonlinear_arith)
        requires
            ps >= 1,
            area == ps * ps,
    ;
    vstd::arithmetic::div_mod::lemma_div_is_strictly_smaller(area, 2);
    assert(255 * (ps as nat) * (ps as nat) >= area) by (nonlinear_arith)
        requires
            ps >= 1,
            area == ps * ps,
    ;
}

/// A cell whose block of canvas pixels holds no ink reads 0.
pub proof fn lemma_cell_of_blank_block(c: RasterCanvas, cx: int, cy: int)
    requires
        c.wf(),
        forall|x: int, y: int|
            cx * cell_pixel_size(c) <= x < cx * cell_pixel_size(c) + cell_pixel_size(c) && cy
                * cell_pixel_size(c) <= y < cy * cell_pixel_size(c) + cell_pixel_size(c)
                ==> c.pix(x, y) == 0,
    ensures
        cell_value(c, cx, cy) == 0,
{
    let ps = cell_pixel_size(c);
    lemma_block_sum_const(c, cx * ps, cy * ps, ps as nat, ps as nat, 0);
    assert(0 * (ps as nat) * (ps as nat) == 0) by (nonlinear_arith);
    assert(ps * ps >= 0) by (nonlinear_arith);
    vstd::arithmetic::div_mod::lemma_div_pos_is_pos(ps * ps, 2);
}

/// On a blank canvas every cell of the grid reads 0.
pub proof fn lemma_cells_of_blank_canvas(c: RasterCanvas, cx: int, cy: int)
    requires
        c.wf(),
        c.is_blank(),
    ensures
        cell_value(c, cx, cy) == 0,
{
    lemma_cell_of_blank_block(c, cx, cy);
}

/// A block sum that lands exactly on the threshold keeps the cell at 0: the
/// comparison is strict.
pub proof fn lemma_cell_at_threshold(c: RasterCanvas, cx: int, cy: int)
    requires
        c.wf(),
        block_sum(
            c,
            cx * cell_pixel_size(c),
            cy * cell_pixel_size(c),
            cell_pixel_size(c) as nat,
            cell_pixel_size(c) as nat,
        ) == cell_pixel_size(c) * cell_pixel_size(c) / 2,
    ensures
        cell_value(c, cx, cy) == 0,
{
}

/// Sums one block of canvas pixels.
fn block_sum_exec(c: &RasterCanvas, x0: i64, y0: i64, ps: u32) -> (s: u64)
    requires
        c.wf(),
        0 <= x0 <= 0x8_0000_0000,
        0 <= y0 <= 0x8_0000_0000,
        ps < 0x1000_0000,
    ensures
        s == block_sum(*c, x0 as int, y0 as int, ps as nat, ps as nat),
{
    proof {
        assert(0 <= 255 * (ps as int) * (ps as int) < 0x1_0000_0000_0000_0000) by (nonlinear_arith)
            requires
                0 <= ps < 0x1000_0000u32,
        ;
    }
    let mut sum: u64 = 0;
    let mut j: u32 = 0;
    while j < ps
        invariant
            j <= ps,
            ps < 0x1000_0000,
            0 <= x0 <= 0x8_0000_0000,
            0 <= y0 <= 0x8_0000_0000,
            c.wf(),
            sum == block_sum(*c, x0 as int, y0 as int, ps as nat, j as nat),
            0 <= 255 * (ps as int) * (ps as int) < 0x1_0000_0000_0000_0000,
        decreases ps - j,
    {
        proof {
            lemma_block_sum_bounds(*c, x0 as int, y0 as int, ps as nat, j as nat);
            assert(255 * (ps as int) * (j as int) + 255 * (ps as int) <= 255 * (ps as int) * (
            ps as int)) by (nonlinear_arith)
                requires
                    0 <= j < ps,
            ;
        }
        let mut i: u32 = 0;
        let mut rsum: u64 = 0;
        while i < ps
            invariant
                i <= ps,
                j < ps,
                ps < 0x1000_0000,
                0 <= x0 <= 0x8_0000_0000,
                0 <= y0 <= 0x8_0000_0000,
                c.wf(),
                rsum == row_sum(*c, x0 as int, y0 as int + j, i as nat),
                rsum <= 255 * (i as int),
            decreases ps - i,
        {
            let v = c.get_pixel(x0 + i as i64, y0 + j as i64);
            rsum = rsum + v as u64;
            i = i + 1;
        }
        proof {
            lemma_row_sum_bounds(*c, x0 as int, y0 as int + j, ps as nat);
            lemma_block_sum_bounds(*c, x0 as int, y0 as int, ps as nat, j as nat);
        }
        sum = sum + rsum;
        j = j + 1;
    }
    sum
}

/// Reduces the canvas to the classifier's 28x28 binary grid, row-major with
/// row 0 at the top.
pub fn extract_grid(c: &RasterCanvas) -> (grid: Vec<u8>)
    requires
        c.wf(),
    ensures
        grid@.len() == INPUT_SIZE * INPUT_SIZE,
        forall|cy: int, cx: int|
            0 <= cy < INPUT_SIZE && 0 <= cx < INPUT_SIZE ==> grid@[cy * (INPUT_SIZE as int) + cx]
                == #[trigger] cell_value(*c, cx, cy),
        forall|k: int|
            0 <= k < grid@.len() ==> #[trigger] grid@[k] == cell_value(
                *c,
                k % (INPUT_SIZE as int),
                k / (INPUT_SIZE as int),
            ),
{
    let ps: u32 = c.width() / INPUT_SIZE;
    proof {
        assert(0 <= 255 * (ps as int) * (ps as int) < 0x1_0000_0000_0000_0000) by (nonlinear_arith)
            requires
                0 <= ps < 0x1000_0000u32,
        ;
    }
    let mut grid: Vec<u8> = Vec::new();
    let mut cy: u32 = 0;
    while cy < INPUT_SIZE
        invariant
            cy <= INPUT_SIZE,
            c.wf(),
            ps == cell_pixel_size(*c),
            ps < 0x1000_0000,
            grid@.len() == cy * (INPUT_SIZE as int),
            forall|cy2: int, cx2: int|
                0 <= cy2 < cy && 0 <= cx2 < INPUT_SIZE ==> grid@[cy2 * (INPUT_SIZE as int) + cx2]
                    == #[trigger] cell_value(*c, cx2, cy2),
        decreases INPUT_SIZE - cy,
    {
        let mut cx: u32 = 0;
        while cx < INPUT_SIZE
            invariant
                cx <= INPUT_SIZE,
                cy < INPUT_SIZE,
                c.wf(),
                ps == cell_pixel_size(*c),
                ps < 0x1000_0000,
                grid@.len() == cy * (INPUT_SIZE as int) + cx,
                forall|cy2: int, cx2: int|
                    0 <= cy2 < cy && 0 <= cx2 < INPUT_SIZE ==> grid@[cy2 * (INPUT_SIZE as int)
                        + cx2] == #[trigger] cell_value(*c, cx2, cy2),
                forall|cx2: int|
                    0 <= cx2 < cx ==> grid@[cy * (INPUT_SIZE as int) + cx2] == #[trigger] cell_value(
                        *c,
                        cx2,
                        cy as int,
                    ),
            decreases INPUT_SIZE - cx,
        {
            proof {
                assert(0 <= (cx as int) * (ps as int) <= 0x8_0000_0000 && 0 <= (cy as int) * (
                ps as int) <= 0x8_0000_0000) by (nonlinear_arith)
                    requires
                        0 <= cx <= 28u32,
                        0 <= cy <= 28u32,
                        0 <= ps < 0x1000_0000u32,
                ;
            }
            let x0: i64 = (cx as i64) * (ps as i64);
            let y0: i64 = (cy as i64) * (ps as i64);
            let sum: u64 = block_sum_exec(c, x0, y0, ps);
            proof {
                assert(0 <= (ps as int) * (ps as int) < 0x1_0000_0000_0000_0000) by (
                nonlinear_arith)
                    requires
                        0 <= ps < 0x1000_0000u32,
                ;
            }
            let threshold: u64 = (ps as u64) * (ps as u64) / 2;
            let cell: u8 = if sum > threshold {
                1
            } else {
                0
            };
            grid.push(cell);
            cx = cx + 1;
        }
        cy = cy + 1;
    }
    proof {
        assert forall|k: int| 0 <= k < grid@.len() implies #[trigger] grid@[k] == cell_value(
            *c,
            k % (INPUT_SIZE as int),
            k / (INPUT_SIZE as int),
        ) by {
            let n = INPUT_SIZE as int;
            vstd::arithmetic::div_mod::lemma_fundamental_div_mod(k, n);
            let cx2 = k % n;
            let cy2 = k / n;
            assert(0 <= cy2 < INPUT_SIZE) by (nonlinear_arith)
                requires
                    n == 28,
                    0 <= k < 28 * 28,
                    k == n * cy2 + cx2,
                    0 <= cx2 < n,
            ;
            assert(cy2 * n + cx2 == k);
        }
    }
    grid
}

} // verus!
