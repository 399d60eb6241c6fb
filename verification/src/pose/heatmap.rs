//! Heatmaps: which cells a joint touches, and where values lie in a sample.

use vstd::arithmetic::div_mod::lemma_fundamental_div_mod_converse;
use vstd::prelude::*;

use crate::pose::data::PoseDataConfig;

verus! {

/// The cells that a joint touches: from the left to the right column and from the top to the
/// bottom row, both ends counted. A window may be empty.
#[derive(Clone, Copy, Debug, PartialEq, Eq, Structural)]
pub struct HeatmapWindow {
    pub left: i32,
    pub right: i32,
    pub top: i32,
    pub bottom: i32,
}

/// The larger of two numbers.
pub open spec fn larger(a: int, b: int) -> int {
    if a < b {
        b
    } else {
        a
    }
}

/// The smaller of two numbers.
pub open spec fn smaller(a: int, b: int) -> int {
    if b < a {
        b
    } else {
        a
    }
}

impl HeatmapWindow {
    /// Number of columns.
    pub open spec fn columns(self) -> nat {
        larger(self.right - self.left + 1, 0) as nat
    }

    /// Number of rows.
    pub open spec fn rows(self) -> nat {
        larger(self.bottom - self.top + 1, 0) as nat
    }

    /// Whether the window lies in a heatmap.
    pub open spec fn lies_in(self, width: int, height: int) -> bool {
        0 <= self.left && self.right < width && 0 <= self.top && self.bottom < height
    }

    /// Whether a cell lies in the window.
    pub open spec fn has(self, x: int, y: int) -> bool {
        self.left <= x <= self.right && self.top <= y <= self.bottom
    }

    /// The window around a centre that lies in the heatmap.
    pub fn around(center_x: i32, center_y: i32, radius: i32, width: i32, height: i32) -> (r:
        HeatmapWindow)
        requires
            width >= 0,
            height >= 0,
            i32::MIN <= center_x - radius,
            center_x + radius <= i32::MAX,
            i32::MIN <= center_y - radius,
            center_y + radius <= i32::MAX,
            i32::MIN <= center_x + radius,
            center_x - radius <= i32::MAX,
            i32::MIN <= center_y + radius,
            center_y - radius <= i32::MAX,
        ensures
            r.left == larger(center_x - radius, 0),
            r.right == smaller(center_x + radius, width - 1),
            r.top == larger(center_y - radius, 0),
            r.bottom == smaller(center_y + radius, height - 1),
            r.lies_in(width as int, height as int),
            forall|x: int, y: int|
                (#[trigger] r.has(x, y)) == {
                    &&& 0 <= x < width
                    &&& 0 <= y < height
                    &&& -radius <= x - center_x <= radius
                    &&& -radius <= y - center_y <= radius
                },
    {
        let left: i32 = center_x - radius;
        let right: i32 = center_x + radius;
        let top: i32 = center_y - radius;
        let bottom: i32 = center_y + radius;
        HeatmapWindow {
            left: if left < 0 { 0 } else { left },
            right: if width - 1 < right { width - 1 } else { right },
            top: if top < 0 { 0 } else { top },
            bottom: if height - 1 < bottom { height - 1 } else { bottom },
        }
    }
}

/// A cell of a heatmap, and where its value lies.
#[derive(Clone, Copy, Debug, PartialEq, Eq, Structural)]
pub struct HeatmapCell {
    pub x: usize,
    pub y: usize,
    pub offset: usize,
}

/// Where the value of a cell lies among the values of all heatmaps.
pub open spec fn cell_offset(joint: int, y: int, x: int, height: int, width: int) -> int {
    joint * (height * width) + y * width + x
}

/// The values of a joint lie inside those of all joints, and between those of its neighbours.
pub proof fn law_cells_lie_in_their_heatmap(
    joint: int,
    joints: int,
    y: int,
    x: int,
    height: int,
    width: int,
)
    requires
        0 <= joint < joints,
        0 <= y < height,
        0 <= x < width,
    ensures
        joint * (height * width) <= cell_offset(joint, y, x, height, width) < (joint + 1) * (height
            * width),
        0 <= cell_offset(joint, y, x, height, width) < joints * (height * width),
{
    assert(0 <= y * width + x < height * width) by (nonlinear_arith)
        requires
            0 <= y < height,
            0 <= x < width,
    ;
    let plane = height * width;
    assert(joint * plane + plane == (joint + 1) * plane) by (nonlinear_arith);
    assert(0 <= joint * plane && (joint + 1) * plane <= joints * plane) by (nonlinear_arith)
        requires
            0 <= joint < joints,
            0 <= plane,
    ;
}

/// Values lie joint by joint, in a joint row by row, and in a row column by column: one step to
/// the right is the next value, one step down a row further, and one joint on a heatmap further.
pub proof fn law_values_lie_row_by_row(joint: int, y: int, x: int, height: int, width: int)
    ensures
        cell_offset(0, 0, 0, height, width) == 0,
        cell_offset(joint, y, x + 1, height, width) == cell_offset(joint, y, x, height, width) + 1,
        cell_offset(joint, y + 1, x, height, width) == cell_offset(joint, y, x, height, width)
            + width,
        cell_offset(joint + 1, y, x, height, width) == cell_offset(joint, y, x, height, width)
            + height * width,
{
    assert(0 * (height * width) == 0 && 0 * width == 0) by (nonlinear_arith);
    assert((y + 1) * width == y * width + width) by (nonlinear_arith);
    let plane = height * width;
    assert((joint + 1) * plane == joint * plane + plane) by (nonlinear_arith);
}

/// No two cells share a place.
pub proof fn law_cells_are_kept_apart(
    joint: int,
    y: int,
    x: int,
    other_joint: int,
    other_y: int,
    other_x: int,
    height: int,
    width: int,
)
    requires
        0 <= joint,
        0 <= other_joint,
        0 <= y < height,
        0 <= x < width,
        0 <= other_y < height,
        0 <= other_x < width,
        cell_offset(joint, y, x, height, width) == cell_offset(
            other_joint,
            other_y,
            other_x,
            height,
            width,
        ),
    ensures
        joint == other_joint,
        y == other_y,
        x == other_x,
{
    let plane = height * width;
    assert(0 <= y * width + x < plane && 0 <= other_y * width + other_x < plane) by (nonlinear_arith)
        requires
            plane == height * width,
            0 <= y < height,
            0 <= x < width,
            0 <= other_y < height,
            0 <= other_x < width,
    ;
    let at = cell_offset(joint, y, x, height, width);
    lemma_fundamental_div_mod_converse(at, plane, joint, y * width + x);
    lemma_fundamental_div_mod_converse(at, plane, other_joint, other_y * width + other_x);
    let inner = y * width + x;
    lemma_fundamental_div_mod_converse(inner, width, y, x);
    lemma_fundamental_div_mod_converse(inner, width, other_y, other_x);
}

/// Cell `k` of a window, row by row.
pub open spec fn cell_at(window: HeatmapWindow, k: int) -> (int, int) {
    let columns = window.columns() as int;
    (window.left + k % columns, window.top + k / columns)
}

/// The cells of a joint's window, row by row.
pub fn heatmap_cells(config: PoseDataConfig, joint: usize, window: HeatmapWindow) -> (r: Vec<
    HeatmapCell,
>)
    requires
        joint < config.num_joints,
        config.num_joints * (config.heatmap_height * config.heatmap_width) <= usize::MAX,
        window.lies_in(config.heatmap_width as int, config.heatmap_height as int),
    ensures
        r@.len() == window.rows() * window.columns(),
        forall|k: int|
            0 <= k < r@.len() ==> {
                &&& (#[trigger] r@[k]).x == cell_at(window, k).0
                &&& r@[k].y == cell_at(window, k).1
                &&& r@[k].offset == cell_offset(
                    joint as int,
                    r@[k].y as int,
                    r@[k].x as int,
                    config.heatmap_height as int,
                    config.heatmap_width as int,
                )
            },
        forall|k: int|
            0 <= k < r@.len() ==> {
                &&& window.left <= (#[trigger] r@[k]).x <= window.right
                &&& window.top <= r@[k].y <= window.bottom
                &&& r@[k].offset == joint * (config.heatmap_height * config.heatmap_width) + r@[k].y
                    * config.heatmap_width + r@[k].x
            },
        forall|x: int, y: int| #[trigger]
            window.has(x, y) ==> exists|k: int|
                0 <= k < r@.len() && (#[trigger] r@[k]).x == x && r@[k].y == y,
        forall|k: int, l: int|
            0 <= k < l < r@.len() ==> (#[trigger] r@[k]).y < (#[trigger] r@[l]).y || (r@[k].y
                == r@[l].y && r@[k].x < r@[l].x),
{
    let mut r: Vec<HeatmapCell> = Vec::new();
    let ghost columns = window.columns() as int;
    if window.right < window.left || window.bottom < window.top {
        assert(window.rows() * window.columns() == 0) by (nonlinear_arith)
            requires
                window.rows() == 0 || window.columns() == 0,
        ;
        return r;
    }
    let height: usize = config.heatmap_height;
    let width: usize = config.heatmap_width;
    let left: usize = window.left as usize;
    let right: usize = window.right as usize;
    let top: usize = window.top as usize;
    let bottom: usize = window.bottom as usize;
    let mut y: usize = top;
    assert(0 * columns == 0) by (nonlinear_arith);
    while y <= bottom
        invariant
            joint < config.num_joints,
            config.num_joints * (height * width) <= usize::MAX,
            height == config.heatmap_height,
            width == config.heatmap_width,
            left == window.left,
            right == window.right,
            top == window.top,
            bottom == window.bottom,
            left <= right < width,
            top <= bottom < height,
            columns == right - left + 1,
            columns == window.columns(),
            top <= y <= bottom + 1,
            r@.len() == (y - top) * columns,
            forall|k: int|
                0 <= k < r@.len() ==> {
                    &&& (#[trigger] r@[k]).x == cell_at(window, k).0
                    &&& r@[k].y == cell_at(window, k).1
                    &&& r@[k].offset == cell_offset(
                        joint as int,
                        r@[k].y as int,
                        r@[k].x as int,
                        height as int,
                        width as int,
                    )
                },
        decreases bottom + 1 - y,
    {
        let mut x: usize = left;
        while x <= right
            invariant
                joint < config.num_joints,
                config.num_joints * (height * width) <= usize::MAX,
                height == config.heatmap_height,
                width == config.heatmap_width,
                left == window.left,
                right == window.right,
                top == window.top,
                left <= right < width,
                top <= y <= bottom < height,
                columns == right - left + 1,
                columns == window.columns(),
                left <= x <= right + 1,
                r@.len() == (y - top) * columns + (x - left),
                forall|k: int|
                    0 <= k < r@.len() ==> {
                        &&& (#[trigger] r@[k]).x == cell_at(window, k).0
                        &&& r@[k].y == cell_at(window, k).1
                        &&& r@[k].offset == cell_offset(
                            joint as int,
                            r@[k].y as int,
                            r@[k].x as int,
                            height as int,
                            width as int,
                        )
                    },
            decreases right + 1 - x,
        {
            proof {
                law_cells_lie_in_their_heatmap(
                    joint as int,
                    config.num_joints as int,
                    y as int,
                    x as int,
                    height as int,
                    width as int,
                );
                let plane = height * width;
                assert(0 <= y * width && 0 <= joint * plane) by (nonlinear_arith)
                    requires
                        0 <= y,
                        0 <= width,
                        0 <= joint,
                        0 <= plane,
                ;
                assert(plane <= config.num_joints * plane) by (nonlinear_arith)
                    requires
                        joint < config.num_joints,
                        0 <= plane,
                        0 <= joint,
                ;
                assert(0 <= plane) by (nonlinear_arith)
                    requires
                        plane == height * width,
                        0 <= height,
                        0 <= width,
                ;
                lemma_fundamental_div_mod_converse(
                    (y - top) * columns + (x - left),
                    columns,
                    y - top,
                    x - left,
                );
            }
            let offset: usize = joint * (height * width) + y * width + x;
            r.push(HeatmapCell { x, y, offset });
            x += 1;
        }
        assert((y - top) * columns + columns == (y + 1 - top) * columns) by (nonlinear_arith);
        y += 1;
    }
    assert(window.rows() == bottom + 1 - top);
    proof {
        let n = r@.len() as int;
        assert forall|k: int| 0 <= k < n implies {
            &&& window.left <= (#[trigger] r@[k]).x <= window.right
            &&& window.top <= r@[k].y <= window.bottom
        } by {
            lemma_cell_place(window, k);
        }
        assert forall|x: int, y: int| #[trigger] window.has(x, y) implies exists|k: int|
            0 <= k < n && (#[trigger] r@[k]).x == x && r@[k].y == y by {
            let k = (y - window.top) * columns + (x - window.left);
            lemma_cell_number(window, x, y);
            assert(r@[k].x == x && r@[k].y == y);
        }
        assert forall|k: int, l: int| 0 <= k < l < n implies (#[trigger] r@[k]).y < (
        #[trigger] r@[l]).y || (r@[k].y == r@[l].y && r@[k].x < r@[l].x) by {
            vstd::arithmetic::div_mod::lemma_fundamental_div_mod(k, columns);
            vstd::arithmetic::div_mod::lemma_fundamental_div_mod(l, columns);
            vstd::arithmetic::div_mod::lemma_div_is_ordered(k, l, columns);
        }
    }
    r
}

/// The cells of a window lie in it.
proof fn lemma_cell_place(window: HeatmapWindow, k: int)
    requires
        window.left <= window.right,
        window.top <= window.bottom,
        0 <= k < window.rows() * window.columns(),
    ensures
        window.has(cell_at(window, k).0, cell_at(window, k).1),
{
    let columns = window.columns() as int;
    let rows = window.rows() as int;
    vstd::arithmetic::div_mod::lemma_fundamental_div_mod(k, columns);
    let q = k / columns;
    let m = k % columns;
    assert(0 <= q < rows) by (nonlinear_arith)
        requires
            k == columns * q + m,
            0 <= m < columns,
            0 <= k < rows * columns,
    ;
}

/// Every cell in a window has a number.
proof fn lemma_cell_number(window: HeatmapWindow, x: int, y: int)
    requires
        window.has(x, y),
    ensures
        ({
            let columns = window.columns() as int;
            let k = (y - window.top) * columns + (x - window.left);
            0 <= k < window.rows() * columns && cell_at(window, k) == (x, y)
        }),
{
    let columns = window.columns() as int;
    let rows = window.rows() as int;
    let down = y - window.top;
    let across = x - window.left;
    lemma_fundamental_div_mod_converse(down * columns + across, columns, down, across);
    assert(0 <= down * columns + across < rows * columns) by (nonlinear_arith)
        requires
            0 <= down < rows,
            0 <= across < columns,
    ;
}

/// Where a colour of a pixel lies among the values of an image: colour by colour, row by row.
pub fn pixel_offset(channel: usize, y: usize, x: usize, height: usize, width: usize) -> (r: usize)
    requires
        channel < 3,
        y < height,
        x < width,
        3 * (height * width) <= usize::MAX,
    ensures
        r == cell_offset(channel as int, y as int, x as int, height as int, width as int),
        r == channel * (height * width) + y * width + x,
        r < 3 * (height * width),
{
    proof {
        law_cells_lie_in_their_heatmap(
            channel as int,
            3,
            y as int,
            x as int,
            height as int,
            width as int,
        );
        let plane = height * width;
        assert(0 <= y * width && 0 <= channel * plane && 0 <= plane) by (nonlinear_arith)
            requires
                plane == height * width,
                0 <= y,
                0 <= width,
                0 <= height,
                0 <= channel,
        ;
    }
    channel * (height * width) + y * width + x
}

/// The pixels between which a point lies: those at its left and right, above and below it. At the
/// last column and row both are the same.
#[derive(Clone, Copy, Debug, PartialEq, Eq, Structural)]
pub struct PixelCorners {
    pub x0: u32,
    pub y0: u32,
    pub x1: u32,
    pub y1: u32,
}

/// The pixels between which a point lies whose coordinates were rounded down to `x0` and `y0`.
pub fn bilinear_corners(x0: u32, y0: u32, width: u32, height: u32) -> (r: PixelCorners)
    requires
        x0 < width,
        y0 < height,
    ensures
        r.x0 == x0,
        r.y0 == y0,
        r.x1 == smaller(x0 + 1, width - 1),
        r.y1 == smaller(y0 + 1, height - 1),
        r.x1 < width,
        r.y1 < height,
        x0 + 1 < width ==> r.x1 == x0 + 1,
        x0 + 1 == width ==> r.x1 == x0,
        y0 + 1 < height ==> r.y1 == y0 + 1,
        y0 + 1 == height ==> r.y1 == y0,
{
    PixelCorners {
        x0,
        y0,
        x1: if x0 < width - 1 { x0 + 1 } else { width - 1 },
        y1: if y0 < height - 1 { y0 + 1 } else { height - 1 },
    }
}

} // verus!
