//! The shape of a glyph: which pixels belong to it, the box around them, and the points by which
//! its bands are described.

use vstd::prelude::*;

use crate::floats::Single;
use crate::retrieval::model::{RETRIEVAL_FEATURE_DIM, RETRIEVAL_KEYPOINTS};

verus! {

pub const FEATURE_POINTS_PER_BAND: usize = 3;

pub const FEATURE_BANDS: usize = 13;

/// Pixel `i` on the border of an image: the top and the bottom row column by column, and then
/// both sides row by row.
pub open spec fn border_pixel(width: u32, height: u32, i: int) -> (u32, u32) {
    if i < 2 * width {
        (
            (i / 2) as u32,
            if i % 2 == 0 {
                0
            } else {
                (height - 1) as u32
            },
        )
    } else {
        let k = i - 2 * width;
        (
            if k % 2 == 0 {
                0
            } else {
                (width - 1) as u32
            },
            (1 + k / 2) as u32,
        )
    }
}

/// Number of pixels on the border of an image; those of a single row or column count twice.
pub open spec fn border_len(width: u32, height: u32) -> int {
    2 * width + if height >= 2 {
        2 * (height - 2)
    } else {
        0
    }
}

/// The pixels on the border of an image.
pub fn border_pixels(width: u32, height: u32) -> (r: Vec<(u32, u32)>)
    requires
        width > 0,
        height > 0,
    ensures
        r@.len() == border_len(width, height),
        forall|i: int| 0 <= i < r@.len() ==> #[trigger] r@[i] == border_pixel(width, height, i),
        height == 1 ==> r@.len() == 2 * width,
        height >= 2 ==> r@.len() == 2 * width + 2 * (height - 2),
        forall|x: u32| #![trigger r@[2 * x]]
            x < width ==> r@[2 * x] == (x, 0u32) && r@[2 * x + 1] == (x, (height - 1) as u32),
        forall|y: u32| #![trigger r@[2 * width + 2 * (y - 1)]]
            1 <= y < height - 1 ==> r@[2 * width + 2 * (y - 1)] == (0u32, y) && r@[2 * width + 2 * (y
                - 1) + 1] == ((width - 1) as u32, y),
{
    let mut r: Vec<(u32, u32)> = Vec::new();
    for x in 0..width
        invariant
            height > 0,
            r@.len() == 2 * x,
            forall|i: int| 0 <= i < r@.len() ==> #[trigger] r@[i] == border_pixel(width, height, i),
    {
        r.push((x, 0));
        r.push((x, height - 1));
    }
    if height >= 2 {
        let last: u32 = height - 1;
        for y in 1..last
            invariant
                width > 0,
                height >= 2,
                last == height - 1,
                r@.len() == 2 * width + 2 * (y - 1),
                forall|i: int|
                    0 <= i < r@.len() ==> #[trigger] r@[i] == border_pixel(width, height, i),
        {
            r.push((0, y));
            r.push((width - 1, y));
        }
    }
    r
}

/// Every pixel on the border lies in the image, in its first or last row or column.
pub proof fn law_border_pixels_lie_on_border(width: u32, height: u32, i: int)
    requires
        width > 0,
        height > 0,
        0 <= i < border_len(width, height),
    ensures
        ({
            let p = border_pixel(width, height, i);
            &&& p.0 < width
            &&& p.1 < height
            &&& p.0 == 0 || p.0 == width - 1 || p.1 == 0 || p.1 == height - 1
        }),
{
}

/// Every pixel in the first or last row or column of an image is on its border.
pub proof fn law_border_is_whole(width: u32, height: u32, x: u32, y: u32)
    requires
        x < width,
        y < height,
        x == 0 || x == width - 1 || y == 0 || y == height - 1,
    ensures
        exists|i: int|
            0 <= i < border_len(width, height) && #[trigger] border_pixel(width, height, i) == (
                x,
                y,
            ),
{
    let i = if y == 0 {
        2 * x
    } else if y == height - 1 {
        2 * x + 1
    } else if x == 0 {
        2 * width + 2 * (y - 1)
    } else {
        2 * width + 2 * (y - 1) + 1
    };
    assert(border_pixel(width, height, i) == (x, y));
}

/// A box of pixels, with its last column and row.
#[derive(Clone, Copy, Debug, PartialEq, Eq, Structural)]
pub struct PixelBox {
    pub min_x: u32,
    pub min_y: u32,
    pub max_x: u32,
    pub max_y: u32,
}

/// Whether a pixel has enough mass; what is no number has.
pub open spec fn heavy(mass: Single, threshold: Single) -> bool {
    !mass.lt(threshold)
}

/// Whether a pixel of the image has enough mass.
pub open spec fn any_heavy(masses: Seq<Single>, threshold: Single, n: int) -> bool {
    exists|i: int| 0 <= i < n && heavy(#[trigger] masses[i], threshold)
}

/// Whether a box is tight around the first `n` pixels with enough mass: all of them are in it,
/// and each side meets one of them.
pub open spec fn tight_box(
    masses: Seq<Single>,
    width: u32,
    threshold: Single,
    n: int,
    b: PixelBox,
) -> bool {
    let w = width as int;
    &&& forall|i: int|
        0 <= i < n && heavy(#[trigger] masses[i], threshold) ==> {
            &&& b.min_x <= i % w <= b.max_x
            &&& b.min_y <= i / w <= b.max_y
        }
    &&& exists|i: int| 0 <= i < n && heavy(#[trigger] masses[i], threshold) && i % w == b.min_x
    &&& exists|i: int| 0 <= i < n && heavy(#[trigger] masses[i], threshold) && i / w == b.min_y
    &&& exists|i: int| 0 <= i < n && heavy(#[trigger] masses[i], threshold) && i % w == b.max_x
    &&& exists|i: int| 0 <= i < n && heavy(#[trigger] masses[i], threshold) && i / w == b.max_y
}

/// The box around the pixels with enough mass.
pub fn foreground_bbox(masses: &Vec<Single>, width: u32, height: u32, threshold: Single) -> (r: Option<
    PixelBox,
>)
    requires
        masses@.len() == width * height,
        width * height <= u32::MAX,
    ensures
        r is Some == any_heavy(masses@, threshold, masses@.len() as int),
        r is Some ==> tight_box(masses@, width, threshold, masses@.len() as int, r->0) && r->0.max_x
            < width && r->0.max_y < height,
        r is None == forall|i: int| 0 <= i < masses@.len() ==> (#[trigger] masses@[i]).lt(threshold),
{
    let n: usize = masses.len();
    let mut found: Option<PixelBox> = None;
    for i in 0..n
        invariant
            n == masses@.len() == width * height,
            n <= u32::MAX,
            found is Some == any_heavy(masses@, threshold, i as int),
            found is Some ==> tight_box(masses@, width, threshold, i as int, found->0)
                && found->0.max_x < width && found->0.max_y < height,
    {
        proof {
            assert(width > 0 && height > 0) by (nonlinear_arith)
                requires
                    i < width * height,
                    0 <= i,
                    0 <= width,
                    0 <= height,
            ;
            vstd::arithmetic::div_mod::lemma_fundamental_div_mod(i as int, width as int);
            let q = i as int / width as int;
            let m = i as int % width as int;
            assert(q < height) by (nonlinear_arith)
                requires
                    i == width * q + m,
                    0 <= m,
                    0 <= i < width * height,
                    width > 0,
            ;
        }
        let ghost before = found;
        if !masses[i].less(threshold) {
            let x: u32 = (i as u32) % width;
            let y: u32 = (i as u32) / width;
            assert(heavy(masses@[i as int], threshold));
            let grown = match found {
                Some(b) => PixelBox {
                    min_x: if x < b.min_x { x } else { b.min_x },
                    min_y: if y < b.min_y { y } else { b.min_y },
                    max_x: if x > b.max_x { x } else { b.max_x },
                    max_y: if y > b.max_y { y } else { b.max_y },
                },
                None => PixelBox { min_x: x, min_y: y, max_x: x, max_y: y },
            };
            proof {
                lemma_box_step(masses@, width, threshold, i as int, before, grown);
            }
            found = Some(grown);
        } else {
            proof {
                assert(!heavy(masses@[i as int], threshold));
                lemma_box_skip(masses@, width, threshold, i as int, before);
            }
        }
    }
    found
}

/// A tight box holds every pixel whose mass is not below the threshold, by its column and row, and
/// cannot be made smaller on any side: there is such a pixel in its first and in its last column,
/// and in its first and in its last row.
pub proof fn law_box_is_tight(
    masses: Seq<Single>,
    width: u32,
    height: u32,
    threshold: Single,
    b: PixelBox,
)
    requires
        masses.len() == width * height,
        width > 0,
        tight_box(masses, width, threshold, masses.len() as int, b),
    ensures
        forall|x: int, y: int|
            0 <= x < width && 0 <= y < height && !(#[trigger] masses[y * width + x]).lt(threshold)
                ==> b.min_x <= x <= b.max_x && b.min_y <= y <= b.max_y,
        exists|y: int|
            0 <= y < height && !(#[trigger] masses[y * width + b.min_x]).lt(threshold),
        exists|y: int|
            0 <= y < height && !(#[trigger] masses[y * width + b.max_x]).lt(threshold),
        exists|x: int|
            0 <= x < width && !(#[trigger] masses[b.min_y * width + x]).lt(threshold),
        exists|x: int|
            0 <= x < width && !(#[trigger] masses[b.max_y * width + x]).lt(threshold),
{
    let w = width as int;
    let n = masses.len() as int;
    assert forall|x: int, y: int|
        0 <= x < width && 0 <= y < height && !(#[trigger] masses[y * width + x]).lt(threshold)
        implies b.min_x <= x <= b.max_x && b.min_y <= y <= b.max_y by {
        let i = y * width + x;
        assert(0 <= i < n) by (nonlinear_arith)
            requires
                i == y * width + x,
                0 <= x < width,
                0 <= y < height,
                n == width * height,
        ;
        vstd::arithmetic::div_mod::lemma_fundamental_div_mod_converse(i, w, y, x);
        assert(heavy(masses[i], threshold));
    }
    let c1 = choose|i: int| 0 <= i < n && heavy(#[trigger] masses[i], threshold) && i % w == b.min_x;
    let c2 = choose|i: int| 0 <= i < n && heavy(#[trigger] masses[i], threshold) && i % w == b.max_x;
    let c3 = choose|i: int| 0 <= i < n && heavy(#[trigger] masses[i], threshold) && i / w == b.min_y;
    let c4 = choose|i: int| 0 <= i < n && heavy(#[trigger] masses[i], threshold) && i / w == b.max_y;
    lemma_pixel_place(width, height, c1);
    lemma_pixel_place(width, height, c2);
    lemma_pixel_place(width, height, c3);
    lemma_pixel_place(width, height, c4);
    assert(!masses[(c1 / w) * width + b.min_x].lt(threshold));
    assert(!masses[(c2 / w) * width + b.max_x].lt(threshold));
    assert(!masses[b.min_y * width + c3 % w].lt(threshold));
    assert(!masses[b.max_y * width + c4 % w].lt(threshold));
}

/// The column and row of a pixel by its number.
proof fn lemma_pixel_place(width: u32, height: u32, i: int)
    requires
        width > 0,
        0 <= i < width * height,
    ensures
        0 <= i % (width as int) < width,
        0 <= i / (width as int) < height,
        i == (i / (width as int)) * width + i % (width as int),
{
    let q = i / (width as int);
    let m = i % (width as int);
    vstd::arithmetic::div_mod::lemma_fundamental_div_mod(i, width as int);
    assert(0 <= q < height && i == q * width + m) by (nonlinear_arith)
        requires
            i == width * q + m,
            0 <= m < width,
            0 <= i < width * height,
            width > 0,
    ;
}

/// A pixel without enough mass leaves the box as it is.
proof fn lemma_box_skip(
    masses: Seq<Single>,
    width: u32,
    threshold: Single,
    i: int,
    found: Option<PixelBox>,
)
    requires
        0 <= i < masses.len(),
        !heavy(masses[i], threshold),
        found is Some == any_heavy(masses, threshold, i),
        found is Some ==> tight_box(masses, width, threshold, i, found->0),
    ensures
        found is Some == any_heavy(masses, threshold, i + 1),
        found is Some ==> tight_box(masses, width, threshold, i + 1, found->0),
{
    if found is Some {
        let w = width as int;
        let b = found->0;
        let a1 = choose|a: int| 0 <= a < i && heavy(#[trigger] masses[a], threshold) && a % w == b.min_x;
        let a2 = choose|a: int| 0 <= a < i && heavy(#[trigger] masses[a], threshold) && a / w == b.min_y;
        let a3 = choose|a: int| 0 <= a < i && heavy(#[trigger] masses[a], threshold) && a % w == b.max_x;
        let a4 = choose|a: int| 0 <= a < i && heavy(#[trigger] masses[a], threshold) && a / w == b.max_y;
        assert(heavy(masses[a1], threshold) && heavy(masses[a2], threshold) && heavy(
            masses[a3],
            threshold,
        ) && heavy(masses[a4], threshold));
        assert(any_heavy(masses, threshold, i + 1));
    } else if any_heavy(masses, threshold, i + 1) {
        let a = choose|a: int| 0 <= a < i + 1 && heavy(#[trigger] masses[a], threshold);
        assert(a < i);
        assert(any_heavy(masses, threshold, i));
    }
}

/// A pixel with enough mass widens the box to itself.
proof fn lemma_box_step(
    masses: Seq<Single>,
    width: u32,
    threshold: Single,
    i: int,
    found: Option<PixelBox>,
    grown: PixelBox,
)
    requires
        0 <= i < masses.len(),
        width > 0,
        heavy(masses[i], threshold),
        found is Some == any_heavy(masses, threshold, i),
        found is Some ==> tight_box(masses, width, threshold, i, found->0),
        ({
            let x = i % width as int;
            let y = i / width as int;
            match found {
                Some(b) => {
                    &&& grown.min_x == if x < b.min_x {
                        x
                    } else {
                        b.min_x as int
                    }
                    &&& grown.min_y == if y < b.min_y {
                        y
                    } else {
                        b.min_y as int
                    }
                    &&& grown.max_x == if x > b.max_x {
                        x
                    } else {
                        b.max_x as int
                    }
                    &&& grown.max_y == if y > b.max_y {
                        y
                    } else {
                        b.max_y as int
                    }
                },
                None => grown.min_x == x && grown.max_x == x && grown.min_y == y && grown.max_y == y,
            }
        }),
    ensures
        any_heavy(masses, threshold, i + 1),
        tight_box(masses, width, threshold, i + 1, grown),
{
    let w = width as int;
    assert(heavy(masses[i], threshold));
    assert(any_heavy(masses, threshold, i + 1));
    if found is Some {
        let b = found->0;
        let a1 = choose|a: int| 0 <= a < i && heavy(#[trigger] masses[a], threshold) && a % w == b.min_x;
        let a2 = choose|a: int| 0 <= a < i && heavy(#[trigger] masses[a], threshold) && a / w == b.min_y;
        let a3 = choose|a: int| 0 <= a < i && heavy(#[trigger] masses[a], threshold) && a % w == b.max_x;
        let a4 = choose|a: int| 0 <= a < i && heavy(#[trigger] masses[a], threshold) && a / w == b.max_y;
        assert(heavy(masses[a1], threshold) && heavy(masses[a2], threshold) && heavy(
            masses[a3],
            threshold,
        ) && heavy(masses[a4], threshold));
    } else {
        assert forall|a: int| 0 <= a < i + 1 && heavy(#[trigger] masses[a], threshold) implies a == i by {
            if a < i {
                assert(any_heavy(masses, threshold, i));
            }
        }
    }
}

/// The box that a glyph is described in: the one around its heavy pixels, or the whole image.
pub fn glyph_box(masses: &Vec<Single>, width: u32, height: u32, threshold: Single) -> (r: PixelBox)
    requires
        width > 0,
        height > 0,
        masses@.len() == width * height,
        width * height <= u32::MAX,
    ensures
        if any_heavy(masses@, threshold, masses@.len() as int) {
            tight_box(masses@, width, threshold, masses@.len() as int, r)
        } else {
            r == PixelBox {
                min_x: 0,
                min_y: 0,
                max_x: (width - 1) as u32,
                max_y: (height - 1) as u32,
            }
        },
        r.max_x < width,
        r.max_y < height,
{
    match foreground_bbox(masses, width, height, threshold) {
        Some(b) => b,
        None => PixelBox { min_x: 0, min_y: 0, max_x: width - 1, max_y: height - 1 },
    }
}

/// The heavy pixels of a row from `min_x` up to `end`.
pub open spec fn row_pixels(
    masses: Seq<Single>,
    width: u32,
    cutoff: Single,
    y: u32,
    min_x: int,
    end: int,
) -> Seq<(u32, u32)>
    decreases end - min_x,
{
    if end <= min_x {
        Seq::empty()
    } else {
        let before = row_pixels(masses, width, cutoff, y, min_x, end - 1);
        if heavy(masses[y * width + end - 1], cutoff) {
            before.push(((end - 1) as u32, y))
        } else {
            before
        }
    }
}

/// The heavy pixels of a list of rows between two columns, row by row.
pub open spec fn rows_pixels(
    masses: Seq<Single>,
    width: u32,
    cutoff: Single,
    rows: Seq<u32>,
    min_x: int,
    max_x: int,
) -> Seq<(u32, u32)>
    decreases rows.len(),
{
    if rows.len() == 0 {
        Seq::empty()
    } else {
        rows_pixels(masses, width, cutoff, rows.drop_last(), min_x, max_x) + row_pixels(
            masses,
            width,
            cutoff,
            rows.last(),
            min_x,
            max_x + 1,
        )
    }
}

/// The heavy pixels of a band: those of its rows between two columns, row by row.
pub fn band_pixels(
    masses: &Vec<Single>,
    width: u32,
    height: u32,
    bounds: PixelBox,
    rows: &Vec<u32>,
    cutoff: Single,
) -> (r: Vec<(u32, u32)>)
    requires
        masses@.len() == width * height,
        width * height <= u32::MAX,
        bounds.max_x < width,
        forall|k: int| 0 <= k < rows@.len() ==> #[trigger] rows@[k] < height,
    ensures
        r@ == rows_pixels(
            masses@,
            width,
            cutoff,
            rows@,
            bounds.min_x as int,
            bounds.max_x as int,
        ),
        forall|p: (u32, u32)| #[trigger]
            r@.contains(p) <==> {
                &&& bounds.min_x <= p.0 <= bounds.max_x
                &&& rows@.contains(p.1)
                &&& !masses@[p.1 * width + p.0].lt(cutoff)
            },
{
    let n: usize = rows.len();
    let mut r: Vec<(u32, u32)> = Vec::new();
    assert(rows@.take(0) =~= Seq::<u32>::empty());
    for k in 0..n
        invariant
            n == rows@.len(),
            masses@.len() == width * height,
            width * height <= u32::MAX,
            bounds.max_x < width,
            forall|j: int| 0 <= j < rows@.len() ==> #[trigger] rows@[j] < height,
            r@ == rows_pixels(
                masses@,
                width,
                cutoff,
                rows@.take(k as int),
                bounds.min_x as int,
                bounds.max_x as int,
            ),
    {
        let y: u32 = rows[k];
        let ghost done = r@;
        let start: u32 = bounds.min_x;
        let end: u32 = bounds.max_x + 1;
        assert(done + row_pixels(masses@, width, cutoff, y, start as int, start as int) =~= done);
        let mut x: u32 = start;
        while x < end
            invariant
                masses@.len() == width * height,
                width * height <= u32::MAX,
                y < height,
                end <= width,
                start <= x,
                x <= end || start > end,
                start > end ==> x == start,
                r@ == done + row_pixels(masses@, width, cutoff, y, start as int, x as int),
            decreases end - x,
        {
            assert(y * width + x < width * height && 0 <= y * width <= u32::MAX) by (nonlinear_arith)
                requires
                    y < height,
                    x < width,
                    0 <= y,
                    0 <= x,
                    width * height <= u32::MAX,
            ;
            let at: usize = (y * width + x) as usize;
            let ghost before = r@;
            if !masses[at].less(cutoff) {
                r.push((x, y));
            }
            proof {
                let whole = row_pixels(masses@, width, cutoff, y, start as int, x + 1);
                assert(r@ =~= done + whole);
            }
            x += 1;
        }
        proof {
            assert(rows@.take(k + 1).drop_last() =~= rows@.take(k as int));
            if start > end {
                assert(row_pixels(masses@, width, cutoff, y, start as int, end as int) =~= Seq::<
                    (u32, u32),
                >::empty());
            }
        }
    }
    assert(rows@.take(n as int) =~= rows@);
    proof {
        assert forall|p: (u32, u32)| #[trigger] r@.contains(p) <==> {
            &&& bounds.min_x <= p.0 <= bounds.max_x
            &&& rows@.contains(p.1)
            &&& !masses@[p.1 * width + p.0].lt(cutoff)
        } by {
            law_band_has_the_heavy_pixels_of_its_box(masses@, width, cutoff, rows@, bounds, p);
        }
    }
    r
}

/// The pixels of a row are those between the columns whose mass is not below the cutoff.
proof fn lemma_row_pixels(
    masses: Seq<Single>,
    width: u32,
    cutoff: Single,
    y: u32,
    min_x: int,
    end: int,
    p: (u32, u32),
)
    requires
        0 <= min_x,
        end <= u32::MAX + 1,
    ensures
        row_pixels(masses, width, cutoff, y, min_x, end).contains(p) <==> {
            &&& min_x <= p.0 < end
            &&& p.1 == y
            &&& !masses[y * width + p.0].lt(cutoff)
        },
    decreases end - min_x,
{
    let all = row_pixels(masses, width, cutoff, y, min_x, end);
    if end > min_x {
        let before = row_pixels(masses, width, cutoff, y, min_x, end - 1);
        lemma_row_pixels(masses, width, cutoff, y, min_x, end - 1, p);
        if heavy(masses[y * width + end - 1], cutoff) {
            let added = ((end - 1) as u32, y);
            assert(all == before.push(added));
            if before.contains(p) {
                let i = choose|i: int| 0 <= i < before.len() && before[i] == p;
                assert(all[i] == p);
            }
            if p == added {
                assert(all[all.len() - 1] == p);
            }
            if all.contains(p) {
                let i = choose|i: int| 0 <= i < all.len() && all[i] == p;
                if i < before.len() {
                    assert(before[i] == p);
                }
            }
        }
    }
}

/// A pixel is among those of a band if and only if it lies in one of the band's rows, between the
/// first and the last column of the box, and its mass in the image is not below the cutoff.
pub proof fn law_band_has_the_heavy_pixels_of_its_box(
    masses: Seq<Single>,
    width: u32,
    cutoff: Single,
    rows: Seq<u32>,
    bounds: PixelBox,
    p: (u32, u32),
)
    ensures
        rows_pixels(
            masses,
            width,
            cutoff,
            rows,
            bounds.min_x as int,
            bounds.max_x as int,
        ).contains(p) <==> {
            &&& bounds.min_x <= p.0 <= bounds.max_x
            &&& rows.contains(p.1)
            &&& !masses[p.1 * width + p.0].lt(cutoff)
        },
    decreases rows.len(),
{
    let min_x = bounds.min_x as int;
    let max_x = bounds.max_x as int;
    let all = rows_pixels(masses, width, cutoff, rows, min_x, max_x);
    if rows.len() > 0 {
        let before = rows_pixels(masses, width, cutoff, rows.drop_last(), min_x, max_x);
        let row = row_pixels(masses, width, cutoff, rows.last(), min_x, max_x + 1);
        law_band_has_the_heavy_pixels_of_its_box(
            masses,
            width,
            cutoff,
            rows.drop_last(),
            bounds,
            p,
        );
        lemma_row_pixels(masses, width, cutoff, rows.last(), min_x, max_x + 1, p);
        assert(all.contains(p) <==> before.contains(p) || row.contains(p)) by {
            if before.contains(p) {
                let i = choose|i: int| 0 <= i < before.len() && before[i] == p;
                assert(all[i] == p);
            }
            if row.contains(p) {
                let i = choose|i: int| 0 <= i < row.len() && row[i] == p;
                assert(all[before.len() + i] == p);
            }
            if all.contains(p) {
                let i = choose|i: int| 0 <= i < all.len() && all[i] == p;
                if i < before.len() {
                    assert(before[i] == p);
                } else {
                    assert(row[i - before.len()] == p);
                }
            }
        }
        assert(rows.contains(p.1) <==> rows.drop_last().contains(p.1) || p.1 == rows.last()) by {
            if rows.drop_last().contains(p.1) {
                let i = choose|i: int| 0 <= i < rows.len() - 1 && rows.drop_last()[i] == p.1;
                assert(rows[i] == p.1);
            }
            if p.1 == rows.last() {
                assert(rows[rows.len() - 1] == p.1);
            }
            if rows.contains(p.1) {
                let i = choose|i: int| 0 <= i < rows.len() && rows[i] == p.1;
                if i < rows.len() - 1 {
                    assert(rows.drop_last()[i] == p.1);
                }
            }
        }
    }
}

/// The pixels of a row run from left to right.
proof fn lemma_row_pixels_in_order(
    masses: Seq<Single>,
    width: u32,
    cutoff: Single,
    y: u32,
    min_x: int,
    end: int,
    a: int,
    b: int,
)
    requires
        0 <= min_x,
        end <= u32::MAX + 1,
        0 <= a < b < row_pixels(masses, width, cutoff, y, min_x, end).len(),
    ensures
        ({
            let all = row_pixels(masses, width, cutoff, y, min_x, end);
            all[a].1 == y && all[b].1 == y && all[a].0 < all[b].0
        }),
    decreases end - min_x,
{
    let all = row_pixels(masses, width, cutoff, y, min_x, end);
    let before = row_pixels(masses, width, cutoff, y, min_x, end - 1);
    if b < before.len() {
        lemma_row_pixels_in_order(masses, width, cutoff, y, min_x, end - 1, a, b);
        assert(all[a] == before[a] && all[b] == before[b]);
    } else {
        assert(all[a] == before[a]);
        assert(before.contains(all[a]));
        lemma_row_pixels(masses, width, cutoff, y, min_x, end - 1, all[a]);
    }
}

/// Where the rows of a band run downwards, so do its pixels, and in a row they run from left to
/// right. None comes twice.
pub proof fn law_band_pixels_run_down_and_right(
    masses: Seq<Single>,
    width: u32,
    cutoff: Single,
    rows: Seq<u32>,
    bounds: PixelBox,
    a: int,
    b: int,
)
    requires
        forall|i: int, j: int| 0 <= i < j < rows.len() ==> #[trigger] rows[i] < #[trigger] rows[j],
        0 <= a < b < rows_pixels(
            masses,
            width,
            cutoff,
            rows,
            bounds.min_x as int,
            bounds.max_x as int,
        ).len(),
    ensures
        ({
            let all = rows_pixels(
                masses,
                width,
                cutoff,
                rows,
                bounds.min_x as int,
                bounds.max_x as int,
            );
            all[a].1 < all[b].1 || (all[a].1 == all[b].1 && all[a].0 < all[b].0)
        }),
    decreases rows.len(),
{
    let min_x = bounds.min_x as int;
    let max_x = bounds.max_x as int;
    let all = rows_pixels(masses, width, cutoff, rows, min_x, max_x);
    let before = rows_pixels(masses, width, cutoff, rows.drop_last(), min_x, max_x);
    let row = row_pixels(masses, width, cutoff, rows.last(), min_x, max_x + 1);
    let n = before.len() as int;
    if b < n {
        assert forall|i: int, j: int| 0 <= i < j < rows.drop_last().len() implies
            #[trigger] rows.drop_last()[i] < #[trigger] rows.drop_last()[j] by {
            assert(rows[i] < rows[j]);
        }
        law_band_pixels_run_down_and_right(masses, width, cutoff, rows.drop_last(), bounds, a, b);
        assert(all[a] == before[a] && all[b] == before[b]);
    } else {
        assert(all[b] == row[b - n]);
        assert(row.contains(all[b]));
        lemma_row_pixels(masses, width, cutoff, rows.last(), min_x, max_x + 1, all[b]);
        if a < n {
            assert(all[a] == before[a]);
            assert(before.contains(all[a]));
            law_band_has_the_heavy_pixels_of_its_box(
                masses,
                width,
                cutoff,
                rows.drop_last(),
                bounds,
                all[a],
            );
            let i = choose|i: int| 0 <= i < rows.len() - 1 && rows.drop_last()[i] == all[a].1;
            assert(rows[i] < rows[rows.len() - 1]);
        } else {
            assert(all[a] == row[a - n]);
            lemma_row_pixels_in_order(
                masses,
                width,
                cutoff,
                rows.last(),
                min_x,
                max_x + 1,
                a - n,
                b - n,
            );
        }
    }
}

/// The distance between neighbours in single precision, around a whole number.
pub open spec fn single_step(x: u32) -> int {
    if x < 0x100_0000 {
        1
    } else if x < 0x200_0000 {
        2
    } else if x < 0x400_0000 {
        4
    } else if x < 0x800_0000 {
        8
    } else if x < 0x1000_0000 {
        16
    } else if x < 0x2000_0000 {
        32
    } else if x < 0x4000_0000 {
        64
    } else if x < 0x8000_0000 {
        128
    } else {
        256
    }
}

/// A multiple of `step` next to a number; of two that are equally near, the even multiple.
pub open spec fn nearest_multiple(x: int, step: int) -> int {
    let below = x / step;
    let rest = x % step;
    if 2 * rest < step || (2 * rest == step && below % 2 == 0) {
        below * step
    } else {
        (below + 1) * step
    }
}

/// Where the middle of a column lies, in halves of a pixel: half a pixel behind the column's
/// number, in single precision. Middles of columns far to the right fall together.
pub open spec fn column_middle(x: u32) -> int {
    if x < 0x80_0000 {
        2 * x + 1
    } else if x < 0x100_0000 {
        2 * (x + x % 2)
    } else {
        2 * nearest_multiple(x as int, single_step(x))
    }
}

/// Where the middle of a column lies, in halves of a pixel.
pub fn middle_of_column(x: u32) -> (r: u64)
    ensures
        r == column_middle(x),
{
    let column: u64 = x as u64;
    if x < 0x80_0000 {
        return 2 * column + 1;
    }
    if x < 0x100_0000 {
        return 2 * (column + column % 2);
    }
    let step: u64 = if x < 0x200_0000 {
        2
    } else if x < 0x400_0000 {
        4
    } else if x < 0x800_0000 {
        8
    } else if x < 0x1000_0000 {
        16
    } else if x < 0x2000_0000 {
        32
    } else if x < 0x4000_0000 {
        64
    } else if x < 0x8000_0000 {
        128
    } else {
        256
    };
    let below: u64 = column / step;
    let rest: u64 = column % step;
    assert(0 <= below * step <= column && (below + 1) * step <= column + step) by (nonlinear_arith)
        requires
            step > 0,
            below == column / step,
    ;
    if 2 * rest < step || (2 * rest == step && below % 2 == 0) {
        2 * (below * step)
    } else {
        2 * ((below + 1) * step)
    }
}

/// The leftmost pixel of a list, by the middles of the columns; of several, the first.
pub fn leftmost(pixels: &Vec<(u32, u32)>) -> (r: Option<(u32, u32)>)
    ensures
        r is Some == (pixels@.len() > 0),
        r is Some ==> exists|i: int|
            0 <= i < pixels@.len() && #[trigger] pixels@[i] == r->0 && (forall|j: int|
                0 <= j < pixels@.len() ==> column_middle(pixels@[i].0) <= column_middle(
                    (#[trigger] pixels@[j]).0,
                )) && forall|j: int|
                0 <= j < i ==> column_middle(pixels@[i].0) < column_middle(
                    (#[trigger] pixels@[j]).0,
                ),
{
    let n: usize = pixels.len();
    if n == 0 {
        return None;
    }
    let mut best: usize = 0;
    for i in 1..n
        invariant
            n == pixels@.len(),
            best < i,
            forall|j: int|
                0 <= j < i ==> column_middle(pixels@[best as int].0) <= column_middle(
                    (#[trigger] pixels@[j]).0,
                ),
            forall|j: int|
                0 <= j < best ==> column_middle(pixels@[best as int].0) < column_middle(
                    (#[trigger] pixels@[j]).0,
                ),
    {
        if middle_of_column(pixels[i].0) < middle_of_column(pixels[best].0) {
            best = i;
        }
    }
    Some(pixels[best])
}

/// The rightmost pixel of a list, by the middles of the columns; of several, the first.
pub fn rightmost(pixels: &Vec<(u32, u32)>) -> (r: Option<(u32, u32)>)
    ensures
        r is Some == (pixels@.len() > 0),
        r is Some ==> exists|i: int|
            0 <= i < pixels@.len() && #[trigger] pixels@[i] == r->0 && (forall|j: int|
                0 <= j < pixels@.len() ==> column_middle(pixels@[i].0) >= column_middle(
                    (#[trigger] pixels@[j]).0,
                )) && forall|j: int|
                0 <= j < i ==> column_middle(pixels@[i].0) > column_middle(
                    (#[trigger] pixels@[j]).0,
                ),
{
    let n: usize = pixels.len();
    if n == 0 {
        return None;
    }
    let mut best: usize = 0;
    for i in 1..n
        invariant
            n == pixels@.len(),
            best < i,
            forall|j: int|
                0 <= j < i ==> column_middle(pixels@[best as int].0) >= column_middle(
                    (#[trigger] pixels@[j]).0,
                ),
            forall|j: int|
                0 <= j < best ==> column_middle(pixels@[best as int].0) > column_middle(
                    (#[trigger] pixels@[j]).0,
                ),
    {
        if middle_of_column(pixels[i].0) > middle_of_column(pixels[best].0) {
            best = i;
        }
    }
    Some(pixels[best])
}

/// A point that describes a glyph, and how much it counts.
#[derive(Clone, Copy, Debug, PartialEq, Eq, Structural)]
pub struct ShapePoint {
    pub x: Single,
    pub y: Single,
    pub confidence: Single,
}

/// The points that describe a band of a glyph.
#[derive(Clone, Copy, Debug, PartialEq, Eq, Structural)]
pub struct BandShape {
    pub left: ShapePoint,
    pub center: ShapePoint,
    pub right: ShapePoint,
}

/// The bits of the mass up to which nothing is drawn, 0.000001.
pub const MIN_MASS: u32 = 0x3586_37bd;

/// Whether a glyph is drawn at all, given the sum of its masses and the largest of them.
pub fn is_drawn(total_mass: Single, max_mass: Single) -> (r: bool)
    ensures
        r == !(total_mass.le(Single { bits: MIN_MASS }) || max_mass.le(Single { bits: MIN_MASS })),
        r == !(total_mass.le(Single { bits: 0x3586_37bd }) || max_mass.le(
            Single { bits: 0x3586_37bd },
        )),
{
    let floor = Single { bits: MIN_MASS };
    !(total_mass.at_most(floor) || max_mass.at_most(floor))
}

/// The points that describe a band with a mass: those that were measured, or one point three
/// times where nothing is drawn in it.
pub fn band_shape(mass: Single, measured: BandShape, fallback: ShapePoint) -> (r: BandShape)
    ensures
        r == if (Single { bits: MIN_MASS }).lt(mass) {
            measured
        } else {
            BandShape { left: fallback, center: fallback, right: fallback }
        },
        (Single { bits: 0x3586_37bd }).lt(mass) ==> r == measured,
        !(Single { bits: 0x3586_37bd }).lt(mass) ==> r.left == fallback && r.center == fallback
            && r.right == fallback,
{
    if (Single { bits: MIN_MASS }).less(mass) {
        measured
    } else {
        BandShape { left: fallback, center: fallback, right: fallback }
    }
}

/// Point `k` of a glyph: the points of its bands, one band after the other.
pub open spec fn shape_point(bands: Seq<BandShape>, k: int) -> ShapePoint {
    let band = bands[k / 3];
    if k % 3 == 0 {
        band.left
    } else if k % 3 == 1 {
        band.center
    } else {
        band.right
    }
}

/// Feature `f` of a glyph: for each of its points the place and how much it counts.
pub open spec fn shape_feature(bands: Seq<BandShape>, f: int) -> Single {
    let point = shape_point(bands, f / 3);
    if f % 3 == 0 {
        point.x
    } else if f % 3 == 1 {
        point.y
    } else {
        point.confidence
    }
}

/// Lays out the features of a glyph. There are as many points as a pose has keypoints, so the
/// last band gives only its first.
pub fn lay_out_shape(bands: &Vec<BandShape>) -> (r: Vec<Single>)
    requires
        bands@.len() >= FEATURE_BANDS,
    ensures
        r@.len() == RETRIEVAL_FEATURE_DIM,
        forall|f: int| 0 <= f < r@.len() ==> #[trigger] r@[f] == shape_feature(bands@, f),
        forall|b: int|
            0 <= b < FEATURE_BANDS ==> {
                let band = #[trigger] bands@[b];
                &&& r@[9 * b] == band.left.x
                &&& r@[9 * b + 1] == band.left.y
                &&& r@[9 * b + 2] == band.left.confidence
                &&& b < 12 ==> {
                    &&& r@[9 * b + 3] == band.center.x
                    &&& r@[9 * b + 4] == band.center.y
                    &&& r@[9 * b + 5] == band.center.confidence
                    &&& r@[9 * b + 6] == band.right.x
                    &&& r@[9 * b + 7] == band.right.y
                    &&& r@[9 * b + 8] == band.right.confidence
                }
            },
{
    let mut r: Vec<Single> = Vec::new();
    for k in 0..RETRIEVAL_KEYPOINTS
        invariant
            bands@.len() >= FEATURE_BANDS,
            r@.len() == 3 * k,
            forall|f: int| 0 <= f < r@.len() ==> #[trigger] r@[f] == shape_feature(bands@, f),
    {
        let band = bands[k / FEATURE_POINTS_PER_BAND];
        let place: usize = k % FEATURE_POINTS_PER_BAND;
        let point = if place == 0 {
            band.left
        } else if place == 1 {
            band.center
        } else {
            band.right
        };
        assert(point == shape_point(bands@, k as int));
        r.push(point.x);
        r.push(point.y);
        r.push(point.confidence);
    }
    r
}

/// The middle of a column lies half a pixel behind its number. From column 2^23 on it is the next
/// whole number that single precision has for that, of two the even one: it is off by no more than
/// half the distance between such numbers.
pub proof fn law_column_middles_are_rounded(x: u32)
    ensures
        x < 0x80_0000 ==> column_middle(x) == 2 * x + 1,
        0x80_0000 <= x < 0x100_0000 ==> column_middle(x) % 4 == 0 && -1 <= column_middle(x) - (2 * x
            + 1) <= 1,
        0x100_0000 <= x < 0x200_0000 ==> {
            &&& column_middle(x) % 4 == 0
            &&& -2 <= column_middle(x) - 2 * x <= 2
            &&& column_middle(x) - 2 * x == 2 || 2 * x - column_middle(x) == 2
                ==> column_middle(x) % 8 == 0
        },
        0x200_0000 <= x < 0x400_0000 ==> {
            &&& column_middle(x) % 8 == 0
            &&& -4 <= column_middle(x) - 2 * x <= 4
            &&& column_middle(x) - 2 * x == 4 || 2 * x - column_middle(x) == 4
                ==> column_middle(x) % 16 == 0
        },
        0x400_0000 <= x < 0x800_0000 ==> {
            &&& column_middle(x) % 16 == 0
            &&& -8 <= column_middle(x) - 2 * x <= 8
            &&& column_middle(x) - 2 * x == 8 || 2 * x - column_middle(x) == 8
                ==> column_middle(x) % 32 == 0
        },
        0x800_0000 <= x < 0x1000_0000 ==> {
            &&& column_middle(x) % 32 == 0
            &&& -16 <= column_middle(x) - 2 * x <= 16
            &&& column_middle(x) - 2 * x == 16 || 2 * x - column_middle(x) == 16
                ==> column_middle(x) % 64 == 0
        },
        0x1000_0000 <= x < 0x2000_0000 ==> {
            &&& column_middle(x) % 64 == 0
            &&& -32 <= column_middle(x) - 2 * x <= 32
            &&& column_middle(x) - 2 * x == 32 || 2 * x - column_middle(x) == 32
                ==> column_middle(x) % 128 == 0
        },
        0x2000_0000 <= x < 0x4000_0000 ==> {
            &&& column_middle(x) % 128 == 0
            &&& -64 <= column_middle(x) - 2 * x <= 64
            &&& column_middle(x) - 2 * x == 64 || 2 * x - column_middle(x) == 64
                ==> column_middle(x) % 256 == 0
        },
        0x4000_0000 <= x < 0x8000_0000 ==> {
            &&& column_middle(x) % 256 == 0
            &&& -128 <= column_middle(x) - 2 * x <= 128
            &&& column_middle(x) - 2 * x == 128 || 2 * x - column_middle(x) == 128
                ==> column_middle(x) % 512 == 0
        },
        0x8000_0000 <= x < 0x1_0000_0000int ==> {
            &&& column_middle(x) % 512 == 0
            &&& -256 <= column_middle(x) - 2 * x <= 256
            &&& column_middle(x) - 2 * x == 256 || 2 * x - column_middle(x) == 256
                ==> column_middle(x) % 1024 == 0
        },
{
    lemma_nearest_multiple(x as int, single_step(x));
}

/// A number is rounded to a multiple that is no more than half a step away.
proof fn lemma_nearest_multiple(x: int, step: int)
    requires
        step > 0,
    ensures
        (2 * nearest_multiple(x, step)) % (2 * step) == 0,
        -step <= 2 * nearest_multiple(x, step) - 2 * x <= step,
        2 * nearest_multiple(x, step) - 2 * x == step || 2 * x - 2 * nearest_multiple(x, step) == step
            ==> (2 * nearest_multiple(x, step)) % (4 * step) == 0,
{
    let below = x / step;
    vstd::arithmetic::div_mod::lemma_fundamental_div_mod(x, step);
    vstd::arithmetic::div_mod::lemma_mod_multiples_basic(below, 2 * step);
    vstd::arithmetic::div_mod::lemma_mod_multiples_basic(below + 1, 2 * step);
    assert(2 * (below * step) == below * (2 * step)) by (nonlinear_arith);
    assert(2 * ((below + 1) * step) == (below + 1) * (2 * step)) by (nonlinear_arith);
    assert((below + 1) * step == below * step + step) by (nonlinear_arith);
    assert(step * below == below * step) by (nonlinear_arith);
    let half = below / 2;
    let up = (below + 1) / 2;
    vstd::arithmetic::div_mod::lemma_mod_multiples_basic(half, 4 * step);
    vstd::arithmetic::div_mod::lemma_mod_multiples_basic(up, 4 * step);
    assert(below % 2 == 0 ==> below * (2 * step) == half * (4 * step)) by (nonlinear_arith)
        requires
            below % 2 == 0 ==> below == 2 * half,
    ;
    assert(below % 2 != 0 ==> (below + 1) * (2 * step) == up * (4 * step)) by (nonlinear_arith)
        requires
            below % 2 != 0 ==> below + 1 == 2 * up,
    ;
}

} // verus!
