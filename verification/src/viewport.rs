//! Fitting a pattern into a viewport.
//!
//! The bounding box of the pattern is scaled down, never up, by one factor
//! for both axes, and centred in the target; every point moves along with it
//! and is clamped to the target.
//!
//! On each axis, an extent that is at least as large as the target asks for
//! the scale `(target - 2) / extent`, which leaves one cell of margin on each
//! side; a smaller extent asks for 1. The smaller of the two scales is used
//! for both axes. The offset of an axis is `(target - extent * scale) / 2 -
//! lowest * scale`, and a coordinate `c` goes to the cell `floor(c * scale +
//! offset)`, or to the nearest cell of the target where that lies outside.
//!
//! The arithmetic is binary floating point with a 24-bit significand (single
//! precision): every quotient, product, sum and difference is rounded to
//! nearest, ties to even, before it is used again. It is carried out in
//! integers. A quantity is held as a whole multiple of 2^-40, which is fine
//! enough for every value that arises from 16-bit coordinates, and is
//! rounded as [`round24`] says.
//!
//! A target of fewer than two cells on an axis has no room for the margin.
//! The formulas are applied to it as they stand: the scale is then zero or
//! negative, every coordinate on that axis goes to cell 0, and a negative
//! scale mirrors the pattern on the other axis. Where the target has no cell
//! and the pattern no extent on some axis, there is no scale at all, and
//! every point goes to the origin.

use vstd::prelude::*;
use crate::point::Point;
use crate::rounding::round24;
use crate::rounding::round_ratio;
use crate::rounding::magnitude;
use crate::rounding::nearest_even;
use crate::rounding::lemma_round24_exact;
use crate::rounding::lemma_representable_multiple;
use crate::rounding::lemma_round24_halves_exactly;
use crate::rounding::lemma_round24_is_nearest;
use crate::rounding::lemma_round24_keeps_even;
use crate::rounding::spacing;
use vstd::arithmetic::power2::pow2;
use vstd::arithmetic::power2::lemma2_to64_rest;

verus! {

/// The number 1 on the fixed-point grid: 2^40.
pub const UNIT: i128 = 0x100_0000_0000;

/// A bound on the magnitude of every scale: 2^58.
pub const SCALE_LIMIT: i128 = 0x400_0000_0000_0000;

/// A bound on the magnitude of every offset: 2^81.
pub const OFFSET_LIMIT: i128 = 0x2_0000_0000_0000_0000_0000;

/// The scale that fits `extent` into `target` with one cell of margin on each
/// side, or 1 where the extent is already smaller than the target. The ratio
/// is undefined where both are zero; see [`collapses`].
pub open spec fn axis_scale(extent: int, target: int) -> int {
    if extent >= target {
        round24((target - 2) * UNIT, extent)
    } else {
        UNIT as int
    }
}

/// The shift that centres the scaled extent in the target.
pub open spec fn axis_offset(lowest: int, extent: int, target: int, scale: int) -> int {
    let scaled = round24(extent * scale, 1);
    let room = round24(target * UNIT - scaled, 1);
    let half = round24(room, 2);
    round24(half - round24(lowest * scale, 1), 1)
}

/// The cell of coordinate `c`: its scaled and shifted position rounded down,
/// then clamped to the target, whose last cell is `target - 1`.
pub open spec fn axis_cell(c: int, scale: int, offset: int, target: int) -> int {
    let position = round24(round24(c * scale, 1) + offset, 1);
    let cell = position / (UNIT as int);
    if cell < 0 || target <= 1 {
        0
    } else if cell > target - 1 {
        target - 1
    } else {
        cell
    }
}

/// The columns of the points, in their order.
pub open spec fn columns(points: Seq<Point>) -> Seq<int> {
    points.map_values(|p: Point| p.x as int)
}

/// The rows of the points, in their order.
pub open spec fn rows(points: Seq<Point>) -> Seq<int> {
    points.map_values(|p: Point| p.y as int)
}

/// The width of the bounding box: the distance between the outermost columns.
pub open spec fn extent_x(points: Seq<Point>) -> int {
    columns(points).max() - columns(points).min()
}

/// The height of the bounding box: the distance between the outermost rows.
pub open spec fn extent_y(points: Seq<Point>) -> int {
    rows(points).max() - rows(points).min()
}

/// Whether no scale exists for the pattern: on some axis the target is empty
/// and the pattern has no extent, so that the ratio of the two is undefined.
pub open spec fn collapses(points: Seq<Point>, width: int, height: int) -> bool {
    (width == 0 && extent_x(points) == 0) || (height == 0 && extent_y(points) == 0)
}

/// The one scale applied to both axes: the smaller of the two axis scales.
pub open spec fn uniform_scale(points: Seq<Point>, width: int, height: int) -> int {
    let by_width = axis_scale(extent_x(points), width);
    let by_height = axis_scale(extent_y(points), height);
    if by_width < by_height {
        by_width
    } else {
        by_height
    }
}

/// Where `p`, a point of the pattern `points`, lies in a viewport of `width`
/// by `height` cells. A pattern that [`collapses`] lies in the origin.
pub open spec fn centered_point(p: Point, points: Seq<Point>, width: int, height: int) -> Point {
    if collapses(points, width, height) {
        Point { x: 0, y: 0 }
    } else {
        let scale = uniform_scale(points, width, height);
        let x_offset = axis_offset(columns(points).min(), extent_x(points), width, scale);
        let y_offset = axis_offset(rows(points).min(), extent_y(points), height, scale);
        Point {
            x: axis_cell(p.x as int, scale, x_offset, width) as u16,
            y: axis_cell(p.y as int, scale, y_offset, height) as u16,
        }
    }
}

/// The pattern fitted into a viewport of `width` by `height` cells: every
/// point moved to its place, in the order given.
pub open spec fn centered(points: Seq<Point>, width: int, height: int) -> Seq<Point> {
    Seq::new(points.len(), |i: int| centered_point(points[i], points, width, height))
}

/// The grid is fine enough for the scale: the scale of an axis is a whole
/// multiple of two units, so that a quotient is never rounded more coarsely
/// than its 24 bits ask for.
pub proof fn lemma_axis_scale_is_even(extent: int, target: int)
    requires
        0 <= target <= 0xffff,
        0 < extent <= 0xffff || extent < target,
    ensures
        axis_scale(extent, target) % 2 == 0,
{
    if extent >= target && target != 2 {
        let a = (target - 2) * UNIT;
        let m = magnitude(a) / (extent as nat);
        assert(m >= 0x100_0000) by (nonlinear_arith)
            requires
                magnitude(a) >= 0x100_0000_0000,
                0 < extent <= 0xffff,
                m == magnitude(a) / (extent as nat),
        ;
        let step = spacing(m) as int;
        let half = spacing(m / 2) as int;
        let n = nearest_even(a, extent * step);
        assert(n * step == 2 * (n * half)) by (nonlinear_arith)
            requires
                step == 2 * half,
        ;
    } else if extent >= target {
        assert((target - 2) * UNIT == 0);
        assert(magnitude(0) / (extent as nat) == 0) by (nonlinear_arith)
            requires
                extent > 0,
        ;
        assert(nearest_even(0, extent * 1) == 0) by (nonlinear_arith)
            requires
                extent > 0,
        ;
    }
}

/// The grid is fine enough for the offset: with an even scale, the room
/// that is left on an axis is halved exactly.
pub proof fn lemma_room_is_halved_exactly(extent: int, target: int, scale: int)
    requires
        scale % 2 == 0,
    ensures
        ({
            let room = round24(target * UNIT - round24(extent * scale, 1), 1);
            2 * round24(room, 2) == room
        }),
{
    let k = scale / 2;
    assert(extent * scale == 2 * (extent * k)) by (nonlinear_arith)
        requires
            scale == 2 * k,
    ;
    lemma_round24_keeps_even(extent * scale);
    let scaled = round24(extent * scale, 1);
    assert((target * UNIT - scaled) % 2 == 0);
    lemma_round24_keeps_even(target * UNIT - scaled);
    lemma_round24_is_nearest(target * UNIT - scaled, 1);
    lemma_round24_halves_exactly(round24(target * UNIT - scaled, 1));
}

/// Every whole multiple of one half, up to 2^23 in magnitude, is the rounded
/// value of each ratio that equals it.
proof fn lemma_halves_are_exact(k: int, b: int)
    requires
        b > 0,
        -0x100_0000 < k < 0x100_0000,
    ensures
        round24(k * 0x80_0000_0000 * b, b) == k * 0x80_0000_0000,
{
    lemma2_to64_rest();
    assert(pow2(39) == 0x80_0000_0000);
    lemma_representable_multiple(k, 39);
    lemma_round24_exact(k * pow2(39), b);
}

/// On an axis whose extent is smaller than the target, at scale 1, a
/// coordinate moves by the centring shift alone: it keeps its distance from
/// the lowest coordinate, which goes to half of the room that is left.
pub proof fn lemma_unscaled_axis(c: int, lowest: int, extent: int, target: int)
    requires
        0 <= lowest <= c <= lowest + extent <= 0xffff,
        extent < target <= 0xffff,
    ensures
        axis_cell(c, UNIT as int, axis_offset(lowest, extent, target, UNIT as int), target) == c
            - lowest + (target - extent) / 2,
{
    let half_unit = 0x80_0000_0000int;
    lemma_halves_are_exact(2 * extent, 1);
    let scaled = round24(extent * UNIT, 1);
    assert(scaled == 2 * extent * half_unit);
    lemma_halves_are_exact(2 * (target - extent), 1);
    let room = round24(target * UNIT - scaled, 1);
    assert(room == 2 * (target - extent) * half_unit);
    lemma_halves_are_exact(target - extent, 2);
    let half = round24(room, 2);
    assert(half == (target - extent) * half_unit);
    lemma_halves_are_exact(2 * lowest, 1);
    let base = round24(lowest * UNIT, 1);
    assert(base == 2 * lowest * half_unit);
    lemma_halves_are_exact(target - extent - 2 * lowest, 1);
    let offset = round24(half - base, 1);
    assert(offset == (target - extent - 2 * lowest) * half_unit);
    assert(offset == axis_offset(lowest, extent, target, UNIT as int));
    lemma_halves_are_exact(2 * c, 1);
    let moved = round24(c * UNIT, 1);
    assert(moved == 2 * c * half_unit);
    lemma_halves_are_exact(2 * c + target - extent - 2 * lowest, 1);
    let position = round24(moved + offset, 1);
    assert(position == (2 * c + target - extent - 2 * lowest) * half_unit);
    assert(position / (UNIT as int) == c - lowest + (target - extent) / 2);
}

/// A pattern smaller than the viewport on both axes is moved as a whole: each
/// point keeps its distance from the lowest column and row of the pattern,
/// which go to half of the room that is left on their axis.
pub proof fn lemma_small_pattern_is_shifted(points: Seq<Point>, width: u16, height: u16, i: int)
    requires
        0 <= i < points.len(),
        extent_x(points) < width,
        extent_y(points) < height,
    ensures
        centered(points, width as int, height as int)[i].x == points[i].x - columns(points).min()
            + (width - extent_x(points)) / 2,
        centered(points, width as int, height as int)[i].y == points[i].y - rows(points).min() + (
        height - extent_y(points)) / 2,
{
    let xs = columns(points);
    let ys = rows(points);
    xs.min_ensures();
    xs.max_ensures();
    ys.min_ensures();
    ys.max_ensures();
    let kx = xs.index_of(xs.min());
    let lx = xs.index_of(xs.max());
    let ky = ys.index_of(ys.min());
    let ly = ys.index_of(ys.max());
    assert(xs[kx] == points[kx].x && xs[lx] == points[lx].x && xs[i] == points[i].x);
    assert(ys[ky] == points[ky].y && ys[ly] == points[ly].y && ys[i] == points[i].y);
    assert(uniform_scale(points, width as int, height as int) == UNIT);
    lemma_unscaled_axis(points[i].x as int, xs.min(), extent_x(points), width as int);
    lemma_unscaled_axis(points[i].y as int, ys.min(), extent_y(points), height as int);
}

/// A pattern smaller than the viewport on both axes is not scaled: any two of
/// its points are as far apart after fitting as before, on each axis.
pub proof fn lemma_small_pattern_keeps_distances(
    points: Seq<Point>,
    width: u16,
    height: u16,
    i: int,
    j: int,
)
    requires
        0 <= i < points.len(),
        0 <= j < points.len(),
        extent_x(points) < width,
        extent_y(points) < height,
    ensures
        centered(points, width as int, height as int)[i].x - centered(
            points,
            width as int,
            height as int,
        )[j].x == points[i].x - points[j].x,
        centered(points, width as int, height as int)[i].y - centered(
            points,
            width as int,
            height as int,
        )[j].y == points[i].y - points[j].y,
{
    lemma_small_pattern_is_shifted(points, width, height, i);
    lemma_small_pattern_is_shifted(points, width, height, j);
}

/// Every point of a fitted pattern lies inside a viewport that has at least
/// one cell on each axis.
pub proof fn lemma_centered_within_viewport(points: Seq<Point>, width: u16, height: u16, i: int)
    requires
        0 <= i < points.len(),
        width >= 1,
        height >= 1,
    ensures
        centered(points, width as int, height as int)[i].x < width,
        centered(points, width as int, height as int)[i].y < height,
{
}

/// Computes [`axis_scale`].
fn scale_for_axis(extent: u16, target: u16) -> (scale: i128)
    requires
        extent > 0 || target > 0,
    ensures
        scale == axis_scale(extent as int, target as int),
        magnitude(scale as int) <= SCALE_LIMIT,
{
    if extent >= target {
        let room: i128 = (target as i128 - 2) * UNIT;
        round_ratio(room, extent as u32)
    } else {
        UNIT
    }
}

/// Computes [`axis_offset`].
fn offset_for_axis(lowest: u16, extent: u16, target: u16, scale: i128) -> (offset: i128)
    requires
        magnitude(scale as int) <= SCALE_LIMIT,
    ensures
        offset == axis_offset(lowest as int, extent as int, target as int, scale as int),
        magnitude(offset as int) <= OFFSET_LIMIT,
{
    assert(magnitude(extent * scale) <= 0xffff * 0x400_0000_0000_0000) by (nonlinear_arith)
        requires
            0 <= extent <= 0xffff,
            magnitude(scale as int) <= 0x400_0000_0000_0000,
    ;
    assert(magnitude(lowest * scale) <= 0xffff * 0x400_0000_0000_0000) by (nonlinear_arith)
        requires
            0 <= lowest <= 0xffff,
            magnitude(scale as int) <= 0x400_0000_0000_0000,
    ;
    let scaled: i128 = round_ratio(extent as i128 * scale, 1);
    let room: i128 = round_ratio(target as i128 * UNIT - scaled, 1);
    let half: i128 = round_ratio(room, 2);
    let base: i128 = round_ratio(lowest as i128 * scale, 1);
    round_ratio(half - base, 1)
}

/// Computes [`axis_cell`].
fn cell_for_axis(c: u16, scale: i128, offset: i128, target: u16) -> (cell: u16)
    requires
        magnitude(scale as int) <= SCALE_LIMIT,
        magnitude(offset as int) <= OFFSET_LIMIT,
    ensures
        cell == axis_cell(c as int, scale as int, offset as int, target as int),
{
    assert(magnitude(c * scale) <= 0xffff * 0x400_0000_0000_0000) by (nonlinear_arith)
        requires
            0 <= c <= 0xffff,
            magnitude(scale as int) <= 0x400_0000_0000_0000,
    ;
    let scaled: i128 = round_ratio(c as i128 * scale, 1);
    let position: i128 = round_ratio(scaled + offset, 1);
    if position < 0 || target <= 1 {
        0
    } else {
        let whole: u128 = position as u128 / (UNIT as u128);
        if whole > (target - 1) as u128 {
            target - 1
        } else {
            whole as u16
        }
    }
}

/// The outermost columns and rows of a pattern.
struct Bounds {
    min_x: u16,
    max_x: u16,
    min_y: u16,
    max_y: u16,
}

/// Finds the bounding box of a pattern that has at least one point.
fn bounding_box(points: &[Point]) -> (b: Bounds)
    requires
        points@.len() > 0,
    ensures
        b.min_x == columns(points@).min(),
        b.max_x == columns(points@).max(),
        b.min_y == rows(points@).min(),
        b.max_y == rows(points@).max(),
{
    let first = points[0];
    let mut b = Bounds { min_x: first.x, max_x: first.x, min_y: first.y, max_y: first.y };
    let ghost mut at_min_x: int = 0;
    let ghost mut at_max_x: int = 0;
    let ghost mut at_min_y: int = 0;
    let ghost mut at_max_y: int = 0;
    let mut i: usize = 1;
    while i < points.len()
        invariant
            1 <= i <= points@.len(),
            0 <= at_min_x < i && points@[at_min_x].x == b.min_x,
            0 <= at_max_x < i && points@[at_max_x].x == b.max_x,
            0 <= at_min_y < i && points@[at_min_y].y == b.min_y,
            0 <= at_max_y < i && points@[at_max_y].y == b.max_y,
            forall|j: int| 0 <= j < i ==> b.min_x <= (#[trigger] points@[j]).x <= b.max_x,
            forall|j: int| 0 <= j < i ==> b.min_y <= (#[trigger] points@[j]).y <= b.max_y,
        decreases points@.len() - i,
    {
        let p = points[i];
        if p.x < b.min_x {
            b.min_x = p.x;
            proof {
                at_min_x = i as int;
            }
        }
        if p.x > b.max_x {
            b.max_x = p.x;
            proof {
                at_max_x = i as int;
            }
        }
        if p.y < b.min_y {
            b.min_y = p.y;
            proof {
                at_min_y = i as int;
            }
        }
        if p.y > b.max_y {
            b.max_y = p.y;
            proof {
                at_max_y = i as int;
            }
        }
        i += 1;
    }
    proof {
        let xs = columns(points@);
        let ys = rows(points@);
        xs.min_ensures();
        xs.max_ensures();
        ys.min_ensures();
        ys.max_ensures();
        assert(xs[at_min_x] == b.min_x && xs[at_max_x] == b.max_x);
        assert(ys[at_min_y] == b.min_y && ys[at_max_y] == b.max_y);
        let kx = xs.index_of(xs.min());
        let lx = xs.index_of(xs.max());
        let ky = ys.index_of(ys.min());
        let ly = ys.index_of(ys.max());
        assert(xs[kx] == points@[kx].x && xs[lx] == points@[lx].x);
        assert(ys[ky] == points@[ky].y && ys[ly] == points@[ly].y);
    }
    b
}

/// Centres and scales a pattern to fit a screen of `screen_width` by
/// `screen_height` cells.
///
/// The result has a point for each point given, in the same order. A pattern
/// larger than the screen on some axis is scaled down, by one factor for both
/// axes, until it leaves one cell of margin on each side of that axis; a
/// smaller one keeps its size. The bounding box is then centred and every
/// point is clamped to the screen. An empty pattern gives an empty result.
pub fn center_points_on_screen(points: &[Point], screen_width: u16, screen_height: u16) -> (fitted:
    Vec<Point>)
    ensures
        fitted@ == centered(points@, screen_width as int, screen_height as int),
        fitted@.len() == points@.len(),
        screen_width >= 1 && screen_height >= 1 ==> forall|i: int|
            0 <= i < fitted@.len() ==> (#[trigger] fitted@[i]).x < screen_width && fitted@[i].y
                < screen_height,
{
    let n = points.len();
    let mut fitted: Vec<Point> = Vec::new();
    if n == 0 {
        return fitted;
    }
    let b = bounding_box(points);
    let width: u16 = b.max_x - b.min_x;
    let height: u16 = b.max_y - b.min_y;
    if (screen_width == 0 && width == 0) || (screen_height == 0 && height == 0) {
        let mut i: usize = 0;
        while i < n
            invariant
                i <= n,
                n == points@.len(),
                fitted@.len() == i,
                collapses(points@, screen_width as int, screen_height as int),
                forall|j: int|
                    0 <= j < i ==> fitted@[j] == centered_point(
                        points@[j],
                        points@,
                        screen_width as int,
                        screen_height as int,
                    ),
            decreases n - i,
        {
            fitted.push(Point { x: 0, y: 0 });
            i += 1;
        }
        return fitted;
    }
    let by_width = scale_for_axis(width, screen_width);
    let by_height = scale_for_axis(height, screen_height);
    let scale = if by_width < by_height {
        by_width
    } else {
        by_height
    };
    let x_offset = offset_for_axis(b.min_x, width, screen_width, scale);
    let y_offset = offset_for_axis(b.min_y, height, screen_height, scale);
    let mut i: usize = 0;
    while i < n
        invariant
            i <= n,
            n == points@.len(),
            fitted@.len() == i,
            !collapses(points@, screen_width as int, screen_height as int),
            magnitude(scale as int) <= SCALE_LIMIT,
            magnitude(x_offset as int) <= OFFSET_LIMIT,
            magnitude(y_offset as int) <= OFFSET_LIMIT,
            scale == uniform_scale(points@, screen_width as int, screen_height as int),
            x_offset == axis_offset(
                columns(points@).min(),
                extent_x(points@),
                screen_width as int,
                scale as int,
            ),
            y_offset == axis_offset(
                rows(points@).min(),
                extent_y(points@),
                screen_height as int,
                scale as int,
            ),
            forall|j: int|
                0 <= j < i ==> fitted@[j] == centered_point(
                    points@[j],
                    points@,
                    screen_width as int,
                    screen_height as int,
                ),
        decreases n - i,
    {
        let p = points[i];
        let x = cell_for_axis(p.x, scale, x_offset, screen_width);
        let y = cell_for_axis(p.y, scale, y_offset, screen_height);
        fitted.push(Point { x, y });
        i += 1;
    }
    fitted
}

} // verus!
