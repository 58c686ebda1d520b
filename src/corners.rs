use vstd::prelude::*;

verus! {

/// A pixel location of a corner candidate.
pub type CornerLocation = (i32, i32);

/// Whether a corner candidate passed a filter.
#[derive(Debug, Ord, PartialOrd, Eq, PartialEq, Clone)]
pub enum CornerFilterResult {
    FakeCorner,
    RealCorner,
}

/// The filter that eliminated a corner candidate.
#[derive(Debug, Clone, Copy, Eq, PartialEq)]
pub enum EliminationCause {
    Symmetry,
    Distance,
    Angle,
}

/// The corners kept by a filtering pass and those it eliminated, with the cause.
pub struct FilteringResult {
    pub remaining_corners: Vec<(i32, i32)>,
    pub filtered_out_corners: Vec<(i32, i32, EliminationCause)>,
}

/// The mean of a set of corners and the center of their bounding box.
pub struct CornersMeanAndMedium {
    pub mean: CornerLocation,
    pub medium: CornerLocation,
}

/// The pixel index that `v` clamps to along an axis of `size` pixels: `v` is
/// raised to zero, then lowered to the last index. An axis of no pixels has
/// last index -1, which reads as `u32::MAX` once unsigned.
pub open spec fn clamp_pixel(v: int, size: int) -> int {
    if size == 0 {
        u32::MAX as int
    } else if v < 0 {
        0
    } else if v > size - 1 {
        size - 1
    } else {
        v
    }
}

/// Clamps pixel coordinates into an image of the given size.
pub fn get_pixel_coord(p: (i32, i32), width: u32, height: u32) -> (r: (u32, u32))
    requires
        width <= i32::MAX,
        height <= i32::MAX,
    ensures
        r.0 == clamp_pixel(p.0 as int, width as int),
        r.1 == clamp_pixel(p.1 as int, height as int),
{
    let (x, y) = p;
    let mut x_o: i32 = x;
    let mut y_o: i32 = y;
    if x_o < 0 {
        x_o = 0;
    }
    if y_o < 0 {
        y_o = 0;
    }
    let w: i32 = width as i32 - 1;
    let h: i32 = height as i32 - 1;
    if x_o > w {
        x_o = w;
    }
    if y_o > h {
        y_o = h;
    }
    let rx: u32 = if x_o < 0 { u32::MAX } else { x_o as u32 };
    let ry: u32 = if y_o < 0 { u32::MAX } else { y_o as u32 };
    (rx, ry)
}

/// The sum of the x (`axis == 0`) or y coordinates of the corners.
pub open spec fn coord_sum(c: Seq<CornerLocation>, axis: int) -> int
    decreases c.len(),
{
    if c.len() == 0 {
        0
    } else {
        coord_sum(c.drop_last(), axis) + coord_of(c.last(), axis)
    }
}

/// The x (`axis == 0`) or y coordinate of a corner.
pub open spec fn coord_of(p: CornerLocation, axis: int) -> int {
    if axis == 0 { p.0 as int } else { p.1 as int }
}

/// The least x or y coordinate of the corners (`i32::MAX` for none).
pub open spec fn coord_min(c: Seq<CornerLocation>, axis: int) -> int
    decreases c.len(),
{
    if c.len() == 0 {
        i32::MAX as int
    } else {
        let m = coord_min(c.drop_last(), axis);
        let v = coord_of(c.last(), axis);
        if v < m { v } else { m }
    }
}

/// The greatest x or y coordinate of the corners (`i32::MIN` for none).
pub open spec fn coord_max(c: Seq<CornerLocation>, axis: int) -> int
    decreases c.len(),
{
    if c.len() == 0 {
        i32::MIN as int
    } else {
        let m = coord_max(c.drop_last(), axis);
        let v = coord_of(c.last(), axis);
        if v > m { v } else { m }
    }
}

/// Integer division rounding toward zero, as on machine integers.
pub open spec fn div_toward_zero(a: int, b: int) -> int {
    if a >= 0 { a / b } else { -((-a) / b) }
}

/// Every running sum of the coordinates along an axis fits in an `i32`.
pub open spec fn sums_fit(c: Seq<CornerLocation>, axis: int) -> bool {
    forall|k: int| 0 <= k <= c.len() ==> i32::MIN <= #[trigger] coord_sum(c.subrange(0, k), axis) <= i32::MAX
}

/// Divides rounding toward zero.
fn div_toward_zero_i32(a: i32, b: i32) -> (r: i32)
    requires
        b > 0,
    ensures
        r == div_toward_zero(a as int, b as int),
{
    let a64: i64 = a as i64;
    let b64: i64 = b as i64;
    if a64 >= 0 {
        assert(0 <= a64 / b64 <= a64) by (nonlinear_arith)
            requires a64 >= 0, b64 > 0;
        (a64 / b64) as i32
    } else {
        let m: i64 = -a64;
        assert(0 <= m / b64 <= m) by (nonlinear_arith)
            requires m >= 0, b64 > 0;
        (-(m / b64)) as i32
    }
}

/// The mean corner (each coordinate summed and divided by the count, rounding
/// toward zero) and the center of the corners' bounding box (the midpoint of
/// the least and greatest coordinate, rounding toward zero).
pub fn find_corners_mean_and_medium(possible_corners: &Vec<CornerLocation>) -> (r: CornersMeanAndMedium)
    requires
        possible_corners.len() > 0,
        possible_corners.len() <= i32::MAX,
        sums_fit(possible_corners@, 0),
        sums_fit(possible_corners@, 1),
        i32::MIN <= coord_min(possible_corners@, 0) + coord_max(possible_corners@, 0) <= i32::MAX,
        i32::MIN <= coord_min(possible_corners@, 1) + coord_max(possible_corners@, 1) <= i32::MAX,
    ensures
        r.mean.0 == div_toward_zero(coord_sum(possible_corners@, 0), possible_corners.len() as int),
        r.mean.1 == div_toward_zero(coord_sum(possible_corners@, 1), possible_corners.len() as int),
        r.medium.0 == div_toward_zero(coord_min(possible_corners@, 0) + coord_max(possible_corners@, 0), 2),
        r.medium.1 == div_toward_zero(coord_min(possible_corners@, 1) + coord_max(possible_corners@, 1), 2),
{
    let c = possible_corners;
    let n = c.len();
    let mut mean_x: i32 = 0;
    let mut mean_y: i32 = 0;
    let mut min_x: i32 = i32::MAX;
    let mut max_x: i32 = i32::MIN;
    let mut min_y: i32 = i32::MAX;
    let mut max_y: i32 = i32::MIN;
    let mut i: usize = 0;
    while i < n
        invariant
            n == c.len(),
            0 <= i <= n,
            sums_fit(c@, 0),
            sums_fit(c@, 1),
            mean_x == coord_sum(c@.subrange(0, i as int), 0),
            mean_y == coord_sum(c@.subrange(0, i as int), 1),
            min_x == coord_min(c@.subrange(0, i as int), 0),
            max_x == coord_max(c@.subrange(0, i as int), 0),
            min_y == coord_min(c@.subrange(0, i as int), 1),
            max_y == coord_max(c@.subrange(0, i as int), 1),
        decreases n - i,
    {
        let (x, y) = c[i];
        proof {
            let s = c@.subrange(0, i as int + 1);
            assert(s.drop_last() =~= c@.subrange(0, i as int));
            assert(s.last() == c@[i as int]);
            assert(i32::MIN <= coord_sum(c@.subrange(0, i as int + 1), 0) <= i32::MAX);
            assert(i32::MIN <= coord_sum(c@.subrange(0, i as int + 1), 1) <= i32::MAX);
        }
        mean_x = mean_x + x;
        mean_y = mean_y + y;
        if x < min_x {
            min_x = x;
        }
        if x > max_x {
            max_x = x;
        }
        if y < min_y {
            min_y = y;
        }
        if y > max_y {
            max_y = y;
        }
        i = i + 1;
    }
    assert(c@.subrange(0, n as int) =~= c@);
    let count: i32 = n as i32;
    let mx: i32 = div_toward_zero_i32(mean_x, count);
    let my: i32 = div_toward_zero_i32(mean_y, count);
    let hx: i32 = div_toward_zero_i32(min_x + max_x, 2);
    let hy: i32 = div_toward_zero_i32(min_y + max_y, 2);
    CornersMeanAndMedium { mean: (mx, my), medium: (hx, hy) }
}

} // verus!
