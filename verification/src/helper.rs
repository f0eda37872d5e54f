//! Geometric helpers on grid positions: stepping by a direction, border and
//! wall tests, and fixed-point distance measures.

use vstd::prelude::*;
use crate::{MoveDirection, Position, Walls};

verus! {

/// Scale factor of all fixed-point quantities: a score of `1.0` is `SCALE`.
pub const SCALE: u64 = 10000;

/// Whether stepping from `pos` in direction `dir` stays within the range of
/// unsigned coordinates (it neither underflows below zero nor overflows).
pub open spec fn move_in_range(pos: Position, dir: MoveDirection) -> bool {
    match dir {
        MoveDirection::Up => pos.y > 0,
        MoveDirection::Right => pos.x < u32::MAX,
        MoveDirection::Down => pos.y < u32::MAX,
        MoveDirection::Left => pos.x > 0,
    }
}

/// The cell one step from `pos` in direction `dir`.
pub open spec fn move_spec(pos: Position, dir: MoveDirection) -> Position {
    match dir {
        MoveDirection::Up => Position { x: pos.x, y: (pos.y - 1) as u32 },
        MoveDirection::Right => Position { x: (pos.x + 1) as u32, y: pos.y },
        MoveDirection::Down => Position { x: pos.x, y: (pos.y + 1) as u32 },
        MoveDirection::Left => Position { x: (pos.x - 1) as u32, y: pos.y },
    }
}

/// Steps one cell in the given direction. Up decreases `y`, Down increases
/// `y`, Left decreases `x`, Right increases `x`.
pub fn move_by_direction(pos: &Position, dir: &MoveDirection) -> (r: Position)
    requires
        move_in_range(*pos, *dir),
    ensures
        r == move_spec(*pos, *dir),
{
    match dir {
        MoveDirection::Up => Position { x: pos.x, y: pos.y - 1 },
        MoveDirection::Right => Position { x: pos.x + 1, y: pos.y },
        MoveDirection::Down => Position { x: pos.x, y: pos.y + 1 },
        MoveDirection::Left => Position { x: pos.x - 1, y: pos.y },
    }
}

/// Whether a step from `pos` in direction `dir` leaves the playground
/// `[0, size.x] x [0, size.y]`.
pub open spec fn over_border_spec(pos: Position, dir: MoveDirection, size: Position) -> bool {
    match dir {
        MoveDirection::Up => pos.y == 0,
        MoveDirection::Right => pos.x >= size.x,
        MoveDirection::Down => pos.y >= size.y,
        MoveDirection::Left => pos.x == 0,
    }
}

/// Tests whether stepping from `pos` in direction `dir` would leave the
/// playground, whose cells range over `[0, size.x] x [0, size.y]`.
pub fn is_move_over_playground_border(pos: &Position, dir: &MoveDirection, size: &Position) -> (r:
    bool)
    ensures
        r == over_border_spec(*pos, *dir, *size),
{
    match dir {
        MoveDirection::Up => pos.y == 0,
        MoveDirection::Right => pos.x >= size.x,
        MoveDirection::Down => pos.y >= size.y,
        MoveDirection::Left => pos.x == 0,
    }
}

/// The direction that leads from `p1` toward `p2`, judged axis by axis with
/// the x axis first; `None` when the two positions are equal.
pub open spec fn direction_from_move_spec(p1: Position, p2: Position) -> Option<MoveDirection> {
    if p2.x > p1.x {
        Some(MoveDirection::Right)
    } else if p2.x < p1.x {
        Some(MoveDirection::Left)
    } else if p2.y < p1.y {
        Some(MoveDirection::Up)
    } else if p2.y > p1.y {
        Some(MoveDirection::Down)
    } else {
        None
    }
}

/// Computes the direction from `pos1` toward `pos2`. Equal positions have no
/// direction between them, which is reported as `None` rather than treated as
/// a fault.
pub fn direction_from_move(pos1: &Position, pos2: &Position) -> (r: Option<MoveDirection>)
    ensures
        r == direction_from_move_spec(*pos1, *pos2),
        r is None <==> pos1 == pos2,
{
    if pos2.x > pos1.x {
        Some(MoveDirection::Right)
    } else if pos2.x < pos1.x {
        Some(MoveDirection::Left)
    } else if pos2.y < pos1.y {
        Some(MoveDirection::Up)
    } else if pos2.y > pos1.y {
        Some(MoveDirection::Down)
    } else {
        None
    }
}

/// The integer square root: the largest `r` with `r * r <= n`.
pub open spec fn sqrt_floor(n: nat) -> nat
    decreases n,
{
    if n == 0 {
        0
    } else {
        let r = sqrt_floor((n - 1) as nat);
        if (r + 1) * (r + 1) <= n {
            r + 1
        } else {
            r
        }
    }
}

pub proof fn lemma_sqrt_floor_bounds(n: nat)
    ensures
        sqrt_floor(n) * sqrt_floor(n) <= n,
        n < (sqrt_floor(n) + 1) * (sqrt_floor(n) + 1),
    decreases n,
{
    let s = sqrt_floor(n);
    if n == 0 {
        assert(s == 0);
        assert(n < (s + 1) * (s + 1)) by (nonlinear_arith)
            requires
                n == 0 && s == 0,
        ;
    } else {
        lemma_sqrt_floor_bounds((n - 1) as nat);
        let r = sqrt_floor((n - 1) as nat);
        if (r + 1) * (r + 1) <= n {
            assert(s == r + 1);
            assert(n - 1 < (r + 1) * (r + 1));
            assert(s * s <= n && n < (s + 1) * (s + 1)) by (nonlinear_arith)
                requires
                    s == r + 1,
                    r >= 0,
                    (r + 1) * (r + 1) <= n,
                    n <= (r + 1) * (r + 1),
            ;
        } else {
            assert(s == r);
            assert(s * s <= n && n < (s + 1) * (s + 1)) by (nonlinear_arith)
                requires
                    s == r,
                    r * r <= n - 1,
                    n < (r + 1) * (r + 1),
            ;
        }
    }
}

pub proof fn lemma_sqrt_floor_unique(n: nat, r: nat)
    requires
        r * r <= n,
        n < (r + 1) * (r + 1),
    ensures
        r == sqrt_floor(n),
{
    lemma_sqrt_floor_bounds(n);
    let s = sqrt_floor(n);
    if r < s {
        assert(s * s <= n);
        assert((r + 1) * (r + 1) <= s * s) by (nonlinear_arith)
            requires
                r + 1 <= s,
        ;
    }
    if s < r {
        assert((s + 1) * (s + 1) <= r * r) by (nonlinear_arith)
            requires
                s + 1 <= r,
        ;
    }
}

/// Square roots are monotone.
pub proof fn lemma_sqrt_floor_monotone(a: nat, b: nat)
    requires
        a <= b,
    ensures
        sqrt_floor(a) <= sqrt_floor(b),
{
    lemma_sqrt_floor_bounds(a);
    lemma_sqrt_floor_bounds(b);
    let ra = sqrt_floor(a);
    let rb = sqrt_floor(b);
    if rb < ra {
        assert((rb + 1) * (rb + 1) <= ra * ra) by (nonlinear_arith)
            requires
                rb + 1 <= ra,
        ;
    }
}

/// Computes the integer square root by binary search.
pub fn isqrt(n: u128) -> (r: u128)
    ensures
        r == sqrt_floor(n as nat),
{
    let mut lo: u128 = 0;
    let mut hi: u128 = if n < u64::MAX as u128 {
        n
    } else {
        u64::MAX as u128
    };
    proof {
        assert((hi + 1) * (hi + 1) > n) by (nonlinear_arith)
            requires
                hi + 1 > u64::MAX || hi + 1 > n,
                hi < 0x1_0000_0000_0000_0000,
                n <= u128::MAX,
        ;
    }
    while lo < hi
        invariant
            lo <= hi,
            hi <= u64::MAX,
            lo * lo <= n,
            n < (hi + 1) * (hi + 1),
        decreases hi - lo,
    {
        let mid = lo + (hi - lo + 1) / 2;
        assert(lo < mid <= hi);
        proof {
            assert(mid * mid <= u64::MAX * u64::MAX && u64::MAX * u64::MAX < u128::MAX)
                by (nonlinear_arith)
                requires
                    0 <= mid <= u64::MAX,
            ;
        }
        if mid * mid <= n {
            lo = mid;
        } else {
            hi = mid - 1;
        }
    }
    proof {
        lemma_sqrt_floor_unique(n as nat, lo as nat);
    }
    lo
}

/// The squared Euclidean distance between two positions.
pub open spec fn dist_sq(p1: Position, p2: Position) -> int {
    (p1.x - p2.x) * (p1.x - p2.x) + (p1.y - p2.y) * (p1.y - p2.y)
}

/// The Euclidean distance between two positions as a fixed-point number:
/// `floor(SCALE * sqrt(dist_sq))`, computed as one square root.
pub open spec fn distance_fp_spec(p1: Position, p2: Position) -> int {
    sqrt_floor((dist_sq(p1, p2) * (SCALE * SCALE)) as nat) as int
}

/// The absolute difference of two coordinates.
fn abs_diff(a: u32, b: u32) -> (r: u64)
    ensures
        r == if a >= b {
            a - b
        } else {
            b - a
        },
{
    if a >= b {
        (a - b) as u64
    } else {
        (b - a) as u64
    }
}

/// Upper bounds used to show that the fixed-point measures fit their types:
/// a squared coordinate difference is below `2^64` and a scaled square stays
/// within `u128`.
proof fn lemma_sq_bound(d: int)
    requires
        0 <= d <= u32::MAX,
    ensures
        d * d < 0x1_0000_0000_0000_0000,
{
    assert(d * d <= u32::MAX * u32::MAX) by (nonlinear_arith)
        requires
            0 <= d <= u32::MAX,
    ;
}

/// A square root of a value below `bound` squared is below `bound`.
pub proof fn lemma_sqrt_small(n: nat, bound: nat)
    requires
        n < bound * bound,
    ensures
        sqrt_floor(n) < bound,
{
    lemma_sqrt_floor_bounds(n);
    let r = sqrt_floor(n);
    if r >= bound {
        assert(bound * bound <= r * r) by (nonlinear_arith)
            requires
                bound <= r,
        ;
    }
}

/// The straight-line distance between two positions, as a fixed-point number
/// scaled by [`SCALE`].
pub fn calculate_distance(pos1: &Position, pos2: &Position) -> (r: u64)
    ensures
        r == distance_fp_spec(*pos1, *pos2),
{
    let dx = abs_diff(pos1.x, pos2.x) as u128;
    let dy = abs_diff(pos1.y, pos2.y) as u128;
    proof {
        lemma_sq_bound(dx as int);
        lemma_sq_bound(dy as int);
        assert(dx * dx == dist_sq(*pos1, *pos2) - dy * dy) by (nonlinear_arith)
            requires
                dx == if pos1.x >= pos2.x {
                    pos1.x - pos2.x
                } else {
                    pos2.x - pos1.x
                },
                dy == if pos1.y >= pos2.y {
                    pos1.y - pos2.y
                } else {
                    pos2.y - pos1.y
                },
                dist_sq(*pos1, *pos2) == (pos1.x - pos2.x) * (pos1.x - pos2.x) + (pos1.y - pos2.y)
                    * (pos1.y - pos2.y),
        ;
    }
    let dsq = dx * dx + dy * dy;
    proof {
        assert(dsq * ((SCALE * SCALE) as u128) < 0x400_0000_0000_0000_0000_0000_0000
            && 0x400_0000_0000_0000_0000_0000_0000 < u128::MAX) by (nonlinear_arith)
            requires
                dsq < 0x2_0000_0000_0000_0000,
                SCALE == 10000,
        ;
    }
    let scaled = dsq * ((SCALE * SCALE) as u128);
    let root = isqrt(scaled);
    proof {
        lemma_sqrt_small(scaled as nat, 0x4000_0000_0000_0000);
    }
    root as u64
}

/// The squared length of the segment from `p1` to `p2`.
pub open spec fn seg_sq(p1: Position, p2: Position) -> int {
    dist_sq(p1, p2)
}

/// Twice the signed area of the triangle `(pos, p1, p2)`, in absolute value.
/// It is the numerator of the point-to-line distance formula.
pub open spec fn cross_mag(pos: Position, p1: Position, p2: Position) -> int {
    let v = (p2.x - p1.x) * (p1.y - pos.y) - (p1.x - pos.x) * (p2.y - p1.y);
    if v >= 0 {
        v
    } else {
        -v
    }
}

/// The distance from `pos` to the line through `p1` and `p2`, as a
/// fixed-point number scaled by [`SCALE`]. When `p1 == p2` no line is
/// determined and the distance is defined as zero.
pub open spec fn line_distance_fp_spec(pos: Position, p1: Position, p2: Position) -> int {
    if seg_sq(p1, p2) == 0 {
        0
    } else {
        cross_mag(pos, p1, p2) * SCALE / sqrt_floor(seg_sq(p1, p2) as nat) as int
    }
}

/// The distance from `pos` to the line determined by `p1` and `p2`, as a
/// fixed-point number scaled by [`SCALE`]. Zero when `p1 == p2`.
pub fn distance_from_line(pos: &Position, p1: &Position, p2: &Position) -> (r: u128)
    ensures
        r == line_distance_fp_spec(*pos, *p1, *p2),
{
    let lx = abs_diff(p1.x, p2.x) as u128;
    let ly = abs_diff(p1.y, p2.y) as u128;
    proof {
        lemma_sq_bound(lx as int);
        lemma_sq_bound(ly as int);
        assert(lx * lx + ly * ly == seg_sq(*p1, *p2)) by (nonlinear_arith)
            requires
                lx == if p1.x >= p2.x {
                    p1.x - p2.x
                } else {
                    p2.x - p1.x
                },
                ly == if p1.y >= p2.y {
                    p1.y - p2.y
                } else {
                    p2.y - p1.y
                },
                seg_sq(*p1, *p2) == (p1.x - p2.x) * (p1.x - p2.x) + (p1.y - p2.y) * (p1.y - p2.y),
        ;
    }
    let lsq = lx * lx + ly * ly;
    if lsq == 0 {
        return 0;
    }
    let vx = p2.x as i128 - p1.x as i128;
    let wy = p1.y as i128 - pos.y as i128;
    let wx = p1.x as i128 - pos.x as i128;
    let vy = p2.y as i128 - p1.y as i128;
    proof {
        assert(-0x2_0000_0000_0000_0000 < vx * wy < 0x2_0000_0000_0000_0000
            && -0x2_0000_0000_0000_0000 < wx * vy < 0x2_0000_0000_0000_0000) by (nonlinear_arith)
            requires
                -0x1_0000_0000 < vx < 0x1_0000_0000,
                -0x1_0000_0000 < wy < 0x1_0000_0000,
                -0x1_0000_0000 < wx < 0x1_0000_0000,
                -0x1_0000_0000 < vy < 0x1_0000_0000,
        ;
    }
    let a = vx * wy;
    let b = wx * vy;
    let cross = if a >= b {
        (a - b) as u128
    } else {
        (b - a) as u128
    };
    assert(cross == cross_mag(*pos, *p1, *p2));
    let root = isqrt(lsq);
    proof {
        lemma_sqrt_floor_bounds(lsq as nat);
        if root == 0 {
            assert(lsq < 1) by (nonlinear_arith)
                requires
                    (lsq as nat) < (sqrt_floor(lsq as nat) + 1) * (sqrt_floor(lsq as nat) + 1),
                    sqrt_floor(lsq as nat) == 0,
            ;
            assert(false);
        }
        assert(cross * (SCALE as u128) <= 0x4_0000_0000_0000_0000 * 10000 && 0x4_0000_0000_0000_0000
            * 10000 < u128::MAX) by (nonlinear_arith)
            requires
                0 <= cross <= 0x4_0000_0000_0000_0000,
                SCALE == 10000,
        ;
    }
    (cross * (SCALE as u128)) / root
}

/// Dividing a non-negative number by a positive one never increases it.
pub proof fn lemma_div_le(a: int, b: int)
    requires
        a >= 0,
        b >= 1,
    ensures
        0 <= a / b <= a,
{
    assert(0 <= a / b <= a) by (nonlinear_arith)
        requires
            a >= 0,
            b >= 1,
    ;
}

/// The fixed-point distance between two positions stays well below `2^46`.
pub proof fn lemma_distance_fp_bound(p1: Position, p2: Position)
    ensures
        0 <= distance_fp_spec(p1, p2) < 0x4000_0000_0000,
{
    let dsq = dist_sq(p1, p2);
    assert(0 <= dsq < 0x2_0000_0000_0000_0000) by (nonlinear_arith)
        requires
            dsq == (p1.x - p2.x) * (p1.x - p2.x) + (p1.y - p2.y) * (p1.y - p2.y),
            0 <= p1.x <= u32::MAX && 0 <= p1.y <= u32::MAX && 0 <= p2.x <= u32::MAX && 0 <= p2.y
                <= u32::MAX,
    ;
    let arg = dsq * (SCALE * SCALE);
    assert(arg < 0x4000_0000_0000 * 0x4000_0000_0000) by (nonlinear_arith)
        requires
            0 <= dsq < 0x2_0000_0000_0000_0000,
            arg == dsq * (SCALE * SCALE),
            SCALE == 10000,
    ;
    lemma_sqrt_small(arg as nat, 0x4000_0000_0000);
}

/// The fixed-point distance from a point to a line stays well below `2^80`.
pub proof fn lemma_line_fp_bound(pos: Position, p1: Position, p2: Position)
    ensures
        0 <= line_distance_fp_spec(pos, p1, p2) < 0x1_0000_0000_0000_0000_0000,
{
    if seg_sq(p1, p2) != 0 {
        let cross = cross_mag(pos, p1, p2);
        assert(0 <= cross < 0x4_0000_0000_0000_0000) by (nonlinear_arith)
            requires
                cross == cross_mag(pos, p1, p2),
                0 <= p1.x <= u32::MAX && 0 <= p1.y <= u32::MAX && 0 <= p2.x <= u32::MAX && 0 <= p2.y
                    <= u32::MAX && 0 <= pos.x <= u32::MAX && 0 <= pos.y <= u32::MAX,
        ;
        let root = sqrt_floor(seg_sq(p1, p2) as nat) as int;
        assert(root >= 1) by {
            lemma_sqrt_floor_bounds(seg_sq(p1, p2) as nat);
            if root == 0 {
                assert(seg_sq(p1, p2) < 1) by (nonlinear_arith)
                    requires
                        seg_sq(p1, p2) < (sqrt_floor(seg_sq(p1, p2) as nat) + 1) * (sqrt_floor(
                            seg_sq(p1, p2) as nat,
                        ) + 1),
                        sqrt_floor(seg_sq(p1, p2) as nat) == 0,
                ;
                assert(seg_sq(p1, p2) >= 0) by (nonlinear_arith)
                    requires
                        seg_sq(p1, p2) == (p1.x - p2.x) * (p1.x - p2.x) + (p1.y - p2.y) * (p1.y
                            - p2.y),
                ;
            }
        }
        assert(cross * SCALE < 0x1_0000_0000_0000_0000_0000) by (nonlinear_arith)
            requires
                0 <= cross < 0x4_0000_0000_0000_0000,
                SCALE == 10000,
        ;
        lemma_div_le(cross * SCALE, root);
    }
}

/// The wall flag of `walls` that blocks movement in direction `dir`.
pub open spec fn has_wall_spec(walls: Walls, dir: MoveDirection) -> bool {
    match dir {
        MoveDirection::Up => walls.top,
        MoveDirection::Right => walls.right,
        MoveDirection::Down => walls.bottom,
        MoveDirection::Left => walls.left,
    }
}

/// Looks up the wall flag that blocks movement in direction `dir`.
pub fn has_wall(walls: &Walls, dir: &MoveDirection) -> (r: bool)
    ensures
        r == has_wall_spec(*walls, *dir),
{
    match dir {
        MoveDirection::Up => walls.top,
        MoveDirection::Right => walls.right,
        MoveDirection::Down => walls.bottom,
        MoveDirection::Left => walls.left,
    }
}

} // verus!
