//! The cost model: step costs and the distance estimate.
use vstd::prelude::*;
use crate::position::Position;

verus! {

/// Cost of a straight step.
pub const STRAIGHT_COST: usize = 10;

/// Cost of a diagonal step.
pub const DIAGONAL_COST: usize = 14;

/// Largest coordinate for which the estimate is computed without overflow.
pub const COORD_LIMIT: usize = usize::MAX / 32;

/// `r` is the square root of `n`, rounded down.
pub open spec fn is_floor_sqrt(r: int, n: int) -> bool {
    0 <= r && r * r <= n && n < (r + 1) * (r + 1)
}

/// The square root of `n`, rounded down.
pub open spec fn floor_sqrt(n: nat) -> nat {
    choose|r: nat| is_floor_sqrt(r as int, n as int)
}

pub open spec fn abs_diff(a: int, b: int) -> int {
    if a >= b { a - b } else { b - a }
}

/// The distance estimate between two cells: the Euclidean distance in
/// tenths of a straight step, rounded down.
pub open spec fn heuristic_spec(a: Position, b: Position) -> nat {
    let dx = abs_diff(a.x as int, b.x as int);
    let dy = abs_diff(a.y as int, b.y as int);
    floor_sqrt((100 * (dx * dx) + 100 * (dy * dy)) as nat)
}

/// Two cells are one diagonal step apart.
pub open spec fn is_diagonal_step(a: Position, b: Position) -> bool {
    abs_diff(a.x as int, b.x as int) == 1 && abs_diff(a.y as int, b.y as int) == 1
}

pub open spec fn step_cost_spec(a: Position, b: Position) -> nat {
    if is_diagonal_step(a, b) { 14 } else { 10 }
}

/// The cost of walking `p`: the sum of the step costs between consecutive
/// cells.
pub open spec fn path_cost(p: Seq<Position>) -> nat
    decreases p.len(),
{
    if p.len() <= 1 {
        0
    } else {
        path_cost(p.drop_last()) + step_cost_spec(p[p.len() - 2], p.last())
    }
}

proof fn lemma_square_monotonic(a: int, b: int)
    requires
        0 <= a <= b,
    ensures
        a * a <= b * b,
{
    assert(a * a <= b * b) by (nonlinear_arith)
        requires 0 <= a <= b;
}

/// The rounded-down square root is unique.
pub proof fn lemma_floor_sqrt_unique(r: int, s: int, n: int)
    requires
        is_floor_sqrt(r, n),
        is_floor_sqrt(s, n),
    ensures
        r == s,
{
    if r < s {
        lemma_square_monotonic(r + 1, s);
    } else if s < r {
        lemma_square_monotonic(s + 1, r);
    }
}

/// Any witness is the value that `floor_sqrt` names.
pub proof fn lemma_floor_sqrt_is(r: nat, n: nat)
    requires
        is_floor_sqrt(r as int, n as int),
    ensures
        floor_sqrt(n) == r,
{
    let s = floor_sqrt(n);
    assert(is_floor_sqrt(s as int, n as int));
    lemma_floor_sqrt_unique(r as int, s as int, n as int);
}

/// The estimate never exceeds ten times the sum of the coordinate distances.
pub proof fn lemma_heuristic_bound(a: Position, b: Position)
    ensures
        heuristic_spec(a, b) <= 10 * (abs_diff(a.x as int, b.x as int) + abs_diff(
            a.y as int,
            b.y as int,
        )),
{
    let dx = abs_diff(a.x as int, b.x as int);
    let dy = abs_diff(a.y as int, b.y as int);
    let n = 100 * (dx * dx) + 100 * (dy * dy);
    let m = 10 * (dx + dy);
    lemma_floor_sqrt_exists(n as nat);
    let r = heuristic_spec(a, b) as int;
    assert(n <= m * m) by (nonlinear_arith)
        requires n == 100 * (dx * dx) + 100 * (dy * dy), m == 10 * (dx + dy), dx >= 0, dy >= 0;
    if r > m {
        lemma_square_monotonic(m + 1, r);
        assert((m + 1) * (m + 1) > m * m) by (nonlinear_arith)
            requires m >= 0;
    }
}

/// Every natural number has a rounded-down square root.
pub proof fn lemma_floor_sqrt_exists(n: nat)
    ensures
        is_floor_sqrt(floor_sqrt(n) as int, n as int),
{
    let r = floor_sqrt_witness(n);
    assert(is_floor_sqrt(r as int, n as int));
}

proof fn floor_sqrt_witness(n: nat) -> (r: nat)
    ensures
        is_floor_sqrt(r as int, n as int),
    decreases n,
{
    if n == 0 {
        assert(is_floor_sqrt(0, 0)) by (nonlinear_arith);
        0
    } else {
        let s = floor_sqrt_witness((n - 1) as nat);
        if (s + 1) * (s + 1) == n {
            let t = s + 1;
            assert((t + 1) * (t + 1) > n) by (nonlinear_arith)
                requires t * t == n, t >= 1;
            s + 1
        } else {
            assert(s * s <= n && n < (s + 1) * (s + 1));
            s
        }
    }
}

/// The square root of `n`, rounded down, by bisection.
pub fn isqrt(n: u128) -> (r: u128)
    ensures
        is_floor_sqrt(r as int, n as int),
        r as nat == floor_sqrt(n as nat),
{
    let mut lo: u128 = 0;
    let mut hi: u128 = 0x1_0000_0000_0000_0000;
    assert(n < hi * hi) by (nonlinear_arith)
        requires hi == 0x1_0000_0000_0000_0000u128, n <= u128::MAX;
    while hi - lo > 1
        invariant
            lo < hi <= 0x1_0000_0000_0000_0000u128,
            lo * lo <= n,
            n < hi * hi,
        decreases hi - lo,
    {
        let mid = lo + (hi - lo) / 2;
        assert(mid * mid < 0x1_0000_0000_0000_0000_0000_0000_0000_0000int) by (nonlinear_arith)
            requires mid < 0x1_0000_0000_0000_0000int, mid >= 0;
        if mid * mid <= n {
            lo = mid;
        } else {
            hi = mid;
        }
    }
    assert(hi == lo + 1);
    proof {
        lemma_floor_sqrt_is(lo as nat, n as nat);
    }
    lo
}

/// The distance estimate between `a` and `b`: the Euclidean distance in tenths
/// of a straight step, rounded down.
pub fn heuristic(a: Position, b: Position) -> (r: usize)
    requires
        a.x <= COORD_LIMIT,
        a.y <= COORD_LIMIT,
        b.x <= COORD_LIMIT,
        b.y <= COORD_LIMIT,
    ensures
        r as nat == heuristic_spec(a, b),
{
    let dx: usize = if a.x >= b.x { a.x - b.x } else { b.x - a.x };
    let dy: usize = if a.y >= b.y { a.y - b.y } else { b.y - a.y };
    let tx: u128 = 10 * (dx as u128);
    let ty: u128 = 10 * (dy as u128);
    assert(tx * tx + ty * ty <= 200 * 0x0800_0000_0000_0000int * 0x0800_0000_0000_0000int)
        by (nonlinear_arith)
        requires tx == 10 * dx, ty == 10 * dy, 0 <= dx <= 0x0800_0000_0000_0000int,
            0 <= dy <= 0x0800_0000_0000_0000int;
    let r = isqrt(tx * tx + ty * ty);
    assert(100 * (dx * dx) + 100 * (dy * dy) == tx * tx + ty * ty) by (nonlinear_arith)
        requires tx == 10 * dx, ty == 10 * dy;
    proof {
        lemma_heuristic_bound(a, b);
    }
    r as usize
}

/// The cost of a step from `from` to `to`: 14 when the step is diagonal (one
/// column and one row), 10 otherwise.
pub fn step_cost(from: Position, to: Position) -> (r: usize)
    ensures
        r as nat == step_cost_spec(from, to),
{
    let dx: usize = if from.x >= to.x { from.x - to.x } else { to.x - from.x };
    let dy: usize = if from.y >= to.y { from.y - to.y } else { to.y - from.y };
    if dx == 1 && dy == 1 {
        DIAGONAL_COST
    } else {
        STRAIGHT_COST
    }
}

} // verus!
