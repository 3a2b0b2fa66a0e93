//! How a road's tarmac is cut into stretches: each one mesh and one
//! frame, neighbours sharing the point where they meet.
use vstd::prelude::*;

verus! {

/// How many pieces of corridor one stretch of tarmac is built as.
pub const STRETCH: usize = 64;

/// How many stretches a run of `points` centreline points takes: the
/// pieces between the points, sixty four to a stretch, the last one
/// short.
pub open spec fn stretches(points: int) -> int {
    if points <= 1 {
        0
    } else {
        (points - 1 + STRETCH - 1) / (STRETCH as int)
    }
}

/// The first centreline point of the `k`th stretch.
pub open spec fn first_point(k: int, points: int) -> int {
    if k * STRETCH <= points { k * STRETCH } else { points }
}

/// One past the last centreline point of the `k`th stretch.
pub open spec fn past_point(k: int, points: int) -> int {
    let from = first_point(k, points);
    if from + STRETCH + 1 <= points { from + STRETCH + 1 } else { points }
}

/// How many stretches a run of `points` centreline points is built in.
pub fn count(points: usize) -> (n: usize)
    ensures
        n == stretches(points as int),
{
    let pieces: usize = if points >= 1 { points - 1 } else { 0 };
    let whole: usize = pieces / STRETCH;
    if pieces % STRETCH != 0 {
        whole + 1
    } else {
        whole
    }
}

/// Which centreline points the `k`th stretch covers, ends included, so
/// two neighbouring stretches share a point and their tarmac meets.
pub fn span(k: usize, points: usize) -> (r: std::ops::Range<usize>)
    ensures
        r.start == first_point(k as int, points as int),
        r.end == past_point(k as int, points as int),
{
    let from: usize = if k <= points / STRETCH {
        assert(k * STRETCH <= points) by (nonlinear_arith)
            requires
                k <= points / STRETCH,
                STRETCH == 64,
        ;
        k * STRETCH
    } else {
        assert(k * STRETCH > points) by (nonlinear_arith)
            requires
                k > points / STRETCH,
                STRETCH == 64,
        ;
        points
    };
    let to: usize = if points - from >= STRETCH + 1 {
        from + STRETCH + 1
    } else {
        points
    };
    from..to
}

/// The stretches of a run tile it: the first starts at its first point,
/// every one holds at least one piece, each ends on the point the next
/// begins at, and the last ends on the run's last point.
pub proof fn lemma_stretches_tile(points: int, k: int)
    requires
        2 <= points,
        0 <= k < stretches(points),
    ensures
        first_point(0, points) == 0,
        first_point(k, points) + 2 <= past_point(k, points) <= points,
        past_point(k, points) - first_point(k, points) <= STRETCH + 1,
        k + 1 < stretches(points) ==> past_point(k, points) - 1 == first_point(k + 1, points),
        k + 1 == stretches(points) ==> past_point(k, points) == points,
{
    let n = stretches(points);
    assert(n * 64 >= points - 1 && (n - 1) * 64 < points - 1) by (nonlinear_arith)
        requires
            n == (points - 1 + 63) / 64,
            points >= 2,
    ;
    assert(k * 64 <= (n - 1) * 64) by (nonlinear_arith)
        requires
            k <= n - 1,
    ;
    assert((k + 1) * 64 == k * 64 + 64) by (nonlinear_arith);
    assert(k + 1 < n ==> (k + 1) * 64 <= (n - 1) * 64) by (nonlinear_arith)
        requires
            k >= 0,
    ;
    assert(k + 1 == n ==> k * 64 + 65 >= points) by (nonlinear_arith)
        requires
            n * 64 >= points - 1,
    ;
}

} // verus!
