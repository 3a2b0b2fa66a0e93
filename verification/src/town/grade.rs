//! A town's own ground: which of its survey grid is held to the grade,
//! and which of the fine samples the grade is read from.
//!
//! The ground is surveyed on a grid of nodes, `n` a side, and sampled on
//! a fine grid of half a node step, `m` a side, node `k` sitting on fine
//! sample `2k + 1`. What the ground is in metres is measurement; which
//! nodes and which samples are asked at all is counting, and stands here.
use vstd::prelude::*;

verus! {

/// How far a point reads nodes off itself, in fine samples either way.
pub const READ: usize = 3;

/// The fine sample a node sits on.
pub open spec fn fine_of(k: int) -> int {
    2 * k + 1
}

/// The first fine sample of the window round fine sample `f`: a sample
/// further than the spline reads, so a point reached between two
/// samples is still covered.
pub open spec fn reach_lo(f: int) -> int {
    if f >= READ + 1 { f - (READ + 1) } else { 0 }
}

/// The last fine sample of the window round fine sample `f` on a fine
/// grid `m` a side.
pub open spec fn reach_hi(f: int, m: int) -> int {
    if f + READ + 1 <= m - 1 { f + READ + 1 } else { m - 1 }
}

/// The fine sample at column `a` and row `b` of a grid `m` a side.
pub open spec fn sample(at: Seq<bool>, m: int, a: int, b: int) -> bool {
    at[b * m + a]
}

/// Whether any fine sample in columns `a0..=a1` and rows `b0..=b1` is
/// reached.
pub open spec fn any_in(at: Seq<bool>, m: int, a0: int, a1: int, b0: int, b1: int) -> bool {
    exists|a: int, b: int|
        #![trigger sample(at, m, a, b)]
        a0 <= a <= a1 && b0 <= b <= b1 && sample(at, m, a, b)
}

/// Whether the node at column `i` and row `j` is held: whether the town
/// reaches any fine sample within reading of it.
pub open spec fn is_held(at: Seq<bool>, m: int, i: int, j: int) -> bool {
    any_in(
        at,
        m,
        reach_lo(fine_of(i)),
        reach_hi(fine_of(i), m),
        reach_lo(fine_of(j)),
        reach_hi(fine_of(j), m),
    )
}

proof fn lemma_cell_fits(m: int, a: int, b: int)
    requires
        0 <= a < m,
        0 <= b < m,
    ensures
        0 <= b * m + a < m * m,
{
    assert(0 <= b * m + a < m * m) by (nonlinear_arith)
        requires
            0 <= a < m,
            0 <= b < m,
    ;
}

/// Whether any reached fine sample lies in columns `a0..=a1` and rows
/// `b0..=b1`.
fn window_any(at: &[bool], m: usize, a0: usize, a1: usize, b0: usize, b1: usize) -> (r: bool)
    requires
        at@.len() == m * m,
        m * m <= usize::MAX,
        a1 < m,
        b1 < m,
    ensures
        r == any_in(at@, m as int, a0 as int, a1 as int, b0 as int, b1 as int),
{
    if a0 > a1 || b0 > b1 {
        return false;
    }
    let mut b = b0;
    while b <= b1
        invariant
            at@.len() == m * m,
            m * m <= usize::MAX,
            a0 <= a1 < m,
            b1 < m,
            b0 <= b <= b1 + 1,
            forall|x: int, y: int|
                #![trigger sample(at@, m as int, x, y)]
                a0 <= x <= a1 && b0 <= y < b && sample(at@, m as int, x, y) ==> false,
        decreases b1 + 1 - b,
    {
        let mut a = a0;
        while a <= a1
            invariant
                at@.len() == m * m,
                m * m <= usize::MAX,
                a0 <= a1 < m,
                b1 < m,
                b0 <= b <= b1,
                a0 <= a <= a1 + 1,
                forall|x: int, y: int|
                    #![trigger sample(at@, m as int, x, y)]
                    a0 <= x <= a1 && b0 <= y < b && sample(at@, m as int, x, y) ==> false,
                forall|x: int|
                    #![trigger sample(at@, m as int, x, b as int)]
                    a0 <= x < a && sample(at@, m as int, x, b as int) ==> false,
            decreases a1 + 1 - a,
        {
            proof {
                lemma_cell_fits(m as int, a as int, b as int);
            }
            if at[b * m + a] {
                assert(sample(at@, m as int, a as int, b as int));
                return true;
            }
            a = a + 1;
        }
        b = b + 1;
    }
    false
}

/// Which of `n` by `n` nodes are held to the grade: those within reach of
/// a fine sample the town reaches, levelled or blended, `at` being the
/// `m` by `m` fine samples row by row, true where the town reaches.
/// Nothing else is surveyed, so a gorge past a town's squeezed side
/// cannot drag its ground down.
pub fn held(n: usize, m: usize, at: &[bool]) -> (keep: Vec<bool>)
    requires
        1 <= m,
        at@.len() == m * m,
        m * m <= usize::MAX,
        n * n <= usize::MAX,
        2 * n + READ + 2 <= usize::MAX,
    ensures
        keep@.len() == n * n,
        forall|i: int, j: int|
            #![trigger keep@[j * n + i]]
            0 <= i < n && 0 <= j < n ==> keep@[j * n + i] == is_held(at@, m as int, i, j),
{
    let mut keep: Vec<bool> = Vec::new();
    let mut j: usize = 0;
    while j < n
        invariant
            1 <= m,
            at@.len() == m * m,
            m * m <= usize::MAX,
            n * n <= usize::MAX,
            2 * n + READ + 2 <= usize::MAX,
            j <= n,
            keep@.len() == j * n,
            forall|x: int, y: int|
                #![trigger keep@[y * n + x]]
                0 <= x < n && 0 <= y < j ==> keep@[y * n + x] == is_held(at@, m as int, x, y),
        decreases n - j,
    {
        let mut i: usize = 0;
        while i < n
            invariant
                1 <= m,
                at@.len() == m * m,
                m * m <= usize::MAX,
                n * n <= usize::MAX,
                2 * n + READ + 2 <= usize::MAX,
                j < n,
                i <= n,
                keep@.len() == j * n + i,
                forall|x: int, y: int|
                    #![trigger keep@[y * n + x]]
                    0 <= x < n && 0 <= y < j ==> keep@[y * n + x] == is_held(
                        at@,
                        m as int,
                        x,
                        y,
                    ),
                forall|x: int|
                    #![trigger keep@[j * n + x]]
                    0 <= x < i ==> keep@[j * n + x] == is_held(at@, m as int, x, j as int),
            decreases n - i,
        {
            let fi = 2 * i + 1;
            let fj = 2 * j + 1;
            let r = READ + 1;
            let a0 = if fi >= r { fi - r } else { 0 };
            let a1 = if fi + r <= m - 1 { fi + r } else { m - 1 };
            let b0 = if fj >= r { fj - r } else { 0 };
            let b1 = if fj + r <= m - 1 { fj + r } else { m - 1 };
            let here = window_any(at, m, a0, a1, b0, b1);
            proof {
                assert(j * n + i < n * n) by (nonlinear_arith)
                    requires
                        i < n,
                        j < n,
                ;
            }
            let ghost before = keep@;
            keep.push(here);
            proof {
                assert forall|x: int, y: int|
                    #![trigger keep@[y * n + x]]
                    0 <= x < n && 0 <= y < j implies keep@[y * n + x] == is_held(
                        at@,
                        m as int,
                        x,
                        y,
                    ) by {
                    assert(y * n + x < j * n) by (nonlinear_arith)
                        requires
                            0 <= x < n,
                            0 <= y < j,
                    ;
                    assert(keep@[y * n + x] == before[y * n + x]);
                }
                assert forall|x: int|
                    #![trigger keep@[j * n + x]]
                    0 <= x < i + 1 implies keep@[j * n + x] == is_held(
                        at@,
                        m as int,
                        x,
                        j as int,
                    ) by {
                    if x < i {
                        assert(keep@[j * n + x] == before[j * n + x]);
                    }
                }
            }
            i = i + 1;
        }
        proof {
            assert((j + 1) * n == j * n + n) by (nonlinear_arith);
        }
        j = j + 1;
    }
    keep
}

/// The nodes whose cell a fine sample lies in: the one it sits on or the
/// two it lies between.
pub open spec fn near_lo(f: int) -> int {
    (if f >= 1 { f - 1 } else { 0 }) / 2
}

/// The other of the nodes whose cell a fine sample lies in.
pub open spec fn near_hi(f: int) -> int {
    f / 2
}

/// Whether the node at column `i` and row `j` of an `n` a side grid is on
/// the grid and held.
pub open spec fn held_node(keep: Seq<bool>, n: int, i: int, j: int) -> bool {
    i < n && j < n && keep[j * n + i]
}

/// Whether a fine sample is wanted: whether a held node's cell reaches it.
pub open spec fn is_wanted(keep: Seq<bool>, n: int, fi: int, fj: int) -> bool {
    ||| held_node(keep, n, near_lo(fi), near_lo(fj))
    ||| held_node(keep, n, near_hi(fi), near_lo(fj))
    ||| held_node(keep, n, near_lo(fi), near_hi(fj))
    ||| held_node(keep, n, near_hi(fi), near_hi(fj))
}

fn held_at(keep: &[bool], n: usize, i: usize, j: usize) -> (r: bool)
    requires
        keep@.len() == n * n,
        n * n <= usize::MAX,
    ensures
        r == held_node(keep@, n as int, i as int, j as int),
{
    if i < n && j < n {
        proof {
            assert(j * n + i < n * n) by (nonlinear_arith)
                requires
                    i < n,
                    j < n,
            ;
        }
        keep[j * n + i]
    } else {
        false
    }
}

/// Which of the `m` by `m` fine samples the ground is read at: those a
/// held node's cell reaches, and no others.
pub fn wanted(n: usize, m: usize, keep: &[bool]) -> (w: Vec<bool>)
    requires
        keep@.len() == n * n,
        n * n <= usize::MAX,
        m * m <= usize::MAX,
    ensures
        w@.len() == m * m,
        forall|fi: int, fj: int|
            #![trigger w@[fj * m + fi]]
            0 <= fi < m && 0 <= fj < m ==> w@[fj * m + fi] == is_wanted(keep@, n as int, fi, fj),
{
    let mut w: Vec<bool> = Vec::new();
    let mut fj: usize = 0;
    while fj < m
        invariant
            keep@.len() == n * n,
            n * n <= usize::MAX,
            m * m <= usize::MAX,
            fj <= m,
            w@.len() == fj * m,
            forall|x: int, y: int|
                #![trigger w@[y * m + x]]
                0 <= x < m && 0 <= y < fj ==> w@[y * m + x] == is_wanted(keep@, n as int, x, y),
        decreases m - fj,
    {
        let mut fi: usize = 0;
        while fi < m
            invariant
                keep@.len() == n * n,
                n * n <= usize::MAX,
                m * m <= usize::MAX,
                fj < m,
                fi <= m,
                w@.len() == fj * m + fi,
                forall|x: int, y: int|
                    #![trigger w@[y * m + x]]
                    0 <= x < m && 0 <= y < fj ==> w@[y * m + x] == is_wanted(
                        keep@,
                        n as int,
                        x,
                        y,
                    ),
                forall|x: int|
                    #![trigger w@[fj * m + x]]
                    0 <= x < fi ==> w@[fj * m + x] == is_wanted(keep@, n as int, x, fj as int),
            decreases m - fi,
        {
            let il = (if fi >= 1 { fi - 1 } else { 0 }) / 2;
            let ih = fi / 2;
            let jl = (if fj >= 1 { fj - 1 } else { 0 }) / 2;
            let jh = fj / 2;
            let here = held_at(keep, n, il, jl) || held_at(keep, n, ih, jl) || held_at(
                keep,
                n,
                il,
                jh,
            ) || held_at(keep, n, ih, jh);
            proof {
                assert(fj * m + fi < m * m) by (nonlinear_arith)
                    requires
                        fi < m,
                        fj < m,
                ;
            }
            let ghost before = w@;
            w.push(here);
            proof {
                assert forall|x: int, y: int|
                    #![trigger w@[y * m + x]]
                    0 <= x < m && 0 <= y < fj implies w@[y * m + x] == is_wanted(
                        keep@,
                        n as int,
                        x,
                        y,
                    ) by {
                    assert(y * m + x < fj * m) by (nonlinear_arith)
                        requires
                            0 <= x < m,
                            0 <= y < fj,
                    ;
                    assert(w@[y * m + x] == before[y * m + x]);
                }
                assert forall|x: int|
                    #![trigger w@[fj * m + x]]
                    0 <= x < fi + 1 implies w@[fj * m + x] == is_wanted(
                        keep@,
                        n as int,
                        x,
                        fj as int,
                    ) by {
                    if x < fi {
                        assert(w@[fj * m + x] == before[fj * m + x]);
                    }
                }
            }
            fi = fi + 1;
        }
        proof {
            assert((fj + 1) * m == fj * m + m) by (nonlinear_arith);
        }
        fj = fj + 1;
    }
    w
}

} // verus!
