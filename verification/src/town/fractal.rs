//! What a town's plan is shaped like, measured: the cells of a square
//! grid that are town, the boundary of that set, the outline the country
//! sees, how many boxes of a size the boundary touches, and the pieces
//! the town is in.
//!
//! A plan is `GRID` by `GRID` cells, row by row from the south west: the
//! cell at column `i` and row `j` is the `j * GRID + i`th. Two cells are
//! neighbours when they share a side.
use vstd::prelude::*;

verus! {

/// How many cells a side the plan is sampled on.
pub const GRID: usize = 512;

/// The place of the cell at column `i` and row `j`.
pub open spec fn at(i: int, j: int) -> int {
    j * GRID + i
}

/// Whether a column and a row are on the grid.
pub open spec fn inside(i: int, j: int) -> bool {
    0 <= i < GRID && 0 <= j < GRID
}

/// Whether a cell is on the grid's own rim, which counts as outside.
pub open spec fn on_edge(i: int, j: int) -> bool {
    i == 0 || j == 0 || i == GRID - 1 || j == GRID - 1
}

/// Whether a cell of `m` has a neighbour on the grid for which `m` is
/// false.
pub open spec fn beside_outside(m: Seq<bool>, i: int, j: int) -> bool {
    ||| (i > 0 && !m[at(i - 1, j)])
    ||| (i + 1 < GRID && !m[at(i + 1, j)])
    ||| (j > 0 && !m[at(i, j - 1)])
    ||| (j + 1 < GRID && !m[at(i, j + 1)])
}

/// Whether a cell is on a boundary: a town cell on the grid's rim or
/// with a neighbour outside the town.
pub open spec fn is_rim(m: Seq<bool>, i: int, j: int) -> bool {
    m[at(i, j)] && (on_edge(i, j) || beside_outside(m, i, j))
}

/// Every boundary of a plan: a town cell with at least one of its four
/// neighbours outside the town, the grid's own rim counting as outside,
/// which counts the holes inside a town as boundary too.
pub fn rim(m: &[bool]) -> (r: Vec<bool>)
    requires
        m@.len() == GRID * GRID,
    ensures
        r@.len() == GRID * GRID,
        forall|i: int, j: int|
            #![trigger r@[at(i, j)]]
            inside(i, j) ==> r@[at(i, j)] == is_rim(m@, i, j),
{
    let mut r: Vec<bool> = Vec::new();
    let mut j: usize = 0;
    while j < GRID
        invariant
            m@.len() == GRID * GRID,
            j <= GRID,
            r@.len() == j * GRID,
            forall|x: int, y: int|
                #![trigger r@[at(x, y)]]
                inside(x, y) && y < j ==> r@[at(x, y)] == is_rim(m@, x, y),
        decreases GRID - j,
    {
        let mut i: usize = 0;
        while i < GRID
            invariant
                m@.len() == GRID * GRID,
                j < GRID,
                i <= GRID,
                r@.len() == j * GRID + i,
                forall|x: int, y: int|
                    #![trigger r@[at(x, y)]]
                    inside(x, y) && y < j ==> r@[at(x, y)] == is_rim(m@, x, y),
                forall|x: int|
                    #![trigger r@[at(x, j as int)]]
                    0 <= x < i ==> r@[at(x, j as int)] == is_rim(m@, x, j as int),
            decreases GRID - i,
        {
            let k = j * GRID + i;
            let edge = i == 0 || j == 0 || i == GRID - 1 || j == GRID - 1;
            let out = (i > 0 && !m[k - 1]) || (i + 1 < GRID && !m[k + 1]) || (j > 0 && !m[k
                - GRID]) || (j + 1 < GRID && !m[k + GRID]);
            let here = m[k] && (edge || out);
            let ghost before = r@;
            r.push(here);
            proof {
                assert forall|x: int, y: int|
                    #![trigger r@[at(x, y)]]
                    inside(x, y) && y < j implies r@[at(x, y)] == is_rim(m@, x, y) by {
                    assert(r@[at(x, y)] == before[at(x, y)]);
                }
                assert forall|x: int|
                    #![trigger r@[at(x, j as int)]]
                    0 <= x < i + 1 implies r@[at(x, j as int)] == is_rim(m@, x, j as int) by {
                    if x < i {
                        assert(r@[at(x, j as int)] == before[at(x, j as int)]);
                    }
                }
            }
            i = i + 1;
        }
        j = j + 1;
    }
    r
}

/// Whether a box of `s` cells a side, the `bi`th across and the `bj`th
/// up, holds any cell of `r`.
pub open spec fn occupied(r: Seq<bool>, s: int, bi: int, bj: int) -> bool {
    exists|i: int, j: int|
        #![trigger r[at(i, j)]]
        bi * s <= i < (bi + 1) * s && bj * s <= j < (bj + 1) * s && r[at(i, j)]
}

/// How many of the first `b` boxes of `s` cells hold any of `r`, boxes
/// counted row by row, `n` of them a row.
pub open spec fn occupied_count(r: Seq<bool>, s: int, n: int, b: int) -> int
    decreases b,
{
    if b <= 0 {
        0
    } else {
        occupied_count(r, s, n, b - 1) + (if occupied(r, s, (b - 1) % n, (b - 1) / n) {
            1int
        } else {
            0int
        })
    }
}

/// Whether the box `bi`, `bj` of `s` cells holds any of `r`.
fn any_in_box(r: &[bool], s: usize, bi: usize, bj: usize) -> (found: bool)
    requires
        r@.len() == GRID * GRID,
        1 <= s <= GRID,
        bi < GRID / s,
        bj < GRID / s,
    ensures
        found == occupied(r@, s as int, bi as int, bj as int),
{
    let ghost n = GRID as int / (s as int);
    proof {
        assert((bi + 1) * s == bi * s + s && (bj + 1) * s == bj * s + s) by (nonlinear_arith);
        assert(n * s <= GRID && (bi + 1) * s <= n * s && (bj + 1) * s <= n * s) by (nonlinear_arith)
            requires
                n == GRID as int / (s as int),
                s >= 1,
                bi + 1 <= n,
                bj + 1 <= n,
        ;
    }
    let j0 = bj * s;
    let i0 = bi * s;
    let mut j = j0;
    while j < j0 + s
        invariant
            r@.len() == GRID * GRID,
            1 <= s <= GRID,
            n == GRID as int / (s as int),
            bi < n,
            bj < n,
            i0 == bi * s,
            j0 == bj * s,
            i0 + s <= GRID,
            j0 + s <= GRID,
            j0 <= j <= j0 + s,
            forall|x: int, y: int|
                #![trigger r@[at(x, y)]]
                i0 <= x < i0 + s && j0 <= y < j ==> !r@[at(x, y)],
        decreases j0 + s - j,
    {
        let mut i = i0;
        while i < i0 + s
            invariant
                r@.len() == GRID * GRID,
                1 <= s <= GRID,
                i0 == bi * s,
                j0 == bj * s,
                i0 + s <= GRID,
                j0 + s <= GRID,
                j0 <= j < j0 + s,
                i0 <= i <= i0 + s,
                forall|x: int, y: int|
                    #![trigger r@[at(x, y)]]
                    i0 <= x < i0 + s && j0 <= y < j ==> !r@[at(x, y)],
                forall|x: int|
                    #![trigger r@[at(x, j as int)]]
                    i0 <= x < i ==> !r@[at(x, j as int)],
            decreases i0 + s - i,
        {
            if r[j * GRID + i] {
                proof {
                    assert((bi + 1) * s == bi * s + s && (bj + 1) * s == bj * s + s)
                        by (nonlinear_arith);
                    assert(r@[at(i as int, j as int)]);
                }
                return true;
            }
            i = i + 1;
        }
        j = j + 1;
    }
    proof {
        assert((bi + 1) * s == bi * s + s && (bj + 1) * s == bj * s + s) by (nonlinear_arith);
    }
    false
}

/// How many boxes of `s` cells a side hold any of `r`: the grid cut into
/// as many whole boxes a side as fit.
pub fn boxes(r: &[bool], s: usize) -> (count: usize)
    requires
        r@.len() == GRID * GRID,
        1 <= s <= GRID,
    ensures
        count == occupied_count(r@, s as int, (GRID / s) as int, (GRID / s) * (GRID / s)),
{
    let n = GRID / s;
    let mut count: usize = 0;
    let mut bj: usize = 0;
    while bj < n
        invariant
            r@.len() == GRID * GRID,
            1 <= s <= GRID,
            n == GRID / s,
            n <= GRID,
            bj <= n,
            count == occupied_count(r@, s as int, n as int, bj * n),
            count <= bj * n,
        decreases n - bj,
    {
        let mut bi: usize = 0;
        while bi < n
            invariant
                r@.len() == GRID * GRID,
                1 <= s <= GRID,
                n == GRID / s,
                n <= GRID,
                bj < n,
                bi <= n,
                count == occupied_count(r@, s as int, n as int, bj * n + bi),
                count <= bj * n + bi,
            decreases n - bi,
        {
            let any = any_in_box(r, s, bi, bj);
            proof {
                let b = bj * n + bi;
                assert(b % (n as int) == bi && b / (n as int) == bj) by (nonlinear_arith)
                    requires
                        b == bj * n + bi,
                        0 <= bi < n,
                        0 <= bj,
                ;
                assert(bj * n + bi < GRID * GRID) by (nonlinear_arith)
                    requires
                        bi < n,
                        bj < n,
                        n <= GRID,
                ;
            }
            if any {
                count = count + 1;
            }
            bi = bi + 1;
        }
        proof {
            assert((bj + 1) * n == bj * n + n) by (nonlinear_arith);
        }
        bj = bj + 1;
    }
    count
}


/// Whether a set holds every empty cell beside a cell it holds.
pub open spec fn open_beside_in(m: Seq<bool>, s: Set<int>, i: int, j: int) -> bool {
    &&& (i > 0 && !m[at(i - 1, j)] ==> s.contains(at(i - 1, j)))
    &&& (i + 1 < GRID && !m[at(i + 1, j)] ==> s.contains(at(i + 1, j)))
    &&& (j > 0 && !m[at(i, j - 1)] ==> s.contains(at(i, j - 1)))
    &&& (j + 1 < GRID && !m[at(i, j + 1)] ==> s.contains(at(i, j + 1)))
}

/// Whether a set of cells is closed as the country is: it holds every
/// cell outside the town on the grid's rim, and every cell outside the
/// town beside a cell it holds.
#[verifier::opaque]
pub open spec fn country_closed(m: Seq<bool>, s: Set<int>) -> bool {
    &&& forall|i: int, j: int|
        #![trigger s.contains(at(i, j))]
        inside(i, j) && on_edge(i, j) && !m[at(i, j)] ==> s.contains(at(i, j))
    &&& forall|i: int, j: int|
        #![trigger open_beside_in(m, s, i, j)]
        inside(i, j) && s.contains(at(i, j)) ==> open_beside_in(m, s, i, j)
}

/// Whether a cell is country: outside the town and joined to the frame's
/// edge through ground outside the town. It lies in every set closed as
/// the country is, so the country is the least such set.
#[verifier::opaque]
pub open spec fn country(m: Seq<bool>, i: int, j: int) -> bool {
    forall|s: Set<int>| #![trigger country_closed(m, s)] country_closed(m, s) ==> s.contains(at(i, j))
}

/// Whether a cell has a neighbour on the grid that is country.
pub open spec fn beside_country(m: Seq<bool>, i: int, j: int) -> bool {
    ||| (i > 0 && country(m, i - 1, j))
    ||| (i + 1 < GRID && country(m, i + 1, j))
    ||| (j > 0 && country(m, i, j - 1))
    ||| (j + 1 < GRID && country(m, i, j + 1))
}

/// Whether a cell is on the hull: a town cell on the grid's rim, or
/// beside the country.
pub open spec fn is_hull(m: Seq<bool>, i: int, j: int) -> bool {
    m[at(i, j)] && (on_edge(i, j) || beside_country(m, i, j))
}

proof fn lemma_country_edge(m: Seq<bool>, i: int, j: int)
    requires
        inside(i, j),
        on_edge(i, j),
        !m[at(i, j)],
    ensures
        country(m, i, j),
{
    reveal(country);
    assert forall|s: Set<int>| #![trigger country_closed(m, s)] country_closed(m, s) implies s.contains(
        at(i, j),
    ) by {
        reveal(country_closed);
    }
}

proof fn lemma_country_step(m: Seq<bool>, i: int, j: int)
    requires
        inside(i, j),
        country(m, i, j),
    ensures
        i > 0 && !m[at(i - 1, j)] ==> country(m, i - 1, j),
        i + 1 < GRID && !m[at(i + 1, j)] ==> country(m, i + 1, j),
        j > 0 && !m[at(i, j - 1)] ==> country(m, i, j - 1),
        j + 1 < GRID && !m[at(i, j + 1)] ==> country(m, i, j + 1),
{
    reveal(country);
    assert forall|s: Set<int>| #![trigger country_closed(m, s)] country_closed(m, s) implies open_beside_in(
        m,
        s,
        i,
        j,
    ) by {
        assert(s.contains(at(i, j)));
        reveal(country_closed);
    }
}

proof fn lemma_country_is_open(m: Seq<bool>, i: int, j: int)
    requires
        m.len() == GRID * GRID,
        inside(i, j),
        country(m, i, j),
    ensures
        !m[at(i, j)],
{
    let open = Set::new(|k: int| 0 <= k < GRID * GRID && !m[k]);
    assert(country_closed(m, open)) by {
        reveal(country_closed);
    }
    reveal(country);
    assert(open.contains(at(i, j)));
}

/// Whether every empty neighbour of a cell is marked in `out`.
pub open spec fn open_beside_out(m: Seq<bool>, out: Seq<bool>, i: int, j: int) -> bool {
    &&& (i > 0 && !m[at(i - 1, j)] ==> out[at(i - 1, j)])
    &&& (i + 1 < GRID && !m[at(i + 1, j)] ==> out[at(i + 1, j)])
    &&& (j > 0 && !m[at(i, j - 1)] ==> out[at(i, j - 1)])
    &&& (j + 1 < GRID && !m[at(i, j + 1)] ==> out[at(i, j + 1)])
}

proof fn lemma_flood_reaches(m: Seq<bool>, out: Seq<bool>, i: int, j: int)
    requires
        m.len() == GRID * GRID,
        out.len() == GRID * GRID,
        forall|x: int, y: int|
            #![trigger out[at(x, y)]]
            inside(x, y) && on_edge(x, y) && !m[at(x, y)] ==> out[at(x, y)],
        forall|x: int, y: int|
            #![trigger open_beside_out(m, out, x, y)]
            inside(x, y) && out[at(x, y)] ==> open_beside_out(m, out, x, y),
        inside(i, j),
        country(m, i, j),
    ensures
        out[at(i, j)],
{
    let marked = Set::new(|k: int| 0 <= k < GRID * GRID && out[k]);
    assert(country_closed(m, marked)) by {
        reveal(country_closed);
        assert forall|x: int, y: int|
            #![trigger open_beside_in(m, marked, x, y)]
            inside(x, y) && marked.contains(at(x, y)) implies open_beside_in(m, marked, x, y) by {
            assert(open_beside_out(m, out, x, y));
        }
    }
    reveal(country);
    assert(marked.contains(at(i, j)));
}

/// What the flood has found so far: every marked cell is country, every
/// cell on the stack is marked, every marked cell off the stack but
/// `skip` has its empty neighbours marked, the empty cells on the rim are
/// marked, and `marked` is the set of marked cells.
pub open spec fn flood_state(
    m: Seq<bool>,
    out: Seq<bool>,
    stack: Seq<usize>,
    marked: Set<int>,
    skip: int,
) -> bool {
    &&& m.len() == GRID * GRID
    &&& out.len() == GRID * GRID
    &&& forall|x: int, y: int|
        #![trigger country(m, x, y)]
        inside(x, y) && out[at(x, y)] ==> country(m, x, y)
    &&& forall|t: int|
        #![trigger stack[t]]
        0 <= t < stack.len() ==> stack[t] < GRID * GRID && out[stack[t] as int]
    &&& forall|x: int, y: int|
        #![trigger open_beside_out(m, out, x, y)]
        inside(x, y) && out[at(x, y)] && !stack.contains(at(x, y) as usize) && at(x, y) != skip
            ==> open_beside_out(m, out, x, y)
    &&& forall|x: int, y: int|
        #![trigger out[at(x, y)]]
        inside(x, y) && on_edge(x, y) && !m[at(x, y)] ==> out[at(x, y)]
    &&& forall|k: int|
        #![trigger marked.contains(k)]
        #![trigger out[k]]
        marked.contains(k) <==> (0 <= k < GRID * GRID && out[k])
}

proof fn lemma_marked_bounded(out: Seq<bool>, marked: Set<int>)
    requires
        forall|k: int|
            #![trigger marked.contains(k)]
            #![trigger out[k]]
            marked.contains(k) <==> (0 <= k < GRID * GRID && out[k]),
    ensures
        marked.finite(),
        marked.len() <= GRID * GRID,
{
    let all = vstd::set_lib::set_int_range(0, GRID * GRID);
    vstd::set_lib::lemma_int_range(0, GRID * GRID);
    assert(marked.subset_of(all));
    vstd::set_lib::lemma_len_subset(marked, all);
}

proof fn lemma_out_is_country(m: Seq<bool>, out: Seq<bool>, stack: Seq<usize>, marked: Set<int>)
    requires
        flood_state(m, out, stack, marked, -1),
        stack.len() == 0,
    ensures
        forall|x: int, y: int|
            #![trigger out[at(x, y)]]
            inside(x, y) ==> out[at(x, y)] == country(m, x, y),
{
    assert forall|x: int, y: int|
        #![trigger open_beside_out(m, out, x, y)]
        inside(x, y) && out[at(x, y)] implies open_beside_out(m, out, x, y) by {
        assert(!stack.contains(at(x, y) as usize));
    }
    assert forall|x: int, y: int|
        #![trigger out[at(x, y)]]
        inside(x, y) implies out[at(x, y)] == country(m, x, y) by {
        if country(m, x, y) {
            lemma_flood_reaches(m, out, x, y);
        }
    }
}

/// Mark the empty neighbour `n` of the marked cell `k` and put it on the
/// stack, if it is neither town nor marked already.
fn visit(
    m: &[bool],
    out: &mut Vec<bool>,
    stack: &mut Vec<usize>,
    marked: Ghost<Set<int>>,
    k: usize,
    n: usize,
) -> (after: Ghost<Set<int>>)
    requires
        flood_state(m@, old(out)@, old(stack)@, marked@, k as int),
        k < GRID * GRID,
        old(out)@[k as int],
        n < GRID * GRID,
        n == k - 1 && k % GRID > 0 || n == k + 1 && k % GRID + 1 < GRID || n == k - GRID && k
            >= GRID || n == k + GRID,
    ensures
        flood_state(m@, final(out)@, final(stack)@, after@, k as int),
        final(out)@[k as int],
        !m@[n as int] ==> final(out)@[n as int],
        forall|c: int| 0 <= c < GRID * GRID && old(out)@[c] ==> final(out)@[c],
        after@.len() >= marked@.len(),
        after@.len() == marked@.len() ==> final(stack)@ == old(stack)@,
        final(stack)@.len() <= old(stack)@.len() + 1,
{
    proof {
        lemma_marked_bounded(old(out)@, marked@);
    }
    if m[n] || out[n] {
        return marked;
    }
    let ghost before = out@;
    let ghost pile = stack@;
    proof {
        let (i, j) = ((k % GRID) as int, (k / GRID) as int);
        assert(at(i, j) == k);
        assert(country(m@, i, j));
        lemma_country_step(m@, i, j);
        let (a, b) = ((n % GRID) as int, (n / GRID) as int);
        assert(at(a, b) == n);
        assert(country(m@, a, b));
    }
    out.set(n, true);
    stack.push(n);
    let ghost grown = marked@.insert(n as int);
    proof {
        assert forall|x: int, y: int|
            #![trigger country(m@, x, y)]
            inside(x, y) && out@[at(x, y)] implies country(m@, x, y) by {
            if at(x, y) != n {
                assert(before[at(x, y)]);
            } else {
                assert(x == (n % GRID) as int && y == (n / GRID) as int);
            }
        }
        assert forall|t: int|
            #![trigger stack@[t]]
            0 <= t < stack@.len() implies stack@[t] < GRID * GRID && out@[stack@[t] as int] by {
            if t < pile.len() {
                assert(stack@[t] == pile[t]);
            }
        }
        assert forall|x: int, y: int|
            #![trigger open_beside_out(m@, out@, x, y)]
            inside(x, y) && out@[at(x, y)] && !stack@.contains(at(x, y) as usize) && at(x, y)
                != k implies open_beside_out(m@, out@, x, y) by {
            assert(at(x, y) != n) by {
                assert(stack@[stack@.len() - 1] == n);
            }
            assert(!pile.contains(at(x, y) as usize)) by {
                if pile.contains(at(x, y) as usize) {
                    let t = pile.index_of(at(x, y) as usize);
                    assert(stack@[t] == pile[t]);
                }
            }
            assert(open_beside_out(m@, before, x, y));
        }
        assert forall|c: int|
            #![trigger grown.contains(c)]
            #![trigger out@[c]]
            grown.contains(c) <==> (0 <= c < GRID * GRID && out@[c]) by {
            if c != n {
                assert(marked@.contains(c) <==> (0 <= c < GRID * GRID && before[c]));
            }
        }
        assert(!marked@.contains(n as int));
    }
    Ghost(grown)
}

/// The hull: the boundary the country sees, a town cell on the grid's rim
/// or beside empty ground that joins the rim through empty ground. A hole
/// in the middle of town is not on it, so this is the outline an eye
/// traces round a town from the air.
pub fn hull(m: &[bool]) -> (h: Vec<bool>)
    requires
        m@.len() == GRID * GRID,
    ensures
        h@.len() == GRID * GRID,
        forall|i: int, j: int|
            #![trigger h@[at(i, j)]]
            inside(i, j) ==> h@[at(i, j)] == is_hull(m@, i, j),
{
    let mut out: Vec<bool> = Vec::new();
    let mut k: usize = 0;
    while k < GRID * GRID
        invariant
            k <= GRID * GRID,
            out@.len() == k,
            forall|c: int| 0 <= c < k ==> !out@[c],
        decreases GRID * GRID - k,
    {
        out.push(false);
        k = k + 1;
    }
    let mut stack: Vec<usize> = Vec::new();
    let ghost mut marked: Set<int> = Set::empty();
    // Every empty cell on the rim is country.
    let mut k: usize = 0;
    while k < GRID * GRID
        invariant
            k <= GRID * GRID,
            m@.len() == GRID * GRID,
            out@.len() == GRID * GRID,
            forall|x: int, y: int|
                #![trigger country(m@, x, y)]
                inside(x, y) && out@[at(x, y)] ==> country(m@, x, y),
            forall|t: int|
                #![trigger stack@[t]]
                0 <= t < stack@.len() ==> stack@[t] < GRID * GRID && out@[stack@[t] as int],
            forall|c: int| 0 <= c < GRID * GRID && out@[c] ==> stack@.contains(c as usize),
            forall|x: int, y: int|
                #![trigger out@[at(x, y)]]
                inside(x, y) && on_edge(x, y) && !m@[at(x, y)] && at(x, y) < k ==> out@[at(x, y)],
            forall|c: int|
                #![trigger marked.contains(c)]
                #![trigger out@[c]]
                marked.contains(c) <==> (0 <= c < GRID * GRID && out@[c]),
        decreases GRID * GRID - k,
    {
        let i = k % GRID;
        let j = k / GRID;
        if (i == 0 || j == 0 || i == GRID - 1 || j == GRID - 1) && !m[k] {
            let ghost before = out@;
            let ghost pile = stack@;
            proof {
                assert(at(i as int, j as int) == k);
                lemma_country_edge(m@, i as int, j as int);
            }
            out.set(k, true);
            stack.push(k);
            proof {
                marked = marked.insert(k as int);
                assert forall|x: int, y: int|
                    #![trigger country(m@, x, y)]
                    inside(x, y) && out@[at(x, y)] implies country(m@, x, y) by {
                    if at(x, y) != k {
                        assert(before[at(x, y)]);
                    } else {
                        assert(x == i && y == j);
                    }
                }
                assert forall|t: int|
                    #![trigger stack@[t]]
                    0 <= t < stack@.len() implies stack@[t] < GRID * GRID && out@[stack@[t] as int] by {
                    if t < pile.len() {
                        assert(stack@[t] == pile[t]);
                    }
                }
                assert forall|c: int| 0 <= c < GRID * GRID && out@[c] implies stack@.contains(
                    c as usize,
                ) by {
                    if c != k {
                        assert(before[c]);
                        let t = pile.index_of(c as usize);
                        assert(stack@[t] == pile[t]);
                    } else {
                        assert(stack@[stack@.len() - 1] == k);
                    }
                }
            }
        }
        k = k + 1;
    }
    // Spread through the empty ground from there.
    loop
        invariant
            flood_state(m@, out@, stack@, marked, -1),
        ensures
            flood_state(m@, out@, stack@, marked, -1),
            stack@.len() == 0,
        decreases GRID * GRID - marked.len(), stack@.len(),
    {
        proof {
            lemma_marked_bounded(out@, marked);
        }
        let ghost whole = stack@;
        let next = stack.pop();
        match next {
            None => {
                break;
            },
            Some(k) => {
                let ghost m0 = marked;
                proof {
                    assert(whole[whole.len() - 1] == k);
                    assert forall|x: int, y: int|
                        #![trigger open_beside_out(m@, out@, x, y)]
                        inside(x, y) && out@[at(x, y)] && !stack@.contains(at(x, y) as usize)
                            && at(x, y) != k implies open_beside_out(m@, out@, x, y) by {
                        if whole.contains(at(x, y) as usize) {
                            let t = whole.index_of(at(x, y) as usize);
                            if t < stack@.len() {
                                assert(stack@[t] == whole[t]);
                            }
                        }
                    }
                    assert forall|t: int|
                        #![trigger stack@[t]]
                        0 <= t < stack@.len() implies stack@[t] < GRID * GRID && out@[stack@[t] as int] by {
                        assert(stack@[t] == whole[t]);
                    }
                }
                let ghost popped = stack@;
                let i = k % GRID;
                let j = k / GRID;
                let mut g: Ghost<Set<int>> = Ghost(marked);
                let ghost g0 = g@;
                if i > 0 {
                    g = visit(m, &mut out, &mut stack, g, k, k - 1);
                }
                let ghost g1 = g@;
                let ghost s1 = stack@;
                if i + 1 < GRID {
                    g = visit(m, &mut out, &mut stack, g, k, k + 1);
                }
                let ghost g2 = g@;
                let ghost s2 = stack@;
                if j > 0 {
                    g = visit(m, &mut out, &mut stack, g, k, k - GRID);
                }
                let ghost g3 = g@;
                let ghost s3 = stack@;
                if j + 1 < GRID {
                    g = visit(m, &mut out, &mut stack, g, k, k + GRID);
                }
                proof {
                    marked = g@;
                    assert(at(i as int, j as int) == k);
                    assert(open_beside_out(m@, out@, i as int, j as int));
                    lemma_marked_bounded(out@, marked);
                    assert(g0.len() <= g1.len() <= g2.len() <= g3.len() <= marked.len());
                    if marked.len() == m0.len() {
                        assert(s1 == popped);
                        assert(s2 == popped);
                        assert(s3 == popped);
                        assert(stack@ == popped);
                    }
                }
            },
        }
    }
    proof {
        lemma_out_is_country(m@, out@, stack@, marked);
    }
    let mut h: Vec<bool> = Vec::new();
    let mut j: usize = 0;
    while j < GRID
        invariant
            m@.len() == GRID * GRID,
            out@.len() == GRID * GRID,
            forall|x: int, y: int|
                #![trigger out@[at(x, y)]]
                inside(x, y) ==> out@[at(x, y)] == country(m@, x, y),
            j <= GRID,
            h@.len() == j * GRID,
            forall|x: int, y: int|
                #![trigger h@[at(x, y)]]
                inside(x, y) && y < j ==> h@[at(x, y)] == is_hull(m@, x, y),
        decreases GRID - j,
    {
        let mut i: usize = 0;
        while i < GRID
            invariant
                m@.len() == GRID * GRID,
                out@.len() == GRID * GRID,
                forall|x: int, y: int|
                    #![trigger out@[at(x, y)]]
                    inside(x, y) ==> out@[at(x, y)] == country(m@, x, y),
                j < GRID,
                i <= GRID,
                h@.len() == j * GRID + i,
                forall|x: int, y: int|
                    #![trigger h@[at(x, y)]]
                    inside(x, y) && y < j ==> h@[at(x, y)] == is_hull(m@, x, y),
                forall|x: int|
                    #![trigger h@[at(x, j as int)]]
                    0 <= x < i ==> h@[at(x, j as int)] == is_hull(m@, x, j as int),
            decreases GRID - i,
        {
            let k = j * GRID + i;
            let edge = i == 0 || j == 0 || i == GRID - 1 || j == GRID - 1;
            let seen = (i > 0 && out[k - 1]) || (i + 1 < GRID && out[k + 1]) || (j > 0 && out[k
                - GRID]) || (j + 1 < GRID && out[k + GRID]);
            proof {
                if i > 0 {
                    assert(out@[at(i - 1, j as int)] == country(m@, i - 1, j as int));
                }
                if i + 1 < GRID {
                    assert(out@[at(i + 1, j as int)] == country(m@, i + 1, j as int));
                }
                if j > 0 {
                    assert(out@[at(i as int, j - 1)] == country(m@, i as int, j - 1));
                }
                if j + 1 < GRID {
                    assert(out@[at(i as int, j + 1)] == country(m@, i as int, j + 1));
                }
            }
            let here = m[k] && (edge || seen);
            let ghost before = h@;
            h.push(here);
            proof {
                assert forall|x: int, y: int|
                    #![trigger h@[at(x, y)]]
                    inside(x, y) && y < j implies h@[at(x, y)] == is_hull(m@, x, y) by {
                    assert(h@[at(x, y)] == before[at(x, y)]);
                }
                assert forall|x: int|
                    #![trigger h@[at(x, j as int)]]
                    0 <= x < i + 1 implies h@[at(x, j as int)] == is_hull(m@, x, j as int) by {
                    if x < i {
                        assert(h@[at(x, j as int)] == before[at(x, j as int)]);
                    }
                }
            }
            i = i + 1;
        }
        j = j + 1;
    }
    h
}

/// Whether a set holds every town neighbour of a cell it holds.
pub open spec fn town_beside_in(m: Seq<bool>, s: Set<int>, i: int, j: int) -> bool {
    &&& (i > 0 && m[at(i - 1, j)] ==> s.contains(at(i - 1, j)))
    &&& (i + 1 < GRID && m[at(i + 1, j)] ==> s.contains(at(i + 1, j)))
    &&& (j > 0 && m[at(i, j - 1)] ==> s.contains(at(i, j - 1)))
    &&& (j + 1 < GRID && m[at(i, j + 1)] ==> s.contains(at(i, j + 1)))
}

/// Whether a set of cells holds every town neighbour of every cell it
/// holds.
#[verifier::opaque]
pub open spec fn town_closed(m: Seq<bool>, s: Set<int>) -> bool {
    forall|i: int, j: int|
        #![trigger town_beside_in(m, s, i, j)]
        inside(i, j) && s.contains(at(i, j)) ==> town_beside_in(m, s, i, j)
}

/// Whether cell `c` is joined to cell `k` through town: it lies in every
/// set that holds `k` and every town neighbour of what it holds.
#[verifier::opaque]
pub open spec fn joined(m: Seq<bool>, k: int, c: int) -> bool {
    forall|s: Set<int>| #![trigger town_closed(m, s)] s.contains(k) && town_closed(m, s) ==> s.contains(c)
}

/// The piece of town cell `k` is in: every cell joined to it.
pub open spec fn piece_of(m: Seq<bool>, k: int) -> Set<int> {
    Set::new(|c: int| 0 <= c < GRID * GRID && joined(m, k, c))
}

/// Whether cell `c` is joined to a town cell before `p`.
pub open spec fn reached(m: Seq<bool>, p: int, c: int) -> bool {
    exists|t: int| #![trigger joined(m, t, c)] 0 <= t < p && m[t] && joined(m, t, c)
}

/// Whether town cell `k` is the first cell of its piece.
pub open spec fn first_of_piece(m: Seq<bool>, k: int) -> bool {
    m[k] && !reached(m, k, k)
}

/// The sizes of the pieces whose first cell comes before `p`, in the
/// order of their first cells.
pub open spec fn raw_sizes(m: Seq<bool>, p: int) -> Seq<usize>
    decreases p,
{
    if p <= 0 {
        Seq::empty()
    } else {
        raw_sizes(m, p - 1) + if first_of_piece(m, p - 1) {
            seq![piece_of(m, p - 1).len() as usize]
        } else {
            Seq::empty()
        }
    }
}

/// Whether a list runs biggest first.
pub open spec fn biggest_first(s: Seq<usize>) -> bool {
    forall|x: int, y: int| 0 <= x < y < s.len() ==> #[trigger] s[x] >= #[trigger] s[y]
}

proof fn lemma_joined_self(m: Seq<bool>, k: int)
    ensures
        joined(m, k, k),
{
    reveal(joined);
}

proof fn lemma_joined_trans(m: Seq<bool>, a: int, b: int, c: int)
    requires
        joined(m, a, b),
        joined(m, b, c),
    ensures
        joined(m, a, c),
{
    reveal(joined);
    assert forall|s: Set<int>| #![trigger town_closed(m, s)] s.contains(a) && town_closed(m, s) implies s.contains(c) by {
        assert(s.contains(b));
    }
}

/// A town neighbour of a cell joined to `k` is joined to `k`.
proof fn lemma_joined_step(m: Seq<bool>, k: int, i: int, j: int)
    requires
        inside(i, j),
        joined(m, k, at(i, j)),
    ensures
        town_beside_in(m, piece_of(m, k), i, j),
{
    reveal(joined);
    let p = piece_of(m, k);
    assert forall|s: Set<int>| #![trigger town_closed(m, s)] s.contains(k) && town_closed(m, s) implies town_beside_in(m, s, i, j) by {
        assert(s.contains(at(i, j)));
        reveal(town_closed);
    }
    if i > 0 && m[at(i - 1, j)] {
        assert forall|s: Set<int>| #![trigger town_closed(m, s)] s.contains(k) && town_closed(m, s) implies s.contains(at(i - 1, j)) by {
            assert(town_beside_in(m, s, i, j));
        }
    }
    if i + 1 < GRID && m[at(i + 1, j)] {
        assert forall|s: Set<int>| #![trigger town_closed(m, s)] s.contains(k) && town_closed(m, s) implies s.contains(at(i + 1, j)) by {
            assert(town_beside_in(m, s, i, j));
        }
    }
    if j > 0 && m[at(i, j - 1)] {
        assert forall|s: Set<int>| #![trigger town_closed(m, s)] s.contains(k) && town_closed(m, s) implies s.contains(at(i, j - 1)) by {
            assert(town_beside_in(m, s, i, j));
        }
    }
    if j + 1 < GRID && m[at(i, j + 1)] {
        assert forall|s: Set<int>| #![trigger town_closed(m, s)] s.contains(k) && town_closed(m, s) implies s.contains(at(i, j + 1)) by {
            assert(town_beside_in(m, s, i, j));
        }
    }
}

/// Everything joined to a town cell is town.
proof fn lemma_joined_is_town(m: Seq<bool>, k: int, c: int)
    requires
        m.len() == GRID * GRID,
        0 <= k < GRID * GRID,
        m[k],
        joined(m, k, c),
    ensures
        0 <= c < GRID * GRID,
        m[c],
{
    let town = Set::new(|x: int| 0 <= x < GRID * GRID && m[x]);
    assert(town_closed(m, town)) by {
        reveal(town_closed);
    }
    reveal(joined);
    assert(town.contains(c));
}

/// Being joined through town goes both ways.
proof fn lemma_joined_back(m: Seq<bool>, a: int, b: int)
    requires
        m.len() == GRID * GRID,
        0 <= a < GRID * GRID,
        m[a],
        joined(m, a, b),
    ensures
        joined(m, b, a),
{
    let both = Set::new(|c: int| 0 <= c < GRID * GRID && joined(m, a, c) && joined(m, c, a));
    lemma_joined_self(m, a);
    assert(both.contains(a));
    assert(town_closed(m, both)) by {
        reveal(town_closed);
        assert forall|i: int, j: int|
            #![trigger town_beside_in(m, both, i, j)]
            inside(i, j) && both.contains(at(i, j)) implies town_beside_in(m, both, i, j) by {
            let c = at(i, j);
            lemma_joined_step(m, a, i, j);
            lemma_joined_is_town(m, a, c);
            if i > 0 && m[at(i - 1, j)] {
                lemma_back_one(m, c, at(i - 1, j), i - 1, j);
                lemma_joined_trans(m, at(i - 1, j), c, a);
            }
            if i + 1 < GRID && m[at(i + 1, j)] {
                lemma_back_one(m, c, at(i + 1, j), i + 1, j);
                lemma_joined_trans(m, at(i + 1, j), c, a);
            }
            if j > 0 && m[at(i, j - 1)] {
                lemma_back_one(m, c, at(i, j - 1), i, j - 1);
                lemma_joined_trans(m, at(i, j - 1), c, a);
            }
            if j + 1 < GRID && m[at(i, j + 1)] {
                lemma_back_one(m, c, at(i, j + 1), i, j + 1);
                lemma_joined_trans(m, at(i, j + 1), c, a);
            }
        }
    }
    reveal(joined);
    assert(both.contains(b));
}

/// A town cell beside `d` is joined to `d`.
proof fn lemma_back_one(m: Seq<bool>, c: int, d: int, i: int, j: int)
    requires
        inside(i, j),
        d == at(i, j),
        0 <= c < GRID * GRID,
        m[c],
        c == at(i - 1, j) && i > 0 || c == at(i + 1, j) && i + 1 < GRID || c == at(i, j - 1) && j
            > 0 || c == at(i, j + 1) && j + 1 < GRID,
    ensures
        joined(m, d, c),
{
    reveal(joined);
    assert forall|s: Set<int>| #![trigger town_closed(m, s)] s.contains(d) && town_closed(m, s) implies s.contains(c) by {
        reveal(town_closed);
        assert(town_beside_in(m, s, i, j));
    }
}

/// Whether every town neighbour of a cell is seen.
pub open spec fn town_beside_seen(m: Seq<bool>, seen: Seq<bool>, i: int, j: int) -> bool {
    &&& (i > 0 && m[at(i - 1, j)] ==> seen[at(i - 1, j)])
    &&& (i + 1 < GRID && m[at(i + 1, j)] ==> seen[at(i + 1, j)])
    &&& (j > 0 && m[at(i, j - 1)] ==> seen[at(i, j - 1)])
    &&& (j + 1 < GRID && m[at(i, j + 1)] ==> seen[at(i, j + 1)])
}

/// What the flood of the piece of town cell `p` has found so far: the
/// cells seen are those joined to an earlier town cell and those it has
/// marked; what it has marked is joined to `p` and to nothing earlier;
/// the stack is marked; and every marked cell off the stack but `skip`
/// has its town neighbours seen.
pub open spec fn piece_state(
    m: Seq<bool>,
    seen: Seq<bool>,
    stack: Seq<usize>,
    this: Set<int>,
    p: int,
    skip: int,
) -> bool {
    &&& m.len() == GRID * GRID
    &&& seen.len() == GRID * GRID
    &&& 0 <= p < GRID * GRID
    &&& m[p]
    &&& !reached(m, p, p)
    &&& this.contains(p)
    &&& forall|c: int|
        #![trigger seen[c]]
        0 <= c < GRID * GRID ==> (seen[c] <==> (reached(m, p, c) || this.contains(c)))
    &&& forall|c: int|
        #![trigger this.contains(c)]
        this.contains(c) ==> 0 <= c < GRID * GRID && joined(m, p, c)
    &&& forall|t: int|
        #![trigger stack[t]]
        0 <= t < stack.len() ==> stack[t] < GRID * GRID && this.contains(stack[t] as int)
    &&& forall|x: int, y: int|
        #![trigger town_beside_seen(m, seen, x, y)]
        inside(x, y) && this.contains(at(x, y)) && !stack.contains(at(x, y) as usize) && at(x, y)
            != skip ==> town_beside_seen(m, seen, x, y)
}

proof fn lemma_set_bounded(this: Set<int>)
    requires
        forall|c: int| #![trigger this.contains(c)] this.contains(c) ==> 0 <= c < GRID * GRID,
    ensures
        this.finite(),
        this.len() <= GRID * GRID,
{
    let all = vstd::set_lib::set_int_range(0, GRID * GRID);
    vstd::set_lib::lemma_int_range(0, GRID * GRID);
    assert(this.subset_of(all));
    vstd::set_lib::lemma_len_subset(this, all);
}

/// Mark the town neighbour `n` of marked cell `k` and put it on the
/// stack, if it is town and not yet seen.
fn visit_town(
    m: &[bool],
    seen: &mut Vec<bool>,
    stack: &mut Vec<usize>,
    this: Ghost<Set<int>>,
    p: Ghost<int>,
    k: usize,
    n: usize,
) -> (after: Ghost<Set<int>>)
    requires
        piece_state(m@, old(seen)@, old(stack)@, this@, p@, k as int),
        this@.contains(k as int),
        n < GRID * GRID,
        n == k - 1 && k % GRID > 0 || n == k + 1 && k % GRID + 1 < GRID || n == k - GRID && k
            >= GRID || n == k + GRID,
    ensures
        piece_state(m@, final(seen)@, final(stack)@, after@, p@, k as int),
        after@.contains(k as int),
        m@[n as int] ==> final(seen)@[n as int],
        forall|c: int| 0 <= c < GRID * GRID && old(seen)@[c] ==> final(seen)@[c],
        after@.len() >= this@.len(),
        after@.len() == this@.len() ==> final(stack)@ == old(stack)@,
        after@.len() - this@.len() == final(stack)@.len() - old(stack)@.len(),
        after@.len() <= this@.len() + 1,
{
    proof {
        lemma_set_bounded(this@);
    }
    if !m[n] || seen[n] {
        return this;
    }
    let ghost before = seen@;
    let ghost pile = stack@;
    proof {
        let (i, j) = ((k % GRID) as int, (k / GRID) as int);
        assert(at(i, j) == k);
        assert(this@.contains(k as int));
        lemma_joined_step(m@, p@, i, j);
        assert(piece_of(m@, p@).contains(n as int));
        assert(!this@.contains(n as int));
    }
    seen.set(n, true);
    stack.push(n);
    let ghost grown = this@.insert(n as int);
    proof {
        assert forall|c: int|
            #![trigger seen@[c]]
            0 <= c < GRID * GRID implies (seen@[c] <==> (reached(m@, p@, c) || grown.contains(c))) by {
            if c != n {
                assert(before[c] <==> (reached(m@, p@, c) || this@.contains(c)));
            }
        }
        assert forall|t: int|
            #![trigger stack@[t]]
            0 <= t < stack@.len() implies stack@[t] < GRID * GRID && grown.contains(stack@[t] as int) by {
            if t < pile.len() {
                assert(stack@[t] == pile[t]);
            }
        }
        assert forall|x: int, y: int|
            #![trigger town_beside_seen(m@, seen@, x, y)]
            inside(x, y) && grown.contains(at(x, y)) && !stack@.contains(at(x, y) as usize) && at(
                x,
                y,
            ) != k implies town_beside_seen(m@, seen@, x, y) by {
            assert(at(x, y) != n) by {
                assert(stack@[stack@.len() - 1] == n);
            }
            assert(!pile.contains(at(x, y) as usize)) by {
                if pile.contains(at(x, y) as usize) {
                    let t = pile.index_of(at(x, y) as usize);
                    assert(stack@[t] == pile[t]);
                }
            }
            assert(town_beside_seen(m@, before, x, y));
        }
    }
    Ghost(grown)
}

/// Once the flood of the piece of `p` has emptied its stack, what it
/// marked is the piece, and what is seen is what is joined to a town cell
/// up to and including `p`.
proof fn lemma_flood_done(m: Seq<bool>, seen: Seq<bool>, stack: Seq<usize>, this: Set<int>, p: int)
    requires
        piece_state(m, seen, stack, this, p, -1),
        stack.len() == 0,
    ensures
        this == piece_of(m, p),
        forall|c: int| #![trigger seen[c]] 0 <= c < GRID * GRID ==> (seen[c] <==> reached(m, p + 1, c)),
{
    let earlier = Set::new(|c: int| 0 <= c < GRID * GRID && reached(m, p, c));
    let both = this + earlier;
    assert(town_closed(m, both)) by {
        reveal(town_closed);
        assert forall|i: int, j: int|
            #![trigger town_beside_in(m, both, i, j)]
            inside(i, j) && both.contains(at(i, j)) implies town_beside_in(m, both, i, j) by {
            let c = at(i, j);
            if this.contains(c) {
                assert(!stack.contains(c as usize));
                assert(town_beside_seen(m, seen, i, j));
                if i > 0 && m[at(i - 1, j)] {
                    assert(seen[at(i - 1, j)]);
                }
                if i + 1 < GRID && m[at(i + 1, j)] {
                    assert(seen[at(i + 1, j)]);
                }
                if j > 0 && m[at(i, j - 1)] {
                    assert(seen[at(i, j - 1)]);
                }
                if j + 1 < GRID && m[at(i, j + 1)] {
                    assert(seen[at(i, j + 1)]);
                }
            } else {
                assert(reached(m, p, c));
                let t = choose|t: int| #![trigger joined(m, t, c)] 0 <= t < p && m[t] && joined(m, t, c);
                lemma_joined_step(m, t, i, j);
                assert(town_beside_in(m, piece_of(m, t), i, j));
                if i > 0 && m[at(i - 1, j)] {
                    assert(joined(m, t, at(i - 1, j)));
                }
                if i + 1 < GRID && m[at(i + 1, j)] {
                    assert(joined(m, t, at(i + 1, j)));
                }
                if j > 0 && m[at(i, j - 1)] {
                    assert(joined(m, t, at(i, j - 1)));
                }
                if j + 1 < GRID && m[at(i, j + 1)] {
                    assert(joined(m, t, at(i, j + 1)));
                }
            }
        }
    }
    assert forall|c: int| piece_of(m, p).contains(c) implies this.contains(c) by {
        reveal(joined);
        assert(both.contains(c));
        if !this.contains(c) {
            let t = choose|t: int| #![trigger joined(m, t, c)] 0 <= t < p && m[t] && joined(m, t, c);
            lemma_joined_back(m, p, c);
            lemma_joined_trans(m, t, c, p);
            assert(reached(m, p, p));
        }
    }
    assert(this =~= piece_of(m, p));
    assert forall|c: int| #![trigger seen[c]] 0 <= c < GRID * GRID implies (seen[c] <==> reached(m, p + 1, c)) by {
        if reached(m, p, c) {
            let t = choose|t: int| #![trigger joined(m, t, c)] 0 <= t < p && m[t] && joined(m, t, c);
            assert(0 <= t < p + 1 && m[t] && joined(m, t, c));
        }
        if this.contains(c) {
            assert(0 <= p < p + 1 && m[p] && joined(m, p, c));
        }
        if reached(m, p + 1, c) {
            let t = choose|t: int| #![trigger joined(m, t, c)] 0 <= t < p + 1 && m[t] && joined(m, t, c);
            if t < p {
                assert(reached(m, p, c));
            } else {
                assert(piece_of(m, p).contains(c));
            }
        }
    }
}

/// A cell not in a new piece is joined to a town cell up to `p` just when
/// it is to one before `p`.
proof fn lemma_no_new_piece(m: Seq<bool>, p: int)
    requires
        m.len() == GRID * GRID,
        0 <= p < GRID * GRID,
        !m[p] || reached(m, p, p),
    ensures
        forall|c: int| #![trigger reached(m, p + 1, c)] reached(m, p + 1, c) <==> reached(m, p, c),
        !first_of_piece(m, p),
{
    assert forall|c: int| #![trigger reached(m, p + 1, c)] reached(m, p + 1, c) <==> reached(m, p, c) by {
        if reached(m, p, c) {
            let t = choose|t: int| #![trigger joined(m, t, c)] 0 <= t < p && m[t] && joined(m, t, c);
            assert(0 <= t < p + 1 && m[t] && joined(m, t, c));
        }
        if reached(m, p + 1, c) {
            let t = choose|t: int| #![trigger joined(m, t, c)] 0 <= t < p + 1 && m[t] && joined(m, t, c);
            if t == p {
                let u = choose|u: int| #![trigger joined(m, u, p)] 0 <= u < p && m[u] && joined(m, u, p);
                lemma_joined_trans(m, u, p, c);
                assert(reached(m, p, c));
            }
        }
    }
}

/// Sort a list biggest first.
fn biggest_first_sort(v: Vec<usize>) -> (out: Vec<usize>)
    ensures
        biggest_first(out@),
        out@.to_multiset() == v@.to_multiset(),
{
    let mut out: Vec<usize> = Vec::new();
    proof {
        assert(v@.subrange(0, 0) =~= out@);
    }
    let mut t: usize = 0;
    while t < v.len()
        invariant
            t <= v@.len(),
            biggest_first(out@),
            out@.to_multiset() == v@.subrange(0, t as int).to_multiset(),
        decreases v@.len() - t,
    {
        let x = v[t];
        let mut at: usize = 0;
        while at < out.len() && out[at] >= x
            invariant
                at <= out@.len(),
                forall|y: int| 0 <= y < at ==> #[trigger] out@[y] >= x,
            decreases out@.len() - at,
        {
            at = at + 1;
        }
        let ghost before = out@;
        out.insert(at, x);
        proof {
            vstd::seq_lib::to_multiset_insert(before, at as int, x);
            assert(v@.subrange(0, t + 1) =~= v@.subrange(0, t as int).push(x));
            vstd::seq_lib::to_multiset_build(v@.subrange(0, t as int), x);
            assert forall|a: int, b: int| 0 <= a < b < out@.len() implies #[trigger] out@[a] >= #[trigger] out@[b] by {
                if b < at {
                    assert(out@[a] == before[a] && out@[b] == before[b]);
                } else if b == at {
                    assert(out@[a] == before[a]);
                } else if a == at {
                    assert(out@[b] == before[b - 1]);
                    if at < before.len() {
                        assert(before[at as int] < x);
                        assert(before[at as int] >= before[b - 1]);
                    }
                } else if a < at {
                    assert(out@[a] == before[a] && out@[b] == before[b - 1]);
                } else {
                    assert(out@[a] == before[a - 1] && out@[b] == before[b - 1]);
                }
            }
        }
        t = t + 1;
    }
    proof {
        assert(v@.subrange(0, v@.len() as int) =~= v@);
    }
    out
}

/// The pieces a plan is in: every run of town cells joined through their
/// sides, as its own count of cells, biggest first.
pub fn pieces(m: &[bool]) -> (sizes: Vec<usize>)
    requires
        m@.len() == GRID * GRID,
    ensures
        biggest_first(sizes@),
        sizes@.to_multiset() == raw_sizes(m@, GRID * GRID).to_multiset(),
        forall|t: int| 0 <= t < sizes@.len() ==> 1 <= #[trigger] sizes@[t] <= GRID * GRID,
{
    let mut seen: Vec<bool> = Vec::new();
    let mut k: usize = 0;
    while k < GRID * GRID
        invariant
            k <= GRID * GRID,
            seen@.len() == k,
            forall|c: int| 0 <= c < k ==> !seen@[c],
        decreases GRID * GRID - k,
    {
        seen.push(false);
        k = k + 1;
    }
    let mut raw: Vec<usize> = Vec::new();
    let mut start: usize = 0;
    while start < GRID * GRID
        invariant
            m@.len() == GRID * GRID,
            seen@.len() == GRID * GRID,
            start <= GRID * GRID,
            forall|c: int| #![trigger seen@[c]] 0 <= c < GRID * GRID ==> (seen@[c] <==> reached(m@, start as int, c)),
            raw@ == raw_sizes(m@, start as int),
        decreases GRID * GRID - start,
    {
        if !m[start] || seen[start] {
            proof {
                lemma_no_new_piece(m@, start as int);
                assert(raw_sizes(m@, start + 1) =~= raw_sizes(m@, start as int));
            }
        } else {
            let ghost p = start as int;
            proof {
                assert(!reached(m@, p, p));
                lemma_joined_self(m@, p);
            }
            let ghost s0 = seen@;
            seen.set(start, true);
            let mut stack: Vec<usize> = Vec::new();
            stack.push(start);
            let ghost mut this: Set<int> = Set::empty().insert(p);
            let mut size: usize = 0;
            proof {
                assert forall|c: int| #![trigger seen@[c]] 0 <= c < GRID * GRID implies (seen@[c] <==> (reached(m@, p, c) || this.contains(c))) by {
                    if c != p {
                        assert(s0[c] <==> reached(m@, p, c));
                    }
                }
                assert forall|t: int| #![trigger stack@[t]] 0 <= t < stack@.len() implies stack@[t] < GRID * GRID && this.contains(stack@[t] as int) by {
                    assert(stack@[t] == start);
                }
                assert forall|x: int, y: int|
                    #![trigger town_beside_seen(m@, seen@, x, y)]
                    inside(x, y) && this.contains(at(x, y)) && !stack@.contains(at(x, y) as usize) && at(x, y) != -1
                        implies town_beside_seen(m@, seen@, x, y) by {
                    assert(stack@[0] == start);
                }
            }
            loop
                invariant
                    piece_state(m@, seen@, stack@, this, p, -1),
                    size + stack@.len() == this.len(),
                ensures
                    piece_state(m@, seen@, stack@, this, p, -1),
                    size + stack@.len() == this.len(),
                    stack@.len() == 0,
                decreases GRID * GRID - this.len(), stack@.len(),
            {
                proof {
                    lemma_set_bounded(this);
                }
                let ghost whole = stack@;
                let next = stack.pop();
                match next {
                    None => {
                        break;
                    },
                    Some(k) => {
                        let ghost m0 = this;
                        proof {
                            assert(whole[whole.len() - 1] == k);
                            assert(this.contains(k as int));
                            assert forall|x: int, y: int|
                                #![trigger town_beside_seen(m@, seen@, x, y)]
                                inside(x, y) && this.contains(at(x, y)) && !stack@.contains(at(x, y) as usize)
                                    && at(x, y) != k implies town_beside_seen(m@, seen@, x, y) by {
                                if whole.contains(at(x, y) as usize) {
                                    let t = whole.index_of(at(x, y) as usize);
                                    if t < stack@.len() {
                                        assert(stack@[t] == whole[t]);
                                    }
                                }
                            }
                            assert forall|t: int|
                                #![trigger stack@[t]]
                                0 <= t < stack@.len() implies stack@[t] < GRID * GRID && this.contains(stack@[t] as int) by {
                                assert(stack@[t] == whole[t]);
                            }
                        }
                        let ghost popped = stack@;
                        size = size + 1;
                        let i = k % GRID;
                        let j = k / GRID;
                        let mut g: Ghost<Set<int>> = Ghost(this);
                        let ghost g0 = g@;
                        if i > 0 {
                            g = visit_town(m, &mut seen, &mut stack, g, Ghost(p), k, k - 1);
                        }
                        let ghost g1 = g@;
                        let ghost s1 = stack@;
                        if i + 1 < GRID {
                            g = visit_town(m, &mut seen, &mut stack, g, Ghost(p), k, k + 1);
                        }
                        let ghost g2 = g@;
                        let ghost s2 = stack@;
                        if j > 0 {
                            g = visit_town(m, &mut seen, &mut stack, g, Ghost(p), k, k - GRID);
                        }
                        let ghost g3 = g@;
                        let ghost s3 = stack@;
                        if j + 1 < GRID {
                            g = visit_town(m, &mut seen, &mut stack, g, Ghost(p), k, k + GRID);
                        }
                        proof {
                            this = g@;
                            assert(at(i as int, j as int) == k);
                            assert(town_beside_seen(m@, seen@, i as int, j as int));
                            lemma_set_bounded(this);
                            assert(g0.len() <= g1.len() <= g2.len() <= g3.len() <= this.len());
                            if this.len() == m0.len() {
                                assert(s1 == popped);
                                assert(s2 == popped);
                                assert(s3 == popped);
                                assert(stack@ == popped);
                            }
                        }
                    },
                }
            }
            proof {
                lemma_flood_done(m@, seen@, stack@, this, p);
                lemma_set_bounded(this);
                assert(first_of_piece(m@, p));
                assert(size == piece_of(m@, p).len());
            }
            raw.push(size);
            proof {
                assert(raw@ =~= raw_sizes(m@, start + 1));
            }
        }
        start = start + 1;
    }
    let sizes = biggest_first_sort(raw);
    proof {
        let r = raw_sizes(m@, GRID * GRID);
        sizes@.to_multiset_ensures();
        r.to_multiset_ensures();
        assert forall|t: int| 0 <= t < sizes@.len() implies 1 <= #[trigger] sizes@[t] <= GRID * GRID by {
            assert(sizes@.contains(sizes@[t]));
            assert(r.to_multiset().count(sizes@[t]) > 0);
            assert(r.contains(sizes@[t]));
            let u = choose|u: int| 0 <= u < r.len() && r[u] == sizes@[t];
            lemma_pieces_not_empty(m@, GRID * GRID, u);
        }
    }
    sizes
}

/// The hull is part of the rim: a town cell beside the country is beside
/// ground outside the town.
pub proof fn lemma_hull_on_rim(m: Seq<bool>, i: int, j: int)
    requires
        m.len() == GRID * GRID,
        inside(i, j),
        is_hull(m, i, j),
    ensures
        is_rim(m, i, j),
{
    if !on_edge(i, j) {
        if i > 0 && country(m, i - 1, j) {
            lemma_country_is_open(m, i - 1, j);
        } else if i + 1 < GRID && country(m, i + 1, j) {
            lemma_country_is_open(m, i + 1, j);
        } else if j > 0 && country(m, i, j - 1) {
            lemma_country_is_open(m, i, j - 1);
        } else {
            lemma_country_is_open(m, i, j + 1);
        }
    }
}

/// Whether every cell outside the town joins the frame's edge through
/// ground outside the town: the town has no holes.
pub open spec fn no_holes(m: Seq<bool>) -> bool {
    forall|i: int, j: int| #![trigger m[at(i, j)]] inside(i, j) && !m[at(i, j)] ==> country(m, i, j)
}

/// Where a town has no holes its hull is its rim: every boundary cell
/// faces the country.
pub proof fn lemma_hull_is_rim_without_holes(m: Seq<bool>, i: int, j: int)
    requires
        m.len() == GRID * GRID,
        no_holes(m),
        inside(i, j),
    ensures
        is_hull(m, i, j) == is_rim(m, i, j),
{
    if is_hull(m, i, j) {
        lemma_hull_on_rim(m, i, j);
    }
    if is_rim(m, i, j) && !on_edge(i, j) {
        if i > 0 && !m[at(i - 1, j)] {
            assert(country(m, i - 1, j));
        } else if i + 1 < GRID && !m[at(i + 1, j)] {
            assert(country(m, i + 1, j));
        } else if j > 0 && !m[at(i, j - 1)] {
            assert(country(m, i, j - 1));
        } else {
            assert(country(m, i, j + 1));
        }
    }
}

/// Whether `h` is an enclosed hole of the town: cells outside the town,
/// none on the frame's edge, holding every cell outside the town beside
/// any cell of it.
pub open spec fn enclosed(m: Seq<bool>, h: Set<int>) -> bool {
    forall|i: int, j: int|
        #![trigger h.contains(at(i, j))]
        inside(i, j) && h.contains(at(i, j)) ==> !m[at(i, j)] && !on_edge(i, j) && open_beside_in(
            m,
            h,
            i,
            j,
        )
}

/// Ground in an enclosed hole is not country.
pub proof fn lemma_hole_is_not_country(m: Seq<bool>, h: Set<int>, i: int, j: int)
    requires
        m.len() == GRID * GRID,
        enclosed(m, h),
        inside(i, j),
        h.contains(at(i, j)),
    ensures
        !country(m, i, j),
{
    let s = Set::new(|k: int| 0 <= k < GRID * GRID && !m[k] && !h.contains(k));
    assert(country_closed(m, s)) by {
        reveal(country_closed);
        assert forall|a: int, b: int| #![trigger open_beside_in(m, s, a, b)]
            inside(a, b) && s.contains(at(a, b)) implies open_beside_in(m, s, a, b) by {
            if a > 0 && !m[at(a - 1, b)] && h.contains(at(a - 1, b)) {
                assert(open_beside_in(m, h, a - 1, b));
                assert(at(a - 1 + 1, b) == at(a, b));
            }
            if a + 1 < GRID && !m[at(a + 1, b)] && h.contains(at(a + 1, b)) {
                assert(open_beside_in(m, h, a + 1, b));
                assert(at(a + 1 - 1, b) == at(a, b));
            }
            if b > 0 && !m[at(a, b - 1)] && h.contains(at(a, b - 1)) {
                assert(open_beside_in(m, h, a, b - 1));
                assert(at(a, b - 1 + 1) == at(a, b));
            }
            if b + 1 < GRID && !m[at(a, b + 1)] && h.contains(at(a, b + 1)) {
                assert(open_beside_in(m, h, a, b + 1));
                assert(at(a, b + 1 - 1) == at(a, b));
            }
        }
    }
    reveal(country);
    assert(!s.contains(at(i, j)));
}

/// A town cell off the frame's edge whose only ground outside the town
/// lies in an enclosed hole is on the rim but not on the hull.
pub proof fn lemma_hole_edge_is_rim_not_hull(m: Seq<bool>, h: Set<int>, i: int, j: int)
    requires
        m.len() == GRID * GRID,
        enclosed(m, h),
        inside(i, j),
        m[at(i, j)],
        !on_edge(i, j),
        beside_outside(m, i, j),
        i > 0 && !m[at(i - 1, j)] ==> h.contains(at(i - 1, j)),
        i + 1 < GRID && !m[at(i + 1, j)] ==> h.contains(at(i + 1, j)),
        j > 0 && !m[at(i, j - 1)] ==> h.contains(at(i, j - 1)),
        j + 1 < GRID && !m[at(i, j + 1)] ==> h.contains(at(i, j + 1)),
    ensures
        is_rim(m, i, j),
        !is_hull(m, i, j),
{
    if i > 0 && country(m, i - 1, j) {
        lemma_country_is_open(m, i - 1, j);
        lemma_hole_is_not_country(m, h, i - 1, j);
    }
    if i + 1 < GRID && country(m, i + 1, j) {
        lemma_country_is_open(m, i + 1, j);
        lemma_hole_is_not_country(m, h, i + 1, j);
    }
    if j > 0 && country(m, i, j - 1) {
        lemma_country_is_open(m, i, j - 1);
        lemma_hole_is_not_country(m, h, i, j - 1);
    }
    if j + 1 < GRID && country(m, i, j + 1) {
        lemma_country_is_open(m, i, j + 1);
        lemma_hole_is_not_country(m, h, i, j + 1);
    }
}

proof fn lemma_piece_holds_its_first(m: Seq<bool>, k: int)
    requires
        0 <= k < GRID * GRID,
    ensures
        1 <= piece_of(m, k).len() <= GRID * GRID,
{
    lemma_joined_self(m, k);
    let r = vstd::set_lib::set_int_range(0, GRID * GRID);
    vstd::set_lib::lemma_int_range(0, GRID * GRID);
    assert(piece_of(m, k).subset_of(r));
    vstd::set_lib::lemma_len_subset(piece_of(m, k), r);
    assert(piece_of(m, k).contains(k));
    assert(piece_of(m, k).len() >= 1) by {
        if piece_of(m, k).len() == 0 {
            piece_of(m, k).lemma_len0_is_empty();
        }
    }
}

/// No piece of a town is empty: each holds at least its own first cell,
/// and none more than the grid.
pub proof fn lemma_pieces_not_empty(m: Seq<bool>, p: int, t: int)
    requires
        0 <= p <= GRID * GRID,
        0 <= t < raw_sizes(m, p).len(),
    ensures
        1 <= raw_sizes(m, p)[t] <= GRID * GRID,
    decreases p,
{
    if p > 0 {
        let before = raw_sizes(m, p - 1);
        if t < before.len() {
            lemma_pieces_not_empty(m, p - 1, t);
        } else {
            lemma_piece_holds_its_first(m, p - 1);
        }
    }
}

} // verus!
