//! The marching cubes tables: for each of the 256 ways the eight corners
//! of a cell can be rock or air, which edges the surface crosses and the
//! triangles it is made of.
//!
//! Corners and edges are numbered as the mesher numbers them:
//!
//! ```text
//! corner 0 (0,0,0)  1 (1,0,0)  2 (1,1,0)  3 (0,1,0)
//!        4 (0,0,1)  5 (1,0,1)  6 (1,1,1)  7 (0,1,1)
//! edge 0: 0-1  1: 1-2  2: 2-3  3: 3-0     the z = 0 square
//!      4: 4-5  5: 5-6  6: 6-7  7: 7-4     the z = 1 square
//!      8: 0-4  9: 1-5 10: 2-6 11: 3-7     the uprights
//! ```
//!
//! and corner bit `k` of a configuration is set when corner `k` is air.
//!
//! The triangles are the surface's own loops round the cube. On each face
//! the surface cuts every air corner off on its own; so from an edge it
//! crosses, the surface runs across the face on which the edge's air end
//! comes next going round the face anticlockwise seen from outside, past
//! that air corner and any air corners after it, to the next edge it
//! crosses. Each loop is a fan from its first edge, wound so a triangle
//! faces out of the rock.
use vstd::prelude::*;

verus! {

/// Two to the `k`, for `k` under sixteen.
pub open spec fn pow_two(k: int) -> int {
    if k == 0 { 1 }
    else if k == 1 { 2 }
    else if k == 2 { 4 }
    else if k == 3 { 8 }
    else if k == 4 { 16 }
    else if k == 5 { 32 }
    else if k == 6 { 64 }
    else if k == 7 { 128 }
    else if k == 8 { 256 }
    else if k == 9 { 512 }
    else if k == 10 { 1024 }
    else if k == 11 { 2048 }
    else { 4096 }
}

/// The corner an edge starts from.
pub open spec fn edge_from(e: int) -> int {
    if e < 8 { e } else { e - 8 }
}

/// The corner an edge runs to.
pub open spec fn edge_to(e: int) -> int {
    if e == 3 { 0 }
    else if e == 7 { 4 }
    else if e < 8 { e + 1 }
    else { e - 4 }
}

/// Whether corner `k` of configuration `c` is air.
pub open spec fn corner_air(c: int, k: int) -> bool {
    (c / pow_two(k)) % 2 == 1
}

/// Whether configuration `c` crosses edge `e`: one end air and one rock.
pub open spec fn crossed(c: int, e: int) -> bool {
    corner_air(c, edge_from(e)) != corner_air(c, edge_to(e))
}

/// The `k`th corner of face `f`, anticlockwise seen from outside: the
/// faces are z = 0, z = 1, y = 0, x = 1, y = 1 and x = 0.
pub open spec fn face_corner(f: int, k: int) -> int {
    if f == 0 {
        if k == 0 { 0 } else if k == 1 { 3 } else if k == 2 { 2 } else { 1 }
    } else if f == 1 {
        if k == 0 { 4 } else if k == 1 { 5 } else if k == 2 { 6 } else { 7 }
    } else if f == 2 {
        if k == 0 { 0 } else if k == 1 { 1 } else if k == 2 { 5 } else { 4 }
    } else if f == 3 {
        if k == 0 { 1 } else if k == 1 { 2 } else if k == 2 { 6 } else { 5 }
    } else if f == 4 {
        if k == 0 { 2 } else if k == 1 { 3 } else if k == 2 { 7 } else { 6 }
    } else {
        if k == 0 { 3 } else if k == 1 { 0 } else if k == 2 { 4 } else { 7 }
    }
}

/// The edge of face `f` from its `k`th corner to the next.
pub open spec fn face_edge(f: int, k: int) -> int {
    if f == 0 {
        if k == 0 { 3 } else if k == 1 { 2 } else if k == 2 { 1 } else { 0 }
    } else if f == 1 {
        if k == 0 { 4 } else if k == 1 { 5 } else if k == 2 { 6 } else { 7 }
    } else if f == 2 {
        if k == 0 { 0 } else if k == 1 { 9 } else if k == 2 { 4 } else { 8 }
    } else if f == 3 {
        if k == 0 { 1 } else if k == 1 { 10 } else if k == 2 { 5 } else { 9 }
    } else if f == 4 {
        if k == 0 { 2 } else if k == 1 { 11 } else if k == 2 { 6 } else { 10 }
    } else {
        if k == 0 { 3 } else if k == 1 { 8 } else if k == 2 { 7 } else { 11 }
    }
}

/// The two places an edge has on the faces: the face, and which of its
/// edges it is there.
pub open spec fn incidence(e: int, s: int) -> (int, int) {
    if e == 0 { if s == 0 { (0, 3) } else { (2, 0) } }
    else if e == 1 { if s == 0 { (0, 2) } else { (3, 0) } }
    else if e == 2 { if s == 0 { (0, 1) } else { (4, 0) } }
    else if e == 3 { if s == 0 { (0, 0) } else { (5, 0) } }
    else if e == 4 { if s == 0 { (1, 0) } else { (2, 2) } }
    else if e == 5 { if s == 0 { (1, 1) } else { (3, 2) } }
    else if e == 6 { if s == 0 { (1, 2) } else { (4, 2) } }
    else if e == 7 { if s == 0 { (1, 3) } else { (5, 2) } }
    else if e == 8 { if s == 0 { (2, 3) } else { (5, 1) } }
    else if e == 9 { if s == 0 { (2, 1) } else { (3, 3) } }
    else if e == 10 { if s == 0 { (3, 1) } else { (4, 3) } }
    else { if s == 0 { (4, 1) } else { (5, 3) } }
}

/// The face, and the place on it, on which edge `e`'s air end comes next
/// going round anticlockwise.
pub open spec fn forward(c: int, e: int) -> (int, int) {
    let (f, k) = incidence(e, 0);
    if corner_air(c, face_corner(f, (k + 1) % 4)) {
        (f, k)
    } else {
        incidence(e, 1)
    }
}

/// Where the surface leaves face `f` having come in across its `k`th
/// edge: past the air corners after it, at the next edge it crosses.
pub open spec fn partner(c: int, f: int, k: int) -> int {
    if !corner_air(c, face_corner(f, (k + 2) % 4)) {
        face_edge(f, (k + 1) % 4)
    } else if !corner_air(c, face_corner(f, (k + 3) % 4)) {
        face_edge(f, (k + 2) % 4)
    } else {
        face_edge(f, (k + 3) % 4)
    }
}

/// The edge the surface reaches next from crossed edge `e`.
pub open spec fn next_edge(c: int, e: int) -> int {
    partner(c, forward(c, e).0, forward(c, e).1)
}

/// The loop's edges after `x`, until it comes back to `start` or runs
/// out of `fuel`.
pub open spec fn walk(c: int, start: int, x: int, fuel: int) -> Seq<int>
    decreases fuel,
{
    if fuel <= 0 || x == start {
        Seq::empty()
    } else {
        seq![x] + walk(c, start, next_edge(c, x), fuel - 1)
    }
}

/// The loop of edges the surface runs round from crossed edge `e`.
pub open spec fn loop_of(c: int, e: int) -> Seq<int> {
    seq![e] + walk(c, e, next_edge(c, e), 11)
}

/// A loop as a fan of triangles from its first edge, from its `t`th edge
/// on.
pub open spec fn fan_from(l: Seq<int>, t: int) -> Seq<int>
    decreases l.len() - t,
{
    if t < 1 || t + 1 >= l.len() {
        Seq::empty()
    } else {
        seq![l[0], l[t + 1], l[t]] + fan_from(l, t + 1)
    }
}

/// The edges already in a loop once the first `e` edges are looked at.
#[verifier::opaque]
pub open spec fn used_before(c: int, e: int) -> Set<int>
    decreases e,
{
    if e <= 0 {
        Set::empty()
    } else {
        let u = used_before(c, e - 1);
        if crossed(c, e - 1) && !u.contains(e - 1) {
            u + loop_of(c, e - 1).to_set()
        } else {
            u
        }
    }
}

/// Whether a new loop starts at edge `e`.
pub open spec fn starts(c: int, e: int) -> bool {
    crossed(c, e) && !used_before(c, e).contains(e)
}

/// The triangles of the loops starting among the first `e` edges.
pub open spec fn row_upto(c: int, e: int) -> Seq<int>
    decreases e,
{
    if e <= 0 {
        Seq::empty()
    } else {
        row_upto(c, e - 1) + if starts(c, e - 1) {
            fan_from(loop_of(c, e - 1), 1)
        } else {
            Seq::empty()
        }
    }
}

/// The triangles of configuration `c`, as edge numbers in threes.
pub open spec fn triangles(c: int) -> Seq<int> {
    row_upto(c, 12)
}

/// Row `c` of the triangle table: its triangles and then -1.
pub open spec fn table_row(c: int) -> Seq<i8> {
    triangles(c).map_values(|e: int| e as i8).push(-1i8)
}

/// The crossed edges among the first `e`, as bits.
pub open spec fn edge_bits(c: int, e: int) -> int
    decreases e,
{
    if e <= 0 {
        0
    } else {
        edge_bits(c, e - 1) + if crossed(c, e - 1) { pow_two(e - 1) } else { 0 }
    }
}

proof fn lemma_face_edge_ends(f: int, k: int)
    requires
        0 <= f < 6,
        0 <= k < 4,
    ensures
        0 <= face_edge(f, k) < 12,
        (edge_from(face_edge(f, k)) == face_corner(f, k) && edge_to(face_edge(f, k))
            == face_corner(f, (k + 1) % 4)) || (edge_to(face_edge(f, k)) == face_corner(f, k)
            && edge_from(face_edge(f, k)) == face_corner(f, (k + 1) % 4)),
{
}

proof fn lemma_incidence(e: int)
    requires
        0 <= e < 12,
    ensures
        0 <= incidence(e, 0).0 < 6,
        0 <= incidence(e, 0).1 < 4,
        0 <= incidence(e, 1).0 < 6,
        0 <= incidence(e, 1).1 < 4,
        face_edge(incidence(e, 0).0, incidence(e, 0).1) == e,
        face_edge(incidence(e, 1).0, incidence(e, 1).1) == e,
        face_corner(incidence(e, 0).0, incidence(e, 0).1) == face_corner(
            incidence(e, 1).0,
            (incidence(e, 1).1 + 1) % 4,
        ),
        face_corner(incidence(e, 0).0, (incidence(e, 0).1 + 1) % 4) == face_corner(
            incidence(e, 1).0,
            incidence(e, 1).1,
        ),
{
}

/// From a crossed edge the surface runs to a crossed edge.
pub proof fn lemma_next_is_crossed(c: int, e: int)
    requires
        0 <= e < 12,
        crossed(c, e),
    ensures
        0 <= next_edge(c, e) < 12,
        crossed(c, next_edge(c, e)),
{
    lemma_incidence(e);
    let (f, k) = forward(c, e);
    let (f0, k0) = incidence(e, 0);
    lemma_face_edge_ends(f0, k0);
    let (f1, k1) = incidence(e, 1);
    lemma_face_edge_ends(f1, k1);
    assert(!corner_air(c, face_corner(f, k)) && corner_air(c, face_corner(f, (k + 1) % 4)));
    assert((k + 1) % 4 == (k + 1) % 4 && ((k + 1) % 4 + 1) % 4 == (k + 2) % 4);
    assert(((k + 2) % 4 + 1) % 4 == (k + 3) % 4 && ((k + 3) % 4 + 1) % 4 == k);
    lemma_face_edge_ends(f, (k + 1) % 4);
    lemma_face_edge_ends(f, (k + 2) % 4);
    lemma_face_edge_ends(f, (k + 3) % 4);
}

proof fn lemma_walk_crossed(c: int, start: int, x: int, fuel: int)
    requires
        0 <= x < 12,
        crossed(c, x),
    ensures
        forall|t: int|
            0 <= t < walk(c, start, x, fuel).len() ==> 0 <= #[trigger] walk(c, start, x, fuel)[t]
                < 12 && crossed(c, walk(c, start, x, fuel)[t]),
    decreases fuel,
{
    if fuel > 0 && x != start {
        lemma_next_is_crossed(c, x);
        lemma_walk_crossed(c, start, next_edge(c, x), fuel - 1);
        let rest = walk(c, start, next_edge(c, x), fuel - 1);
        assert forall|t: int| 0 <= t < walk(c, start, x, fuel).len() implies 0 <= #[trigger] walk(
            c,
            start,
            x,
            fuel,
        )[t] < 12 && crossed(c, walk(c, start, x, fuel)[t]) by {
            if t > 0 {
                assert(walk(c, start, x, fuel)[t] == rest[t - 1]);
            }
        }
    }
}

proof fn lemma_loop_crossed(c: int, e: int)
    requires
        0 <= e < 12,
        crossed(c, e),
    ensures
        forall|t: int|
            0 <= t < loop_of(c, e).len() ==> 0 <= #[trigger] loop_of(c, e)[t] < 12 && crossed(
                c,
                loop_of(c, e)[t],
            ),
{
    lemma_next_is_crossed(c, e);
    lemma_walk_crossed(c, e, next_edge(c, e), 11);
    let rest = walk(c, e, next_edge(c, e), 11);
    assert forall|t: int| 0 <= t < loop_of(c, e).len() implies 0 <= #[trigger] loop_of(c, e)[t]
        < 12 && crossed(c, loop_of(c, e)[t]) by {
        if t > 0 {
            assert(loop_of(c, e)[t] == rest[t - 1]);
        }
    }
}

/// Whether a sequence is whole triangles of crossed edges.
pub open spec fn whole_triangles(c: int, s: Seq<int>) -> bool {
    &&& s.len() % 3 == 0
    &&& forall|t: int| 0 <= t < s.len() ==> 0 <= #[trigger] s[t] < 12 && crossed(c, s[t])
}

proof fn lemma_fan_whole(c: int, l: Seq<int>, t: int)
    requires
        1 <= t,
        forall|x: int| 0 <= x < l.len() ==> 0 <= #[trigger] l[x] < 12 && crossed(c, l[x]),
    ensures
        whole_triangles(c, fan_from(l, t)),
    decreases l.len() - t,
{
    if t + 1 < l.len() {
        lemma_fan_whole(c, l, t + 1);
        let rest = fan_from(l, t + 1);
        let s = fan_from(l, t);
        assert(l[0] == l[0] && 0 <= l[0] < 12 && crossed(c, l[0]));
        assert(0 <= l[t] < 12 && crossed(c, l[t]));
        assert(0 <= l[t + 1] < 12 && crossed(c, l[t + 1]));
        assert forall|x: int| 0 <= x < s.len() implies 0 <= #[trigger] s[x] < 12 && crossed(c, s[x]) by {
            if x >= 3 {
                assert(s[x] == rest[x - 3]);
            }
        }
    }
}

#[verifier::spinoff_prover]
#[verifier::rlimit(40)]
proof fn lemma_rows_whole(c: int, e: int)
    requires
        0 <= e <= 12,
    ensures
        whole_triangles(c, row_upto(c, e)),
    decreases e,
{
    if e > 0 {
        lemma_rows_whole(c, e - 1);
        let before = row_upto(c, e - 1);
        if starts(c, e - 1) {
            lemma_loop_crossed(c, e - 1);
            lemma_fan_whole(c, loop_of(c, e - 1), 1);
            let more = fan_from(loop_of(c, e - 1), 1);
            let s = row_upto(c, e);
            assert(s == before + more);
            assert forall|x: int| 0 <= x < s.len() implies 0 <= #[trigger] s[x] < 12 && crossed(
                c,
                s[x],
            ) by {
                if x < before.len() {
                    assert(s[x] == before[x]);
                } else {
                    assert(s[x] == more[x - before.len()]);
                }
            }
        } else {
            assert(row_upto(c, e) =~= before);
        }
    }
}

/// Every row of the triangle table is whole triangles of edges its
/// configuration crosses, and a cell all rock or all air has none.
pub proof fn lemma_rows_are_whole_triangles(c: int)
    requires
        0 <= c < 256,
    ensures
        whole_triangles(c, triangles(c)),
        (c == 0 || c == 255) ==> triangles(c).len() == 0,
{
    lemma_rows_whole(c, 12);
    if c == 0 || c == 255 {
        lemma_no_crossing_no_row(c, 12);
    }
}

proof fn lemma_no_crossing_no_row(c: int, e: int)
    requires
        c == 0 || c == 255,
        0 <= e <= 12,
    ensures
        row_upto(c, e).len() == 0,
    decreases e,
{
    if e > 0 {
        lemma_no_crossing_no_row(c, e - 1);
        lemma_uniform_corner(edge_from(e - 1));
        lemma_uniform_corner(edge_to(e - 1));
        assert(!crossed(c, e - 1));
        assert(row_upto(c, e) =~= row_upto(c, e - 1));
    }
}

proof fn lemma_uniform_corner(k: int)
    requires
        0 <= k < 8,
    ensures
        !corner_air(0, k),
        corner_air(255, k),
{
    if k == 0 {
        assert(255int / 1 % 2 == 1);
    } else if k == 1 {
        assert(255int / 2 % 2 == 1);
    } else if k == 2 {
        assert(255int / 4 % 2 == 1);
    } else if k == 3 {
        assert(255int / 8 % 2 == 1);
    } else if k == 4 {
        assert(255int / 16 % 2 == 1);
    } else if k == 5 {
        assert(255int / 32 % 2 == 1);
    } else if k == 6 {
        assert(255int / 64 % 2 == 1);
    } else {
        assert(255int / 128 % 2 == 1);
    }
}

/// Two to the `k`, for `k` under sixteen.
fn two_to(k: usize) -> (r: usize)
    requires
        k < 16,
    ensures
        r == pow_two(k as int),
        1 <= r <= 4096,
{
    if k == 0 { 1 }
    else if k == 1 { 2 }
    else if k == 2 { 4 }
    else if k == 3 { 8 }
    else if k == 4 { 16 }
    else if k == 5 { 32 }
    else if k == 6 { 64 }
    else if k == 7 { 128 }
    else if k == 8 { 256 }
    else if k == 9 { 512 }
    else if k == 10 { 1024 }
    else if k == 11 { 2048 }
    else { 4096 }
}

fn is_air(c: usize, k: usize) -> (r: bool)
    requires
        k < 8,
    ensures
        r == corner_air(c as int, k as int),
{
    (c / two_to(k)) % 2 == 1
}

fn ends(e: usize) -> (r: (usize, usize))
    requires
        e < 12,
    ensures
        r.0 == edge_from(e as int),
        r.1 == edge_to(e as int),
        r.0 < 8,
        r.1 < 8,
{
    let from = if e < 8 { e } else { e - 8 };
    let to = if e == 3 { 0 } else if e == 7 { 4 } else if e < 8 { e + 1 } else { e - 4 };
    (from, to)
}

/// Whether configuration `c` crosses edge `e`.
pub fn crosses(c: usize, e: usize) -> (r: bool)
    requires
        e < 12,
    ensures
        r == crossed(c as int, e as int),
{
    let (a, b) = ends(e);
    is_air(c, a) != is_air(c, b)
}

fn corner_at(f: usize, k: usize) -> (r: usize)
    requires
        f < 6,
        k < 4,
    ensures
        r == face_corner(f as int, k as int),
        r < 8,
{
    if f == 0 {
        if k == 0 { 0 } else if k == 1 { 3 } else if k == 2 { 2 } else { 1 }
    } else if f == 1 {
        if k == 0 { 4 } else if k == 1 { 5 } else if k == 2 { 6 } else { 7 }
    } else if f == 2 {
        if k == 0 { 0 } else if k == 1 { 1 } else if k == 2 { 5 } else { 4 }
    } else if f == 3 {
        if k == 0 { 1 } else if k == 1 { 2 } else if k == 2 { 6 } else { 5 }
    } else if f == 4 {
        if k == 0 { 2 } else if k == 1 { 3 } else if k == 2 { 7 } else { 6 }
    } else {
        if k == 0 { 3 } else if k == 1 { 0 } else if k == 2 { 4 } else { 7 }
    }
}

fn edge_at(f: usize, k: usize) -> (r: usize)
    requires
        f < 6,
        k < 4,
    ensures
        r == face_edge(f as int, k as int),
        r < 12,
{
    if f == 0 {
        if k == 0 { 3 } else if k == 1 { 2 } else if k == 2 { 1 } else { 0 }
    } else if f == 1 {
        if k == 0 { 4 } else if k == 1 { 5 } else if k == 2 { 6 } else { 7 }
    } else if f == 2 {
        if k == 0 { 0 } else if k == 1 { 9 } else if k == 2 { 4 } else { 8 }
    } else if f == 3 {
        if k == 0 { 1 } else if k == 1 { 10 } else if k == 2 { 5 } else { 9 }
    } else if f == 4 {
        if k == 0 { 2 } else if k == 1 { 11 } else if k == 2 { 6 } else { 10 }
    } else {
        if k == 0 { 3 } else if k == 1 { 8 } else if k == 2 { 7 } else { 11 }
    }
}

fn place_of(e: usize, s: usize) -> (r: (usize, usize))
    requires
        e < 12,
        s < 2,
    ensures
        r.0 == incidence(e as int, s as int).0,
        r.1 == incidence(e as int, s as int).1,
        r.0 < 6,
        r.1 < 4,
{
    if e == 0 { if s == 0 { (0, 3) } else { (2, 0) } }
    else if e == 1 { if s == 0 { (0, 2) } else { (3, 0) } }
    else if e == 2 { if s == 0 { (0, 1) } else { (4, 0) } }
    else if e == 3 { if s == 0 { (0, 0) } else { (5, 0) } }
    else if e == 4 { if s == 0 { (1, 0) } else { (2, 2) } }
    else if e == 5 { if s == 0 { (1, 1) } else { (3, 2) } }
    else if e == 6 { if s == 0 { (1, 2) } else { (4, 2) } }
    else if e == 7 { if s == 0 { (1, 3) } else { (5, 2) } }
    else if e == 8 { if s == 0 { (2, 3) } else { (5, 1) } }
    else if e == 9 { if s == 0 { (2, 1) } else { (3, 3) } }
    else if e == 10 { if s == 0 { (3, 1) } else { (4, 3) } }
    else { if s == 0 { (4, 1) } else { (5, 3) } }
}

/// The edge the surface of configuration `c` reaches next from crossed
/// edge `e`.
fn next_of(c: usize, e: usize) -> (r: usize)
    requires
        e < 12,
        crossed(c as int, e as int),
    ensures
        r == next_edge(c as int, e as int),
        r < 12,
        crossed(c as int, r as int),
{
    proof {
        lemma_next_is_crossed(c as int, e as int);
    }
    let (f0, k0) = place_of(e, 0);
    let (f, k) = if is_air(c, corner_at(f0, (k0 + 1) % 4)) {
        (f0, k0)
    } else {
        place_of(e, 1)
    };
    if !is_air(c, corner_at(f, (k + 2) % 4)) {
        edge_at(f, (k + 1) % 4)
    } else if !is_air(c, corner_at(f, (k + 3) % 4)) {
        edge_at(f, (k + 2) % 4)
    } else {
        edge_at(f, (k + 3) % 4)
    }
}

/// A sequence of edge numbers as the table's bytes.
pub open spec fn bytes(s: Seq<int>) -> Seq<i8> {
    s.map_values(|e: int| e as i8)
}

proof fn lemma_bytes_concat(a: Seq<int>, b: Seq<int>)
    ensures
        bytes(a + b) == bytes(a) + bytes(b),
{
    assert(bytes(a + b) =~= bytes(a) + bytes(b));
}

proof fn lemma_two_steps(e: int)
    requires
        0 <= e < 12,
    ensures
        pow_two(e + 1) == 2 * pow_two(e),
        1 <= pow_two(e),
{
}

/// The edge table: which edges each configuration crosses, as bits.
pub fn edge_table() -> (t: Vec<u16>)
    ensures
        t@.len() == 256,
        forall|c: int| 0 <= c < 256 ==> #[trigger] t@[c] as int == edge_bits(c, 12),
{
    let mut t: Vec<u16> = Vec::new();
    let mut c: usize = 0;
    while c < 256
        invariant
            c <= 256,
            t@.len() == c,
            forall|x: int| 0 <= x < c ==> #[trigger] t@[x] as int == edge_bits(x, 12),
        decreases 256 - c,
    {
        let mut bits: usize = 0;
        let mut e: usize = 0;
        while e < 12
            invariant
                e <= 12,
                bits == edge_bits(c as int, e as int),
                bits < pow_two(e as int),
            decreases 12 - e,
        {
            proof {
                lemma_two_steps(e as int);
            }
            if crosses(c, e) {
                bits = bits + two_to(e);
            }
            e = e + 1;
        }
        t.push(bits as u16);
        c = c + 1;
    }
    t
}

/// The loop of configuration `c` round from crossed edge `e`.
fn loop_from(c: usize, e: usize) -> (l: Vec<usize>)
    requires
        e < 12,
        crossed(c as int, e as int),
    ensures
        l@.map_values(|v: usize| v as int) == loop_of(c as int, e as int),
        forall|t: int| 0 <= t < l@.len() ==> #[trigger] l@[t] < 12,
{
    let mut l: Vec<usize> = Vec::new();
    l.push(e);
    let mut x = next_of(c, e);
    let mut fuel: usize = 11;
    while fuel > 0 && x != e
        invariant
            e < 12,
            x < 12,
            crossed(c as int, x as int),
            fuel <= 11,
            l@.map_values(|v: usize| v as int) + walk(c as int, e as int, x as int, fuel as int)
                == loop_of(c as int, e as int),
            forall|t: int| 0 <= t < l@.len() ==> #[trigger] l@[t] < 12,
        decreases fuel,
    {
        let ghost before = l@.map_values(|v: usize| v as int);
        l.push(x);
        proof {
            assert(l@.map_values(|v: usize| v as int) =~= before.push(x as int));
            assert(walk(c as int, e as int, x as int, fuel as int) == seq![x as int] + walk(
                c as int,
                e as int,
                next_edge(c as int, x as int),
                fuel - 1,
            ));
            assert(before.push(x as int) + walk(
                c as int,
                e as int,
                next_edge(c as int, x as int),
                fuel - 1,
            ) =~= before + walk(c as int, e as int, x as int, fuel as int));
        }
        x = next_of(c, x);
        fuel = fuel - 1;
    }
    proof {
        assert(walk(c as int, e as int, x as int, fuel as int) =~= Seq::<int>::empty());
        assert(l@.map_values(|v: usize| v as int) + Seq::<int>::empty() =~= l@.map_values(
            |v: usize| v as int,
        ));
    }
    l
}

proof fn lemma_walk_len(c: int, start: int, x: int, fuel: int)
    requires
        0 <= fuel,
    ensures
        walk(c, start, x, fuel).len() <= fuel,
    decreases fuel,
{
    if fuel > 0 && x != start {
        lemma_walk_len(c, start, next_edge(c, x), fuel - 1);
    }
}

/// Mark every edge of a loop used.
fn mark_loop(used: &mut Vec<bool>, l: &Vec<usize>, u: Ghost<Set<int>>)
    requires
        old(used)@.len() == 12,
        forall|z: int| 0 <= z < l@.len() ==> #[trigger] l@[z] < 12,
        forall|y: int| 0 <= y < 12 ==> #[trigger] old(used)@[y] == u@.contains(y),
    ensures
        final(used)@.len() == 12,
        forall|y: int|
            0 <= y < 12 ==> #[trigger] final(used)@[y] == (u@ + l@.map_values(
                |v: usize| v as int,
            ).to_set()).contains(y),
{
    let ghost lp = l@.map_values(|v: usize| v as int);
    let mut t: usize = 0;
    while t < l.len()
        invariant
            used@.len() == 12,
            t <= l@.len(),
            lp == l@.map_values(|v: usize| v as int),
            forall|z: int| 0 <= z < l@.len() ==> #[trigger] l@[z] < 12,
            forall|y: int|
                0 <= y < 12 ==> #[trigger] used@[y] == (u@.contains(y) || lp.subrange(
                    0,
                    t as int,
                ).contains(y)),
        decreases l@.len() - t,
    {
        let ghost was = used@;
        used.set(l[t], true);
        proof {
            assert forall|y: int| 0 <= y < 12 implies #[trigger] used@[y] == (u@.contains(y)
                || lp.subrange(0, t + 1).contains(y)) by {
                assert(lp.subrange(0, t + 1) =~= lp.subrange(0, t as int).push(lp[t as int]));
                if y == l@[t as int] {
                    assert(lp.subrange(0, t + 1)[t as int] == y);
                } else {
                    assert(used@[y] == was[y]);
                }
            }
        }
        t = t + 1;
    }
    proof {
        assert(lp.subrange(0, l@.len() as int) =~= lp);
        assert forall|y: int| 0 <= y < 12 implies #[trigger] used@[y] == (u@ + lp.to_set()).contains(
            y,
        ) by {
            assert(lp.contains(y) == lp.to_set().contains(y));
        }
    }
}

/// Push a loop's fan of triangles.
fn fan_into(out: &mut Vec<i8>, l: &Vec<usize>)
    requires
        l@.len() <= 12,
        forall|z: int| 0 <= z < l@.len() ==> #[trigger] l@[z] < 12,
    ensures
        final(out)@ == old(out)@ + bytes(fan_from(l@.map_values(|v: usize| v as int), 1)),
{
    let ghost lp = l@.map_values(|v: usize| v as int);
    let ghost start = out@;
    let ghost mut done: Seq<int> = Seq::empty();
    let mut t: usize = 1;
    while t + 1 < l.len()
        invariant
            1 <= t,
            l@.len() <= 12,
            t <= 12,
            lp == l@.map_values(|v: usize| v as int),
            forall|z: int| 0 <= z < l@.len() ==> #[trigger] l@[z] < 12,
            done + fan_from(lp, t as int) == fan_from(lp, 1),
            out@ == start + bytes(done),
        decreases l@.len() - t,
    {
        let a = l[0];
        let b = l[t + 1];
        let d = l[t];
        out.push(a as i8);
        out.push(b as i8);
        out.push(d as i8);
        proof {
            let tri = seq![a as int, b as int, d as int];
            assert(fan_from(lp, t as int) == tri + fan_from(lp, t + 1));
            lemma_bytes_concat(done, tri);
            assert(bytes(tri) =~= seq![a as i8, b as i8, d as i8]);
            assert(done + tri + fan_from(lp, t + 1) =~= done + (tri + fan_from(lp, t + 1)));
            assert(out@ =~= start + bytes(done + tri));
            done = done + tri;
        }
        t = t + 1;
    }
    proof {
        assert(fan_from(lp, t as int) =~= Seq::<int>::empty());
        assert(done =~= fan_from(lp, 1));
    }
}

proof fn lemma_used_none(c: int)
    ensures
        used_before(c, 0) == Set::<int>::empty(),
{
    reveal(used_before);
}

proof fn lemma_used_step(c: int, e: int)
    requires
        0 <= e,
    ensures
        used_before(c, e + 1) == if crossed(c, e) && !used_before(c, e).contains(e) {
            used_before(c, e) + loop_of(c, e).to_set()
        } else {
            used_before(c, e)
        },
{
    reveal(used_before);
}

/// Row `c` of the triangle table: the fans of its loops, then -1.
fn tri_row(c: usize) -> (row: Vec<i8>)
    requires
        c < 256,
    ensures
        row@ == table_row(c as int),
{
    let mut used: Vec<bool> = Vec::new();
    let mut x: usize = 0;
    while x < 12
        invariant
            x <= 12,
            used@.len() == x,
            forall|y: int| 0 <= y < x ==> !used@[y],
        decreases 12 - x,
    {
        used.push(false);
        x = x + 1;
    }
    proof {
        lemma_used_none(c as int);
    }
    let mut out: Vec<i8> = Vec::new();
    let ghost mut done: Seq<int> = Seq::empty();
    let mut e: usize = 0;
    while e < 12
        invariant
            c < 256,
            e <= 12,
            used@.len() == 12,
            forall|y: int| 0 <= y < 12 ==> #[trigger] used@[y] == used_before(c as int, e as int).contains(y),
            done == row_upto(c as int, e as int),
            out@ == bytes(done),
        decreases 12 - e,
    {
        let ghost u = used_before(c as int, e as int);
        proof {
            lemma_used_step(c as int, e as int);
        }
        if crosses(c, e) && !used[e] {
            let l = loop_from(c, e);
            proof {
                lemma_walk_len(c as int, e as int, next_edge(c as int, e as int), 11);
                assert(l@.len() == l@.map_values(|v: usize| v as int).len());
                assert(loop_of(c as int, e as int).len() <= 12);
            }
            mark_loop(&mut used, &l, Ghost(u));
            let ghost before = out@;
            fan_into(&mut out, &l);
            proof {
                lemma_bytes_concat(done, fan_from(loop_of(c as int, e as int), 1));
                done = done + fan_from(loop_of(c as int, e as int), 1);
                assert(starts(c as int, e as int));
            }
        } else {
            proof {
                assert(row_upto(c as int, e + 1) =~= row_upto(c as int, e as int));
            }
        }
        e = e + 1;
    }
    out.push(-1);
    proof {
        assert(out@ =~= table_row(c as int));
    }
    out
}

/// The triangle table: for each configuration, its triangles as edge
/// numbers in threes, then -1.
pub fn tri_table() -> (t: Vec<Vec<i8>>)
    ensures
        t@.len() == 256,
        forall|c: int| 0 <= c < 256 ==> #[trigger] t@[c]@ == table_row(c),
{
    let mut t: Vec<Vec<i8>> = Vec::new();
    let mut c: usize = 0;
    while c < 256
        invariant
            c <= 256,
            t@.len() == c,
            forall|x: int| 0 <= x < c ==> #[trigger] t@[x]@ == table_row(x),
        decreases 256 - c,
    {
        let row = tri_row(c);
        t.push(row);
        c = c + 1;
    }
    t
}

proof fn lemma_pow_two_split(e: int, j: int)
    requires
        0 <= e,
        0 <= j,
        e + j <= 12,
    ensures
        pow_two(e + j) == pow_two(e) * pow_two(j),
{
}

proof fn lemma_edge_bits_bound(c: int, k: int)
    requires
        0 <= k <= 12,
    ensures
        0 <= edge_bits(c, k) < pow_two(k),
    decreases k,
{
    if k > 0 {
        lemma_edge_bits_bound(c, k - 1);
        lemma_pow_two_split(k - 1, 1);
    }
}

/// Bit `e` of the edge table's entry for configuration `c` is set just
/// where configuration `c` crosses edge `e`.
pub proof fn lemma_edge_bit(c: int, e: int, k: int)
    requires
        0 <= e < k <= 12,
    ensures
        (edge_bits(c, k) / pow_two(e)) % 2 == if crossed(c, e) { 1int } else { 0int },
    decreases k,
{
    let x = edge_bits(c, k - 1);
    let b: int = if crossed(c, k - 1) { 1 } else { 0 };
    lemma_edge_bits_bound(c, k - 1);
    let d = pow_two(e);
    assert(d >= 1);
    if e == k - 1 {
        assert(edge_bits(c, k) == d * b + x);
        vstd::arithmetic::div_mod::lemma_div_multiples_vanish_fancy(b, x, d);
    } else {
        lemma_edge_bit(c, e, k - 1);
        lemma_pow_two_split(e, k - 1 - e);
        lemma_pow_two_split(1, k - 2 - e);
        let m = pow_two(k - 2 - e);
        assert(pow_two(k - 1) == d * (2 * m));
        let q = x / d;
        let r = x % d;
        vstd::arithmetic::div_mod::lemma_fundamental_div_mod(x, d);
        assert(edge_bits(c, k) == d * (q + 2 * b * m) + r) by (nonlinear_arith)
            requires
                edge_bits(c, k) == x + b * pow_two(k - 1),
                pow_two(k - 1) == d * (2 * m),
                x == d * q + r,
        ;
        vstd::arithmetic::div_mod::lemma_div_multiples_vanish_fancy(q + 2 * b * m, r, d);
        vstd::arithmetic::div_mod::lemma_mod_multiples_vanish(b * m, q, 2);
        assert(2 * (b * m) + q == q + 2 * b * m) by (nonlinear_arith);
    }
}

/// Side `i` of triangle `k` of a run of triangles written three edges
/// apiece: from its `i`th corner to the next one round.
pub open spec fn side(s: Seq<int>, k: int, i: int) -> (int, int) {
    (s[3 * k + i], s[3 * k + (i + 1) % 3])
}

/// Whether a run of triangles goes along the side from `a` to `b`.
pub open spec fn has_side(s: Seq<int>, a: int, b: int) -> bool {
    exists|k: int, i: int| 0 <= k < s.len() / 3 && 0 <= i < 3 && #[trigger] side(s, k, i) == (a, b)
}

proof fn lemma_fan_shape(l: Seq<int>, t: int)
    requires
        1 <= t <= l.len() - 1,
    ensures
        fan_from(l, t).len() == 3 * (l.len() - 1 - t),
        forall|m: int, j: int|
            0 <= m < l.len() - 1 - t && 0 <= j < 3 ==> #[trigger] fan_from(l, t)[3 * m + j] == (if j
                == 0 {
                l[0]
            } else if j == 1 {
                l[t + m + 1]
            } else {
                l[t + m]
            }),
    decreases l.len() - t,
{
    if t + 1 < l.len() {
        lemma_fan_shape(l, t + 1);
        let rest = fan_from(l, t + 1);
        let tri = seq![l[0], l[t + 1], l[t]];
        assert(fan_from(l, t) == tri + rest);
        assert forall|m: int, j: int|
            0 <= m < l.len() - 1 - t && 0 <= j < 3 implies #[trigger] fan_from(l, t)[3 * m + j] == (if j
            == 0 {
            l[0]
        } else if j == 1 {
            l[t + m + 1]
        } else {
            l[t + m]
        }) by {
            if m > 0 {
                assert(fan_from(l, t)[3 * m + j] == rest[3 * (m - 1) + j]);
            }
        }
    }
}

/// A loop's fan of triangles is wound one way: its outline is the loop
/// walked backwards, each side of the loop gone along from its far end to
/// its near one, so every face looks out of the rock the same way; and
/// where the loop's edges are apart, no side is gone along twice, so each
/// inner side two triangles share is gone along once each way.
pub proof fn lemma_fan_wound_one_way(l: Seq<int>)
    requires
        l.len() >= 3,
    ensures
        fan_from(l, 1).len() == 3 * (l.len() - 2),
        forall|k: int|
            0 <= k < l.len() ==> #[trigger] has_side(fan_from(l, 1), l[(k + 1) % (l.len() as int)], l[k]),
        l.no_duplicates() ==> forall|k1: int, i1: int, k2: int, i2: int|
            0 <= k1 < l.len() - 2 && 0 <= k2 < l.len() - 2 && 0 <= i1 < 3 && 0 <= i2 < 3 && k1 != k2
                ==> #[trigger] side(fan_from(l, 1), k1, i1) != #[trigger] side(fan_from(l, 1), k2, i2),
{
    let n = l.len() as int;
    let f = fan_from(l, 1);
    lemma_fan_shape(l, 1);
    assert forall|k: int| 0 <= k < n implies #[trigger] has_side(f, l[(k + 1) % n], l[k]) by {
        if k == 0 {
            vstd::arithmetic::div_mod::lemma_small_mod(1, n as nat);
            assert(f[0] == l[0] && f[2] == l[1]);
            assert(side(f, 0, 2) == (l[1], l[0]));
        } else if k == n - 1 {
            vstd::arithmetic::div_mod::lemma_mod_self_0(n);
            assert((k + 1) % n == 0);
            assert(f[3 * (n - 3) + 0] == l[0] && f[3 * (n - 3) + 1] == l[n - 1]);
            assert(side(f, n - 3, 0) == (l[0], l[n - 1]));
        } else {
            vstd::arithmetic::div_mod::lemma_small_mod((k + 1) as nat, n as nat);
            assert((k + 1) % n == k + 1);
            assert(f[3 * (k - 1) + 1] == l[k + 1] && f[3 * (k - 1) + 2] == l[k]);
            assert(side(f, k - 1, 1) == (l[k + 1], l[k]));
        }
    }
    if l.no_duplicates() {
        assert forall|k1: int, i1: int, k2: int, i2: int|
            0 <= k1 < n - 2 && 0 <= k2 < n - 2 && 0 <= i1 < 3 && 0 <= i2 < 3 && k1 != k2 implies #[trigger] side(
            f,
            k1,
            i1,
        ) != #[trigger] side(f, k2, i2) by {
            assert(f[3 * k1 + 0] == l[0] && f[3 * k1 + 1] == l[k1 + 2] && f[3 * k1 + 2] == l[k1 + 1]);
            assert(f[3 * k2 + 0] == l[0] && f[3 * k2 + 1] == l[k2 + 2] && f[3 * k2 + 2] == l[k2 + 1]);
            assert((i1 + 1) % 3 == if i1 == 2 { 0 } else { i1 + 1 });
            assert((i2 + 1) % 3 == if i2 == 2 { 0 } else { i2 + 1 });
        }
    }
}

} // verus!
