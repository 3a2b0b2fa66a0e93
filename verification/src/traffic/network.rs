//! A town's streets are one network: every block a town builds on fronts
//! a street, and from its corner the streets lead to the middle of town.
//!
//! A road that serves one house and joins nothing is not a road. What
//! makes every house reachable is that a built block paves its own road
//! home, out along one grid line and in along the other, and that road
//! is drawn as runs the street graph is read off.
use crate::town::fronts;
use crate::town::street::{spec_easterly, spec_faces, spec_home_run, spec_northerly, spec_streets_of, spec_at, min, abs};
use crate::town::{block_marks, cell_of, kept, lemma_block_marked, town_frontage, Zone};
use super::{edge_of, lemma_run_edge, spec_step, Key, Node, Streets};
use vstd::prelude::*;

verus! {

/// Whether one street of `s` leads from node `a` to node `b`.
pub open spec fn joins(s: Streets, a: Node, b: Node) -> bool {
    exists|way: usize| #![trigger s.spec_has(a, way)] way < 4 && spec_step(a, way) == b && s.spec_has(a, way)
}

/// Whether a list of nodes is a way along the streets.
pub open spec fn walks(s: Streets, path: Seq<Node>) -> bool {
    forall|t: int| 0 <= t < path.len() - 1 ==> joins(s, #[trigger] path[t], path[t + 1])
}

/// Whether the streets lead from node `a` to node `b`.
pub open spec fn linked(s: Streets, a: Node, b: Node) -> bool {
    exists|path: Seq<Node>|
        #![trigger walks(s, path)]
        path.len() >= 1 && path[0] == a && path[path.len() - 1] == b && walks(s, path)
}

/// Whether a block fronts the streets it wants: a suburban block the one
/// its road home is on, and a block of town all four.
pub open spec fn fronts_its_streets(s: Streets, i: int, j: int, suburb: bool) -> bool {
    if suburb {
        if spec_faces(i, j) == fronts::SOUTH {
            s@.contains(((i as i64, j as i64), 0usize))
        } else {
            s@.contains(((i as i64, j as i64), 1usize))
        }
    } else {
        &&& s@.contains(((i as i64, j as i64), 0usize))
        &&& s@.contains(((i as i64, j as i64), 1usize))
        &&& s@.contains((((i + 1) as i64, j as i64), 1usize))
        &&& s@.contains(((i as i64, (j + 1) as i64), 0usize))
    }
}

proof fn lemma_link_join(s: Streets, a: Node, b: Node, c: Node)
    requires
        linked(s, a, b),
        linked(s, b, c),
    ensures
        linked(s, a, c),
{
    let p = choose|path: Seq<Node>|
        #![trigger walks(s, path)]
        path.len() >= 1 && path[0] == a && path[path.len() - 1] == b && walks(s, path);
    let q = choose|path: Seq<Node>|
        #![trigger walks(s, path)]
        path.len() >= 1 && path[0] == b && path[path.len() - 1] == c && walks(s, path);
    let r = p + q.subrange(1, q.len() as int);
    assert forall|t: int| 0 <= t < r.len() - 1 implies joins(s, #[trigger] r[t], r[t + 1]) by {
        if t < p.len() - 1 {
            assert(r[t] == p[t] && r[t + 1] == p[t + 1]);
            assert(joins(s, p[t], p[t + 1]));
        } else if t == p.len() - 1 {
            assert(r[t] == b && r[t + 1] == q[1]);
            assert(joins(s, q[0], q[1]));
        } else {
            let u = t - p.len() + 1;
            assert(r[t] == q[u] && r[t + 1] == q[u + 1]);
            assert(joins(s, q[u], q[u + 1]));
        }
    }
    assert(walks(s, r));
}

/// Streets along every piece of grid line `j` from `lo` to `hi` lead from
/// either end to the other.
proof fn lemma_line_east(s: Streets, j: int, lo: int, hi: int)
    requires
        -0x4000_0000 <= lo <= hi <= 0x4000_0000,
        -0x4000_0000 <= j <= 0x4000_0000,
        forall|k: int| lo <= k < hi ==> #[trigger] s@.contains(((k as i64, j as i64), 0usize)),
    ensures
        linked(s, (lo as i64, j as i64), (hi as i64, j as i64)),
        linked(s, (hi as i64, j as i64), (lo as i64, j as i64)),
{
    let ahead = Seq::new((hi - lo + 1) as nat, |t: int| ((lo + t) as i64, j as i64));
    assert forall|t: int| 0 <= t < ahead.len() - 1 implies joins(s, #[trigger] ahead[t], ahead[t + 1]) by {
        assert(s@.contains((((lo + t) as i64, j as i64), 0usize)));
        assert(s.spec_has(ahead[t], 0usize));
    }
    assert(walks(s, ahead));
    let back = Seq::new((hi - lo + 1) as nat, |t: int| ((hi - t) as i64, j as i64));
    assert forall|t: int| 0 <= t < back.len() - 1 implies joins(s, #[trigger] back[t], back[t + 1]) by {
        assert(s@.contains((((hi - t - 1) as i64, j as i64), 0usize)));
        assert(spec_step(back[t], 2usize) == back[t + 1]);
        assert(s.spec_has(back[t], 2usize));
    }
    assert(walks(s, back));
}

/// Streets along every piece of grid line `i` from `lo` to `hi` lead from
/// either end to the other.
proof fn lemma_line_north(s: Streets, i: int, lo: int, hi: int)
    requires
        -0x4000_0000 <= lo <= hi <= 0x4000_0000,
        -0x4000_0000 <= i <= 0x4000_0000,
        forall|k: int| lo <= k < hi ==> #[trigger] s@.contains(((i as i64, k as i64), 1usize)),
    ensures
        linked(s, (i as i64, lo as i64), (i as i64, hi as i64)),
        linked(s, (i as i64, hi as i64), (i as i64, lo as i64)),
{
    let ahead = Seq::new((hi - lo + 1) as nat, |t: int| (i as i64, (lo + t) as i64));
    assert forall|t: int| 0 <= t < ahead.len() - 1 implies joins(s, #[trigger] ahead[t], ahead[t + 1]) by {
        assert(s@.contains(((i as i64, (lo + t) as i64), 1usize)));
        assert(s.spec_has(ahead[t], 1usize));
    }
    assert(walks(s, ahead));
    let back = Seq::new((hi - lo + 1) as nat, |t: int| (i as i64, (hi - t) as i64));
    assert forall|t: int| 0 <= t < back.len() - 1 implies joins(s, #[trigger] back[t], back[t + 1]) by {
        assert(s@.contains(((i as i64, (hi - t - 1) as i64), 1usize)));
        assert(spec_step(back[t], 3usize) == back[t + 1]);
        assert(s.spec_has(back[t], 3usize));
    }
    assert(walks(s, back));
}

/// Whether `s` is the street graph of the runs of `built`.
pub open spec fn graph_of(s: Streets, n: int, built: Seq<u8>) -> bool {
    forall|k: Key|
        s@.contains(k) <==> exists|x: int|
            0 <= x < spec_streets_of(n, built).len() && spec_streets_of(n, built)[x].arms == 0
                && k == edge_of(#[trigger] spec_streets_of(n, built)[x])
}

proof fn lemma_bits_of_all(v: u8)
    requires
        v & 15u8 == 15u8,
    ensures
        v & 1u8 != 0,
        v & 2u8 != 0,
        v & 4u8 != 0,
        v & 8u8 != 0,
{
    assert(v & 15u8 == 15u8 ==> (v & 1u8 != 0 && v & 2u8 != 0 && v & 4u8 != 0 && v & 8u8 != 0))
        by (bit_vector);
}

proof fn lemma_bit_nonzero(v: u8, b: u8)
    requires
        v & b == b,
        b != 0,
    ensures
        v & b != 0,
{
}

/// Every block a town builds on fronts the streets it wants, and from its
/// south west corner the streets lead to the middle of town.
pub proof fn lemma_every_block_reaches_the_middle(
    n: int,
    zones: Seq<Zone>,
    seed: u32,
    s: Streets,
    i: int,
    j: int,
)
    requires
        0 <= n <= 0x4000_0000,
        zones.len() == (2 * n + 1) * (2 * n + 1),
        graph_of(s, n, town_frontage(n, zones, seed)),
        -n <= i <= n,
        -n <= j <= n,
        kept(zones, n, seed, i, j),
    ensures
        fronts_its_streets(s, i, j, zones[cell_of(n, i, j)] == Zone::Suburb),
        linked(s, (i as i64, j as i64), (0i64, 0i64)),
{
    let built = town_frontage(n, zones, seed);
    let suburb = zones[cell_of(n, i, j)] == Zone::Suburb;
    let marks = block_marks(i, j, suburb);
    let road = spec_home_run(i, j);
    assert(marks.len() == road.len() + 1);
    // The block's own frontage.
    lemma_block_marked(n, zones, seed, i, j, 0);
    let c = cell_of(n, i, j);
    let own = marks[0].2;
    lemma_run_edge(n, built, s, (i as i64, j as i64), false);
    lemma_run_edge(n, built, s, (i as i64, j as i64), true);
    lemma_run_edge(n, built, s, ((i + 1) as i64, j as i64), true);
    lemma_run_edge(n, built, s, (i as i64, (j + 1) as i64), false);
    if suburb {
        lemma_bit_nonzero(built[c], own);
        assert(spec_at(n, built, i, j, own));
    } else {
        lemma_bits_of_all(built[c]);
        assert(spec_at(n, built, i, j, fronts::SOUTH));
        assert(spec_at(n, built, i, j, fronts::WEST));
        assert(spec_at(n, built, i, j, fronts::EAST));
        assert(spec_at(n, built, i, j, fronts::NORTH));
        assert(spec_northerly(n, built, i + 1, j));
        assert(spec_easterly(n, built, i, j + 1));
    }
    // The road home.
    let (a, b) = (min(0, i), if i >= 0 { i } else { 0 });
    let (lo, hi) = (min(0, j), if j >= 0 { j } else { 0 });
    if abs(i) >= abs(j) {
        assert forall|k: int| a <= k < b + 1 implies #[trigger] s@.contains(((k as i64, j as i64), 0usize)) by {
            let q = k - a + 1;
            assert(marks[q] == road[k - a]);
            assert(road[k - a] == (k as i64, j as i64, fronts::SOUTH));
            lemma_block_marked(n, zones, seed, i, j, q);
            lemma_bit_nonzero(built[cell_of(n, k, j)], fronts::SOUTH);
            assert(spec_at(n, built, k, j, fronts::SOUTH));
            lemma_run_edge(n, built, s, (k as i64, j as i64), false);
        }
        lemma_line_east(s, j, a, b);
        assert forall|m: int| lo <= m < hi + 1 implies #[trigger] s@.contains(((0i64, m as i64), 1usize)) by {
            let q = abs(i) + 1 + m - lo + 1;
            assert(marks[q] == road[q - 1]);
            assert(road[q - 1] == (0i64, m as i64, fronts::WEST));
            lemma_block_marked(n, zones, seed, i, j, q);
            lemma_bit_nonzero(built[cell_of(n, 0, m)], fronts::WEST);
            assert(spec_at(n, built, 0, m, fronts::WEST));
            lemma_run_edge(n, built, s, (0i64, m as i64), true);
        }
        lemma_line_north(s, 0, lo, hi);
        lemma_link_join(s, (i as i64, j as i64), (0i64, j as i64), (0i64, 0i64));
    } else {
        assert forall|m: int| lo <= m < hi + 1 implies #[trigger] s@.contains(((i as i64, m as i64), 1usize)) by {
            let q = m - lo + 1;
            assert(marks[q] == road[m - lo]);
            assert(road[m - lo] == (i as i64, m as i64, fronts::WEST));
            lemma_block_marked(n, zones, seed, i, j, q);
            lemma_bit_nonzero(built[cell_of(n, i, m)], fronts::WEST);
            assert(spec_at(n, built, i, m, fronts::WEST));
            lemma_run_edge(n, built, s, (i as i64, m as i64), true);
        }
        lemma_line_north(s, i, lo, hi);
        assert forall|k: int| a <= k < b + 1 implies #[trigger] s@.contains(((k as i64, 0i64), 0usize)) by {
            let q = abs(j) + 1 + k - a + 1;
            assert(marks[q] == road[q - 1]);
            assert(road[q - 1] == (k as i64, 0i64, fronts::SOUTH));
            lemma_block_marked(n, zones, seed, i, j, q);
            lemma_bit_nonzero(built[cell_of(n, k, 0)], fronts::SOUTH);
            assert(spec_at(n, built, k, 0, fronts::SOUTH));
            lemma_run_edge(n, built, s, (k as i64, 0i64), false);
        }
        lemma_line_east(s, 0, a, b);
        lemma_link_join(s, (i as i64, j as i64), (i as i64, 0i64), (0i64, 0i64));
    }
}


} // verus!
