//! Who is out on a town's streets: the streets as a GRAPH, and the loops
//! round it that everybody rides.
//!
//! An NPC and a car are ON RAILS: a townsman's place is a closed form
//! function of the town, his own index and the world clock. What makes
//! that possible is that every loop an agent rides is a FACE of the
//! street graph, walked by a rule that needs nobody searching for one;
//! that rule, and the graph it walks, are what stand here. The lanes cut
//! from a face and the place on them at a time are measurements in
//! metres and are the caller's.
//!
//! No `HashMap` in it, because this is replayed state: the edges are a
//! SORTED vector and a lookup is a binary search.
use crate::noise::{mix3, spec_mix3};
use crate::town::arm;
use crate::town::street::{
    lemma_east_runs, lemma_north_runs, lemma_streets_hold, spec_arms, spec_easterly, spec_northerly,
    spec_streets_of, Piece, CUTS,
};
use vstd::prelude::*;

pub mod faces;
pub mod network;

verus! {

/// What an agent is.
#[derive(Clone, Copy, Debug, PartialEq, Eq)]
pub enum Kind {
    /// On the pavement, on foot.
    Foot,
    /// On the roadway, driving.
    Car,
}

/// One node of the street graph: the crossing of street line `i` east and
/// street line `j` north.
pub type Node = (i64, i64);

/// A directed street: the node it leaves and the way it leaves along,
/// nought east, one north, two west and three south, anticlockwise from
/// east, which is the order the face walk turns through.
pub type Key = (Node, usize);

/// How far from the middle of town a street's node may stand: far past
/// any town, and far inside what a step off it can overflow.
pub const REACH: i64 = 0x100_0000_0000;

/// The order streets are kept in: by node east, then north, then way.
pub open spec fn lt(a: Key, b: Key) -> bool {
    ||| a.0.0 < b.0.0
    ||| (a.0.0 == b.0.0 && a.0.1 < b.0.1)
    ||| (a.0.0 == b.0.0 && a.0.1 == b.0.1 && a.1 < b.1)
}

/// Whether a list of streets runs strictly in order.
#[verifier::opaque]
pub open spec fn sorted(s: Seq<Key>) -> bool {
    forall|x: int, y: int| 0 <= x < y < s.len() ==> lt(#[trigger] s[x], #[trigger] s[y])
}

/// Whether street `a` comes before street `b`.
fn less(a: Key, b: Key) -> (r: bool)
    ensures
        r == lt(a, b),
{
    a.0.0 < b.0.0 || (a.0.0 == b.0.0 && a.0.1 < b.0.1) || (a.0.0 == b.0.0 && a.0.1 == b.0.1 && a.1
        < b.1)
}

/// Whether two streets are one.
fn same(a: Key, b: Key) -> (r: bool)
    ensures
        r == (a == b),
{
    a.0.0 == b.0.0 && a.0.1 == b.0.1 && a.1 == b.1
}

/// Where `k` goes in a sorted list: everything before it is less and
/// nothing after it is.
fn search(s: &Vec<Key>, k: Key) -> (p: usize)
    requires
        sorted(s@),
    ensures
        p <= s@.len(),
        forall|x: int| 0 <= x < p ==> lt(#[trigger] s@[x], k),
        forall|x: int| p <= x < s@.len() ==> !lt(#[trigger] s@[x], k),
        s@.contains(k) <==> (p < s@.len() && s@[p as int] == k),
{
    proof {
        reveal(sorted);
    }
    let mut lo: usize = 0;
    let mut hi: usize = s.len();
    while lo < hi
        invariant
            sorted(s@),
            lo <= hi <= s@.len(),
            forall|x: int| 0 <= x < lo ==> lt(#[trigger] s@[x], k),
            forall|x: int| hi <= x < s@.len() ==> !lt(#[trigger] s@[x], k),
        decreases hi - lo,
    {
        proof {
            reveal(sorted);
        }
        let mid = lo + (hi - lo) / 2;
        if less(s[mid], k) {
            lo = mid + 1;
        } else {
            hi = mid;
        }
    }
    proof {
        if lo < s@.len() && s@[lo as int] == k {
            assert(s@.contains(k));
        } else if s@.contains(k) {
            let x = choose|x: int| 0 <= x < s@.len() && s@[x] == k;
            if x < lo {
                assert(lt(s@[x], k));
            } else if x > lo {
                assert(lt(s@[lo as int], s@[x]));
            }
        }
    }
    lo
}

/// Put `k` into a sorted list that lacks it, or leave the list alone.
fn insert_sorted(v: &mut Vec<Key>, k: Key) -> (added: bool)
    requires
        sorted(old(v)@),
    ensures
        sorted(final(v)@),
        added == !old(v)@.contains(k),
        forall|x: Key| final(v)@.contains(x) <==> (old(v)@.contains(x) || x == k),
        final(v)@.len() == old(v)@.len() + if added {
            1int
        } else {
            0int
        },
{
    proof {
        reveal(sorted);
    }
    let p = search(v, k);
    if p < v.len() && same(v[p], k) {
        false
    } else {
        let ghost before = v@;
        v.insert(p, k);
        assert forall|x: Key| v@.contains(x) <==> (before.contains(x) || x == k) by {
            if v@.contains(x) {
                let y = choose|y: int| 0 <= y < v@.len() && v@[y] == x;
                if y < p {
                    assert(before[y] == x);
                } else if y > p {
                    assert(before[y - 1] == x);
                }
            }
            if before.contains(x) {
                let y = choose|y: int| 0 <= y < before.len() && before[y] == x;
                if y < p {
                    assert(v@[y] == x);
                } else {
                    assert(v@[y + 1] == x);
                }
            }
            if x == k {
                assert(v@[p as int] == k);
            }
        }
        assert forall|a: int, b: int| 0 <= a < b < v@.len() implies lt(v@[a], v@[b]) by {
            if b < p {
                assert(v@[a] == before[a] && v@[b] == before[b]);
            } else if b == p {
                assert(v@[a] == before[a]);
            } else if a < p {
                assert(v@[a] == before[a] && v@[b] == before[b - 1]);
            } else if a == p {
                assert(v@[b] == before[b - 1]);
                assert(!lt(before[b - 1], k));
                assert(before[b - 1] != k);
            } else {
                assert(v@[a] == before[a - 1] && v@[b] == before[b - 1]);
            }
        }
        true
    }
}

/// The node one step along `way` from `n`.
pub open spec fn spec_step(n: Node, way: usize) -> Node {
    if way == 0 {
        ((n.0 + 1) as i64, n.1)
    } else if way == 1 {
        (n.0, (n.1 + 1) as i64)
    } else if way == 2 {
        ((n.0 - 1) as i64, n.1)
    } else {
        (n.0, (n.1 - 1) as i64)
    }
}

/// Whether a node lies within `reach` of the middle of town either way.
pub open spec fn near(n: Node, reach: int) -> bool {
    -reach <= n.0 <= reach && -reach <= n.1 <= reach
}

/// The node one step along `way` from `n`.
pub fn step(n: Node, way: usize) -> (m: Node)
    requires
        way < 4,
        near(n, REACH + 4),
    ensures
        m == spec_step(n, way),
{
    if way == 0 {
        (n.0 + 1, n.1)
    } else if way == 1 {
        (n.0, n.1 + 1)
    } else if way == 2 {
        (n.0 - 1, n.1)
    } else {
        (n.0, n.1 - 1)
    }
}

/// Which edge a RUN of street lies on: the crossing at its south or
/// west end, and north or east.
pub open spec fn edge_of(p: Piece) -> Key {
    ((p.i, p.j), if p.north {
        1usize
    } else {
        0usize
    })
}

/// A town's streets as a GRAPH, derived from the pieces that are actually
/// DRAWN rather than from the plan that made them: traffic rides the
/// paving a player can see, so a street that was never laid can never
/// have a car on it.
pub struct Streets {
    /// Every edge once, low end first: `(node, way)` with `way` always
    /// east (0) or north (1).
    edges: Vec<Key>,
}

impl Streets {
    #[verifier::type_invariant]
    spec fn well_formed(&self) -> bool {
        &&& sorted(self.edges@)
        &&& forall|x: int|
            0 <= x < self.edges@.len() ==> (#[trigger] self.edges@[x]).1 < 2 && near(
                self.edges@[x].0,
                REACH as int,
            )
    }

    /// Every undirected street, as the edge from its south or west end.
    pub closed spec fn view(&self) -> Set<Key> {
        self.edges@.to_set()
    }

    /// Every street leaves from a node of the town and runs east or
    /// north from it, which is what any graph `of` builds holds.
    pub closed spec fn bounded(&self) -> bool {
        forall|k: Key| self@.contains(k) ==> k.1 < 2 && near(k.0, REACH as int)
    }

    /// How many streets.
    pub closed spec fn size(&self) -> nat {
        self.edges@.len()
    }

    /// Is there a street from `n` along `way`, in either direction it
    /// was laid?
    pub open spec fn spec_has(&self, n: Node, way: usize) -> bool {
        if way < 2 {
            self@.contains((n, way))
        } else if way < 4 {
            self@.contains((spec_step(n, way), (way - 2) as usize))
        } else {
            false
        }
    }

    /// The graph of a town's own paving: an edge for every RUN, whichever
    /// of its pieces it was read off. A crossing is a node rather than an
    /// edge, and it is square, so it could not say which way it lay.
    pub fn of(pieces: &[Piece]) -> (s: Streets)
        requires
            forall|x: int| 0 <= x < pieces@.len() ==> near((pieces@[x].i, pieces@[x].j), REACH as int),
        ensures
            s.bounded(),
            forall|k: Key|
                s@.contains(k) <==> exists|x: int|
                    0 <= x < pieces@.len() && pieces@[x].arms == 0 && k == edge_of(
                        #[trigger] pieces@[x],
                    ),
    {
        proof {
            reveal(sorted);
        }
        let mut edges: Vec<Key> = Vec::new();
        let mut t: usize = 0;
        while t < pieces.len()
            invariant
                t <= pieces@.len(),
                forall|x: int| 0 <= x < pieces@.len() ==> near((pieces@[x].i, pieces@[x].j), REACH as int),
                sorted(edges@),
                forall|x: int|
                    0 <= x < edges@.len() ==> (#[trigger] edges@[x]).1 < 2 && near(
                        edges@[x].0,
                        REACH as int,
                    ),
                forall|k: Key|
                    edges@.contains(k) <==> exists|x: int|
                        0 <= x < t && pieces@[x].arms == 0 && k == edge_of(#[trigger] pieces@[x]),
            decreases pieces@.len() - t,
        {
            let p = pieces[t];
            if p.arms == 0 {
                let key: Key = ((p.i, p.j), if p.north {
                    1
                } else {
                    0
                });
                let ghost before = edges@;
                insert_sorted(&mut edges, key);
                assert forall|x: int| 0 <= x < edges@.len() implies (#[trigger] edges@[x]).1 < 2
                    && near(edges@[x].0, REACH as int) by {
                    assert(edges@.contains(edges@[x]));
                    if edges@[x] != key {
                        let y = choose|y: int| 0 <= y < before.len() && before[y] == edges@[x];
                        assert(before[y].1 < 2);
                    }
                }
            }
            t += 1;
            assert forall|k: Key|
                edges@.contains(k) <==> exists|x: int|
                    0 <= x < t && pieces@[x].arms == 0 && k == edge_of(
                        #[trigger] pieces@[x],
                    ) by {
                if edges@.contains(k) && k != edge_of(pieces@[t - 1]) {
                    let x = choose|x: int|
                        0 <= x < t - 1 && pieces@[x].arms == 0 && k == edge_of(
                            #[trigger] pieces@[x],
                        );
                    assert(0 <= x < t);
                }
            }
        }
        let s = Streets { edges };
        proof {
            assert forall|k: Key|
                s@.contains(k) <==> exists|x: int|
                    0 <= x < pieces@.len() && pieces@[x].arms == 0 && k == edge_of(
                        #[trigger] pieces@[x],
                    ) by {
                assert(s@.contains(k) == s.edges@.contains(k));
            }
            assert forall|k: Key| s@.contains(k) implies k.1 < 2 && near(k.0, REACH as int) by {
                let x = choose|x: int| 0 <= x < s.edges@.len() && s.edges@[x] == k;
            }
        }
        s
    }

    /// How many streets there are, which is what bounds every walk in the
    /// graph: a face cannot be longer than all the directed edges.
    pub fn len(&self) -> (r: usize)
        ensures
            r == self.size(),
    {
        self.edges.len()
    }

    /// Nothing paved, so nobody is out.
    pub fn is_empty(&self) -> (r: bool)
        ensures
            r == (self.size() == 0),
            r == (self@ == Set::<Key>::empty()),
    {
        proof {
            if self.edges@.len() > 0 {
                assert(self@.contains(self.edges@[0]));
            } else {
                assert(self@ =~= Set::<Key>::empty());
            }
        }
        self.edges.len() == 0
    }

    /// Is there a street from `n` along `way`?
    fn has(&self, n: Node, way: usize) -> (r: bool)
        requires
            near(n, REACH + 3),
        ensures
            r == self.spec_has(n, way),
    {
        proof {
            reveal(sorted);
        }
        proof {
            use_type_invariant(self);
        }
        if way >= 4 {
            return false;
        }
        let key = if way < 2 {
            (n, way)
        } else {
            (step(n, way), way - 2)
        };
        if !near_exec(key.0, REACH) {
            proof {
                if self@.contains(key) {
                    let x = choose|x: int| 0 <= x < self.edges@.len() && self.edges@[x] == key;
                    assert(near(self.edges@[x].0, REACH as int));
                }
            }
            return false;
        }
        let p = search(&self.edges, key);
        p < self.edges.len() && same(self.edges[p], key)
    }
}

impl Streets {
    /// The arms of node `n`, as `town::arm`'s own bits: one for every way
    /// a street leaves it.
    pub open spec fn spec_arms(&self, n: Node) -> u8 {
        ((if self.spec_has(n, 0) {
            arm::EAST as int
        } else {
            0
        }) + (if self.spec_has(n, 1) {
            arm::NORTH as int
        } else {
            0
        }) + (if self.spec_has(n, 2) {
            arm::WEST as int
        } else {
            0
        }) + (if self.spec_has(n, 3) {
            arm::SOUTH as int
        } else {
            0
        })) as u8
    }

    /// Which ARMS a node has, as `town::arm`'s own bits, which is what
    /// `town::street::streets_of` writes onto a crossing piece.
    pub fn arms(&self, n: Node) -> (a: u8)
        requires
            near(n, REACH + 1),
        ensures
            a == self.spec_arms(n),
    {
        let bit: [u8; 4] = [arm::EAST, arm::NORTH, arm::WEST, arm::SOUTH];
        let mut a: u8 = 0;
        let mut w: usize = 0;
        while w < 4
            invariant
                w <= 4,
                near(n, REACH + 1),
                bit@ == seq![arm::EAST, arm::NORTH, arm::WEST, arm::SOUTH],
                a as int == (if w > 3 && self.spec_has(n, 3) {
                    arm::SOUTH as int
                } else {
                    0
                }) + (if w > 0 && self.spec_has(n, 0) {
                    arm::EAST as int
                } else {
                    0
                }) + (if w > 1 && self.spec_has(n, 1) {
                    arm::NORTH as int
                } else {
                    0
                }) + (if w > 2 && self.spec_has(n, 2) {
                    arm::WEST as int
                } else {
                    0
                }),
            decreases 4 - w,
        {
            if self.has(n, w) {
                a = a + bit[w];
            }
            w += 1;
        }
        a
    }

    /// Whether `(n, way)` is a street walked in its own direction.
    pub open spec fn directed_has(&self, k: Key) -> bool {
        k.1 < 4 && near(k.0, REACH + 1) && self.spec_has(k.0, k.1)
    }

    /// Every directed edge, sorted.
    pub fn directed(&self) -> (out: Vec<Key>)
        ensures
            sorted(out@),
            out@.len() == 2 * self.size(),
            forall|k: Key| out@.contains(k) <==> self.directed_has(k),
            forall|x: int| 0 <= x < out@.len() ==> near((#[trigger] out@[x]).0, REACH + 1),
    {
        proof {
            reveal(sorted);
        }
        proof {
            use_type_invariant(self);
        }
        let mut out: Vec<Key> = Vec::new();
        let mut t: usize = 0;
        while t < self.edges.len()
            invariant
                t <= self.edges@.len(),
                sorted(self.edges@),
                forall|x: int|
                    0 <= x < self.edges@.len() ==> (#[trigger] self.edges@[x]).1 < 2 && near(
                        self.edges@[x].0,
                        REACH as int,
                    ),
                sorted(out@),
                out@.len() == 2 * t,
                forall|k: Key|
                    out@.contains(k) <==> exists|x: int|
                        0 <= x < t && (k == #[trigger] self.edges@[x] || k == (
                            spec_step(self.edges@[x].0, self.edges@[x].1),
                            (self.edges@[x].1 + 2) as usize,
                        )),
            decreases self.edges@.len() - t,
        {
            proof {
                reveal(sorted);
            }
            let (n, w) = self.edges[t];
            let back = (step(n, w), w + 2);
            let ghost e = self.edges@;
            assert forall|x: int| 0 <= x < t implies e[x] != e[t as int] && e[x] != back && (
                spec_step(e[x].0, e[x].1),
                (e[x].1 + 2) as usize,
            ) != e[t as int] && (spec_step(e[x].0, e[x].1), (e[x].1 + 2) as usize) != back by {
                assert(lt(e[x], e[t as int]));
            }
            insert_sorted(&mut out, (n, w));
            insert_sorted(&mut out, back);
            t += 1;
            assert forall|k: Key|
                out@.contains(k) <==> exists|x: int|
                    0 <= x < t && (k == #[trigger] e[x] || k == (
                        spec_step(e[x].0, e[x].1),
                        (e[x].1 + 2) as usize,
                    )) by {
                if out@.contains(k) && k != e[t - 1] && k != back {
                    let x = choose|x: int|
                        0 <= x < t - 1 && (k == #[trigger] e[x] || k == (
                            spec_step(e[x].0, e[x].1),
                            (e[x].1 + 2) as usize,
                        ));
                    assert(0 <= x < t);
                }
            }
        }
        assert forall|k: Key| out@.contains(k) <==> self.directed_has(k) by {
            let e = self.edges@;
            if out@.contains(k) {
                let x = choose|x: int|
                    0 <= x < e.len() && (k == #[trigger] e[x] || k == (
                        spec_step(e[x].0, e[x].1),
                        (e[x].1 + 2) as usize,
                    ));
                assert(e.contains(e[x]));
                assert(self@.contains(e[x]));
            }
            if self.directed_has(k) {
                if k.1 < 2 {
                    assert(self@.contains(k));
                    let x = choose|x: int| 0 <= x < e.len() && e[x] == k;
                    assert(k == e[x]);
                } else {
                    let f = (spec_step(k.0, k.1), (k.1 - 2) as usize);
                    assert(self@.contains(f));
                    let x = choose|x: int| 0 <= x < e.len() && e[x] == f;
                    assert(k == (spec_step(e[x].0, e[x].1), (e[x].1 + 2) as usize));
                }
            }
        }
        assert forall|x: int| 0 <= x < out@.len() implies near((#[trigger] out@[x]).0, REACH + 1) by {
            let e = self.edges@;
            let k = out@[x];
            assert(out@.contains(k));
            let y = choose|y: int|
                0 <= y < e.len() && (k == #[trigger] e[y] || k == (
                    spec_step(e[y].0, e[y].1),
                    (e[y].1 + 2) as usize,
                ));
        }
        out
    }

    /// The directed edge a FACE walk takes after `(n, way)`: arrive at
    /// `step(n, way)` and leave along the next street CLOCKWISE from the
    /// way back, which at a dead end is the way back itself.
    #[verifier::opaque]
    pub open spec fn spec_next(&self, n: Node, way: usize) -> Key {
        let to = spec_step(n, way);
        let back = ((way + 2) % 4) as usize;
        if self.spec_has(to, ((back + 3) % 4) as usize) {
            (to, ((back + 3) % 4) as usize)
        } else if self.spec_has(to, ((back + 2) % 4) as usize) {
            (to, ((back + 2) % 4) as usize)
        } else if self.spec_has(to, ((back + 1) % 4) as usize) {
            (to, ((back + 1) % 4) as usize)
        } else {
            (to, back)
        }
    }

    /// The directed edge a face walk came along to reach `(m, way)`: the
    /// first street ANTICLOCKWISE from `way` at `m`, walked into `m`.
    #[verifier::opaque]
    pub open spec fn spec_prev(&self, m: Node, way: usize) -> Key {
        let b = if self.spec_has(m, ((way + 1) % 4) as usize) {
            ((way + 1) % 4) as usize
        } else if self.spec_has(m, ((way + 2) % 4) as usize) {
            ((way + 2) % 4) as usize
        } else if self.spec_has(m, ((way + 3) % 4) as usize) {
            ((way + 3) % 4) as usize
        } else {
            way
        };
        (spec_step(m, b), ((b + 2) % 4) as usize)
    }

    /// The directed edge a FACE walk takes next.
    ///
    /// This is the classic face traversal of a planar graph, and it is
    /// what makes a circuit a circuit with nobody searching for one: the
    /// successor is a PERMUTATION of the directed edges
    /// (`lemma_next_then_prev`, `lemma_prev_then_next`), so every orbit
    /// of it closes and the orbits partition them. On a street grid an
    /// orbit is the way round one block, or round a group of them where
    /// the grid has gaps, or the outside of the whole town. A dead end
    /// has one way off it, which is the way back, so a face walks up a
    /// cul de sac and turns round, which is what a car does.
    pub fn next(&self, n: Node, way: usize) -> (k: Key)
        requires
            way < 4,
            near(n, REACH + 1),
        ensures
            k == self.spec_next(n, way),
    {
        proof {
            reveal(Streets::spec_next);
            reveal(Streets::spec_prev);
        }
        let to = step(n, way);
        let back = (way + 2) % 4;
        let mut turn: usize = 1;
        while turn <= 4
            invariant
                1 <= turn <= 5,
                back == (way + 2) % 4,
                to == spec_step(n, way),
                near(to, REACH + 2),
                turn > 1 ==> !self.spec_has(to, ((back + 3) % 4) as usize),
                turn > 2 ==> !self.spec_has(to, ((back + 2) % 4) as usize),
                turn > 3 ==> !self.spec_has(to, ((back + 1) % 4) as usize),
            decreases 5 - turn,
        {
            proof {
                reveal(Streets::spec_next);
            }
            let w = (back + 4 - turn) % 4;
            if self.has(to, w) {
                return (to, w);
            }
            turn += 1;
        }
        (to, back)
    }

}

/// Whether a node lies within `reach` of the middle of town either way.
fn near_exec(n: Node, reach: i64) -> (r: bool)
    requires
        reach >= 0,
    ensures
        r == near(n, reach as int),
{
    -reach <= n.0 && n.0 <= reach && -reach <= n.1 && n.1 <= reach
}

/// A face walk never stands still: the street it takes next leaves from
/// the far end of the one it came along.
pub proof fn lemma_next_moves(s: Streets, n: Node, way: usize)
    requires
        way < 4,
        near(n, REACH + 2),
    ensures
        s.spec_next(n, way) != (n, way),
        s.spec_next(n, way).0 == spec_step(n, way),
{
    reveal(Streets::spec_next);
    reveal(Streets::spec_prev);
}

/// Both ends of a street stand on the town's grid.
proof fn lemma_near_end(s: Streets, n: Node, way: usize)
    requires
        s.bounded(),
        way < 4,
        near(n, REACH + 1),
        s.spec_has(n, way),
    ensures
        near(spec_step(n, way), REACH + 1),
        near(n, REACH + 1),
{
    if way < 2 {
        assert(s@.contains((n, way)));
    } else {
        assert(s@.contains((spec_step(n, way), (way - 2) as usize)));
    }
}

/// Every street walked one way can be walked back the other.
pub proof fn lemma_reverse(s: Streets, n: Node, way: usize)
    requires
        way < 4,
        near(n, REACH + 2),
        s.spec_has(n, way),
    ensures
        s.spec_has(spec_step(n, way), ((way + 2) % 4) as usize),
{
    let m = spec_step(n, way);
    if way < 2 {
        assert(spec_step(m, (way + 2) as usize) == n);
    }
}

/// The face walk's successor takes a street to a street, and
/// `spec_prev` undoes it: no two streets are followed by the same one.
pub proof fn lemma_next_then_prev(s: Streets, n: Node, way: usize)
    requires
        s.bounded(),
        s.directed_has((n, way)),
    ensures
        s.directed_has(s.spec_next(n, way)),
        s.spec_prev(s.spec_next(n, way).0, s.spec_next(n, way).1) == (n, way),
{
    reveal(Streets::spec_next);
    reveal(Streets::spec_prev);
    lemma_reverse(s, n, way);
    let to = spec_step(n, way);
    let back = ((way + 2) % 4) as usize;
    assert(spec_step(to, back) == n);
    lemma_near_end(s, n, way);
}

/// And every street is followed by one: `spec_next` undoes `spec_prev`,
/// so the successor is onto as well as one to one.
pub proof fn lemma_prev_then_next(s: Streets, m: Node, way: usize)
    requires
        s.bounded(),
        s.directed_has((m, way)),
    ensures
        s.directed_has(s.spec_prev(m, way)),
        s.spec_next(s.spec_prev(m, way).0, s.spec_prev(m, way).1) == (m, way),
{
    reveal(Streets::spec_next);
    reveal(Streets::spec_prev);
    let p = s.spec_prev(m, way);
    let b = ((p.1 + 2) % 4) as usize;
    assert(spec_step(m, b) == p.0);
    lemma_near_end(s, m, b);
    lemma_reverse(s, m, b);
    assert(spec_step(p.0, p.1) == m);
}


/// The street graph `Streets::of` reads off a plan's pieces holds a
/// street wherever the plan laid a run, north or east.
proof fn lemma_run_edge(n: int, built: Seq<u8>, s: Streets, m: Node, north: bool)
    requires
        0 <= n < 0x1_0000_0000,
        forall|k: Key|
            s@.contains(k) <==> exists|x: int|
                0 <= x < spec_streets_of(n, built).len() && spec_streets_of(n, built)[x].arms == 0
                    && k == edge_of(#[trigger] spec_streets_of(n, built)[x]),
    ensures
        s@.contains((m, if north {
            1usize
        } else {
            0usize
        })) <==> if north {
            spec_northerly(n, built, m.0 as int, m.1 as int)
        } else {
            spec_easterly(n, built, m.0 as int, m.1 as int)
        },
{
    let all = spec_streets_of(n, built);
    let key = (m, if north {
        1usize
    } else {
        0usize
    });
    if s@.contains(key) {
        let x = choose|x: int| 0 <= x < all.len() && all[x].arms == 0 && key == edge_of(#[trigger] all[x]);
        let p = all[x];
        assert(all.contains(p));
        lemma_streets_hold(n, built, p);
        lemma_north_runs(n, built, p);
        lemma_east_runs(n, built, p);
        crate::town::street::lemma_crossings(n, built, p);
    }
    let p = Piece { i: m.0, j: m.1, k: 0, arms: 0, north };
    if (north && spec_northerly(n, built, m.0 as int, m.1 as int)) || (!north && spec_easterly(
        n,
        built,
        m.0 as int,
        m.1 as int,
    )) {
        lemma_north_runs(n, built, p);
        lemma_east_runs(n, built, p);
        lemma_streets_hold(n, built, p);
        let x = choose|x: int| 0 <= x < all.len() && all[x] == p;
        assert(all[x].arms == 0 && key == edge_of(all[x]));
    }
}

/// THE GRAPH IS THE PLAN: the arms the street graph finds at every
/// crossing of the town's grid, read off the paving alone, are the arms
/// `streets_of` laid there, so traffic rides exactly the streets that are
/// drawn and a crossing piece carries exactly the ways out of it.
pub proof fn lemma_graph_is_the_plan(n: int, built: Seq<u8>, s: Streets, i: i64, j: i64)
    requires
        0 <= n < 0x1_0000_0000,
        forall|k: Key|
            s@.contains(k) <==> exists|x: int|
                0 <= x < spec_streets_of(n, built).len() && spec_streets_of(n, built)[x].arms == 0
                    && k == edge_of(#[trigger] spec_streets_of(n, built)[x]),
        near((i, j), REACH as int),
    ensures
        s.spec_arms((i, j)) == spec_arms(n, built, i as int, j as int),
{
    lemma_run_edge(n, built, s, (i, j), false);
    lemma_run_edge(n, built, s, (i, j), true);
    lemma_run_edge(n, built, s, ((i - 1) as i64, j), false);
    lemma_run_edge(n, built, s, (i, (j - 1) as i64), true);
}
/// Which of `faces` circuits an agent rides: its hash, read as a fraction
/// of its range, scaled to the count of circuits and floored.
pub open spec fn spec_circuit_of(faces: int, slot: usize, town: usize, seed: u32) -> int {
    spec_mix3(slot as i64, town as i64, 1, seed) as int * faces / 0x1_0000_0000
}

/// Which of a town's `faces` circuits the agent in `slot` rides, hashed
/// off its own index so a town is the same town twice.
pub fn circuit_of(faces: usize, slot: usize, town: usize, seed: u32) -> (c: usize)
    requires
        faces >= 1,
    ensures
        c == spec_circuit_of(faces as int, slot, town, seed),
        c < faces,
{
    #[verifier::truncate]
    let s = slot as i64;
    #[verifier::truncate]
    let t = town as i64;
    let h: u128 = mix3(s, t, 1, seed) as u128;
    let n: u128 = faces as u128;
    assert(h * n / 0x1_0000_0000 < n) by (nonlinear_arith)
        requires
            h < 0x1_0000_0000,
            n >= 1,
    ;
    assert(h * n <= u128::MAX) by (nonlinear_arith)
        requires
            h < 0x1_0000_0000,
            n <= usize::MAX,
    ;
    (h * n / 0x1_0000_0000) as usize
}

/// An agent's own number: its hash scaled from the hash's range onto
/// `u32::MAX` and truncated, which is the hash less one, and nought for a
/// hash of nought.
pub open spec fn spec_agent_id(slot: usize, town: usize, seed: u32) -> u32 {
    let h = spec_mix3(slot as i64, town as i64, 4, seed);
    if h == 0 { 0 } else { (h - 1) as u32 }
}

/// A number of an agent's own, for whatever a model wants to differ on.
pub fn agent_id(slot: usize, town: usize, seed: u32) -> (id: u32)
    ensures
        id == spec_agent_id(slot, town, seed),
{
    #[verifier::truncate]
    let s = slot as i64;
    #[verifier::truncate]
    let t = town as i64;
    mix3(s, t, 4, seed).saturating_sub(1)
}

} // verus!

