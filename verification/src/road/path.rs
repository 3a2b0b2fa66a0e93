//! A way over the roads, as a graph over the waypoints the network was
//! routed on: every distinct waypoint is one node, a step between two
//! waypoints on any road is an edge, and the road a step is run on is the
//! lowest numbered road that has it.
//!
//! A waypoint is known here by its key, three whole numbers that two roads
//! reading one waypoint agree on bit for bit, so nothing is matched by
//! distance.
use vstd::prelude::*;

verus! {

/// The order of keys: by the first number, then the second, then the
/// third.
pub open spec fn before(a: (i64, i64, i64), b: (i64, i64, i64)) -> bool {
    a.0 < b.0 || (a.0 == b.0 && (a.1 < b.1 || (a.1 == b.1 && a.2 < b.2)))
}

fn less(a: (i64, i64, i64), b: (i64, i64, i64)) -> (r: bool)
    ensures
        r == before(a, b),
{
    a.0 < b.0 || (a.0 == b.0 && (a.1 < b.1 || (a.1 == b.1 && a.2 < b.2)))
}

/// Whether `(r, i)` is a point of a road: road `r`'s `i`th waypoint.
pub open spec fn on(keys: Seq<Vec<(i64, i64, i64)>>, r: int, i: int) -> bool {
    0 <= r < keys.len() && 0 <= i < keys[r]@.len()
}

/// The key of road `r`'s `i`th waypoint.
pub open spec fn key_at(keys: Seq<Vec<(i64, i64, i64)>>, r: int, i: int) -> (i64, i64, i64) {
    keys[r]@[i]
}

/// The node of road `r`'s `i`th waypoint.
pub open spec fn node_at(nodes: Seq<Vec<u32>>, r: int, i: int) -> u32 {
    nodes[r]@[i]
}

/// Whether point `(r, i)` comes before point `(r2, i2)`: on an earlier
/// road, or earlier on the same one.
pub open spec fn earlier(r: int, i: int, r2: int, i2: int) -> bool {
    r < r2 || (r == r2 && i < i2)
}

/// How many waypoints the first `r` roads have between them.
pub open spec fn points_upto(keys: Seq<Vec<(i64, i64, i64)>>, r: int) -> int
    decreases r,
{
    if r <= 0 {
        0
    } else {
        points_upto(keys, r - 1) + keys[r - 1]@.len()
    }
}

proof fn lemma_points_grow(keys: Seq<Vec<(i64, i64, i64)>>, r: int, s: int)
    requires
        0 <= r <= s,
    ensures
        points_upto(keys, r) <= points_upto(keys, s),
    decreases s - r,
{
    if r < s {
        lemma_points_grow(keys, r, s - 1);
    }
}

/// The numbering of every road's waypoints as nodes: one node per
/// distinct key, numbered in the order of the keys.
pub open spec fn numbered(
    keys: Seq<Vec<(i64, i64, i64)>>,
    nodes: Seq<Vec<u32>>,
    firsts: Seq<(u32, u32)>,
) -> bool {
    &&& nodes.len() == keys.len()
    &&& forall|r: int| 0 <= r < keys.len() ==> #[trigger] nodes[r]@.len() == keys[r]@.len()
    &&& forall|r: int, i: int| on(keys, r, i) ==> (#[trigger] node_at(nodes, r, i) as int) < firsts.len()
    &&& forall|r: int, i: int, r2: int, i2: int|
        on(keys, r, i) && on(keys, r2, i2) ==> (before(
            #[trigger] key_at(keys, r, i),
            #[trigger] key_at(keys, r2, i2),
        ) <==> node_at(nodes, r, i) < node_at(nodes, r2, i2))
    &&& forall|r: int, i: int, r2: int, i2: int|
        on(keys, r, i) && on(keys, r2, i2) ==> (#[trigger] key_at(keys, r, i)
            == #[trigger] key_at(keys, r2, i2) <==> node_at(nodes, r, i) == node_at(
            nodes,
            r2,
            i2,
        ))
    &&& forall|n: int|
        0 <= n < firsts.len() ==> {
            let (r, i) = (#[trigger] firsts[n].0 as int, firsts[n].1 as int);
            &&& on(keys, r, i)
            &&& node_at(nodes, r, i) == n
            &&& forall|r2: int, i2: int|
                on(keys, r2, i2) && #[trigger] node_at(nodes, r2, i2) == n ==> !earlier(
                    r2,
                    i2,
                    r,
                    i,
                )
        }
}

/// Whether the sorted list of distinct keys holds key `k`.
spec fn listed(uniq: Seq<((i64, i64, i64), u32, u32)>, k: (i64, i64, i64)) -> bool {
    exists|j: int| 0 <= j < uniq.len() && #[trigger] uniq[j].0 == k
}

spec fn strictly_keyed(uniq: Seq<((i64, i64, i64), u32, u32)>) -> bool {
    forall|a: int, b: int| 0 <= a < b < uniq.len() ==> before(#[trigger] uniq[a].0, #[trigger] uniq[b].0)
}

/// Where key `k` stands in the sorted list of distinct keys, or where it
/// would go.
fn find_key(uniq: &Vec<((i64, i64, i64), u32, u32)>, k: (i64, i64, i64)) -> (r: Result<usize, usize>)
    requires
        strictly_keyed(uniq@),
    ensures
        match r {
            Ok(j) => j < uniq@.len() && uniq@[j as int].0 == k,
            Err(j) => j <= uniq@.len() && (forall|a: int| 0 <= a < j ==> before(#[trigger] uniq@[a].0, k))
                && (forall|a: int| j <= a < uniq@.len() ==> before(k, #[trigger] uniq@[a].0)),
        },
{
    let mut lo: usize = 0;
    let mut hi: usize = uniq.len();
    while lo < hi
        invariant
            lo <= hi <= uniq@.len(),
            strictly_keyed(uniq@),
            forall|a: int| 0 <= a < lo ==> before(#[trigger] uniq@[a].0, k),
            forall|a: int| hi <= a < uniq@.len() ==> before(k, #[trigger] uniq@[a].0),
        decreases hi - lo,
    {
        let mid = lo + (hi - lo) / 2;
        let at = uniq[mid].0;
        if at.0 == k.0 && at.1 == k.1 && at.2 == k.2 {
            return Ok(mid);
        } else if less(at, k) {
            proof {
                assert forall|a: int| 0 <= a < mid + 1 implies before(#[trigger] uniq@[a].0, k) by {
                    if a < mid {
                        assert(before(uniq@[a].0, uniq@[mid as int].0));
                    }
                }
            }
            lo = mid + 1;
        } else {
            proof {
                assert forall|a: int| mid <= a < uniq@.len() implies before(k, #[trigger] uniq@[a].0) by {
                    if a > mid {
                        assert(before(uniq@[mid as int].0, uniq@[a].0));
                    }
                }
            }
            hi = mid;
        }
    }
    Err(lo)
}

/// Number every road's waypoints as nodes of one graph, from their keys:
/// a node for each distinct key, numbered in the order of the keys, and
/// for each node the first point (by road, then along it) that has its
/// key.
pub fn number(keys: &Vec<Vec<(i64, i64, i64)>>) -> (out: (Vec<Vec<u32>>, Vec<(u32, u32)>))
    requires
        points_upto(keys@, keys@.len() as int) <= u32::MAX,
        keys@.len() <= u32::MAX,
    ensures
        numbered(keys@, out.0@, out.1@),
{
    let mut uniq: Vec<((i64, i64, i64), u32, u32)> = Vec::new();
    let mut r: usize = 0;
    while r < keys.len()
        invariant
            r <= keys@.len(),
            keys@.len() <= u32::MAX,
            points_upto(keys@, keys@.len() as int) <= u32::MAX,
            strictly_keyed(uniq@),
            uniq@.len() <= points_upto(keys@, r as int),
            forall|j: int|
                0 <= j < uniq@.len() ==> {
                    let (k, a, b) = #[trigger] uniq@[j];
                    on(keys@, a as int, b as int) && key_at(keys@, a as int, b as int) == k
                        && earlier(a as int, b as int, r as int, 0)
                },
            forall|r2: int, i2: int|
                on(keys@, r2, i2) && earlier(r2, i2, r as int, 0) ==> listed(
                    uniq@,
                    #[trigger] key_at(keys@, r2, i2),
                ),
            forall|j: int, r2: int, i2: int|
                0 <= j < uniq@.len() && on(keys@, r2, i2) && earlier(r2, i2, r as int, 0)
                    && #[trigger] key_at(keys@, r2, i2) == #[trigger] uniq@[j].0 ==> !earlier(
                    r2,
                    i2,
                    uniq@[j].1 as int,
                    uniq@[j].2 as int,
                ),
        decreases keys@.len() - r,
    {
        let row = &keys[r];
        proof {
            lemma_points_grow(keys@, r as int + 1, keys@.len() as int);
        }
        let mut i: usize = 0;
        while i < row.len()
            invariant
                r < keys@.len(),
                *row == keys@[r as int],
                i <= row@.len(),
                keys@.len() <= u32::MAX,
                points_upto(keys@, r as int + 1) <= u32::MAX,
                points_upto(keys@, r as int + 1) == points_upto(keys@, r as int) + row@.len(),
                strictly_keyed(uniq@),
                uniq@.len() <= points_upto(keys@, r as int) + i,
                forall|j: int|
                    0 <= j < uniq@.len() ==> {
                        let (k, a, b) = #[trigger] uniq@[j];
                        on(keys@, a as int, b as int) && key_at(keys@, a as int, b as int) == k
                            && earlier(a as int, b as int, r as int, i as int)
                    },
                forall|r2: int, i2: int|
                    on(keys@, r2, i2) && earlier(r2, i2, r as int, i as int) ==> listed(
                        uniq@,
                        #[trigger] key_at(keys@, r2, i2),
                    ),
                forall|j: int, r2: int, i2: int|
                    0 <= j < uniq@.len() && on(keys@, r2, i2) && earlier(r2, i2, r as int, i as int)
                        && #[trigger] key_at(keys@, r2, i2) == #[trigger] uniq@[j].0 ==> !earlier(
                        r2,
                        i2,
                        uniq@[j].1 as int,
                        uniq@[j].2 as int,
                    ),
            decreases row@.len() - i,
        {
            let k = row[i];
            let ghost old_uniq = uniq@;
            match find_key(&uniq, k) {
                Ok(_) => {
                    proof {
                        assert(key_at(keys@, r as int, i as int) == k);
                        assert forall|j: int, r2: int, i2: int|
                            0 <= j < uniq@.len() && on(keys@, r2, i2) && earlier(
                                r2,
                                i2,
                                r as int,
                                i + 1,
                            ) && #[trigger] key_at(keys@, r2, i2) == #[trigger] uniq@[j].0 implies !earlier(
                            r2,
                            i2,
                            uniq@[j].1 as int,
                            uniq@[j].2 as int,
                        ) by {
                            if r2 == r && i2 == i {
                                let (kk, a, b) = uniq@[j];
                                assert(earlier(a as int, b as int, r as int, i as int));
                            }
                        }
                    }
                },
                Err(p) => {
                    proof {
                        assert(r <= u32::MAX && i < u32::MAX) by {
                            lemma_points_grow(keys@, 0, r as int);
                        }
                    }
                    uniq.insert(p, (k, r as u32, i as u32));
                    proof {
                        lemma_insert_keeps(old_uniq, uniq@, p as int, (k, r as u32, i as u32));
                        assert forall|j: int|
                            0 <= j < uniq@.len() implies {
                            let (kk, a, b) = #[trigger] uniq@[j];
                            on(keys@, a as int, b as int) && key_at(keys@, a as int, b as int) == kk
                                && earlier(a as int, b as int, r as int, i + 1)
                        } by {
                            if j < p {
                                assert(uniq@[j] == old_uniq[j]);
                            } else if j > p {
                                assert(uniq@[j] == old_uniq[j - 1]);
                            }
                        }
                        assert forall|r2: int, i2: int|
                            on(keys@, r2, i2) && earlier(r2, i2, r as int, i + 1) implies listed(
                            uniq@,
                            #[trigger] key_at(keys@, r2, i2),
                        ) by {
                            if r2 == r && i2 == i {
                                assert(uniq@[p as int].0 == k);
                            } else {
                                assert(listed(old_uniq, key_at(keys@, r2, i2)));
                                let j = choose|j: int|
                                    0 <= j < old_uniq.len() && #[trigger] old_uniq[j].0 == key_at(
                                        keys@,
                                        r2,
                                        i2,
                                    );
                                if j < p {
                                    assert(uniq@[j] == old_uniq[j]);
                                } else {
                                    assert(uniq@[j + 1] == old_uniq[j]);
                                }
                            }
                        }
                        assert forall|j: int, r2: int, i2: int|
                            0 <= j < uniq@.len() && on(keys@, r2, i2) && earlier(
                                r2,
                                i2,
                                r as int,
                                i + 1,
                            ) && #[trigger] key_at(keys@, r2, i2) == #[trigger] uniq@[j].0 implies !earlier(
                            r2,
                            i2,
                            uniq@[j].1 as int,
                            uniq@[j].2 as int,
                        ) by {
                            if j == p {
                                if earlier(r2, i2, r as int, i as int) {
                                    assert(listed(old_uniq, k));
                                    let t = choose|t: int|
                                        0 <= t < old_uniq.len() && #[trigger] old_uniq[t].0 == k;
                                    if t < p {
                                        assert(before(old_uniq[t].0, k));
                                    } else {
                                        assert(before(k, old_uniq[t].0));
                                    }
                                }
                            } else if j < p {
                                assert(uniq@[j] == old_uniq[j]);
                                if r2 == r && i2 == i {
                                    assert(before(old_uniq[j].0, k));
                                }
                            } else {
                                assert(uniq@[j] == old_uniq[j - 1]);
                                if r2 == r && i2 == i {
                                    assert(before(k, old_uniq[j - 1].0));
                                }
                            }
                        }
                    }
                },
            }
            i = i + 1;
        }
        proof {
            assert forall|r2: int, i2: int|
                on(keys@, r2, i2) && earlier(r2, i2, r + 1, 0) implies listed(
                uniq@,
                #[trigger] key_at(keys@, r2, i2),
            ) by {
                assert(earlier(r2, i2, r as int, row@.len() as int));
            }
            assert forall|j: int, r2: int, i2: int|
                0 <= j < uniq@.len() && on(keys@, r2, i2) && earlier(r2, i2, r + 1, 0)
                    && #[trigger] key_at(keys@, r2, i2) == #[trigger] uniq@[j].0 implies !earlier(
                r2,
                i2,
                uniq@[j].1 as int,
                uniq@[j].2 as int,
            ) by {
                assert(earlier(r2, i2, r as int, row@.len() as int));
            }
        }
        r = r + 1;
    }
    let mut nodes: Vec<Vec<u32>> = Vec::new();
    let mut r: usize = 0;
    while r < keys.len()
        invariant
            r <= keys@.len(),
            nodes@.len() == r,
            strictly_keyed(uniq@),
            uniq@.len() <= u32::MAX,
            forall|r2: int, i2: int|
                on(keys@, r2, i2) ==> listed(uniq@, #[trigger] key_at(keys@, r2, i2)),
            forall|r2: int| 0 <= r2 < r ==> #[trigger] nodes@[r2]@.len() == keys@[r2]@.len(),
            forall|r2: int, i2: int|
                0 <= r2 < r && on(keys@, r2, i2) ==> (#[trigger] node_at(nodes@, r2, i2) as int)
                    < uniq@.len() && uniq@[node_at(nodes@, r2, i2) as int].0 == key_at(keys@, r2, i2),
        decreases keys@.len() - r,
    {
        let row = &keys[r];
        let mut ids: Vec<u32> = Vec::new();
        let mut i: usize = 0;
        while i < row.len()
            invariant
                r < keys@.len(),
                *row == keys@[r as int],
                i <= row@.len(),
                ids@.len() == i,
                strictly_keyed(uniq@),
                uniq@.len() <= u32::MAX,
                forall|r2: int, i2: int|
                    on(keys@, r2, i2) ==> listed(uniq@, #[trigger] key_at(keys@, r2, i2)),
                forall|i2: int|
                    0 <= i2 < i ==> (#[trigger] ids@[i2] as int) < uniq@.len() && uniq@[ids@[i2] as int].0
                        == key_at(keys@, r as int, i2),
            decreases row@.len() - i,
        {
            let k = row[i];
            proof {
                assert(listed(uniq@, key_at(keys@, r as int, i as int)));
            }
            match find_key(&uniq, k) {
                Ok(j) => {
                    ids.push(j as u32);
                },
                Err(j) => {
                    proof {
                        let t = choose|t: int| 0 <= t < uniq@.len() && #[trigger] uniq@[t].0 == k;
                        if t < j {
                            assert(before(uniq@[t].0, k));
                        } else {
                            assert(before(k, uniq@[t].0));
                        }
                    }
                    ids.push(0);
                },
            }
            i = i + 1;
        }
        let ghost prev = nodes@;
        let ghost row_ids = ids@;
        nodes.push(ids);
        proof {
            assert(nodes@[r as int]@ == row_ids);
            assert forall|r2: int, i2: int|
                0 <= r2 < r + 1 && on(keys@, r2, i2) implies (#[trigger] node_at(nodes@, r2, i2) as int)
                < uniq@.len() && uniq@[node_at(nodes@, r2, i2) as int].0 == key_at(keys@, r2, i2) by {
                if r2 < r {
                    assert(nodes@[r2] == prev[r2]);
                    assert(node_at(prev, r2, i2) == node_at(nodes@, r2, i2));
                } else {
                    assert(0 <= i2 < row_ids.len());
                    assert(node_at(nodes@, r2, i2) == row_ids[i2]);
                    assert((row_ids[i2] as int) < uniq@.len() && uniq@[row_ids[i2] as int].0 == key_at(
                        keys@,
                        r as int,
                        i2,
                    ));
                }
            }
        }
        r = r + 1;
    }
    let mut firsts: Vec<(u32, u32)> = Vec::new();
    let mut j: usize = 0;
    while j < uniq.len()
        invariant
            j <= uniq@.len(),
            firsts@.len() == j,
            forall|t: int| 0 <= t < j ==> #[trigger] firsts@[t] == (uniq@[t].1, uniq@[t].2),
        decreases uniq@.len() - j,
    {
        firsts.push((uniq[j].1, uniq[j].2));
        j = j + 1;
    }
    proof {
        lemma_numbered(keys@, nodes@, firsts@, uniq@);
    }
    (nodes, firsts)
}

proof fn lemma_insert_keeps(
    s: Seq<((i64, i64, i64), u32, u32)>,
    t: Seq<((i64, i64, i64), u32, u32)>,
    p: int,
    e: ((i64, i64, i64), u32, u32),
)
    requires
        strictly_keyed(s),
        0 <= p <= s.len(),
        forall|a: int| 0 <= a < p ==> before(#[trigger] s[a].0, e.0),
        forall|a: int| p <= a < s.len() ==> before(e.0, #[trigger] s[a].0),
        t == s.insert(p, e),
    ensures
        strictly_keyed(t),
{
    assert forall|a: int, b: int| 0 <= a < b < t.len() implies before(#[trigger] t[a].0, #[trigger] t[b].0) by {
        if b < p {
            assert(before(s[a].0, s[b].0));
        } else if b == p {
            assert(before(s[a].0, e.0));
        } else if a < p {
            assert(before(s[a].0, e.0) && before(e.0, s[b - 1].0));
        } else if a == p {
            assert(before(e.0, s[b - 1].0));
        } else {
            assert(before(s[a - 1].0, s[b - 1].0));
        }
    }
}

proof fn lemma_numbered(
    keys: Seq<Vec<(i64, i64, i64)>>,
    nodes: Seq<Vec<u32>>,
    firsts: Seq<(u32, u32)>,
    uniq: Seq<((i64, i64, i64), u32, u32)>,
)
    requires
        strictly_keyed(uniq),
        firsts.len() == uniq.len(),
        forall|t: int| 0 <= t < uniq.len() ==> #[trigger] firsts[t] == (uniq[t].1, uniq[t].2),
        forall|j: int|
            0 <= j < uniq.len() ==> {
                let (k, a, b) = #[trigger] uniq[j];
                on(keys, a as int, b as int) && key_at(keys, a as int, b as int) == k
            },
        forall|j: int, r2: int, i2: int|
            0 <= j < uniq.len() && on(keys, r2, i2) && #[trigger] key_at(keys, r2, i2)
                == #[trigger] uniq[j].0 ==> !earlier(r2, i2, uniq[j].1 as int, uniq[j].2 as int),
        nodes.len() == keys.len(),
        forall|r2: int| 0 <= r2 < keys.len() ==> #[trigger] nodes[r2]@.len() == keys[r2]@.len(),
        forall|r2: int, i2: int|
            on(keys, r2, i2) ==> (#[trigger] node_at(nodes, r2, i2) as int) < uniq.len() && uniq[node_at(
                nodes,
                r2,
                i2,
            ) as int].0 == key_at(keys, r2, i2),
    ensures
        numbered(keys, nodes, firsts),
{
    assert forall|r: int, i: int, r2: int, i2: int|
        on(keys, r, i) && on(keys, r2, i2) implies (before(
        #[trigger] key_at(keys, r, i),
        #[trigger] key_at(keys, r2, i2),
    ) <==> node_at(nodes, r, i) < node_at(nodes, r2, i2)) && (key_at(keys, r, i) == key_at(keys, r2, i2)
        <==> node_at(nodes, r, i) == node_at(nodes, r2, i2)) by {
        let (a, b) = (node_at(nodes, r, i) as int, node_at(nodes, r2, i2) as int);
        assert(uniq[a].0 == key_at(keys, r, i));
        assert(uniq[b].0 == key_at(keys, r2, i2));
        if a < b {
            assert(before(uniq[a].0, uniq[b].0));
        } else if b < a {
            assert(before(uniq[b].0, uniq[a].0));
        }
    }
    assert forall|n: int| 0 <= n < firsts.len() implies {
        let (r, i) = (#[trigger] firsts[n].0 as int, firsts[n].1 as int);
        &&& on(keys, r, i)
        &&& node_at(nodes, r, i) == n
        &&& forall|r2: int, i2: int|
            on(keys, r2, i2) && #[trigger] node_at(nodes, r2, i2) == n ==> !earlier(r2, i2, r, i)
    } by {
        let (k, r, i) = uniq[n];
        assert(firsts[n] == (r, i));
        let m = node_at(nodes, r as int, i as int) as int;
        assert(uniq[m].0 == k);
        if m < n {
            assert(before(uniq[m].0, uniq[n].0));
        } else if n < m {
            assert(before(uniq[n].0, uniq[m].0));
        }
        assert forall|r2: int, i2: int|
            on(keys, r2, i2) && #[trigger] node_at(nodes, r2, i2) == n implies !earlier(
            r2,
            i2,
            r as int,
            i as int,
        ) by {
            assert(uniq[n].0 == key_at(keys, r2, i2));
        }
    }
}

/// The lower of two nodes.
pub open spec fn low(a: u32, b: u32) -> u32 {
    if a < b {
        a
    } else {
        b
    }
}

/// The higher of two nodes.
pub open spec fn high(a: u32, b: u32) -> u32 {
    if a < b {
        b
    } else {
        a
    }
}

/// How many steps a road of `n` waypoints takes between them.
pub open spec fn windows(n: int) -> int {
    if n <= 0 {
        0
    } else {
        n - 1
    }
}

/// The steps of road `r` over its first `w` windows: each pair of
/// neighbouring waypoints that are two nodes, as its lower node, its
/// higher node and the road.
pub open spec fn road_steps(ns: Seq<u32>, r: int, w: int) -> Seq<(u32, u32, u32)>
    decreases w,
{
    if w <= 0 {
        Seq::empty()
    } else {
        let prev = road_steps(ns, r, w - 1);
        let (a, b) = (ns[w - 1], ns[w]);
        if a == b {
            prev
        } else {
            prev.push((low(a, b), high(a, b), r as u32))
        }
    }
}

/// Every step of the first `r` roads, road by road.
pub open spec fn all_steps(nodes: Seq<Vec<u32>>, r: int) -> Seq<(u32, u32, u32)>
    decreases r,
{
    if r <= 0 {
        Seq::empty()
    } else {
        all_steps(nodes, r - 1) + road_steps(nodes[r - 1]@, r - 1, windows(nodes[r - 1]@.len() as int))
    }
}

/// The order of steps: by lower node, then higher node, then road.
pub open spec fn step_before(a: (u32, u32, u32), b: (u32, u32, u32)) -> bool {
    a.0 < b.0 || (a.0 == b.0 && (a.1 < b.1 || (a.1 == b.1 && a.2 < b.2)))
}

/// Steps in order, each no later than the next.
pub open spec fn steps_sorted(s: Seq<(u32, u32, u32)>) -> bool {
    forall|a: int, b: int| 0 <= a < b < s.len() ==> !step_before(#[trigger] s[b], #[trigger] s[a])
}

fn step_less(a: (u32, u32, u32), b: (u32, u32, u32)) -> (r: bool)
    ensures
        r == step_before(a, b),
{
    a.0 < b.0 || (a.0 == b.0 && (a.1 < b.1 || (a.1 == b.1 && a.2 < b.2)))
}

/// Every step of every road, as its lower node, its higher node and the
/// road, sorted: so which roads run a step is a binary search.
pub fn steps_of(nodes: &Vec<Vec<u32>>) -> (out: Vec<(u32, u32, u32)>)
    requires
        nodes@.len() <= u32::MAX,
    ensures
        steps_sorted(out@),
        out@.to_multiset() == all_steps(nodes@, nodes@.len() as int).to_multiset(),
{
    let mut raw: Vec<(u32, u32, u32)> = Vec::new();
    let mut r: usize = 0;
    while r < nodes.len()
        invariant
            r <= nodes@.len(),
            nodes@.len() <= u32::MAX,
            raw@ == all_steps(nodes@, r as int),
        decreases nodes@.len() - r,
    {
        let ns = &nodes[r];
        let ghost before_road = raw@;
        let mut w: usize = 0;
        if ns.len() > 0 {
            let last = ns.len() - 1;
            while w < last
                invariant
                    r < nodes@.len(),
                    nodes@.len() <= u32::MAX,
                    *ns == nodes@[r as int],
                    last + 1 == ns@.len(),
                    w <= last,
                    raw@ == before_road + road_steps(ns@, r as int, w as int),
                decreases ns@.len() - w,
            {
                let (a, b) = (ns[w], ns[w + 1]);
                if a != b {
                    let lo = if a < b {
                        a
                    } else {
                        b
                    };
                    let hi = if a < b {
                        b
                    } else {
                        a
                    };
                    raw.push((lo, hi, r as u32));
                }
                w = w + 1;
                proof {
                    assert(raw@ =~= before_road + road_steps(ns@, r as int, w as int));
                }
            }
        }
        proof {
            assert(raw@ =~= all_steps(nodes@, r + 1));
        }
        r = r + 1;
    }
    sort_steps(raw)
}

/// Sort steps into their order, keeping every one.
fn sort_steps(v: Vec<(u32, u32, u32)>) -> (out: Vec<(u32, u32, u32)>)
    ensures
        steps_sorted(out@),
        out@.to_multiset() == v@.to_multiset(),
{
    let mut out: Vec<(u32, u32, u32)> = Vec::new();
    proof {
        assert(v@.subrange(0, 0) =~= out@);
    }
    let mut t: usize = 0;
    while t < v.len()
        invariant
            t <= v@.len(),
            steps_sorted(out@),
            out@.to_multiset() == v@.subrange(0, t as int).to_multiset(),
        decreases v@.len() - t,
    {
        let x = v[t];
        let mut at: usize = 0;
        while at < out.len() && !step_less(x, out[at])
            invariant
                at <= out@.len(),
                forall|y: int| 0 <= y < at ==> !step_before(x, #[trigger] out@[y]),
            decreases out@.len() - at,
        {
            at = at + 1;
        }
        let ghost prev = out@;
        out.insert(at, x);
        proof {
            vstd::seq_lib::to_multiset_insert(prev, at as int, x);
            assert(v@.subrange(0, t + 1) =~= v@.subrange(0, t as int).push(x));
            vstd::seq_lib::to_multiset_build(v@.subrange(0, t as int), x);
            assert forall|a: int, b: int| 0 <= a < b < out@.len() implies !step_before(
                #[trigger] out@[b],
                #[trigger] out@[a],
            ) by {
                if b < at {
                    assert(out@[a] == prev[a] && out@[b] == prev[b]);
                } else if b == at {
                    assert(out@[a] == prev[a]);
                } else if a == at {
                    assert(out@[b] == prev[b - 1]);
                    assert(step_before(x, prev[at as int]));
                    assert(!step_before(prev[b - 1], prev[at as int]));
                } else if a < at {
                    assert(out@[a] == prev[a] && out@[b] == prev[b - 1]);
                    assert(step_before(x, prev[at as int]));
                    assert(!step_before(prev[b - 1], prev[at as int]));
                    assert(!step_before(x, prev[a]));
                } else {
                    assert(out@[a] == prev[a - 1] && out@[b] == prev[b - 1]);
                }
            }
        }
        t = t + 1;
    }
    proof {
        assert(v@.subrange(0, v@.len() as int) =~= v@);
    }
    out
}

/// Whether the steps hold the step between `lo` and `hi` run on road `x`.
pub open spec fn runs_on(steps: Seq<(u32, u32, u32)>, lo: u32, hi: u32, x: u32) -> bool {
    exists|t: int| 0 <= t < steps.len() && #[trigger] steps[t] == (lo, hi, x)
}

/// Whether road `x` is the lowest numbered road that runs the step
/// between `lo` and `hi`.
pub open spec fn lowest_on(steps: Seq<(u32, u32, u32)>, lo: u32, hi: u32, x: u32) -> bool {
    &&& runs_on(steps, lo, hi, x)
    &&& forall|t: int|
        0 <= t < steps.len() && (#[trigger] steps[t]).0 == lo && steps[t].1 == hi ==> x <= steps[t].2
}

/// The road a step between nodes `a` and `b` is run on: the lowest
/// numbered road that has it, or none where no road does.
pub open spec fn owner_of(steps: Seq<(u32, u32, u32)>, a: u32, b: u32) -> Option<usize> {
    if exists|x: u32| runs_on(steps, low(a, b), high(a, b), x) {
        Some((choose|x: u32| lowest_on(steps, low(a, b), high(a, b), x)) as usize)
    } else {
        None
    }
}

/// The road a step is run on: the lowest numbered road that has it,
/// because the lowest numbered road on a shared trunk is the one that
/// owns it and carries its tarmac.
pub fn owner(steps: &Vec<(u32, u32, u32)>, a: u32, b: u32) -> (r: Option<usize>)
    requires
        steps_sorted(steps@),
    ensures
        r == owner_of(steps@, a, b),
{
    let lo = if a < b {
        a
    } else {
        b
    };
    let hi = if a < b {
        b
    } else {
        a
    };
    assert(lo == low(a, b) && hi == high(a, b));
    let mut l: usize = 0;
    let mut h: usize = steps.len();
    while l < h
        invariant
            l <= h <= steps@.len(),
            steps_sorted(steps@),
            forall|t: int| 0 <= t < l ==> step_before(#[trigger] steps@[t], (lo, hi, 0)),
            forall|t: int| h <= t < steps@.len() ==> !step_before(#[trigger] steps@[t], (lo, hi, 0)),
        decreases h - l,
    {
        let mid = l + (h - l) / 2;
        let s = steps[mid];
        if s.0 < lo || (s.0 == lo && s.1 < hi) {
            proof {
                assert forall|t: int| 0 <= t < mid + 1 implies step_before(#[trigger] steps@[t], (lo, hi, 0)) by {
                    if t < mid {
                        assert(!step_before(steps@[mid as int], steps@[t]));
                    }
                }
            }
            l = mid + 1;
        } else {
            proof {
                assert forall|t: int| mid <= t < steps@.len() implies !step_before(
                    #[trigger] steps@[t],
                    (lo, hi, 0),
                ) by {
                    if t > mid {
                        assert(!step_before(steps@[t], steps@[mid as int]));
                    }
                }
            }
            h = mid;
        }
    }
    if l < steps.len() && steps[l].0 == lo && steps[l].1 == hi {
        let x = steps[l].2;
        proof {
            assert(runs_on(steps@, lo, hi, x));
            assert(lowest_on(steps@, lo, hi, x)) by {
                assert forall|t: int|
                    0 <= t < steps@.len() && (#[trigger] steps@[t]).0 == lo && steps@[t].1 == hi implies x
                    <= steps@[t].2 by {
                    if t > l as int {
                        assert(!step_before(steps@[t], steps@[l as int]));
                    }
                }
            }
            let y = choose|y: u32| lowest_on(steps@, lo, hi, y);
            let ty = choose|t: int| 0 <= t < steps@.len() && #[trigger] steps@[t] == (lo, hi, y);
            assert(x <= y && y <= x);
        }
        Some(x as usize)
    } else {
        proof {
            if exists|x: u32| runs_on(steps@, lo, hi, x) {
                let x = choose|x: u32| runs_on(steps@, lo, hi, x);
                let t = choose|t: int| 0 <= t < steps@.len() && #[trigger] steps@[t] == (lo, hi, x);
                if t < l {
                    assert(step_before(steps@[t], (lo, hi, 0)));
                } else if t > l {
                    assert(!step_before(steps@[t], steps@[l as int]));
                }
            }
        }
        None
    }
}

/// The two nodes of the step road `road` takes from its `seg`th waypoint,
/// where it has one.
pub fn ends(nodes: &Vec<Vec<u32>>, road: usize, seg: usize) -> (r: Option<(u32, u32)>)
    ensures
        r == (if road < nodes@.len() && seg + 1 < nodes@[road as int]@.len() {
            Some((nodes@[road as int]@[seg as int], nodes@[road as int]@[seg + 1]))
        } else {
            None
        }),
{
    if road >= nodes.len() {
        return None;
    }
    let ns = &nodes[road];
    if seg >= ns.len() || seg + 1 >= ns.len() {
        return None;
    }
    Some((ns[seg], ns[seg + 1]))
}

/// The meetings of road `ns`'s first `w` windows: for each step between
/// two nodes, the first node meeting the second and then the second
/// meeting the first.
pub open spec fn road_meets(ns: Seq<u32>, w: int) -> Seq<(u32, u32)>
    decreases w,
{
    if w <= 0 {
        Seq::empty()
    } else {
        let prev = road_meets(ns, w - 1);
        let (a, b) = (ns[w - 1], ns[w]);
        if a == b {
            prev
        } else {
            prev.push((a, b)).push((b, a))
        }
    }
}

/// Every meeting of the first `r` roads, road by road.
pub open spec fn all_meets(nodes: Seq<Vec<u32>>, r: int) -> Seq<(u32, u32)>
    decreases r,
{
    if r <= 0 {
        Seq::empty()
    } else {
        all_meets(nodes, r - 1) + road_meets(nodes[r - 1]@, windows(nodes[r - 1]@.len() as int))
    }
}

/// The nodes node `u` meets, in the order it first meets them, once each.
pub open spec fn met(ev: Seq<(u32, u32)>, u: u32) -> Seq<u32>
    decreases ev.len(),
{
    if ev.len() == 0 {
        Seq::empty()
    } else {
        let prev = met(ev.drop_last(), u);
        let (x, y) = ev.last();
        if x == u && !prev.contains(y) {
            prev.push(y)
        } else {
            prev
        }
    }
}

/// A node meets each of its neighbours once, however many roads share
/// the step between them.
pub proof fn lemma_met_once(ev: Seq<(u32, u32)>, u: u32)
    ensures
        met(ev, u).no_duplicates(),
    decreases ev.len(),
{
    if ev.len() > 0 {
        lemma_met_once(ev.drop_last(), u);
    }
}

proof fn lemma_met_push(ev: Seq<(u32, u32)>, e: (u32, u32), u: u32)
    ensures
        met(ev.push(e), u) == (if e.0 == u && !met(ev, u).contains(e.1) {
            met(ev, u).push(e.1)
        } else {
            met(ev, u)
        }),
{
    assert(ev.push(e).drop_last() =~= ev);
}

/// Whether every node of every road is under `count`.
pub open spec fn nodes_under(nodes: Seq<Vec<u32>>, count: int) -> bool {
    forall|r: int, i: int|
        0 <= r < nodes.len() && 0 <= i < nodes[r]@.len() ==> (#[trigger] node_at(nodes, r, i) as int) < count
}

/// Add `v` to `out[u]` unless it is there already.
fn meet(out: &mut Vec<Vec<u32>>, u: u32, v: u32)
    requires
        (u as int) < old(out)@.len(),
    ensures
        final(out)@.len() == old(out)@.len(),
        forall|x: int|
            0 <= x < old(out)@.len() && x != u ==> #[trigger] final(out)@[x]@ == old(out)@[x]@,
        final(out)@[u as int]@ == (if !old(out)@[u as int]@.contains(v) {
            old(out)@[u as int]@.push(v)
        } else {
            old(out)@[u as int]@
        }),
{
    let list = &out[u as usize];
    let mut k: usize = 0;
    while k < list.len()
        invariant
            k <= list@.len(),
            out@ == old(out)@,
            (u as int) < old(out)@.len(),
            list@ == old(out)@[u as int]@,
            forall|j: int| 0 <= j < k ==> #[trigger] list@[j] != v,
        decreases list@.len() - k,
    {
        if list[k] == v {
            proof {
                assert(list@[k as int] == v);
                assert(list@.contains(v));
            }
            return;
        }
        k = k + 1;
    }
    let mut grown: Vec<u32> = Vec::new();
    let mut j: usize = 0;
    while j < list.len()
        invariant
            j <= list@.len(),
            grown@ == list@.subrange(0, j as int),
        decreases list@.len() - j,
    {
        grown.push(list[j]);
        j = j + 1;
        proof {
            assert(grown@ =~= list@.subrange(0, j as int));
        }
    }
    proof {
        assert(grown@ =~= list@);
    }
    grown.push(v);
    out.set(u as usize, grown);
}

/// Every node's neighbours on the roads, each once and in the order the
/// roads first step between them.
pub fn neighbours(nodes: &Vec<Vec<u32>>, count: usize) -> (out: Vec<Vec<u32>>)
    requires
        nodes_under(nodes@, count as int),
        count <= u32::MAX,
    ensures
        out@.len() == count,
        forall|u: int|
            0 <= u < count ==> #[trigger] out@[u]@ == met(
                all_meets(nodes@, nodes@.len() as int),
                u as u32,
            ) && out@[u]@.no_duplicates(),
{
    let mut out: Vec<Vec<u32>> = Vec::new();
    let mut u: usize = 0;
    while u < count
        invariant
            u <= count,
            out@.len() == u,
            forall|x: int| 0 <= x < u ==> #[trigger] out@[x]@ == Seq::<u32>::empty(),
        decreases count - u,
    {
        out.push(Vec::new());
        u = u + 1;
    }
    proof {
        assert forall|x: int| 0 <= x < count implies #[trigger] out@[x]@ == met(
            all_meets(nodes@, 0),
            x as u32,
        ) by {}
    }
    let mut r: usize = 0;
    while r < nodes.len()
        invariant
            r <= nodes@.len(),
            count <= u32::MAX,
            nodes_under(nodes@, count as int),
            out@.len() == count,
            forall|x: int|
                0 <= x < count ==> #[trigger] out@[x]@ == met(all_meets(nodes@, r as int), x as u32),
        decreases nodes@.len() - r,
    {
        let ns = &nodes[r];
        let ghost before_road = all_meets(nodes@, r as int);
        let mut w: usize = 0;
        if ns.len() > 0 {
            let last = ns.len() - 1;
            while w < last
                invariant
                    r < nodes@.len(),
                    count <= u32::MAX,
                    nodes_under(nodes@, count as int),
                    *ns == nodes@[r as int],
                    last + 1 == ns@.len(),
                    w <= last,
                    out@.len() == count,
                    forall|x: int|
                        0 <= x < count ==> #[trigger] out@[x]@ == met(
                            before_road + road_meets(ns@, w as int),
                            x as u32,
                        ),
                decreases last - w,
            {
                let (a, b) = (ns[w], ns[w + 1]);
                let ghost ev = before_road + road_meets(ns@, w as int);
                proof {
                    assert(node_at(nodes@, r as int, w as int) == a);
                    assert(node_at(nodes@, r as int, w + 1) == b);
                }
                if a != b {
                    let ghost out0 = out@;
                    meet(&mut out, a, b);
                    let ghost out1 = out@;
                    meet(&mut out, b, a);
                    proof {
                        assert(before_road + road_meets(ns@, w + 1) =~= ev.push((a, b)).push((b, a)));
                        assert forall|x: int| 0 <= x < count implies #[trigger] out@[x]@ == met(
                            ev.push((a, b)).push((b, a)),
                            x as u32,
                        ) by {
                            lemma_met_push(ev, (a, b), x as u32);
                            lemma_met_push(ev.push((a, b)), (b, a), x as u32);
                            assert(out0[x]@ == met(ev, x as u32));
                            if x == a as int {
                                assert(out@[x]@ == out1[x]@);
                            } else if x == b as int {
                                assert(out1[x]@ == out0[x]@);
                            } else {
                                assert(out@[x]@ == out1[x]@);
                                assert(out1[x]@ == out0[x]@);
                            }
                        }
                    }
                } else {
                    proof {
                        assert(before_road + road_meets(ns@, w + 1) =~= ev);
                    }
                }
                w = w + 1;
            }
        }
        proof {
            assert(all_meets(nodes@, r + 1) =~= before_road + road_meets(
                ns@,
                windows(ns@.len() as int),
            ));
            if ns@.len() == 0 {
                assert(before_road + road_meets(ns@, 0) =~= before_road);
            }
        }
        r = r + 1;
    }
    proof {
        assert forall|x: int| 0 <= x < count implies #[trigger] out@[x]@ == met(
            all_meets(nodes@, nodes@.len() as int),
            x as u32,
        ) && out@[x]@.no_duplicates() by {
            lemma_met_once(all_meets(nodes@, nodes@.len() as int), x as u32);
        }
    }
    out
}

/// One run of a way along one road, from one place on it to another.
#[derive(Clone, Copy, Debug, PartialEq)]
pub struct Leg<P> {
    pub road: usize,
    pub from: P,
    pub to: P,
}

/// The road a step is run on, or `fallback` where no road has it.
pub open spec fn run_by(steps: Seq<(u32, u32, u32)>, a: u32, b: u32, fallback: usize) -> usize {
    match owner_of(steps, a, b) {
        Some(x) => x,
        None => fallback,
    }
}

/// Every step a way takes, from the place it starts at to the first node
/// of `chain`, along the chain, and from its last node to the place it
/// ends at (or straight from place to place where the chain is empty),
/// each with the road it is run on.
pub open spec fn hops<P>(
    at: Seq<P>,
    steps: Seq<(u32, u32, u32)>,
    fallback: usize,
    from: P,
    to: P,
    start: (u32, u32),
    goal: (u32, u32),
    chain: Seq<u32>,
) -> Seq<(P, P, usize)> {
    if chain.len() == 0 {
        seq![(from, to, run_by(steps, start.0, start.1, fallback))]
    } else {
        seq![(from, at[chain[0] as int], run_by(steps, start.0, start.1, fallback))] + Seq::new(
            (chain.len() - 1) as nat,
            |w: int|
                (
                    at[chain[w] as int],
                    at[chain[w + 1] as int],
                    run_by(steps, chain[w], chain[w + 1], fallback),
                ),
        ) + seq![(at[chain.last() as int], to, run_by(steps, goal.0, goal.1, fallback))]
    }
}

/// The legs of a run of steps: a run of steps on one road is one leg.
pub open spec fn merged<P>(hs: Seq<(P, P, usize)>) -> Seq<Leg<P>>
    decreases hs.len(),
{
    if hs.len() == 0 {
        Seq::empty()
    } else {
        let prev = merged(hs.drop_last());
        let (a, b, road) = hs.last();
        if prev.len() > 0 && prev.last().road == road {
            prev.update(prev.len() - 1, Leg { road, from: prev.last().from, to: b })
        } else {
            prev.push(Leg { road, from: a, to: b })
        }
    }
}

/// Each step starts where the one before it ended.
pub open spec fn joined_up<P>(hs: Seq<(P, P, usize)>) -> bool {
    forall|k: int| 0 <= k < hs.len() - 1 ==> (#[trigger] hs[k]).1 == hs[k + 1].0
}

proof fn lemma_merged<P>(hs: Seq<(P, P, usize)>)
    ensures
        hs.len() > 0 ==> merged(hs).len() > 0 && merged(hs)[0].from == hs[0].0 && merged(hs).last().to
            == hs.last().1 && merged(hs).last().road == hs.last().2,
        forall|i: int|
            0 <= i < merged(hs).len() - 1 ==> (#[trigger] merged(hs)[i]).road != merged(hs)[i + 1].road,
        joined_up(hs) ==> forall|i: int|
            0 <= i < merged(hs).len() - 1 ==> (#[trigger] merged(hs)[i]).to == merged(hs)[i + 1].from,
    decreases hs.len(),
{
    if hs.len() > 0 {
        let d = hs.drop_last();
        lemma_merged(d);
        let prev = merged(d);
        let m = merged(hs);
        if joined_up(hs) {
            assert(joined_up(d)) by {
                assert forall|k: int| 0 <= k < d.len() - 1 implies (#[trigger] d[k]).1 == d[k + 1].0 by {
                    assert(hs[k].1 == hs[k + 1].0);
                }
            }
        }
        if prev.len() > 0 && prev.last().road == hs.last().2 {
            assert forall|i: int| 0 <= i < m.len() - 1 implies (#[trigger] m[i]).road != m[i + 1].road by {
                assert(m[i].road == prev[i].road && m[i + 1].road == prev[i + 1].road);
            }
            if joined_up(hs) {
                assert forall|i: int| 0 <= i < m.len() - 1 implies (#[trigger] m[i]).to == m[i + 1].from by {
                    assert(m[i] == prev[i]);
                    assert(m[i + 1].from == prev[i + 1].from);
                }
            }
        } else {
            assert forall|i: int| 0 <= i < m.len() - 1 implies (#[trigger] m[i]).road != m[i + 1].road by {
                assert(m[i] == prev[i]);
                if i + 1 < prev.len() {
                    assert(m[i + 1] == prev[i + 1]);
                }
            }
            if joined_up(hs) {
                assert forall|i: int| 0 <= i < m.len() - 1 implies (#[trigger] m[i]).to == m[i + 1].from by {
                    assert(m[i] == prev[i]);
                    if i + 1 < prev.len() {
                        assert(m[i + 1] == prev[i + 1]);
                    } else {
                        assert(hs[hs.len() - 2].1 == hs[hs.len() - 1].0);
                    }
                }
            }
        }
    }
}

/// A way is one line: its first leg starts at the place it sets out from,
/// its last ends at the place it is going to, each leg starts where the
/// one before it ended, and two legs in a row are never on one road.
pub proof fn lemma_a_way_is_one_line<P>(
    at: Seq<P>,
    steps: Seq<(u32, u32, u32)>,
    fallback: usize,
    from: P,
    to: P,
    start: (u32, u32),
    goal: (u32, u32),
    chain: Seq<u32>,
)
    ensures
        ({
            let legs = merged(hops(at, steps, fallback, from, to, start, goal, chain));
            &&& legs.len() > 0
            &&& legs[0].from == from
            &&& legs.last().to == to
            &&& forall|i: int| 0 <= i < legs.len() - 1 ==> (#[trigger] legs[i]).to == legs[i + 1].from
            &&& forall|i: int| 0 <= i < legs.len() - 1 ==> (#[trigger] legs[i]).road != legs[i + 1].road
        }),
{
    let hs = hops(at, steps, fallback, from, to, start, goal, chain);
    if chain.len() > 0 {
        let n = chain.len() - 1;
        assert(hs.len() == n + 2);
        assert forall|k: int| 0 <= k < hs.len() - 1 implies (#[trigger] hs[k]).1 == hs[k + 1].0 by {
            if k == 0 {
                if n > 0 {
                    assert(hs[1].0 == at[chain[0] as int]);
                }
            } else if k < n {
                assert(hs[k].1 == at[chain[k] as int]);
                assert(hs[k + 1].0 == at[chain[k] as int]);
            } else {
                assert(hs[k].1 == at[chain[n as int] as int]);
            }
        }
    }
    lemma_merged(hs);
}

fn road_or(found: Option<usize>, fallback: usize) -> (r: usize)
    ensures
        r == (match found {
            Some(x) => x,
            None => fallback,
        }),
{
    match found {
        Some(x) => x,
        None => fallback,
    }
}

/// The legs of a way: every step it takes, from the place it starts at
/// through the chain of nodes to the place it ends at, each on the road
/// that owns it (or the starting road where none does), with a run on one
/// road one leg.
pub fn legs<P: Copy>(
    at: &Vec<P>,
    steps: &Vec<(u32, u32, u32)>,
    from: P,
    from_road: usize,
    to: P,
    start: (u32, u32),
    goal: (u32, u32),
    chain: &Vec<u32>,
) -> (out: Vec<Leg<P>>)
    requires
        steps_sorted(steps@),
        forall|w: int| 0 <= w < chain@.len() ==> (#[trigger] chain@[w] as int) < at@.len(),
    ensures
        out@ == merged(hops(at@, steps@, from_road, from, to, start, goal, chain@)),
{
    let mut hs: Vec<(P, P, usize)> = Vec::new();
    let first_road = road_or(owner(steps, start.0, start.1), from_road);
    if chain.len() == 0 {
        hs.push((from, to, first_road));
    } else {
        hs.push((from, at[chain[0] as usize], first_road));
        let mut w: usize = 0;
        let last = chain.len() - 1;
        while w < last
            invariant
                last + 1 == chain@.len(),
                w <= last,
                steps_sorted(steps@),
                forall|x: int| 0 <= x < chain@.len() ==> (#[trigger] chain@[x] as int) < at@.len(),
                hs@ == seq![(from, at@[chain@[0] as int], first_road)] + Seq::new(
                    w as nat,
                    |x: int|
                        (
                            at@[chain@[x] as int],
                            at@[chain@[x + 1] as int],
                            run_by(steps@, chain@[x], chain@[x + 1], from_road),
                        ),
                ),
            decreases last - w,
        {
            let (a, b) = (chain[w], chain[w + 1]);
            let road = road_or(owner(steps, a, b), from_road);
            hs.push((at[a as usize], at[b as usize], road));
            w = w + 1;
            proof {
                assert(hs@ =~= seq![(from, at@[chain@[0] as int], first_road)] + Seq::new(
                    w as nat,
                    |x: int|
                        (
                            at@[chain@[x] as int],
                            at@[chain@[x + 1] as int],
                            run_by(steps@, chain@[x], chain@[x + 1], from_road),
                        ),
                ));
            }
        }
        let end_road = road_or(owner(steps, goal.0, goal.1), from_road);
        hs.push((at[chain[last] as usize], to, end_road));
    }
    proof {
        assert(hs@ =~= hops(at@, steps@, from_road, from, to, start, goal, chain@));
    }
    merge(hs)
}

/// Join a run of steps into legs, a run on one road one leg.
fn merge<P: Copy>(hs: Vec<(P, P, usize)>) -> (out: Vec<Leg<P>>)
    ensures
        out@ == merged(hs@),
{
    let mut out: Vec<Leg<P>> = Vec::new();
    let mut k: usize = 0;
    while k < hs.len()
        invariant
            k <= hs@.len(),
            out@ == merged(hs@.subrange(0, k as int)),
        decreases hs@.len() - k,
    {
        let (a, b, road) = hs[k];
        proof {
            assert(hs@.subrange(0, k + 1).drop_last() =~= hs@.subrange(0, k as int));
        }
        let n = out.len();
        if n > 0 && out[n - 1].road == road {
            let start = out[n - 1].from;
            out.set(n - 1, Leg { road, from: start, to: b });
        } else {
            out.push(Leg { road, from: a, to: b });
        }
        k = k + 1;
    }
    proof {
        assert(hs@.subrange(0, hs@.len() as int) =~= hs@);
    }
    out
}

proof fn merged_map<P>(hs: Seq<(P, P, usize)>) -> (f: Seq<int>)
    requires
        hs.len() >= 1,
    ensures
        f.len() == hs.len(),
        merged(hs).len() >= 1,
        f[0] == 0,
        f[f.len() - 1] == merged(hs).len() - 1,
        forall|k: int| 0 <= k < f.len() - 1 ==> #[trigger] f[k + 1] == f[k] || f[k + 1] == f[k] + 1,
        forall|k: int| 0 <= k < f.len() - 1 ==> (#[trigger] f[k + 1] == f[k] + 1 <==> hs[k + 1].2 != hs[k].2),
        forall|k: int| 0 <= k < f.len() ==> 0 <= #[trigger] f[k] <= f[f.len() - 1],
        forall|k: int| 0 <= k < f.len() ==> merged(hs)[#[trigger] f[k]].road == hs[k].2,
        forall|k: int|
            0 <= k < f.len() - 1 && #[trigger] f[k + 1] == f[k] + 1 ==> merged(hs)[f[k]].to == hs[k].1
                && merged(hs)[f[k + 1]].from == hs[k + 1].0,
        merged(hs)[0].from == hs[0].0,
        merged(hs).last().to == hs.last().1,
    decreases hs.len(),
{
    if hs.len() == 1 {
        assert(hs.drop_last().len() == 0);
        assert(merged(hs.drop_last()).len() == 0);
        assert(merged(hs) == Seq::<Leg<P>>::empty().push(Leg { road: hs[0].2, from: hs[0].0, to: hs[0].1 }));
        assert(merged(hs)[0].road == hs[0].2);
        let f = seq![0int];
        assert(f[0] == 0);
        f
    } else {
        let d = hs.drop_last();
        let g = merged_map(d);
        let prev = merged(d);
        let m = merged(hs);
        let n = hs.len() - 1;
        assert(d.len() == n);
        if prev.last().road == hs.last().2 {
            let f = g.push(g[n - 1]);
            let top = prev.len() - 1;
            assert(m == prev.update(top, Leg { road: hs.last().2, from: prev.last().from, to: hs.last().1 }));
            assert(m.len() == prev.len());
            assert forall|i: int| 0 <= i < m.len() implies (#[trigger] m[i]).road == prev[i].road
                && m[i].from == prev[i].from by {}
            assert forall|i: int| 0 <= i < top implies #[trigger] m[i] == prev[i] by {}
            assert forall|k: int| 0 <= k < f.len() implies 0 <= #[trigger] f[k] <= f[f.len() - 1] by {
                if k < n {
                    assert(f[k] == g[k]);
                }
            }
            assert forall|k: int| 0 <= k < f.len() implies merged(hs)[#[trigger] f[k]].road == hs[k].2 by {
                if k < n {
                    assert(f[k] == g[k] && d[k] == hs[k]);
                    assert(prev[g[k]].road == d[k].2);
                } else {
                    assert(f[k] == top);
                }
            }
            assert forall|k: int|
                0 <= k < f.len() - 1 && #[trigger] f[k + 1] == f[k] + 1 implies merged(hs)[f[k]].to == hs[k].1
                && merged(hs)[f[k + 1]].from == hs[k + 1].0 by {
                assert(k + 1 < n);
                assert(f[k] == g[k] && f[k + 1] == g[k + 1] && d[k] == hs[k] && d[k + 1] == hs[k + 1]);
                assert(g[k + 1] <= g[n - 1]);
                assert(g[k] < top);
                assert(m[g[k]] == prev[g[k]]);
                assert(m[g[k + 1]].from == prev[g[k + 1]].from);
            }
            assert forall|k: int| 0 <= k < f.len() - 1 implies (#[trigger] f[k + 1] == f[k] + 1 <==> hs[k + 1].2
                != hs[k].2) by {
                if k < n - 1 {
                    assert(f[k] == g[k] && f[k + 1] == g[k + 1] && d[k] == hs[k] && d[k + 1] == hs[k + 1]);
                } else {
                    assert(d[n - 1] == hs[n - 1]);
                }
            }
            assert forall|k: int| 0 <= k < f.len() - 1 implies #[trigger] f[k + 1] == f[k] || f[k + 1] == f[k] + 1 by {
                if k < n - 1 {
                    assert(f[k] == g[k] && f[k + 1] == g[k + 1]);
                }
            }
            assert(d[0] == hs[0]);
            f
        } else {
            let f = g.push(g[n - 1] + 1);
            assert(m == prev.push(Leg { road: hs.last().2, from: hs.last().0, to: hs.last().1 }));
            assert(m.len() == prev.len() + 1);
            assert(f[n] == prev.len());
            assert forall|i: int| 0 <= i < prev.len() implies #[trigger] m[i] == prev[i] by {}
            assert forall|k: int| 0 <= k < f.len() implies 0 <= #[trigger] f[k] <= f[f.len() - 1] by {
                if k < n {
                    assert(f[k] == g[k]);
                }
            }
            assert forall|k: int| 0 <= k < f.len() implies merged(hs)[#[trigger] f[k]].road == hs[k].2 by {
                if k < n {
                    assert(f[k] == g[k] && d[k] == hs[k]);
                    assert(m[g[k]] == prev[g[k]]);
                } else {
                    assert(m[prev.len() as int].road == hs.last().2);
                }
            }
            assert forall|k: int|
                0 <= k < f.len() - 1 && #[trigger] f[k + 1] == f[k] + 1 implies merged(hs)[f[k]].to == hs[k].1
                && merged(hs)[f[k + 1]].from == hs[k + 1].0 by {
                if k + 1 < n {
                    assert(f[k] == g[k] && f[k + 1] == g[k + 1] && d[k] == hs[k] && d[k + 1] == hs[k + 1]);
                } else {
                    assert(d[n - 1] == hs[n - 1]);
                }
            }
            assert forall|k: int| 0 <= k < f.len() - 1 implies (#[trigger] f[k + 1] == f[k] + 1 <==> hs[k + 1].2
                != hs[k].2) by {
                if k < n - 1 {
                    assert(f[k] == g[k] && f[k + 1] == g[k + 1] && d[k] == hs[k] && d[k + 1] == hs[k + 1]);
                } else {
                    assert(d[n - 1] == hs[n - 1]);
                }
            }
            assert forall|k: int| 0 <= k < f.len() - 1 implies #[trigger] f[k + 1] == f[k] || f[k + 1] == f[k] + 1 by {
                if k < n - 1 {
                    assert(f[k] == g[k] && f[k + 1] == g[k + 1]);
                }
            }
            assert(d[0] == hs[0]);
            f
        }
    }
}

/// The `k`th place a way passes: where it sets out, then the nodes of its
/// chain in order, then where it is going.
pub open spec fn way_place<P>(at: Seq<P>, from: P, to: P, chain: Seq<u32>, k: int) -> P {
    if k == 0 {
        from
    } else if k <= chain.len() {
        at[chain[k - 1] as int]
    } else {
        to
    }
}

/// The road that owns the `k`th step of a way (or `fallback` where no
/// road has it): the step from where it sets out onto its first node is
/// the starting step, each step between two nodes of its chain is that
/// step, and the last is the goal's step.
pub open spec fn way_road(
    steps: Seq<(u32, u32, u32)>,
    fallback: usize,
    start: (u32, u32),
    goal: (u32, u32),
    chain: Seq<u32>,
    k: int,
) -> usize {
    if k == 0 {
        run_by(steps, start.0, start.1, fallback)
    } else if k < chain.len() {
        run_by(steps, chain[k - 1], chain[k], fallback)
    } else {
        run_by(steps, goal.0, goal.1, fallback)
    }
}

/// Every step of a way is driven on the road that owns it: the way's
/// steps, from where it sets out through its chain to where it is going,
/// fall into its legs in order, each leg holding a run of consecutive
/// steps; every step lies in a leg on the road that owns that step; a new
/// leg starts exactly where the owning road changes; and each leg runs
/// from the place its first step starts at to the place its last step
/// ends at.
pub proof fn lemma_every_step_on_its_owner<P>(
    at: Seq<P>,
    steps: Seq<(u32, u32, u32)>,
    fallback: usize,
    from: P,
    to: P,
    start: (u32, u32),
    goal: (u32, u32),
    chain: Seq<u32>,
)
    ensures
        ({
            let legs = merged(hops(at, steps, fallback, from, to, start, goal, chain));
            let h = chain.len() + 1;
            exists|f: Seq<int>|
                {
                    &&& f.len() == h
                    &&& f[0] == 0
                    &&& f[h - 1] == legs.len() - 1
                    &&& forall|k: int| 0 <= k < h - 1 ==> #[trigger] f[k + 1] == f[k] || f[k + 1] == f[k] + 1
                    &&& forall|k: int|
                        0 <= k < h - 1 ==> (#[trigger] f[k + 1] == f[k] + 1 <==> way_road(
                            steps,
                            fallback,
                            start,
                            goal,
                            chain,
                            k + 1,
                        ) != way_road(steps, fallback, start, goal, chain, k))
                    &&& forall|k: int|
                        0 <= k < h ==> legs[#[trigger] f[k]].road == way_road(
                            steps,
                            fallback,
                            start,
                            goal,
                            chain,
                            k,
                        )
                    &&& forall|k: int|
                        0 <= k < h - 1 && #[trigger] f[k + 1] == f[k] + 1 ==> legs[f[k]].to == way_place(
                            at,
                            from,
                            to,
                            chain,
                            k + 1,
                        ) && legs[f[k + 1]].from == way_place(at, from, to, chain, k + 1)
                }
                && legs.len() >= 1 && legs[0].from == from && legs.last().to == to
        }),
{
    let hs = hops(at, steps, fallback, from, to, start, goal, chain);
    let h = chain.len() + 1;
    assert(hs.len() == h);
    assert forall|k: int| 0 <= k < h implies #[trigger] hs[k] == (
        way_place(at, from, to, chain, k),
        way_place(at, from, to, chain, k + 1),
        way_road(steps, fallback, start, goal, chain, k),
    ) by {
        if chain.len() > 0 {
            if k == 0 {
            } else if k < chain.len() {
                assert(hs[k] == (
                    at[chain[k - 1] as int],
                    at[chain[k] as int],
                    run_by(steps, chain[k - 1], chain[k], fallback),
                ));
            } else {
                assert(k == chain.len());
            }
        }
    }
    let f = merged_map(hs);
    let legs = merged(hs);
    assert forall|k: int| 0 <= k < h implies legs[#[trigger] f[k]].road == way_road(
        steps,
        fallback,
        start,
        goal,
        chain,
        k,
    ) by {
        assert(hs[k].2 == way_road(steps, fallback, start, goal, chain, k));
    }
    assert forall|k: int| 0 <= k < h - 1 implies (#[trigger] f[k + 1] == f[k] + 1 <==> way_road(
        steps,
        fallback,
        start,
        goal,
        chain,
        k + 1,
    ) != way_road(steps, fallback, start, goal, chain, k)) by {
        assert(hs[k].2 == way_road(steps, fallback, start, goal, chain, k));
        assert(hs[k + 1].2 == way_road(steps, fallback, start, goal, chain, k + 1));
    }
    assert forall|k: int|
        0 <= k < h - 1 && #[trigger] f[k + 1] == f[k] + 1 implies legs[f[k]].to == way_place(
        at,
        from,
        to,
        chain,
        k + 1,
    ) && legs[f[k + 1]].from == way_place(at, from, to, chain, k + 1) by {
        assert(hs[k].1 == way_place(at, from, to, chain, k + 1));
        assert(hs[k + 1].0 == way_place(at, from, to, chain, k + 1));
    }
    assert(hs[0].0 == from);
    assert(hs[h - 1].1 == to);
}

} // verus!
