//! The FACES of a town's street graph: the loops round it that every
//! agent rides, walked by the classic face traversal of a planar graph.
//!
//! The successor of a directed street is a PERMUTATION of the directed
//! streets (`lemma_next_then_prev`, `lemma_prev_then_next`), so every
//! orbit of it closes and the orbits partition them. On a street grid an
//! orbit is the way round one block, or round a group of them where the
//! grid has gaps, or the outside of the whole town.
use super::{
    insert_sorted, lemma_next_moves, lemma_next_then_prev, lt, same, search, sorted, Key, Streets,
};
use vstd::prelude::*;

verus! {

/// No street is on two faces, nor twice on one.
#[verifier::opaque]
pub open spec fn faces_apart(out: Seq<Vec<Key>>) -> bool {
    forall|f: int, g: int, a: int, b: int|
        0 <= f < g < out.len() && 0 <= a < out[f]@.len() && 0 <= b < out[g]@.len()
            ==> #[trigger] out[f]@[a] != #[trigger] out[g]@[b]
}

/// The streets the faces hold are the ones `seen` holds.
#[verifier::opaque]
pub open spec fn faces_cover(out: Seq<Vec<Key>>, seen: Seq<Key>) -> bool {
    forall|k: Key|
        seen.contains(k) <==> exists|f: int, a: int|
            0 <= f < out.len() && 0 <= a < out[f]@.len() && #[trigger] out[f]@[a] == k
}

impl Streets {
    /// The street a face walk takes after `k`.
    pub open spec fn succ(&self, k: Key) -> Key {
        self.spec_next(k.0, k.1)
    }

    /// A FACE: a closed orbit of the walk, each street the one the walk
    /// takes after the one before it and the first after the last, no
    /// street twice.
    #[verifier::opaque]
    pub open spec fn is_face(&self, c: Seq<Key>) -> bool {
        &&& c.len() >= 2
        &&& forall|i: int| 0 <= i < c.len() ==> self.directed_has(#[trigger] c[i])
        &&& forall|i: int| 0 <= i < c.len() - 1 ==> c[i + 1] == self.succ(#[trigger] c[i])
        &&& self.succ(c[c.len() - 1]) == c[0]
        &&& c.no_duplicates()
    }

    /// Whatever a set of streets holds, it holds the street the walk came
    /// along before it: what every union of whole faces is.
    #[verifier::opaque]
    pub open spec fn closed_back(&self, seen: Seq<Key>) -> bool {
        forall|k: Key|
            #![trigger seen.contains(k)]
            seen.contains(k) ==> self.directed_has(k) && seen.contains(self.spec_prev(k.0, k.1))
    }

    proof fn lemma_fold_back(&self, seen: Seq<Key>)
        requires
            forall|k: Key|
                #![trigger seen.contains(k)]
                seen.contains(k) ==> self.directed_has(k) && seen.contains(
                    self.spec_prev(k.0, k.1),
                ),
        ensures
            self.closed_back(seen),
    {
        reveal(Streets::closed_back);
    }

    proof fn lemma_back(&self, seen: Seq<Key>, k: Key)
        requires
            self.closed_back(seen),
            seen.contains(k),
        ensures
            self.directed_has(k),
            seen.contains(self.spec_prev(k.0, k.1)),
    {
        reveal(Streets::closed_back);
    }

    /// Every face starts at the least street that no earlier face holds.
    #[verifier::opaque]
    pub open spec fn faces_in_order(&self, out: Seq<Vec<Key>>) -> bool {
        forall|f: int, k: Key|
            #![trigger out[f]@[0], self.directed_has(k)]
            0 <= f < out.len() && self.directed_has(k) && lt(k, out[f]@[0]) ==> exists|g: int, a: int|
                0 <= g < f && 0 <= a < out[g]@.len() && #[trigger] out[g]@[a] == k
    }

    /// Whether every list of `out` is a face.
    #[verifier::opaque]
    pub open spec fn all_faces(&self, out: Seq<Vec<Key>>) -> bool {
        forall|f: int| 0 <= f < out.len() ==> self.is_face(#[trigger] out[f]@)
    }

    /// Every face of the street graph, each as the streets it walks in
    /// order, starting from the least street that no earlier face holds.
    /// Marking a whole orbit when it is first reached cuts each
    /// face exactly once however many of its streets the outer loop
    /// passes: every directed street is on EXACTLY one face.
    ///
    /// The lanes an agent rides round a face are cut from the crossings it
    /// turns at, which are the far ends of its streets.
    #[verifier::rlimit(80)]
    pub fn faces(&self) -> (out: Vec<Vec<Key>>)
        requires
            self.bounded(),
        ensures
            forall|f: int| 0 <= f < out@.len() ==> self.is_face(#[trigger] out@[f]@),
            forall|f: int, g: int, a: int, b: int|
                0 <= f < g < out@.len() && 0 <= a < out@[f]@.len() && 0 <= b < out@[g]@.len()
                    ==> #[trigger] out@[f]@[a] != #[trigger] out@[g]@[b],
            forall|k: Key|
                self.directed_has(k) ==> exists|f: int, a: int|
                    0 <= f < out@.len() && 0 <= a < out@[f]@.len() && #[trigger] out@[f]@[a]
                        == k,
            self.faces_in_order(out@),
    {
        let d = self.directed();
        let dl = d.len();
        proof {
            assert(usize::MAX as int % 2 == 1);
            assert(dl < usize::MAX);
        }
        let cap = self.len() * 2 + 1;
        let mut seen: Vec<Key> = Vec::new();
        let mut out: Vec<Vec<Key>> = Vec::new();
        let mut idx: usize = 0;
        proof {
            reveal(sorted);
            reveal(Streets::all_faces);
            reveal(faces_apart);
            reveal(faces_cover);
            reveal(Streets::closed_back);
            reveal(Streets::faces_in_order);
        }
        while idx < d.len()
            invariant
                self.bounded(),
                sorted(d@),
                self.faces_in_order(out@),
                d@.len() == 2 * self.size(),
                forall|k: Key| d@.contains(k) <==> self.directed_has(k),
                cap == 2 * self.size() + 1,
                idx <= d@.len(),
                sorted(seen@),
                self.closed_back(seen@),
                self.all_faces(out@),
                faces_apart(out@),
                faces_cover(out@, seen@),
                forall|x: int| 0 <= x < idx ==> seen@.contains(#[trigger] d@[x]),
            decreases d@.len() - idx,
        {
            let start = d[idx];
            assert(d@.contains(start));
            let p = search(&seen, start);
            if p < seen.len() && same(seen[p], start) {
                idx += 1;
                continue;
            }
            let ghost seen0 = seen@;
            let ghost out0 = out@;
            let walk = self.walk_face(start, &mut seen, &d, cap);
            proof {
                self.lemma_faces_grow(out0, walk, seen0, seen@);
            }
            out.push(walk);
            proof {
                assert(out@ == out0.push(walk));
                self.lemma_faces_in_order_grow(out0, walk, seen0, d@, idx as int);
                assert forall|x: int| 0 <= x < idx + 1 implies seen@.contains(#[trigger] d@[x]) by {
                    if x == idx {
                        assert(walk@[0] == start);
                        assert(walk@.contains(start));
                    } else {
                        assert(seen0.contains(d@[x]));
                    }
                }
            }
            idx += 1;
        }
        proof {
            reveal(Streets::all_faces);
            reveal(faces_apart);
            reveal(faces_cover);
            assert forall|k: Key| self.directed_has(k) implies exists|f: int, a: int|
                0 <= f < out@.len() && 0 <= a < out@[f]@.len() && #[trigger] out@[f]@[a] == k by {
                assert(d@.contains(k));
                let x = choose|x: int| 0 <= x < d@.len() && d@[x] == k;
                assert(seen@.contains(d@[x]));
            }
        }
        out
    }

    proof fn lemma_faces_in_order_grow(
        &self,
        out0: Seq<Vec<Key>>,
        walk: Vec<Key>,
        seen0: Seq<Key>,
        d: Seq<Key>,
        idx: int,
    )
        requires
            self.faces_in_order(out0),
            faces_cover(out0, seen0),
            sorted(d),
            0 <= idx < d.len(),
            forall|k: Key| d.contains(k) <==> self.directed_has(k),
            forall|x: int| 0 <= x < idx ==> seen0.contains(#[trigger] d[x]),
            walk@.len() >= 1,
            walk@[0] == d[idx],
        ensures
            ({
                let o = out0.push(walk);
                self.faces_in_order(o)
            }),
    {
        reveal(Streets::faces_in_order);
        reveal(faces_cover);
        reveal(sorted);
        let o = out0.push(walk);
        assert forall|f: int, k: Key|
            #![trigger o[f]@[0], self.directed_has(k)]
            0 <= f < o.len() && self.directed_has(k) && lt(k, o[f]@[0]) implies exists|g: int, a: int|
            0 <= g < f && 0 <= a < o[g]@.len() && #[trigger] o[g]@[a] == k by {
            if f < out0.len() {
                assert(o[f] == out0[f]);
                let (g, a) = choose|g: int, a: int|
                    0 <= g < f && 0 <= a < out0[g]@.len() && #[trigger] out0[g]@[a] == k;
                assert(o[g] == out0[g]);
            } else {
                assert(o[f]@ == walk@);
                assert(d.contains(k));
                let x = choose|x: int| 0 <= x < d.len() && d[x] == k;
                if x >= idx {
                    if x > idx {
                        assert(lt(d[idx], d[x]));
                    }
                    assert(false);
                }
                assert(seen0.contains(d[x]));
                let (g, a) = choose|g: int, a: int|
                    0 <= g < out0.len() && 0 <= a < out0[g]@.len() && #[trigger] out0[g]@[a] == k;
                assert(o[g] == out0[g]);
            }
        }
    }

    proof fn lemma_faces_grow(
        &self,
        out0: Seq<Vec<Key>>,
        walk: Vec<Key>,
        seen0: Seq<Key>,
        seen: Seq<Key>,
    )
        requires
            self.all_faces(out0),
            faces_apart(out0),
            faces_cover(out0, seen0),
            self.is_face(walk@),
            forall|i: int| 0 <= i < walk@.len() ==> !seen0.contains(#[trigger] walk@[i]),
            forall|k: Key| seen.contains(k) <==> (seen0.contains(k) || walk@.contains(k)),
        ensures
            self.all_faces(out0.push(walk)),
            faces_apart(out0.push(walk)),
            faces_cover(out0.push(walk), seen),
    {
        reveal(Streets::all_faces);
        reveal(faces_apart);
        reveal(faces_cover);
        reveal(Streets::is_face);
        let o = out0.push(walk);
        assert forall|f: int| 0 <= f < o.len() implies self.is_face(#[trigger] o[f]@) by {
            if f < out0.len() {
                assert(o[f] == out0[f]);
            }
        }
        assert forall|f: int, g: int, a: int, b: int|
            0 <= f < g < o.len() && 0 <= a < o[f]@.len() && 0 <= b < o[g]@.len() implies #[trigger] o[f]@[a]
                != #[trigger] o[g]@[b] by {
            assert(o[f] == out0[f]);
            if g == o.len() - 1 {
                assert(seen0.contains(out0[f]@[a]));
            } else {
                assert(o[g] == out0[g]);
            }
        }
        assert forall|k: Key| seen.contains(k) <==> exists|f: int, a: int|
            0 <= f < o.len() && 0 <= a < o[f]@.len() && #[trigger] o[f]@[a] == k by {
            if seen.contains(k) {
                if seen0.contains(k) {
                    let (f, a) = choose|f: int, a: int|
                        0 <= f < out0.len() && 0 <= a < out0[f]@.len() && #[trigger] out0[f]@[a]
                            == k;
                    assert(o[f]@[a] == k);
                } else {
                    let a = choose|a: int| 0 <= a < walk@.len() && walk@[a] == k;
                    assert(o[out0.len() as int]@[a] == k);
                }
            }
            if exists|f: int, a: int|
                0 <= f < o.len() && 0 <= a < o[f]@.len() && #[trigger] o[f]@[a] == k {
                let (f, a) = choose|f: int, a: int|
                    0 <= f < o.len() && 0 <= a < o[f]@.len() && #[trigger] o[f]@[a] == k;
                if f < out0.len() {
                    assert(o[f] == out0[f]);
                    assert(out0[f]@[a] == k);
                } else {
                    assert(walk@[a] == k);
                }
            }
        }
    }

    /// Walk the face that `start` is on, marking every street of it seen.
    fn walk_face(&self, start: Key, seen: &mut Vec<Key>, d: &Vec<Key>, cap: usize) -> (walk: Vec<
        Key,
    >)
        requires
            self.bounded(),
            sorted(old(seen)@),
            self.closed_back(old(seen)@),
            d@.len() == 2 * self.size(),
            forall|k: Key| d@.contains(k) <==> self.directed_has(k),
            cap == 2 * self.size() + 1,
            self.directed_has(start),
            !old(seen)@.contains(start),
        ensures
            self.is_face(walk@),
            walk@.len() >= 2,
            walk@[0] == start,
            forall|i: int| 0 <= i < walk@.len() ==> !old(seen)@.contains(#[trigger] walk@[i]),
            forall|k: Key|
                #![trigger final(seen)@.contains(k)]
                #![trigger old(seen)@.contains(k)]
                #![trigger walk@.contains(k)]
                final(seen)@.contains(k) <==> (old(seen)@.contains(k) || walk@.contains(k)),
            sorted(final(seen)@),
            self.closed_back(final(seen)@),
    {
        let ghost seen0 = seen@;
        let mut walk: Vec<Key> = Vec::new();
        let mut at = start;
        let mut t: usize = 0;
        loop
            invariant_except_break
                self.bounded(),
                sorted(seen@),
                self.closed_back(seen0),
                d@.len() == 2 * self.size(),
                forall|k: Key| d@.contains(k) <==> self.directed_has(k),
                cap == 2 * self.size() + 1,
                self.directed_has(start),
                !seen0.contains(start),
                t == walk@.len(),
                walk@.len() == 0 ==> at == start,
                walk@.len() > 0 ==> walk@[0] == start && at == self.succ(walk@.last()),
                forall|i: int|
                    0 <= i < walk@.len() - 1 ==> walk@[i + 1] == self.succ(#[trigger] walk@[i]),
                forall|i: int| 0 <= i < walk@.len() ==> self.directed_has(#[trigger] walk@[i]),
                forall|i: int| 0 <= i < walk@.len() ==> !seen0.contains(#[trigger] walk@[i]),
                walk@.no_duplicates(),
                forall|k: Key| seen@.contains(k) <==> (seen0.contains(k) || walk@.contains(k)),
                self.directed_has(at),
                !seen0.contains(at),
                !walk@.contains(at),
            ensures
                walk@.len() >= 2,
                walk@[0] == start,
                self.succ(walk@.last()) == start,
                forall|i: int|
                    0 <= i < walk@.len() - 1 ==> walk@[i + 1] == self.succ(#[trigger] walk@[i]),
                forall|i: int| 0 <= i < walk@.len() ==> self.directed_has(#[trigger] walk@[i]),
                forall|i: int| 0 <= i < walk@.len() ==> !seen0.contains(#[trigger] walk@[i]),
                walk@.no_duplicates(),
                forall|k: Key| seen@.contains(k) <==> (seen0.contains(k) || walk@.contains(k)),
                sorted(seen@),
                self.closed_back(seen0),
                self.bounded(),
            decreases cap - t,
        {
            proof {
                self.lemma_walk_fits(walk@, at, d@);
            }
            let q = search(seen, at);
            if t >= cap || (q < seen.len() && same(seen[q], at)) {
                break;
            }
            let ghost before = walk@;
            insert_sorted(seen, at);
            walk.push(at);
            proof {
                self.lemma_walk_push(before, at, walk@, seen0, seen@);
            }
            let prev_at = at;
            at = self.next(at.0, at.1);
            t += 1;
            proof {
                lemma_next_then_prev(*self, prev_at.0, prev_at.1);
                lemma_next_moves(*self, prev_at.0, prev_at.1);
            }
            if same(at, start) {
                break;
            }
            proof {
                self.lemma_fresh(walk@, at, seen0);
            }
        }
        proof {
            reveal(Streets::is_face);
            assert forall|k: Key|
                #![trigger seen@.contains(k)]
                seen@.contains(k) implies self.directed_has(k) && seen@.contains(
                    self.spec_prev(k.0, k.1),
                ) by {
                if seen0.contains(k) {
                    self.lemma_back(seen0, k);
                } else {
                    let a = choose|a: int| 0 <= a < walk@.len() && walk@[a] == k;
                    let l = if a == 0 {
                        walk@.last()
                    } else {
                        walk@[a - 1]
                    };
                    lemma_next_then_prev(*self, l.0, l.1);
                    assert(walk@.contains(l));
                }
            }
            self.lemma_fold_back(seen@);
            assert(self.is_face(walk@));
        }
        walk
    }

    proof fn lemma_walk_push(
        &self,
        before: Seq<Key>,
        at: Key,
        walk: Seq<Key>,
        seen0: Seq<Key>,
        seen: Seq<Key>,
    )
        requires
            walk == before.push(at),
            before.len() > 0 ==> at == self.succ(before.last()),
            forall|i: int|
                0 <= i < before.len() - 1 ==> before[i + 1] == self.succ(#[trigger] before[i]),
            forall|i: int| 0 <= i < before.len() ==> self.directed_has(#[trigger] before[i]),
            forall|i: int| 0 <= i < before.len() ==> !seen0.contains(#[trigger] before[i]),
            before.no_duplicates(),
            !before.contains(at),
            !seen0.contains(at),
            self.directed_has(at),
            forall|k: Key| seen.contains(k) <==> (seen0.contains(k) || before.contains(k) || k == at),
        ensures
            forall|i: int| 0 <= i < walk.len() - 1 ==> walk[i + 1] == self.succ(#[trigger] walk[i]),
            forall|i: int| 0 <= i < walk.len() ==> self.directed_has(#[trigger] walk[i]),
            forall|i: int| 0 <= i < walk.len() ==> !seen0.contains(#[trigger] walk[i]),
            walk.no_duplicates(),
            forall|k: Key| seen.contains(k) <==> (seen0.contains(k) || walk.contains(k)),
    {
        assert forall|i: int| 0 <= i < walk.len() - 1 implies walk[i + 1] == self.succ(
            #[trigger] walk[i],
        ) by {
            if i < walk.len() - 2 {
                assert(before[i + 1] == self.succ(before[i]));
            }
        }
        assert forall|i: int| 0 <= i < walk.len() implies self.directed_has(#[trigger] walk[i])
            && !seen0.contains(walk[i]) by {
            if i < before.len() {
                assert(walk[i] == before[i]);
            }
        }
        assert forall|k: Key| seen.contains(k) <==> (seen0.contains(k) || walk.contains(k)) by {
            if walk.contains(k) && k != at {
                let y = choose|y: int| 0 <= y < walk.len() && walk[y] == k;
                assert(before[y] == k);
            }
            if before.contains(k) {
                let y = choose|y: int| 0 <= y < before.len() && before[y] == k;
                assert(walk[y] == k);
            }
            if k == at {
                assert(walk[walk.len() - 1] == at);
            }
        }
        assert forall|a: int, b: int| 0 <= a < b < walk.len() implies walk[a] != walk[b] by {
            if b == walk.len() - 1 {
                assert(before.contains(before[a]));
            } else {
                assert(walk[a] == before[a] && walk[b] == before[b]);
            }
        }
    }

    /// A walk of distinct streets and one more street it lacks are all
    /// streets of the graph, so there are no more of them than that.
    proof fn lemma_walk_fits(&self, walk: Seq<Key>, at: Key, d: Seq<Key>)
        requires
            walk.no_duplicates(),
            !walk.contains(at),
            self.directed_has(at),
            forall|i: int| 0 <= i < walk.len() ==> self.directed_has(#[trigger] walk[i]),
            forall|k: Key| d.contains(k) <==> self.directed_has(k),
        ensures
            walk.len() + 1 <= d.len(),
    {
        let w = walk.push(at);
        assert(w.no_duplicates()) by {
            assert forall|a: int, b: int| 0 <= a < b < w.len() implies w[a] != w[b] by {
                if b == w.len() - 1 {
                    assert(walk.contains(walk[a]));
                }
            }
        }
        w.unique_seq_to_set();
        assert(w.to_set().subset_of(d.to_set())) by {
            assert forall|k: Key| w.to_set().contains(k) implies d.to_set().contains(k) by {
                let y = choose|y: int| 0 <= y < w.len() && w[y] == k;
                if y < walk.len() {
                    assert(self.directed_has(walk[y]));
                }
            }
        }
        vstd::set_lib::lemma_len_subset(w.to_set(), d.to_set());
        d.lemma_cardinality_of_set();
    }

    /// Where a walk of a face goes next is a street it has not taken and
    /// no earlier face holds: the walk is one to one, and the earlier
    /// faces already hold whatever comes before any street of theirs.
    proof fn lemma_fresh(&self, walk: Seq<Key>, at: Key, seen0: Seq<Key>)
        requires
            self.bounded(),
            walk.len() > 0,
            at == self.succ(walk.last()),
            at != walk[0],
            forall|i: int| 0 <= i < walk.len() - 1 ==> walk[i + 1] == self.succ(#[trigger] walk[i]),
            forall|i: int| 0 <= i < walk.len() ==> self.directed_has(#[trigger] walk[i]),
            forall|i: int| 0 <= i < walk.len() ==> !seen0.contains(#[trigger] walk[i]),
            walk.no_duplicates(),
            self.closed_back(seen0),
        ensures
            self.directed_has(at),
            !walk.contains(at),
            !seen0.contains(at),
    {
        let last = walk.last();
        assert(self.directed_has(last));
        lemma_next_then_prev(*self, last.0, last.1);
        if walk.contains(at) {
            let y = choose|y: int| 0 <= y < walk.len() && walk[y] == at;
            assert(y > 0);
            assert(walk[y] == self.succ(walk[y - 1]));
            lemma_next_then_prev(*self, walk[y - 1].0, walk[y - 1].1);
            assert(walk[y - 1] == last);
            assert(false);
        }
        if seen0.contains(at) {
            self.lemma_back(seen0, at);
            assert(false);
        }
    }
}

} // verus!
