//! Shared trunks: where a later road runs on an earlier road's line, the
//! runs of its points that stand on the earlier road, and the fork zone
//! either side of each where it leaves through the owner's corridor.
use vstd::prelude::*;

verus! {

/// The fewest points that make a shared run a trunk rather than a
/// crossing: two roads crossing at an angle stand on one another for a
/// point or two and are left as they are.
pub const LEAST: usize = 3;

/// Whether points `a` to `b` of a road, both included, are a whole run of
/// points that stand on an earlier road: every one of them does, and the
/// points either side do not.
pub open spec fn whole_run(on: Seq<bool>, a: int, b: int) -> bool {
    &&& 0 <= a <= b < on.len()
    &&& forall|k: int| a <= k <= b ==> #[trigger] on[k]
    &&& (a == 0 || !on[a - 1])
    &&& (b + 1 == on.len() || !on[b + 1])
}

/// Whether a whole run is long enough to be a trunk.
pub open spec fn trunk_run(on: Seq<bool>, a: int, b: int) -> bool {
    whole_run(on, a, b) && b - a + 1 >= LEAST
}

/// The first point of the fork zone before a run starting at `k0`: back
/// from it while the point before is in an owner's corridor, but not
/// back past `taken`.
pub open spec fn fork_lo(near: Seq<bool>, taken: int, k0: int) -> int
    decreases k0 - taken,
{
    if k0 > taken && near[k0 - 1] {
        fork_lo(near, taken, k0 - 1)
    } else {
        k0
    }
}

/// The last point of the fork zone after a run ending at `k1`: on from
/// it while the point after is in an owner's corridor, but not on to
/// `stop`.
pub open spec fn fork_hi(near: Seq<bool>, k1: int, stop: int) -> int
    decreases stop - k1,
{
    if k1 + 1 < stop && near[k1 + 1] {
        fork_hi(near, k1 + 1, stop)
    } else {
        k1
    }
}

/// The zones of the runs from the `i`th on, the earlier zones having
/// taken every point before `taken`: each run with its fork zone, which
/// stops short of the next run.
pub open spec fn zones_from(
    found: Seq<(usize, usize)>,
    near: Seq<bool>,
    i: int,
    taken: int,
) -> Seq<(usize, usize, usize, usize)>
    decreases found.len() - i,
{
    if i < 0 || i >= found.len() {
        Seq::empty()
    } else {
        let (k0, k1) = (found[i].0 as int, found[i].1 as int);
        let stop = if i + 1 < found.len() {
            found[i + 1].0 as int
        } else {
            near.len() as int
        };
        let f0 = fork_lo(near, taken, k0);
        let f1 = fork_hi(near, k1, stop);
        seq![(k0 as usize, k1 as usize, f0 as usize, f1 as usize)] + zones_from(
            found,
            near,
            i + 1,
            f1 + 1,
        )
    }
}

/// Whether `found` is every trunk run of `on`, in order along the road.
#[verifier::opaque]
pub open spec fn every_trunk_run(on: Seq<bool>, found: Seq<(usize, usize)>) -> bool {
    &&& forall|t: int| 0 <= t < found.len() ==> trunk_run(on, (#[trigger] found[t]).0 as int, found[t].1 as int)
    &&& forall|a: int, b: int| trunk_run(on, a, b) ==> exists|t: int|
        0 <= t < found.len() && #[trigger] found[t] == (a as usize, b as usize)
    &&& forall|t: int| 0 <= t < found.len() - 1 ==> #[trigger] found[t].1 < found[t + 1].0
}

proof fn lemma_found_at(on: Seq<bool>, found: Seq<(usize, usize)>, i: int)
    requires
        every_trunk_run(on, found),
        0 <= i < found.len(),
    ensures
        trunk_run(on, found[i].0 as int, found[i].1 as int),
        i + 1 < found.len() ==> found[i].1 < found[i + 1].0,
{
    reveal(every_trunk_run);
    assert(trunk_run(on, (found[i]).0 as int, found[i].1 as int));
}

proof fn lemma_fork_lo(near: Seq<bool>, taken: int, k0: int)
    requires
        taken <= k0,
    ensures
        taken <= fork_lo(near, taken, k0) <= k0,
    decreases k0 - taken,
{
    if k0 > taken && near[k0 - 1] {
        lemma_fork_lo(near, taken, k0 - 1);
    }
}

proof fn lemma_fork_hi(near: Seq<bool>, k1: int, stop: int)
    requires
        k1 < stop,
    ensures
        k1 <= fork_hi(near, k1, stop) < stop,
    decreases stop - k1,
{
    if k1 + 1 < stop && near[k1 + 1] {
        lemma_fork_hi(near, k1 + 1, stop);
    }
}

/// The trunk runs of a road, in order along it.
#[verifier::loop_isolation(false)]
fn find_runs(on: &[bool]) -> (found: Vec<(usize, usize)>)
    ensures
        every_trunk_run(on@, found@),
{
    let n = on.len();
    let mut found: Vec<(usize, usize)> = Vec::new();
    let mut k0: usize = 0;
    while k0 < n
        invariant
            n == on@.len(),
            k0 <= n,
            k0 == 0 || k0 == n || !on@[k0 - 1] || !on@[k0 as int],
            forall|t: int|
                0 <= t < found@.len() ==> trunk_run(on@, (#[trigger] found@[t]).0 as int, found@[t].1 as int)
                    && found@[t].1 < k0,
            forall|a: int, b: int| trunk_run(on@, a, b) && a < k0 ==> exists|t: int|
                0 <= t < found@.len() && #[trigger] found@[t] == (a as usize, b as usize),
            forall|t: int| 0 <= t < found@.len() - 1 ==> #[trigger] found@[t].1 < found@[t + 1].0,
        decreases n - k0,
    {
        if !on[k0] {
            proof {
                assert forall|a: int, b: int| trunk_run(on@, a, b) && a < k0 + 1 implies exists|t: int|
                    0 <= t < found@.len() && #[trigger] found@[t] == (a as usize, b as usize) by {
                    if a == k0 {
                        assert(on@[a]);
                    }
                }
            }
            k0 = k0 + 1;
        } else {
            let mut k1 = k0;
            while k1 + 1 < n && on[k1 + 1]
                invariant
                    n == on@.len(),
                    k0 <= k1 < n,
                    forall|k: int| k0 <= k <= k1 ==> #[trigger] on@[k],
                decreases n - k1,
            {
                k1 = k1 + 1;
            }
            proof {
                assert(whole_run(on@, k0 as int, k1 as int));
            }
            let ghost before = found@;
            if k1 + 1 - k0 >= LEAST {
                found.push((k0, k1));
                proof {
                    assert(found@ == before.push((k0, k1)));
                    assert forall|t: int|
                        0 <= t < found@.len() implies trunk_run(on@, (#[trigger] found@[t]).0 as int, found@[t].1 as int)
                            && found@[t].1 < k1 + 1 by {
                        if t < before.len() {
                            assert(found@[t] == before[t]);
                        }
                    }
                    assert forall|t: int| 0 <= t < found@.len() - 1 implies #[trigger] found@[t].1 < found@[t + 1].0 by {
                        if t + 1 < before.len() {
                            assert(found@[t] == before[t] && found@[t + 1] == before[t + 1]);
                        } else {
                            assert(found@[t] == before[t]);
                            assert(before[t].1 < k0);
                        }
                    }
                }
            }
            proof {
                assert forall|a: int, b: int| trunk_run(on@, a, b) && a < k1 + 1 implies exists|t: int|
                    0 <= t < found@.len() && #[trigger] found@[t] == (a as usize, b as usize) by {
                    if a < k0 {
                        let t = choose|t: int| 0 <= t < before.len() && #[trigger] before[t] == (a as usize, b as usize);
                        assert(found@[t] == before[t]);
                    } else if a == k0 {
                        if b != k1 {
                            if b < k1 {
                                assert(on@[b + 1]);
                            } else {
                                assert(on@[k1 + 1]);
                            }
                        }
                        assert(found@[found@.len() - 1] == (a as usize, b as usize));
                    } else {
                        assert(on@[a - 1]);
                    }
                }
            }
            k0 = k1 + 1;
        }
    }
    proof {
        reveal(every_trunk_run);
    }
    found
}

/// The maximal runs of a road's points that stand on an earlier road,
/// each at least `LEAST` long, with the fork zone either side of each:
/// past the run while still inside the owner's corridor. `on` says which
/// points stand on an earlier road, `near` which stand in an owner's
/// corridor. `(k0, k1, f0, f1)`, all inclusive: the run is `k0..=k1`
/// and its zone `f0..=f1`.
///
/// A fork zone stops at the neighbouring run's own, so every point is
/// pinned once.
pub fn runs(on: &[bool], near: &[bool]) -> (out: Vec<(usize, usize, usize, usize)>)
    requires
        on@.len() == near@.len(),
    ensures
        exists|found: Seq<(usize, usize)>|
            every_trunk_run(on@, found) && out@ == #[trigger] zones_from(found, near@, 0, 0),
{
    let found = find_runs(on);
    let n = near.len();
    let mut out: Vec<(usize, usize, usize, usize)> = Vec::new();
    let mut taken: usize = 0;
    let mut i: usize = 0;
    while i < found.len()
        invariant
            n == near@.len() == on@.len(),
            every_trunk_run(on@, found@),
            i <= found@.len(),
            taken <= n,
            i < found@.len() ==> taken <= found@[i as int].0,
            out@ + zones_from(found@, near@, i as int, taken as int) == zones_from(found@, near@, 0, 0),
        decreases found@.len() - i,
    {
        let (k0, k1) = found[i];
        proof {
            lemma_found_at(on@, found@, i as int);
            if i + 1 < found@.len() {
                lemma_found_at(on@, found@, i + 1);
            }
        }
        let stop = if i + 1 < found.len() {
            found[i + 1].0
        } else {
            n
        };
        let mut f0 = k0;
        while f0 > taken && near[f0 - 1]
            invariant
                taken <= f0 <= k0 < n,
                n == near@.len(),
                fork_lo(near@, taken as int, f0 as int) == fork_lo(near@, taken as int, k0 as int),
            decreases f0,
        {
            f0 = f0 - 1;
        }
        let mut f1 = k1;
        while f1 + 1 < stop && near[f1 + 1]
            invariant
                k1 <= f1 < stop <= n,
                n == near@.len(),
                fork_hi(near@, f1 as int, stop as int) == fork_hi(near@, k1 as int, stop as int),
            decreases stop - f1,
        {
            f1 = f1 + 1;
        }
        let ghost rest = zones_from(found@, near@, i + 1, f1 + 1);
        out.push((k0, k1, f0, f1));
        proof {
            assert(zones_from(found@, near@, i as int, taken as int) == seq![(k0, k1, f0, f1)] + rest);
            assert(out@ + rest =~= (out@.drop_last() + seq![(k0, k1, f0, f1)]) + rest);
            assert(out@.drop_last() + (seq![(k0, k1, f0, f1)] + rest) =~= out@ + rest);
        }
        taken = f1 + 1;
        i = i + 1;
    }
    proof {
        assert(zones_from(found@, near@, i as int, taken as int) =~= Seq::<(usize, usize, usize, usize)>::empty());
        assert(out@ + Seq::<(usize, usize, usize, usize)>::empty() =~= out@);
    }
    out
}

/// Every point of a road is pinned once: each fork zone holds its own
/// run, and the zones come in order along the road, each ending before
/// the next begins and before the next run.
#[verifier::spinoff_prover]
#[verifier::rlimit(60)]
pub proof fn lemma_pinned_once(on: Seq<bool>, near: Seq<bool>, found: Seq<(usize, usize)>, i: int, taken: int)
    requires
        on.len() == near.len(),
        near.len() <= usize::MAX,
        every_trunk_run(on, found),
        0 <= i <= found.len(),
        0 <= taken,
        i < found.len() ==> taken <= found[i].0,
    ensures
        ({
            let z = zones_from(found, near, i, taken);
            &&& z.len() == found.len() - i
            &&& forall|t: int| 0 <= t < z.len() ==> taken <= #[trigger] z[t].2 <= z[t].0 <= z[t].1 <= z[t].3 < near.len()
            &&& forall|t: int| 0 <= t < z.len() ==> z[t].0 == found[i + t].0 && z[t].1 == found[i + t].1
            &&& forall|t: int| 0 <= t < z.len() - 1 ==> #[trigger] z[t].3 < z[t + 1].2
            &&& forall|t: int| 0 <= t < z.len() - 1 ==> #[trigger] z[t].3 < z[t + 1].0
        }),
    decreases found.len() - i,
{
    if i < found.len() {
        let (k0, k1) = (found[i].0 as int, found[i].1 as int);
        lemma_found_at(on, found, i);
        let stop = if i + 1 < found.len() {
            found[i + 1].0 as int
        } else {
            near.len() as int
        };
        if i + 1 < found.len() {
            lemma_found_at(on, found, i + 1);
        }
        lemma_fork_lo(near, taken, k0);
        lemma_fork_hi(near, k1, stop);
        let f1 = fork_hi(near, k1, stop);
        lemma_pinned_once(on, near, found, i + 1, f1 + 1);
        let z = zones_from(found, near, i, taken);
        let rest = zones_from(found, near, i + 1, f1 + 1);
        let f0 = fork_lo(near, taken, k0);
        assert(z == seq![(k0 as usize, k1 as usize, f0 as usize, f1 as usize)] + rest);
        assert(z[0] == (k0 as usize, k1 as usize, f0 as usize, f1 as usize));
        assert(z[0].2 == f0 && z[0].3 == f1 && z[0].0 == k0 && z[0].1 == k1);
        assert forall|t: int| 0 <= t < z.len() implies taken <= #[trigger] z[t].2 <= z[t].0 <= z[t].1 <= z[t].3 < near.len() by {
            if t > 0 {
                assert(z[t] == rest[t - 1]);
            }
        }
        assert forall|t: int| 0 <= t < z.len() implies z[t].0 == found[i + t].0 && z[t].1 == found[i + t].1 by {
            if t > 0 {
                assert(z[t] == rest[t - 1]);
            }
        }
        assert forall|t: int| 0 <= t < z.len() - 1 implies #[trigger] z[t].3 < z[t + 1].2 by {
            if t > 0 {
                assert(z[t] == rest[t - 1] && z[t + 1] == rest[t]);
            } else {
                assert(z[1] == rest[0]);
            }
        }
        assert forall|t: int| 0 <= t < z.len() - 1 implies #[trigger] z[t].3 < z[t + 1].0 by {
            if t > 0 {
                assert(z[t] == rest[t - 1] && z[t + 1] == rest[t]);
            } else {
                assert(z[1] == rest[0]);
            }
        }
    }
}

} // verus!
