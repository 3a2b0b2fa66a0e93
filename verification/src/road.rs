//! Roads: the grid a road's waypoints are bucketed on, the way back from
//! a waypoint to the town that reached it, how a road's tarmac is cut
//! into stretches, and the dice a filling station is built from.
use vstd::prelude::*;

pub mod path;
pub mod ribbon;
pub mod station;
pub mod trunk;

verus! {

/// How far a cell's coordinate is shifted so every coordinate the grid
/// holds is a whole number from nought.
pub const HALF_AXIS: i64 = 0x10_0000;

/// How many cells an axis of the grid holds: twenty one bits.
pub const AXIS: i64 = 0x20_0000;

/// A coordinate's place on its axis: shifted by half the axis and taken
/// round it.
pub open spec fn axis_place(v: i32) -> int {
    (v as int + HALF_AXIS) % (AXIS as int)
}

/// A cell's key: its three places, one twenty one bit digit each, the
/// first the most significant.
pub open spec fn spec_key(c: [i32; 3]) -> int {
    axis_place(c[0]) * AXIS * AXIS + axis_place(c[1]) * AXIS + axis_place(c[2])
}

/// Whether a cell lies where the grid holds every cell apart.
pub open spec fn on_grid(c: [i32; 3]) -> bool {
    &&& -HALF_AXIS <= c[0] < HALF_AXIS
    &&& -HALF_AXIS <= c[1] < HALF_AXIS
    &&& -HALF_AXIS <= c[2] < HALF_AXIS
}

fn place(v: i32) -> (p: i64)
    ensures
        p == axis_place(v),
        0 <= p < AXIS,
{
    let lifted: u64 = (v as i64 + HALF_AXIS + 0x8000_0000) as u64;
    let p: u64 = lifted % (AXIS as u64);
    assert((v as int + HALF_AXIS + 0x8000_0000) % (AXIS as int) == axis_place(v)) by {
        assert(0x8000_0000 == 1024 * AXIS);
        vstd::arithmetic::div_mod::lemma_mod_multiples_vanish(
            1024,
            v as int + HALF_AXIS,
            AXIS as int,
        );
    }
    p as i64
}

/// A cell of the grid as one integer to sort on.
pub fn key_of(c: [i32; 3]) -> (k: i64)
    ensures
        k == spec_key(c),
        0 <= k,
{
    let a = place(c[0]);
    let b = place(c[1]);
    let d = place(c[2]);
    assert(a * AXIS * AXIS + b * AXIS + d < 0x8000_0000_0000_0000) by (nonlinear_arith)
        requires
            0 <= a < AXIS,
            0 <= b < AXIS,
            0 <= d < AXIS,
    ;
    assert(0 <= a * AXIS * AXIS + b * AXIS + d) by (nonlinear_arith)
        requires
            0 <= a < AXIS,
            0 <= b < AXIS,
            0 <= d < AXIS,
    ;
    a * AXIS * AXIS + b * AXIS + d
}

/// Two cells of the grid have one key only if they are one cell.
pub proof fn lemma_key_names_one_cell(a: [i32; 3], b: [i32; 3])
    requires
        on_grid(a),
        on_grid(b),
        spec_key(a) == spec_key(b),
    ensures
        a@ == b@,
{
    let (a0, a1, a2) = (axis_place(a[0]), axis_place(a[1]), axis_place(a[2]));
    let (b0, b1, b2) = (axis_place(b[0]), axis_place(b[1]), axis_place(b[2]));
    assert(a0 == a[0] + HALF_AXIS && a1 == a[1] + HALF_AXIS && a2 == a[2] + HALF_AXIS);
    assert(b0 == b[0] + HALF_AXIS && b1 == b[1] + HALF_AXIS && b2 == b[2] + HALF_AXIS);
    assert(a0 == b0 && a1 == b1 && a2 == b2) by (nonlinear_arith)
        requires
            0 <= a0 < AXIS,
            0 <= a1 < AXIS,
            0 <= a2 < AXIS,
            0 <= b0 < AXIS,
            0 <= b1 < AXIS,
            0 <= b2 < AXIS,
            a0 * AXIS * AXIS + a1 * AXIS + a2 == b0 * AXIS * AXIS + b1 * AXIS + b2,
    ;
    assert(a@ =~= b@);
}

/// Whether the walk back stops at waypoint `w`: it was reached from
/// itself (a town's own waypoint) or from somewhere off the field.
pub open spec fn stops(from: Seq<u32>, w: usize) -> bool {
    from[w as int] == w || from[w as int] >= from.len()
}

/// `out` is the walk back from `at` along `from`: it starts at `at`, each
/// next waypoint is the one the last was reached from, and it ends at the
/// first waypoint it stops at, or after one step for every waypoint of the
/// field.
pub open spec fn walked(from: Seq<u32>, at: usize, out: Seq<usize>) -> bool {
    &&& 1 <= out.len() <= from.len() + 1
    &&& out[0] == at
    &&& forall|i: int| 0 <= i < out.len() ==> #[trigger] out[i] < from.len()
    &&& forall|i: int|
        0 <= i < out.len() - 1 ==> !stops(from, #[trigger] out[i]) && out[i + 1] == from[out[i] as int]
    &&& out.len() == from.len() + 1 || stops(from, out.last())
}

/// The chain of waypoints from `at` back to its own town, where `from`
/// holds the waypoint each one was reached from.
pub fn walk_back(from: &[u32], at: usize) -> (out: Vec<usize>)
    requires
        at < from.len(),
    ensures
        walked(from@, at, out@),
{
    let ghost start = at;
    let mut here = at;
    let mut out: Vec<usize> = vec![at];
    let mut k: usize = 0;
    let mut done = false;
    while k < from.len() && !done
        invariant
            out.len() == k + 1,
            k <= from.len(),
            out[0] == start,
            here == out@.last(),
            forall|i: int| 0 <= i < out.len() ==> #[trigger] out[i] < from.len(),
            forall|i: int|
                0 <= i < out.len() - 1 ==> !stops(from@, #[trigger] out[i]) && out[i + 1]
                    == from@[out[i] as int],
            done ==> stops(from@, here),
        decreases from.len() - k + (if done { 0int } else { 1int }),
    {
        let prev = from[here] as usize;
        if prev == here || prev >= from.len() {
            done = true;
        } else {
            proof {
                assert(!stops(from@, out@[out.len() - 1]));
            }
            here = prev;
            out.push(here);
            k = k + 1;
        }
    }
    out
}

/// Every step of `from` that stays on the field and leaves a waypoint
/// lowers its rank, as a step of a shortest path search lowers the
/// distance the waypoint was reached at.
pub open spec fn lowers(from: Seq<u32>, rank: Seq<int>) -> bool {
    forall|i: int|
        0 <= i < from.len() && from[i] != i && from[i] < from.len() ==> rank[from[i] as int]
            < #[trigger] rank[i]
}

proof fn lemma_rank_falls(from: Seq<u32>, rank: Seq<int>, at: usize, out: Seq<usize>, i: int, j: int)
    requires
        rank.len() == from.len(),
        lowers(from, rank),
        walked(from, at, out),
        0 <= i < j < out.len(),
    ensures
        rank[out[j] as int] < rank[out[i] as int],
    decreases j - i,
{
    assert(out[j] < from.len() && out[j - 1] < from.len());
    assert(!stops(from, out[j - 1]));
    assert(rank[out[j] as int] < rank[out[j - 1] as int]);
    if i < j - 1 {
        lemma_rank_falls(from, rank, at, out, i, j - 1);
    }
}

/// Where every step lowers a waypoint's rank, the walk back passes no
/// waypoint twice, and so it ends at a town's own waypoint (or one
/// reached from off the field) and never by running out of steps.
pub proof fn lemma_walk_back_ends_home(from: Seq<u32>, rank: Seq<int>, at: usize, out: Seq<usize>)
    requires
        rank.len() == from.len(),
        lowers(from, rank),
        walked(from, at, out),
    ensures
        out.no_duplicates(),
        out.len() <= from.len(),
        stops(from, out.last()),
{
    assert forall|i: int, j: int| 0 <= i < out.len() && 0 <= j < out.len() && i != j implies out[i]
        != out[j] by {
        if i < j {
            lemma_rank_falls(from, rank, at, out, i, j);
        } else {
            lemma_rank_falls(from, rank, at, out, j, i);
        }
    }
    let ints = out.map_values(|v: usize| v as int);
    assert(ints.no_duplicates()) by {
        assert forall|i: int, j: int| 0 <= i < ints.len() && 0 <= j < ints.len() && i != j implies ints[i]
            != ints[j] by {
            assert(out[i] != out[j]);
        }
    }
    ints.unique_seq_to_set();
    assert(ints.to_set().subset_of(vstd::set_lib::set_int_range(0, from.len() as int))) by {
        assert forall|x: int| ints.to_set().contains(x) implies 0 <= x < from.len() by {
            let i = choose|i: int| 0 <= i < ints.len() && ints[i] == x;
            assert(out[i] < from.len());
        }
    }
    vstd::set_lib::lemma_int_range(0, from.len() as int);
    vstd::set_lib::lemma_len_subset(ints.to_set(), vstd::set_lib::set_int_range(0, from.len() as int));
}

} // verus!
