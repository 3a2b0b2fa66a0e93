//! Towns: the lots and the streets on a town's own grid, in whole blocks.
//!
//! A town is a local grid of blocks with streets between them. Where a
//! block stands in metres, and how much town there is at a point, are
//! measurements; which block fronts which street, and where the paving
//! runs, are counting, and the counting is what stands here.
use vstd::prelude::*;
use crate::model::Kind;
use crate::noise::{mix3, spec_mix3};
use self::street::{abs, faces, home_run, spec_faces, spec_home_run};

pub mod arm;
pub mod fractal;
pub mod fronts;
pub mod grade;
pub mod plot;
pub mod street;

verus! {

/// A town's own seed, off the body's and its index: one function, so
/// anything that has to ask a town's plan the same question it asked
/// itself gets the same dice.
pub fn town_seed(seed: u32, index: usize) -> (s: u32)
    requires
        (index as u32) * 977 <= u32::MAX,
    ensures
        s as int == (seed as int + (index as u32) * 977) % 0x1_0000_0000,
{
    #[verifier::truncate]
    let low = index as u32;
    seed.wrapping_add(low * 977)
}

/// What a block of a town's grid is: not town at all, houses with space
/// between them, the town proper, or downtown.
#[derive(Clone, Copy, Debug, PartialEq, Eq, Structural)]
pub enum Zone {
    /// Not town at all: country, and no block here.
    Away,
    /// Houses with space between them, one storey, set well back.
    Suburb,
    /// The town proper: streets of two and three storey buildings.
    Town,
    /// Downtown: the towers.
    Core,
}

/// The hash under which a suburb's block is left a field: a suburb fills
/// 0.55 of its blocks, so the hash read as a fraction under 0.45.
pub const SUBURB_EMPTY_UNDER: u32 = 1_932_735_284;

/// The hash under which a block of town is left a plaza: 0.15 of them.
pub const PLAZA_UNDER: u32 = 644_245_095;

/// The hash under which a tall block is a block rather than a tower.
pub const BLOCK_UNDER: u32 = 2_576_980_378;

/// The hash under which a one storey lot is a bungalow.
pub const BUNGALOW_UNDER: u32 = 1_932_735_284;

/// The hash under which a one storey lot that is no bungalow is a house
/// rather than a hangar.
pub const HOUSE_UNDER: u32 = 3_006_477_108;

/// The hash under which a lot of two or three storeys is a house rather
/// than a block.
pub const LOW_HOUSE_UNDER: u32 = 3_650_722_202;

/// Whether a block of a zone is left empty: a field in the suburbs, a
/// plaza in town, off its own hash.
pub open spec fn left_empty(zone: Zone, hash: u32) -> bool {
    if zone == Zone::Suburb {
        hash < SUBURB_EMPTY_UNDER
    } else {
        hash < PLAZA_UNDER
    }
}

/// Whether a block of a zone is left empty, off its own hash.
pub fn is_left_empty(zone: Zone, hash: u32) -> (r: bool)
    ensures
        r == left_empty(zone, hash),
{
    if zone == Zone::Suburb {
        hash < SUBURB_EMPTY_UNDER
    } else {
        hash < PLAZA_UNDER
    }
}

/// `v` held between `lo` and `hi`.
pub open spec fn clamped(v: u32, lo: u32, hi: u32) -> u32 {
    if v < lo {
        lo
    } else if v > hi {
        hi
    } else {
        v
    }
}

/// What kind of building a lot of a wanted height gets, and how many
/// storeys, off the lot's own hash: towers in the middle, one floor
/// houses at the edge, and the odd hangar among them.
pub open spec fn chosen(tall: u32, pick: u32) -> (Kind, u32) {
    if tall >= 4 {
        if pick < BLOCK_UNDER {
            (Kind::Block, clamped(tall, 4, 8))
        } else {
            (Kind::Tower, clamped(tall, 3, 5))
        }
    } else if tall == 1 {
        if pick < BUNGALOW_UNDER {
            (Kind::Bungalow, 1)
        } else if pick < HOUSE_UNDER {
            (Kind::House, 1)
        } else {
            (Kind::Hangar, 1)
        }
    } else if pick < LOW_HOUSE_UNDER {
        (Kind::House, tall)
    } else {
        (Kind::Block, if tall < 4 { 4 } else { tall })
    }
}

/// What kind of building a lot of a wanted height gets, and how many
/// storeys it ends up with.
pub fn choose_kind(tall: u32, pick: u32) -> (r: (Kind, u32))
    ensures
        r == chosen(tall, pick),
{
    if tall >= 4 {
        if pick < BLOCK_UNDER {
            (Kind::Block, if tall > 8 { 8 } else { tall })
        } else {
            (Kind::Tower, if tall > 5 { 5 } else { tall })
        }
    } else if tall == 1 {
        if pick < BUNGALOW_UNDER {
            (Kind::Bungalow, 1)
        } else if pick < HOUSE_UNDER {
            (Kind::House, 1)
        } else {
            (Kind::Hangar, 1)
        }
    } else if pick < LOW_HOUSE_UNDER {
        (Kind::House, tall)
    } else {
        (Kind::Block, 4)
    }
}

/// A lot stands in as many storeys as its kind stands in, except where a
/// house is wanted at nought storeys or at three.
pub proof fn lemma_chosen_storeys_fit(tall: u32, pick: u32)
    requires
        !((tall == 0 || tall == 3) && pick < LOW_HOUSE_UNDER),
    ensures
        chosen(tall, pick).0.storey_range().0 <= chosen(tall, pick).1 <= chosen(
            tall,
            pick,
        ).0.storey_range().1,
{
}

/// The cell of a `2n + 1` a side grid that block `(i, j)` is, row `i`.
pub open spec fn cell_of(n: int, i: int, j: int) -> int {
    (i + n) * (2 * n + 1) + (j + n)
}

/// The grid `built` with the sides of `marks` added to their blocks, one
/// at a time.
pub open spec fn painted(built: Seq<u8>, n: int, marks: Seq<(i64, i64, u8)>) -> Seq<u8>
    decreases marks.len(),
{
    if marks.len() == 0 {
        built
    } else {
        let before = painted(built, n, marks.drop_last());
        let c = cell_of(n, marks.last().0 as int, marks.last().1 as int);
        if 0 <= c < before.len() {
            before.update(c, before[c] | marks.last().2)
        } else {
            before
        }
    }
}

/// The sides a built block adds: its own frontage, every side for a
/// block of town and its road home's side for a suburb, and then the
/// road home itself.
pub open spec fn block_marks(i: int, j: int, suburb: bool) -> Seq<(i64, i64, u8)> {
    seq![(i as i64, j as i64, if suburb { spec_faces(i, j) } else { fronts::ALL })]
        + spec_home_run(i, j)
}

proof fn lemma_painted_len(built: Seq<u8>, n: int, marks: Seq<(i64, i64, u8)>)
    ensures
        painted(built, n, marks).len() == built.len(),
    decreases marks.len(),
{
    if marks.len() > 0 {
        lemma_painted_len(built, n, marks.drop_last());
    }
}

proof fn lemma_cell_fits(n: int, i: int, j: int)
    requires
        0 <= n,
        -n <= i <= n,
        -n <= j <= n,
    ensures
        0 <= cell_of(n, i, j) < (2 * n + 1) * (2 * n + 1),
{
    assert(0 <= cell_of(n, i, j) < (2 * n + 1) * (2 * n + 1)) by (nonlinear_arith)
        requires
            0 <= n,
            -n <= i <= n,
            -n <= j <= n,
    ;
}

/// Mark on the grid `built` what a built block at `(i, j)` wants: its own
/// frontage, and the road home paved all the way in. The grid is at most
/// 2^30 blocks either side of the middle, so that it fits in memory.
pub fn mark_block(built: &mut Vec<u8>, n: i64, i: i64, j: i64, suburb: bool)
    requires
        0 <= n <= 0x4000_0000,
        old(built)@.len() == (2 * n + 1) * (2 * n + 1),
        -n <= i <= n,
        -n <= j <= n,
    ensures
        final(built)@ == painted(old(built)@, n as int, block_marks(i as int, j as int, suburb)),
{
    let wide: usize = (2 * n + 1) as usize;
    let own: u8 = if suburb {
        faces(i, j)
    } else {
        fronts::ALL
    };
    let mut marks: Vec<(i64, i64, u8)> = Vec::new();
    marks.push((i, j, own));
    let road = home_run(i, j);
    let ghost all = block_marks(i as int, j as int, suburb);
    let mut t: usize = 0;
    while t < road.len()
        invariant
            marks@ == seq![(i, j, own)] + road@.subrange(0, t as int),
            road@ == spec_home_run(i as int, j as int),
            t <= road@.len(),
        decreases road@.len() - t,
    {
        marks.push(road[t]);
        t = t + 1;
        assert(marks@ =~= seq![(i, j, own)] + road@.subrange(0, t as int));
    }
    assert(marks@ =~= all);
    let ghost start = built@;
    let mut t: usize = 0;
    while t < marks.len()
        invariant
            0 <= n <= 0x4000_0000,
            wide == 2 * n + 1,
            -n <= i <= n,
            -n <= j <= n,
            marks@ == all,
            all == block_marks(i as int, j as int, suburb),
            start.len() == (2 * n + 1) * (2 * n + 1),
            t <= marks@.len(),
            built@ == painted(start, n as int, marks@.subrange(0, t as int)),
        decreases marks@.len() - t,
    {
        let (k, m, side) = marks[t];
        proof {
            lemma_marks_on_grid(n as int, i as int, j as int, suburb, t as int);
            lemma_painted_len(start, n as int, marks@.subrange(0, t as int));
            lemma_cell_fits(n as int, k as int, m as int);
        }
        let len = built.len();
        proof {
            assert((k + n) * wide + (m + n) == cell_of(n as int, k as int, m as int));
            assert(len == (2 * n + 1) * (2 * n + 1));
        }
        let c: usize = (k + n) as usize * wide + (m + n) as usize;
        let was = built[c];
        built.set(c, was | side);
        proof {
            let next = marks@.subrange(0, t + 1);
            assert(next.drop_last() =~= marks@.subrange(0, t as int));
            assert(next.last() == marks@[t as int]);
        }
        t = t + 1;
    }
    assert(marks@.subrange(0, marks@.len() as int) =~= marks@);
}

proof fn lemma_marks_on_grid(n: int, i: int, j: int, suburb: bool, t: int)
    requires
        0 <= n,
        -n <= i <= n,
        -n <= j <= n,
        0 <= t < block_marks(i, j, suburb).len(),
    ensures
        -n <= block_marks(i, j, suburb)[t].0 <= n,
        -n <= block_marks(i, j, suburb)[t].1 <= n,
{
    let road = spec_home_run(i, j);
    if t > 0 {
        assert(block_marks(i, j, suburb)[t] == road[t - 1]);
    }
}

/// Marking `a` and then `b` is marking `a` followed by `b`.
proof fn lemma_painted_concat(
    built: Seq<u8>,
    n: int,
    a: Seq<(i64, i64, u8)>,
    b: Seq<(i64, i64, u8)>,
)
    ensures
        painted(built, n, a + b) == painted(painted(built, n, a), n, b),
    decreases b.len(),
{
    if b.len() == 0 {
        assert(a + b =~= a);
    } else {
        lemma_painted_concat(built, n, a, b.drop_last());
        assert((a + b).drop_last() =~= a + b.drop_last());
        assert((a + b).last() == b.last());
    }
}

/// The block of a `2n + 1` a side grid at place `b`, row by row: its
/// column and its row, from `-n`.
pub open spec fn block_at(n: int, b: int) -> (int, int) {
    (b / (2 * n + 1) - n, b % (2 * n + 1) - n)
}

/// Whether the block at `(i, j)` is built: it is town, and its own hash
/// does not leave it a field or a plaza.
pub open spec fn kept(zones: Seq<Zone>, n: int, seed: u32, i: int, j: int) -> bool {
    let zone = zones[cell_of(n, i, j)];
    zone != Zone::Away && !left_empty(zone, spec_mix3(i as i64, j as i64, 0, seed))
}

/// Every side the first `b` blocks of the grid mark, in order.
pub open spec fn marks_upto(zones: Seq<Zone>, n: int, seed: u32, b: int) -> Seq<(i64, i64, u8)>
    decreases b,
{
    if b <= 0 {
        Seq::empty()
    } else {
        let (i, j) = block_at(n, b - 1);
        marks_upto(zones, n, seed, b - 1) + if kept(zones, n, seed, i, j) {
            block_marks(i, j, zones[cell_of(n, i, j)] == Zone::Suburb)
        } else {
            Seq::empty()
        }
    }
}

/// The frontage of a town's grid: every built block's marks on a grid of
/// nothing.
pub open spec fn town_frontage(n: int, zones: Seq<Zone>, seed: u32) -> Seq<u8> {
    painted(
        Seq::new(((2 * n + 1) * (2 * n + 1)) as nat, |c: int| 0u8),
        n,
        marks_upto(zones, n, seed, (2 * n + 1) * (2 * n + 1)),
    )
}

/// Which sides of each block of a town's grid want a street, off what
/// each block is: a built block of town wants every side, a built suburb
/// block the side its road home is on, and either wants its road home
/// paved all the way in. `zones` is the grid's blocks, row `i` by column
/// `j`, from `-n`; a grid more than 2^30 blocks either side of the middle
/// would not fit in memory.
pub fn frontage(n: i64, zones: &[Zone], seed: u32) -> (built: Vec<u8>)
    requires
        0 <= n <= 0x4000_0000,
        zones@.len() == (2 * n + 1) * (2 * n + 1),
    ensures
        built@ == town_frontage(n as int, zones@, seed),
        built@.len() == (2 * n + 1) * (2 * n + 1),
{
    let wide: usize = (2 * n + 1) as usize;
    let total: usize = zones.len();
    let mut built: Vec<u8> = Vec::new();
    let mut c: usize = 0;
    while c < total
        invariant
            total == zones@.len(),
            c <= total,
            built@ =~= Seq::new(c as nat, |x: int| 0u8),
        decreases total - c,
    {
        built.push(0);
        c = c + 1;
    }
    let ghost zero = built@;
    let mut i: i64 = -n;
    proof {
        assert(i + n == 0);
        assert((i + n) * wide == 0) by (nonlinear_arith)
            requires
                i + n == 0,
        ;
        assert(marks_upto(zones@, n as int, seed, 0) =~= Seq::<(i64, i64, u8)>::empty());
        assert(painted(zero, n as int, Seq::<(i64, i64, u8)>::empty()) == zero);
    }
    while i <= n
        invariant
            0 <= n <= 0x4000_0000,
            wide == 2 * n + 1,
            total == zones@.len(),
            zones@.len() == (2 * n + 1) * (2 * n + 1),
            zero.len() == total,
            -n <= i <= n + 1,
            built@ == painted(zero, n as int, marks_upto(zones@, n as int, seed, (i + n) * wide)),
        decreases n + 1 - i,
    {
        let mut j: i64 = -n;
        while j <= n
            invariant
                0 <= n <= 0x4000_0000,
                wide == 2 * n + 1,
                total == zones@.len(),
                zones@.len() == (2 * n + 1) * (2 * n + 1),
                zero.len() == total,
                -n <= i <= n,
                -n <= j <= n + 1,
                built@ == painted(
                    zero,
                    n as int,
                    marks_upto(zones@, n as int, seed, (i + n) * wide + (j + n)),
                ),
            decreases n + 1 - j,
        {
            let ghost b = (i + n) * wide + (j + n);
            proof {
                lemma_cell_fits(n as int, i as int, j as int);
                assert(b / (wide as int) == i + n && b % (wide as int) == j + n) by (nonlinear_arith)
                    requires
                        b == (i + n) * wide + (j + n),
                        0 <= j + n < wide,
                        0 <= i + n,
                ;
                assert(block_at(n as int, b) == (i as int, j as int));
                lemma_painted_len(zero, n as int, marks_upto(zones@, n as int, seed, b));
            }
            let at: usize = (i + n) as usize * wide + (j + n) as usize;
            let zone = zones[at];
            if zone != Zone::Away {
                let hash = mix3(i, j, 0, seed);
                if !is_left_empty(zone, hash) {
                    let ghost before = built@;
                    mark_block(&mut built, n, i, j, zone == Zone::Suburb);
                    proof {
                        lemma_painted_concat(
                            zero,
                            n as int,
                            marks_upto(zones@, n as int, seed, b),
                            block_marks(i as int, j as int, zone == Zone::Suburb),
                        );
                    }
                } else {
                    proof {
                        assert(marks_upto(zones@, n as int, seed, b + 1) =~= marks_upto(
                            zones@,
                            n as int,
                            seed,
                            b,
                        ));
                    }
                }
            } else {
                proof {
                    assert(marks_upto(zones@, n as int, seed, b + 1) =~= marks_upto(
                        zones@,
                        n as int,
                        seed,
                        b,
                    ));
                }
            }
            j = j + 1;
        }
        proof {
            assert((i + 1 + n) * wide == (i + n) * wide + (n + n + 1)) by (nonlinear_arith)
                requires
                    wide == 2 * n + 1,
            ;
        }
        i = i + 1;
    }
    proof {
        assert((n + 1 + n) * wide == (2 * n + 1) * (2 * n + 1));
        assert(zero =~= Seq::new(((2 * n + 1) * (2 * n + 1)) as nat, |c: int| 0u8));
        lemma_painted_len(zero, n as int, marks_upto(zones@, n as int, seed, (2 * n + 1) * (2 * n + 1)));
    }
    built
}

proof fn lemma_bits_kept(v: u8, s: u8, b: u8)
    requires
        v & b == b,
    ensures
        (v | s) & b == b,
{
    assert((v & b == b) ==> ((v | s) & b == b)) by (bit_vector);
}

proof fn lemma_bits_set(v: u8, s: u8)
    ensures
        (v | s) & s == s,
{
    assert((v | s) & s == s) by (bit_vector);
}

/// A side once marked on a block stays marked whatever is marked after.
pub proof fn lemma_painted_keeps(built: Seq<u8>, n: int, marks: Seq<(i64, i64, u8)>, c: int, b: u8)
    requires
        0 <= c < built.len(),
        built[c] & b == b,
    ensures
        painted(built, n, marks)[c] & b == b,
    decreases marks.len(),
{
    if marks.len() > 0 {
        lemma_painted_keeps(built, n, marks.drop_last(), c, b);
        lemma_painted_len(built, n, marks.drop_last());
        let before = painted(built, n, marks.drop_last());
        let d = cell_of(n, marks.last().0 as int, marks.last().1 as int);
        if d == c {
            lemma_bits_kept(before[c], marks.last().2, b);
        }
    }
}

/// Every mark painted on the grid is there at the end.
pub proof fn lemma_painted_sets(built: Seq<u8>, n: int, marks: Seq<(i64, i64, u8)>, t: int)
    requires
        0 <= t < marks.len(),
        0 <= cell_of(n, marks[t].0 as int, marks[t].1 as int) < built.len(),
    ensures
        painted(built, n, marks)[cell_of(n, marks[t].0 as int, marks[t].1 as int)] & marks[t].2
            == marks[t].2,
    decreases marks.len(),
{
    let c = cell_of(n, marks[t].0 as int, marks[t].1 as int);
    lemma_painted_len(built, n, marks.drop_last());
    let before = painted(built, n, marks.drop_last());
    if t == marks.len() - 1 {
        lemma_bits_set(before[c], marks[t].2);
    } else {
        assert(marks.drop_last()[t] == marks[t]);
        lemma_painted_sets(built, n, marks.drop_last(), t);
        let d = cell_of(n, marks.last().0 as int, marks.last().1 as int);
        if d == c {
            lemma_bits_kept(before[c], marks.last().2, marks[t].2);
        }
    }
}

/// The marks of the first blocks come first among the marks of more.
pub proof fn lemma_marks_prefix(zones: Seq<Zone>, n: int, seed: u32, b: int, b2: int)
    requires
        0 <= b <= b2,
    ensures
        marks_upto(zones, n, seed, b).len() <= marks_upto(zones, n, seed, b2).len(),
        marks_upto(zones, n, seed, b2).subrange(0, marks_upto(zones, n, seed, b).len() as int)
            == marks_upto(zones, n, seed, b),
    decreases b2 - b,
{
    if b < b2 {
        lemma_marks_prefix(zones, n, seed, b, b2 - 1);
        let short = marks_upto(zones, n, seed, b);
        let mid = marks_upto(zones, n, seed, b2 - 1);
        let long = marks_upto(zones, n, seed, b2);
        assert(long.subrange(0, mid.len() as int) =~= mid);
        assert(long.subrange(0, short.len() as int) =~= mid.subrange(0, short.len() as int));
    } else {
        let all = marks_upto(zones, n, seed, b);
        assert(all.subrange(0, all.len() as int) =~= all);
    }
}

/// Every mark of a built block is painted on the town's frontage.
pub proof fn lemma_block_marked(n: int, zones: Seq<Zone>, seed: u32, i: int, j: int, q: int)
    requires
        0 <= n,
        -n <= i <= n,
        -n <= j <= n,
        kept(zones, n, seed, i, j),
        0 <= q < block_marks(i, j, zones[cell_of(n, i, j)] == Zone::Suburb).len(),
    ensures
        ({
            let mark = block_marks(i, j, zones[cell_of(n, i, j)] == Zone::Suburb)[q];
            town_frontage(n, zones, seed)[cell_of(n, mark.0 as int, mark.1 as int)] & mark.2
                == mark.2
        }),
{
    let wide = 2 * n + 1;
    let b0 = cell_of(n, i, j);
    lemma_cell_fits(n, i, j);
    assert(b0 / wide == i + n && b0 % wide == j + n) by (nonlinear_arith)
        requires
            b0 == (i + n) * wide + (j + n),
            0 <= j + n < wide,
            0 <= i + n,
    ;
    let own = block_marks(i, j, zones[b0] == Zone::Suburb);
    let before = marks_upto(zones, n, seed, b0);
    let upto = marks_upto(zones, n, seed, b0 + 1);
    assert(upto == before + own);
    lemma_marks_prefix(zones, n, seed, b0 + 1, wide * wide);
    let all = marks_upto(zones, n, seed, wide * wide);
    let t = before.len() + q;
    assert(all[t] == upto[t]);
    assert(upto[t] == own[q]);
    lemma_marks_on_grid(n, i, j, zones[b0] == Zone::Suburb, q);
    lemma_cell_fits(n, own[q].0 as int, own[q].1 as int);
    lemma_painted_sets(
        Seq::new((wide * wide) as nat, |c: int| 0u8),
        n,
        all,
        t,
    );
}

} // verus!
