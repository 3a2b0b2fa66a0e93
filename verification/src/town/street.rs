//! A town's STREETS: where they run on the town's grid, and what a
//! crossing is paved with.
//!
//! A street is three things rather than one: the two lanes of
//! carriageway, the raised pavement either side of them, and the
//! CROSSING where two of them meet, which is a piece of its own that
//! owns its whole square.
//!
//! Everything here is on the grid: block `(i, j)` is the `i`th east and
//! the `j`th north of the middle, and street line `i` is the one between
//! block `i - 1` and block `i`. Where a line stands in metres is the
//! caller's to read off `PITCH`.
use super::arm;
use super::fronts;
use vstd::prelude::*;

verus! {

/// How many pieces a run of street is cut into along the block it
/// serves: the block's ten metres over a piece of three and a half,
/// rounded up, so the run exactly fills the gap and nothing overlaps.
pub const CUTS: i64 = 3;

/// A piece of street, on the town's grid.
///
/// A RUN has no arms and is one of `CUTS` pieces along one block's
/// frontage: along street line `i` past block row `j` when it runs
/// north, and along street line `j` past block column `i` when it runs
/// east. A CROSSING has the arms that leave it and stands where street
/// lines `i` and `j` meet.
#[derive(Clone, Copy, Debug, PartialEq, Eq)]
pub struct Piece {
    pub i: i64,
    pub j: i64,
    /// Which of a run's `CUTS` pieces this is, west or south first.
    pub k: i64,
    /// Nought for a run, the arms it has for a crossing.
    pub arms: u8,
    /// Whether a run runs north and south.
    pub north: bool,
}

impl Piece {
    /// Whether this is a straight RUN rather than a crossing.
    pub fn run(&self) -> (r: bool)
        ensures
            r == (self.arms == 0),
    {
        self.arms == 0
    }

    /// Whether a run points north and south rather than east and west.
    pub fn northerly(&self) -> (r: bool)
        ensures
            r == self.north,
    {
        self.north
    }
}

/// The middle band of a crossing, by itself, is always carriageway; a
/// corner never is; each of the four bands between is carriageway
/// exactly when the arm it lies on is there.
pub open spec fn spec_paved(arms: u8, bx: usize, bz: usize) -> bool {
    if bx == 1 && bz == 1 {
        true
    } else if bx == 1 && bz == 2 {
        arms & arm::NORTH != 0
    } else if bx == 1 && bz == 0 {
        arms & arm::SOUTH != 0
    } else if bx == 2 && bz == 1 {
        arms & arm::EAST != 0
    } else if bx == 0 && bz == 1 {
        arms & arm::WEST != 0
    } else {
        false
    }
}

/// Whether the cell of a crossing at band `bx` east and `bz` north is
/// CARRIAGEWAY rather than pavement.
///
/// So a crossroads is a plus of tarmac with four kerbed corners, a
/// bend's kerb turns the corner as an L, and a dead end closes with a
/// pavement across it.
pub fn paved(arms: u8, bx: usize, bz: usize) -> (r: bool)
    ensures
        r == spec_paved(arms, bx, bz),
        bx == 1 && bz == 1 ==> r,
        bx != 1 && bz != 1 ==> !r,
        bx > 2 || bz > 2 ==> !r,
{
    if bx == 1 && bz == 1 {
        true
    } else if bx == 1 && bz == 2 {
        arms & arm::NORTH != 0
    } else if bx == 1 && bz == 0 {
        arms & arm::SOUTH != 0
    } else if bx == 2 && bz == 1 {
        arms & arm::EAST != 0
    } else if bx == 0 && bz == 1 {
        arms & arm::WEST != 0
    } else {
        false
    }
}

/// The size of a whole number, whatever its sign.
pub open spec fn abs(v: int) -> int {
    if v < 0 {
        -v
    } else {
        v
    }
}

/// The side a suburban block fronts: the one whose street runs ALONG the
/// axis the middle of town is down, so the road home is its own street.
pub open spec fn spec_faces(i: int, j: int) -> u8 {
    if abs(i) >= abs(j) {
        fronts::SOUTH
    } else {
        fronts::WEST
    }
}

/// The one side a suburban block fronts: the side its road home is on.
pub fn faces(i: i64, j: i64) -> (r: u8)
    requires
        i > i64::MIN,
        j > i64::MIN,
    ensures
        r == spec_faces(i as int, j as int),
{
    let ai = if i < 0 {
        -i
    } else {
        i
    };
    let aj = if j < 0 {
        -j
    } else {
        j
    };
    if ai >= aj {
        fronts::SOUTH
    } else {
        fronts::WEST
    }
}

/// The larger of two whole numbers.
pub open spec fn max(a: int, b: int) -> int {
    if a >= b {
        a
    } else {
        b
    }
}

/// The smaller of two whole numbers.
pub open spec fn min(a: int, b: int) -> int {
    if a <= b {
        a
    } else {
        b
    }
}

/// The frontages the road home from block `(i, j)` paves, in order: out
/// along the axis the block stands furthest down, then in along the
/// other, as an L into the middle of town.
pub open spec fn spec_home_run(i: int, j: int) -> Seq<(i64, i64, u8)> {
    if abs(i) >= abs(j) {
        Seq::new((abs(i) + 1) as nat, |t: int| ((min(0, i) + t) as i64, j as i64, fronts::SOUTH))
            + Seq::new(
            (abs(j) + 1) as nat,
            |t: int| (0i64, (min(0, j) + t) as i64, fronts::WEST),
        )
    } else {
        Seq::new((abs(j) + 1) as nat, |t: int| (i as i64, (min(0, j) + t) as i64, fronts::WEST))
            + Seq::new(
            (abs(i) + 1) as nat,
            |t: int| ((min(0, i) + t) as i64, 0i64, fronts::SOUTH),
        )
    }
}

/// The road home is an L from the block into the middle of town: one
/// mark for every block from the block along its own row or column to
/// the axis and then every block along the axis in to the middle, each on
/// a south or a west side, all within the rectangle the block and the
/// middle span, the block's own frontage among them and one at the
/// middle.
pub proof fn lemma_home_run_is_an_l(i: i64, j: i64)
    requires
        i != i64::MIN,
        j != i64::MIN,
    ensures
        ({
            let s = spec_home_run(i as int, j as int);
            &&& s.len() == abs(i as int) + abs(j as int) + 2
            &&& forall|t: int|
                0 <= t < s.len() ==> {
                    &&& (#[trigger] s[t]).2 == fronts::SOUTH || s[t].2 == fronts::WEST
                    &&& min(0, i as int) <= s[t].0 <= max(0, i as int)
                    &&& min(0, j as int) <= s[t].1 <= max(0, j as int)
                }
            &&& s.contains((i, j, spec_faces(i as int, j as int)))
            &&& exists|t: int| 0 <= t < s.len() && (#[trigger] s[t]).0 == 0 && s[t].1 == 0
        }),
{
    let s = spec_home_run(i as int, j as int);
    let (ai, aj) = (abs(i as int), abs(j as int));
    if ai >= aj {
        let t1 = if i < 0 { 0 } else { ai };
        assert(s[t1] == (i, j, fronts::SOUTH));
        let t2 = if j < 0 { ai + 1 + aj } else { ai + 1 };
        assert(s[t2].0 == 0 && s[t2].1 == 0);
    } else {
        let t1 = if j < 0 { 0 } else { aj };
        assert(s[t1] == (i, j, fronts::WEST));
        let t2 = if i < 0 { aj + 1 + ai } else { aj + 1 };
        assert(s[t2].0 == 0 && s[t2].1 == 0);
    }
}

/// Every block whose frontage has to be paved so that the block at
/// `(i, j)` can be DRIVEN TO from the middle of town, as an L: out along
/// the axis it stands furthest down, then in along the other.
///
/// A road that serves one house and joins nothing is not a road. The
/// union of these over every built block is the collector network a
/// suburb hangs off.
///
/// The block stands within 2^30 blocks of the middle either way: the
/// marks are held in memory, and past that they would not fit.
/// `lemma_home_run_is_an_l` states the shape for every block.
#[verifier::loop_isolation(false)]
pub fn home_run(i: i64, j: i64) -> (marks: Vec<(i64, i64, u8)>)
    requires
        -0x4000_0000 <= i <= 0x4000_0000,
        -0x4000_0000 <= j <= 0x4000_0000,
    ensures
        marks@ == spec_home_run(i as int, j as int),
{
    let mut marks: Vec<(i64, i64, u8)> = Vec::new();
    let ai = if i < 0 {
        -i
    } else {
        i
    };
    let aj = if j < 0 {
        -j
    } else {
        j
    };
    let (lo_i, hi_i) = if i < 0 {
        (i, 0)
    } else {
        (0, i)
    };
    let (lo_j, hi_j) = if j < 0 {
        (j, 0)
    } else {
        (0, j)
    };
    let ghost whole = spec_home_run(i as int, j as int);
    if ai >= aj {
        let ghost first = Seq::new(
            (abs(i as int) + 1) as nat,
            |t: int| ((min(0, i as int) + t) as i64, j, fronts::SOUTH),
        );
        let mut k = lo_i;
        while k <= hi_i
            invariant
                lo_i <= k <= hi_i + 1,
                lo_i == min(0, i as int),
                hi_i - lo_i == abs(i as int),
                -0x4000_0000 <= lo_i <= 0 <= hi_i <= 0x4000_0000,
                marks@ == first.subrange(0, k - lo_i),
            decreases hi_i + 1 - k,
        {
            marks.push((k, j, fronts::SOUTH));
            k += 1;
            assert(marks@ =~= first.subrange(0, k - lo_i));
        }
        assert(marks@ =~= first);
        let ghost second = Seq::new(
            (abs(j as int) + 1) as nat,
            |t: int| (0i64, (min(0, j as int) + t) as i64, fronts::WEST),
        );
        let mut m = lo_j;
        while m <= hi_j
            invariant
                lo_j <= m <= hi_j + 1,
                lo_j == min(0, j as int),
                hi_j - lo_j == abs(j as int),
                -0x4000_0000 <= lo_j <= 0 <= hi_j <= 0x4000_0000,
                marks@ == first + second.subrange(0, m - lo_j),
            decreases hi_j + 1 - m,
        {
            marks.push((0, m, fronts::WEST));
            m += 1;
            assert(marks@ =~= first + second.subrange(0, m - lo_j));
        }
        assert(marks@ =~= whole);
    } else {
        let ghost first = Seq::new(
            (abs(j as int) + 1) as nat,
            |t: int| (i, (min(0, j as int) + t) as i64, fronts::WEST),
        );
        let mut m = lo_j;
        while m <= hi_j
            invariant
                lo_j <= m <= hi_j + 1,
                lo_j == min(0, j as int),
                hi_j - lo_j == abs(j as int),
                -0x4000_0000 <= lo_j <= 0 <= hi_j <= 0x4000_0000,
                marks@ == first.subrange(0, m - lo_j),
            decreases hi_j + 1 - m,
        {
            marks.push((i, m, fronts::WEST));
            m += 1;
            assert(marks@ =~= first.subrange(0, m - lo_j));
        }
        assert(marks@ =~= first);
        let ghost second = Seq::new(
            (abs(i as int) + 1) as nat,
            |t: int| ((min(0, i as int) + t) as i64, 0i64, fronts::SOUTH),
        );
        let mut k = lo_i;
        while k <= hi_i
            invariant
                lo_i <= k <= hi_i + 1,
                lo_i == min(0, i as int),
                hi_i - lo_i == abs(i as int),
                -0x4000_0000 <= lo_i <= 0 <= hi_i <= 0x4000_0000,
                marks@ == first + second.subrange(0, k - lo_i),
            decreases hi_i + 1 - k,
        {
            marks.push((k, 0, fronts::SOUTH));
            k += 1;
            assert(marks@ =~= first + second.subrange(0, k - lo_i));
        }
        assert(marks@ =~= whole);
    }
    marks
}

/// Every piece of street stands on the grid's lines: a run on a line
/// between two blocks of the grid, a crossing where two such lines meet.
pub proof fn lemma_pieces_on_grid(n: int, built: Seq<u8>, x: int)
    requires
        0 <= n < 0x1_0000_0000,
        0 <= x < spec_streets_of(n, built).len(),
    ensures
        -n <= spec_streets_of(n, built)[x].i <= n + 1,
        -n <= spec_streets_of(n, built)[x].j <= n + 1,
{
    let p = spec_streets_of(n, built)[x];
    assert(spec_streets_of(n, built).contains(p));
    lemma_streets_hold(n, built, p);
    lemma_north_runs(n, built, p);
    lemma_east_runs(n, built, p);
    lemma_crossings(n, built, p);
}

} // verus!

verus! {

/// Whether block `(i, j)` is on the grid and wants a street on `side`.
pub open spec fn spec_at(n: int, built: Seq<u8>, i: int, j: int, side: u8) -> bool {
    &&& -n <= i <= n
    &&& -n <= j <= n
    &&& built[(i + n) * (2 * n + 1) + (j + n)] & side != 0
}

/// Whether the street along line `i` past block row `j` is wanted by
/// either block beside it.
pub open spec fn spec_northerly(n: int, built: Seq<u8>, i: int, j: int) -> bool {
    spec_at(n, built, i - 1, j, fronts::EAST) || spec_at(n, built, i, j, fronts::WEST)
}

/// Whether the street along line `j` past block column `i` is wanted by
/// either block beside it.
pub open spec fn spec_easterly(n: int, built: Seq<u8>, i: int, j: int) -> bool {
    spec_at(n, built, i, j - 1, fronts::NORTH) || spec_at(n, built, i, j, fronts::SOUTH)
}

/// The arms of the crossing of street lines `i` and `j`: whichever of
/// the four runs that could leave it are laid.
pub open spec fn spec_arms(n: int, built: Seq<u8>, i: int, j: int) -> u8 {
    ((if spec_northerly(n, built, i, j) {
        arm::NORTH as int
    } else {
        0
    }) + (if spec_northerly(n, built, i, j - 1) {
        arm::SOUTH as int
    } else {
        0
    }) + (if spec_easterly(n, built, i, j) {
        arm::EAST as int
    } else {
        0
    }) + (if spec_easterly(n, built, i - 1, j) {
        arm::WEST as int
    } else {
        0
    })) as u8
}

/// The `CUTS` pieces of one run, west or south first.
pub open spec fn run_of(i: int, j: int, north: bool) -> Seq<Piece> {
    Seq::new(
        CUTS as nat,
        |k: int| Piece { i: i as i64, j: j as i64, k: k as i64, arms: 0, north: north },
    )
}

/// The north run along street line `i` past block row `t` from the
/// south edge, where one is wanted.
pub open spec fn north_cell(n: int, built: Seq<u8>, i: int, t: int) -> Seq<Piece> {
    if spec_northerly(n, built, i, -n + t) {
        run_of(i, -n + t, true)
    } else {
        Seq::empty()
    }
}

/// The north runs along street line `i`, row by row from the south.
pub open spec fn north_cells(n: int, built: Seq<u8>, i: int, len: nat) -> Seq<Seq<Piece>> {
    Seq::new(len, |t: int| north_cell(n, built, i, t))
}

/// The north runs of the first `len` street lines from the west.
pub open spec fn north_rows(n: int, built: Seq<u8>, len: nat) -> Seq<Seq<Piece>> {
    Seq::new(len, |r: int| north_cells(n, built, -n + r, (2 * n + 1) as nat).flatten())
}

/// The east run along street line `j` past block column `t` from the
/// west edge, where one is wanted.
pub open spec fn east_cell(n: int, built: Seq<u8>, j: int, t: int) -> Seq<Piece> {
    if spec_easterly(n, built, -n + t, j) {
        run_of(-n + t, j, false)
    } else {
        Seq::empty()
    }
}

/// The east runs along street line `j`, column by column from the west.
pub open spec fn east_cells(n: int, built: Seq<u8>, j: int, len: nat) -> Seq<Seq<Piece>> {
    Seq::new(len, |t: int| east_cell(n, built, j, t))
}

/// The east runs of the first `len` street lines from the south.
pub open spec fn east_rows(n: int, built: Seq<u8>, len: nat) -> Seq<Seq<Piece>> {
    Seq::new(len, |r: int| east_cells(n, built, -n + r, (2 * n + 1) as nat).flatten())
}

/// The crossing of street lines `i` and `t` from the south edge, where
/// it has an arm.
pub open spec fn cross_cell(n: int, built: Seq<u8>, i: int, t: int) -> Seq<Piece> {
    let a = spec_arms(n, built, i, -n + t);
    if a != 0 {
        seq![Piece { i: i as i64, j: (-n + t) as i64, k: 0, arms: a, north: false }]
    } else {
        Seq::empty()
    }
}

/// The crossings on street line `i`, from the south.
pub open spec fn cross_cells(n: int, built: Seq<u8>, i: int, len: nat) -> Seq<Seq<Piece>> {
    Seq::new(len, |t: int| cross_cell(n, built, i, t))
}

/// The crossings of the first `len` street lines from the west.
pub open spec fn cross_rows(n: int, built: Seq<u8>, len: nat) -> Seq<Seq<Piece>> {
    Seq::new(len, |r: int| cross_cells(n, built, -n + r, (2 * n + 2) as nat).flatten())
}

/// The streets of a town on a grid of `n` blocks either side of its
/// middle: every run wanted by a block beside it, the north ones line by
/// line from the west, then the east ones line by line from the south,
/// then every crossing that has an arm, line by line from the west.
pub open spec fn spec_streets_of(n: int, built: Seq<u8>) -> Seq<Piece> {
    north_rows(n, built, (2 * n + 2) as nat).flatten() + east_rows(
        n,
        built,
        (2 * n + 2) as nat,
    ).flatten() + cross_rows(n, built, (2 * n + 2) as nat).flatten()
}

proof fn lemma_flatten_new_step(s: Seq<Seq<Piece>>, shorter: Seq<Seq<Piece>>, last: Seq<Piece>)
    requires
        s.len() == shorter.len() + 1,
        forall|t: int| 0 <= t < shorter.len() ==> s[t] == shorter[t],
        s[shorter.len() as int] == last,
    ensures
        s.flatten() == shorter.flatten() + last,
{
    assert(s =~= shorter.push(last));
    shorter.lemma_flatten_push(last);
}

proof fn lemma_grid_index(a: int, b: int, w: int)
    requires
        0 <= a < w,
        0 <= b < w,
    ensures
        0 <= a * w + b < w * w,
{
    assert(0 <= a * w) by (nonlinear_arith)
        requires
            0 <= a,
            0 <= w,
    ;
    assert(a * w + b < w * w) by (nonlinear_arith)
        requires
            0 <= a < w,
            0 <= b < w,
    ;
}

proof fn lemma_grid_size(n: int, len: int)
    requires
        0 <= n,
        len == (2 * n + 1) * (2 * n + 1),
        len <= usize::MAX,
    ensures
        2 * n + 1 <= len,
        n < 0x1_0000_0000,
{
    assert(2 * n + 1 <= (2 * n + 1) * (2 * n + 1)) by (nonlinear_arith)
        requires
            0 <= n,
    ;
    if n >= 0x1_0000_0000 {
        assert((2 * n + 1) * (2 * n + 1) > 0x1_0000_0000 * 0x1_0000_0000) by (nonlinear_arith)
            requires
                n >= 0x1_0000_0000,
        ;
    }
}

fn at(n: i64, built: &[u8], wide: usize, i: i64, j: i64, side: u8) -> (r: bool)
    requires
        0 <= n < 0x1_0000_0000,
        wide == 2 * n + 1,
        built@.len() == wide * wide,
        wide * wide <= usize::MAX,
        -0x2_0000_0000 <= i <= 0x2_0000_0000,
        -0x2_0000_0000 <= j <= 0x2_0000_0000,
    ensures
        r == spec_at(n as int, built@, i as int, j as int, side),
{
    if -n <= i && i <= n && -n <= j && j <= n {
        let a = (i + n) as usize;
        let b = (j + n) as usize;
        proof {
            lemma_grid_index(a as int, b as int, wide as int);
        }
        built[a * wide + b] & side != 0
    } else {
        false
    }
}

fn push_run(pieces: &mut Vec<Piece>, i: i64, j: i64, north: bool)
    ensures
        final(pieces)@ == old(pieces)@ + run_of(i as int, j as int, north),
{
    let ghost start = pieces@;
    let mut k: i64 = 0;
    while k < CUTS
        invariant
            0 <= k <= CUTS,
            pieces@ == start + run_of(i as int, j as int, north).take(k as int),
        decreases CUTS - k,
    {
        pieces.push(Piece { i, j, k, arms: 0, north });
        k += 1;
        assert(pieces@ =~= start + run_of(i as int, j as int, north).take(k as int));
    }
    assert(run_of(i as int, j as int, north).take(CUTS as int) =~= run_of(
        i as int,
        j as int,
        north,
    ));
}

/// The streets of a town: a piece wherever a street runs past a block
/// somebody built on, and nowhere else.
///
/// `built` holds, for block `(i, j)` at `(i + n) * (2 n + 1) + (j + n)`,
/// the `fronts` sides of it that want a street. A run spans the BLOCK it
/// serves and stops at the crossing squares either end of it, which is
/// what leaves a crossing somewhere to be; a CROSSING stands wherever two
/// of those streets could meet and carries whichever arms actually leave
/// it: with all four it is a crossroads, with two at a right angle a
/// bend, and with one a dead end that closes.
pub fn streets_of(n: i64, built: &[u8]) -> (pieces: Vec<Piece>)
    requires
        0 <= n,
        built@.len() == (2 * n + 1) * (2 * n + 1),
    ensures
        pieces@ == spec_streets_of(n as int, built@),
{
    let len = built.len();
    proof {
        lemma_grid_size(n as int, len as int);
    }
    let wide = (2 * n + 1) as usize;
    let ghost b = built@;
    let ghost nn = n as int;
    let mut pieces: Vec<Piece> = Vec::new();
    // Every street between block i - 1 and block i, running north.
    let mut i = -n;
    while i <= n + 1
        invariant
            0 <= n < 0x1_0000_0000,
            wide == 2 * n + 1,
            b == built@,
            nn == n,
            built@.len() == wide * wide,
            wide * wide <= usize::MAX,
            -n <= i <= n + 2,
            pieces@ == north_rows(nn, b, (i + n) as nat).flatten(),
        decreases n + 2 - i,
    {
        let ghost before = pieces@;
        let mut j = -n;
        while j <= n
            invariant
                0 <= n < 0x1_0000_0000,
                wide == 2 * n + 1,
                b == built@,
                nn == n,
                built@.len() == wide * wide,
                wide * wide <= usize::MAX,
            wide * wide <= usize::MAX,
                -n <= i <= n + 1,
                -n <= j <= n + 1,
                before == north_rows(nn, b, (i + n) as nat).flatten(),
                pieces@ == before + north_cells(nn, b, i as int, (j + n) as nat).flatten(),
            decreases n + 1 - j,
        {
            let here = at(n, built, wide, i - 1, j, fronts::EAST) || at(
                n,
                built,
                wide,
                i,
                j,
                fronts::WEST,
            );
            let ghost done = pieces@;
            if here {
                push_run(&mut pieces, i, j, true);
            }
            proof {
                lemma_flatten_new_step(
                    north_cells(nn, b, i as int, (j + n + 1) as nat),
                    north_cells(nn, b, i as int, (j + n) as nat),
                    north_cell(nn, b, i as int, (j + n) as int),
                );
                assert(pieces@ =~= before + north_cells(nn, b, i as int, (j + n + 1) as nat).flatten());
            }
            j += 1;
        }
        proof {
            lemma_flatten_new_step(
                north_rows(nn, b, (i + n + 1) as nat),
                north_rows(nn, b, (i + n) as nat),
                north_cells(nn, b, i as int, (2 * n + 1) as nat).flatten(),
            );
        }
        i += 1;
    }
    let ghost norths = pieces@;
    // And every street between block row j - 1 and row j, running east.
    let mut j = -n;
    while j <= n + 1
        invariant
            0 <= n < 0x1_0000_0000,
            wide == 2 * n + 1,
            b == built@,
            nn == n,
            built@.len() == wide * wide,
            wide * wide <= usize::MAX,
            -n <= j <= n + 2,
            norths == north_rows(nn, b, (2 * n + 2) as nat).flatten(),
            pieces@ == norths + east_rows(nn, b, (j + n) as nat).flatten(),
        decreases n + 2 - j,
    {
        let ghost before = pieces@;
        let mut i = -n;
        while i <= n
            invariant
                0 <= n < 0x1_0000_0000,
                wide == 2 * n + 1,
                b == built@,
                nn == n,
                built@.len() == wide * wide,
                wide * wide <= usize::MAX,
            wide * wide <= usize::MAX,
                -n <= j <= n + 1,
                -n <= i <= n + 1,
                before == norths + east_rows(nn, b, (j + n) as nat).flatten(),
                pieces@ == before + east_cells(nn, b, j as int, (i + n) as nat).flatten(),
            decreases n + 1 - i,
        {
            let here = at(n, built, wide, i, j - 1, fronts::NORTH) || at(
                n,
                built,
                wide,
                i,
                j,
                fronts::SOUTH,
            );
            if here {
                push_run(&mut pieces, i, j, false);
            }
            proof {
                lemma_flatten_new_step(
                    east_cells(nn, b, j as int, (i + n + 1) as nat),
                    east_cells(nn, b, j as int, (i + n) as nat),
                    east_cell(nn, b, j as int, (i + n) as int),
                );
                assert(pieces@ =~= before + east_cells(nn, b, j as int, (i + n + 1) as nat).flatten());
            }
            i += 1;
        }
        proof {
            lemma_flatten_new_step(
                east_rows(nn, b, (j + n + 1) as nat),
                east_rows(nn, b, (j + n) as nat),
                east_cells(nn, b, j as int, (2 * n + 1) as nat).flatten(),
            );
            assert(pieces@ =~= norths + east_rows(nn, b, (j + n + 1) as nat).flatten());
        }
        j += 1;
    }
    let ghost runs = pieces@;
    // And a CROSSING wherever two of those streets could meet.
    let mut i = -n;
    while i <= n + 1
        invariant
            0 <= n < 0x1_0000_0000,
            wide == 2 * n + 1,
            b == built@,
            nn == n,
            built@.len() == wide * wide,
            wide * wide <= usize::MAX,
            -n <= i <= n + 2,
            runs == north_rows(nn, b, (2 * n + 2) as nat).flatten() + east_rows(
                nn,
                b,
                (2 * n + 2) as nat,
            ).flatten(),
            pieces@ == runs + cross_rows(nn, b, (i + n) as nat).flatten(),
        decreases n + 2 - i,
    {
        let ghost before = pieces@;
        let mut j = -n;
        while j <= n + 1
            invariant
                0 <= n < 0x1_0000_0000,
                wide == 2 * n + 1,
                b == built@,
                nn == n,
                built@.len() == wide * wide,
                wide * wide <= usize::MAX,
            wide * wide <= usize::MAX,
                -n <= i <= n + 1,
                -n <= j <= n + 2,
                before == runs + cross_rows(nn, b, (i + n) as nat).flatten(),
                pieces@ == before + cross_cells(nn, b, i as int, (j + n) as nat).flatten(),
            decreases n + 2 - j,
        {
            let mut arms: u8 = 0;
            if at(n, built, wide, i - 1, j, fronts::EAST) || at(n, built, wide, i, j, fronts::WEST) {
                assert(0u8 | 8u8 == 8u8) by (bit_vector);
                arms = arms | arm::NORTH;
            }
            let a1 = arms;
            if at(n, built, wide, i - 1, j - 1, fronts::EAST) || at(
                n,
                built,
                wide,
                i,
                j - 1,
                fronts::WEST,
            ) {
                assert(a1 | 4u8 == a1 + 4) by (bit_vector)
                    requires
                        a1 == 0 || a1 == 8,
                ;
                arms = arms | arm::SOUTH;
            }
            let a2 = arms;
            if at(n, built, wide, i, j - 1, fronts::NORTH) || at(n, built, wide, i, j, fronts::SOUTH) {
                assert(a2 | 2u8 == a2 + 2) by (bit_vector)
                    requires
                        a2 == 0 || a2 == 4 || a2 == 8 || a2 == 12,
                ;
                arms = arms | arm::EAST;
            }
            let a3 = arms;
            if at(n, built, wide, i - 1, j - 1, fronts::NORTH) || at(
                n,
                built,
                wide,
                i - 1,
                j,
                fronts::SOUTH,
            ) {
                assert(a3 | 1u8 == a3 + 1) by (bit_vector)
                    requires
                        a3 <= 14 && a3 % 2 == 0,
                ;
                arms = arms | arm::WEST;
            }
            proof {
                assert(arms == spec_arms(nn, b, i as int, j as int));
            }
            if arms != 0 {
                pieces.push(Piece { i, j, k: 0, arms, north: false });
            }
            proof {
                lemma_flatten_new_step(
                    cross_cells(nn, b, i as int, (j + n + 1) as nat),
                    cross_cells(nn, b, i as int, (j + n) as nat),
                    cross_cell(nn, b, i as int, (j + n) as int),
                );
                assert(pieces@ =~= before + cross_cells(nn, b, i as int, (j + n + 1) as nat).flatten());
            }
            j += 1;
        }
        proof {
            lemma_flatten_new_step(
                cross_rows(nn, b, (i + n + 1) as nat),
                cross_rows(nn, b, (i + n) as nat),
                cross_cells(nn, b, i as int, (2 * n + 2) as nat).flatten(),
            );
            assert(pieces@ =~= runs + cross_rows(nn, b, (i + n + 1) as nat).flatten());
        }
        i += 1;
    }
    pieces
}

/// Something is in a flattened sequence exactly when it is in one of the
/// pieces it was flattened from.
pub proof fn lemma_flatten_contains<A>(s: Seq<Seq<A>>, x: A)
    ensures
        s.flatten().contains(x) <==> exists|t: int| 0 <= t < s.len() && #[trigger] s[t].contains(x),
    decreases s.len(),
{
    if s.len() == 0 {
    } else {
        let rest = s.drop_first();
        lemma_flatten_contains(rest, x);
        let f = s.flatten();
        assert(f == s.first() + rest.flatten());
        if f.contains(x) {
            let y = choose|y: int| 0 <= y < f.len() && f[y] == x;
            if y < s.first().len() {
                assert(s[0].contains(x) && s[0][y] == x);
            } else {
                assert(rest.flatten()[y - s.first().len()] == x);
                assert(rest.flatten().contains(x));
                let t = choose|t: int| 0 <= t < rest.len() && #[trigger] rest[t].contains(x);
                assert(s[t + 1] == rest[t]);
            }
        }
        if exists|t: int| 0 <= t < s.len() && #[trigger] s[t].contains(x) {
            let t = choose|t: int| 0 <= t < s.len() && #[trigger] s[t].contains(x);
            let y = choose|y: int| 0 <= y < s[t].len() && s[t][y] == x;
            if t == 0 {
                assert(f[y] == x);
            } else {
                assert(rest[t - 1] == s[t]);
                assert(rest.flatten().contains(x));
                let z = choose|z: int| 0 <= z < rest.flatten().len() && rest.flatten()[z] == x;
                assert(f[s.first().len() + z] == x);
            }
        }
    }
}


/// The north runs of a grid are `CUTS` pieces past every block row of
/// every street line a block beside it wants, and nothing else.
pub proof fn lemma_north_runs(n: int, built: Seq<u8>, p: Piece)
    requires
        0 <= n < 0x1_0000_0000,
    ensures
        north_rows(n, built, (2 * n + 2) as nat).flatten().contains(p) <==> (p.arms == 0 && p.north
            && 0 <= p.k < CUTS && spec_northerly(n, built, p.i as int, p.j as int)),
{
    let rows = north_rows(n, built, (2 * n + 2) as nat);
    lemma_flatten_contains(rows, p);
    if rows.flatten().contains(p) {
        let r = choose|r: int| 0 <= r < rows.len() && #[trigger] rows[r].contains(p);
        let cells = north_cells(n, built, -n + r, (2 * n + 1) as nat);
        lemma_flatten_contains(cells, p);
        let t = choose|t: int| 0 <= t < cells.len() && #[trigger] cells[t].contains(p);
        let y = choose|y: int| 0 <= y < cells[t].len() && cells[t][y] == p;
    }
    if p.arms == 0 && p.north && 0 <= p.k < CUTS && spec_northerly(n, built, p.i as int, p.j as int) {
        let r = p.i + n;
        let t = p.j + n;
        let cells = north_cells(n, built, -n + r, (2 * n + 1) as nat);
        assert(cells[t][p.k as int] == p);
        assert(cells[t].contains(p));
        lemma_flatten_contains(cells, p);
        assert(rows[r].contains(p));
    }
}

/// The east runs likewise, along every block column of every street
/// line a block beside it wants.
pub proof fn lemma_east_runs(n: int, built: Seq<u8>, p: Piece)
    requires
        0 <= n < 0x1_0000_0000,
    ensures
        east_rows(n, built, (2 * n + 2) as nat).flatten().contains(p) <==> (p.arms == 0 && !p.north
            && 0 <= p.k < CUTS && spec_easterly(n, built, p.i as int, p.j as int)),
{
    let rows = east_rows(n, built, (2 * n + 2) as nat);
    lemma_flatten_contains(rows, p);
    if rows.flatten().contains(p) {
        let r = choose|r: int| 0 <= r < rows.len() && #[trigger] rows[r].contains(p);
        let cells = east_cells(n, built, -n + r, (2 * n + 1) as nat);
        lemma_flatten_contains(cells, p);
        let t = choose|t: int| 0 <= t < cells.len() && #[trigger] cells[t].contains(p);
        let y = choose|y: int| 0 <= y < cells[t].len() && cells[t][y] == p;
    }
    if p.arms == 0 && !p.north && 0 <= p.k < CUTS && spec_easterly(n, built, p.i as int, p.j as int) {
        let r = p.j + n;
        let t = p.i + n;
        let cells = east_cells(n, built, -n + r, (2 * n + 1) as nat);
        assert(cells[t][p.k as int] == p);
        assert(cells[t].contains(p));
        lemma_flatten_contains(cells, p);
        assert(rows[r].contains(p));
    }
}

/// A crossing stands at every meeting of two street lines that has an
/// arm, carrying exactly the arms that leave it.
pub proof fn lemma_crossings(n: int, built: Seq<u8>, p: Piece)
    requires
        0 <= n < 0x1_0000_0000,
    ensures
        cross_rows(n, built, (2 * n + 2) as nat).flatten().contains(p) <==> (-n <= p.i <= n + 1
            && -n <= p.j <= n + 1 && p.k == 0 && !p.north && p.arms != 0 && p.arms == spec_arms(
            n,
            built,
            p.i as int,
            p.j as int,
        )),
{
    let rows = cross_rows(n, built, (2 * n + 2) as nat);
    lemma_flatten_contains(rows, p);
    if rows.flatten().contains(p) {
        let r = choose|r: int| 0 <= r < rows.len() && #[trigger] rows[r].contains(p);
        let cells = cross_cells(n, built, -n + r, (2 * n + 2) as nat);
        lemma_flatten_contains(cells, p);
        let t = choose|t: int| 0 <= t < cells.len() && #[trigger] cells[t].contains(p);
        let y = choose|y: int| 0 <= y < cells[t].len() && cells[t][y] == p;
    }
    if -n <= p.i <= n + 1 && -n <= p.j <= n + 1 && p.k == 0 && !p.north && p.arms != 0 && p.arms
        == spec_arms(n, built, p.i as int, p.j as int) {
        let r = p.i + n;
        let t = p.j + n;
        let cells = cross_cells(n, built, -n + r, (2 * n + 2) as nat);
        assert(cells[t][0] == p);
        assert(cells[t].contains(p));
        lemma_flatten_contains(cells, p);
        assert(rows[r].contains(p));
    }
}

/// What a town's streets hold: its north runs, its east runs and its
/// crossings, each exactly where the plan wants one.
pub proof fn lemma_streets_hold(n: int, built: Seq<u8>, p: Piece)
    requires
        0 <= n < 0x1_0000_0000,
    ensures
        spec_streets_of(n, built).contains(p) <==> (north_rows(n, built, (2 * n + 2) as nat).flatten().contains(p)
            || east_rows(n, built, (2 * n + 2) as nat).flatten().contains(p) || cross_rows(
            n,
            built,
            (2 * n + 2) as nat,
        ).flatten().contains(p)),
{
    let a = north_rows(n, built, (2 * n + 2) as nat).flatten();
    let b = east_rows(n, built, (2 * n + 2) as nat).flatten();
    let c = cross_rows(n, built, (2 * n + 2) as nat).flatten();
    let all = spec_streets_of(n, built);
    assert(all == a + b + c);
    if all.contains(p) {
        let y = choose|y: int| 0 <= y < all.len() && all[y] == p;
        if y < a.len() {
            assert(a[y] == p);
        } else if y < a.len() + b.len() {
            assert(b[y - a.len()] == p);
        } else {
            assert(c[y - a.len() - b.len()] == p);
        }
    }
    if a.contains(p) {
        let y = choose|y: int| 0 <= y < a.len() && a[y] == p;
        assert(all[y] == p);
    }
    if b.contains(p) {
        let y = choose|y: int| 0 <= y < b.len() && b[y] == p;
        assert(all[a.len() + y] == p);
    }
    if c.contains(p) {
        let y = choose|y: int| 0 <= y < c.len() && c[y] == p;
        assert(all[a.len() + b.len() + y] == p);
    }
}
/// Whether crossing piece `p` stands before crossing piece `q`: on an
/// earlier street line east, or earlier along the same one.
pub open spec fn place_before(p: Piece, q: Piece) -> bool {
    p.i < q.i || (p.i == q.i && p.j < q.j)
}

proof fn lemma_cross_cells_sorted(n: int, built: Seq<u8>, i: int, len: nat)
    requires
        -0x1_0000_0000 <= i <= 0x1_0000_0000,
        0 <= n < 0x1_0000_0000,
        len <= 2 * n + 2,
    ensures
        ({
            let f = cross_cells(n, built, i, len).flatten();
            &&& forall|x: int| 0 <= x < f.len() ==> (#[trigger] f[x]).i == i && -n <= f[x].j < -n + len
            &&& forall|x: int, y: int| 0 <= x < y < f.len() ==> place_before(#[trigger] f[x], #[trigger] f[y])
        }),
    decreases len,
{
    if len > 0 {
        let shorter = cross_cells(n, built, i, (len - 1) as nat);
        let last = cross_cell(n, built, i, len - 1);
        lemma_cross_cells_sorted(n, built, i, (len - 1) as nat);
        lemma_flatten_new_step(cross_cells(n, built, i, len), shorter, last);
    } else {
        assert(cross_cells(n, built, i, len) =~= Seq::<Seq<Piece>>::empty());
        assert(cross_cells(n, built, i, len).flatten() =~= Seq::<Piece>::empty());
    }
}

proof fn lemma_cross_rows_sorted(n: int, built: Seq<u8>, len: nat)
    requires
        0 <= n < 0x1_0000_0000,
        len <= 2 * n + 2,
    ensures
        ({
            let f = cross_rows(n, built, len).flatten();
            &&& forall|x: int| 0 <= x < f.len() ==> -n <= (#[trigger] f[x]).i < -n + len
            &&& forall|x: int, y: int| 0 <= x < y < f.len() ==> place_before(#[trigger] f[x], #[trigger] f[y])
        }),
    decreases len,
{
    if len > 0 {
        let shorter = cross_rows(n, built, (len - 1) as nat);
        let last = cross_cells(n, built, -n + len - 1, (2 * n + 2) as nat).flatten();
        lemma_cross_rows_sorted(n, built, (len - 1) as nat);
        lemma_cross_cells_sorted(n, built, -n + len - 1, (2 * n + 2) as nat);
        lemma_flatten_new_step(cross_rows(n, built, len), shorter, last);
    } else {
        assert(cross_rows(n, built, len) =~= Seq::<Seq<Piece>>::empty());
        assert(cross_rows(n, built, len).flatten() =~= Seq::<Piece>::empty());
    }
}

/// Piece `k` of the run piece `p` is on.
pub open spec fn cut_of(p: Piece, k: int) -> Piece {
    Piece { i: p.i, j: p.j, k: k as i64, arms: 0, north: p.north }
}

/// How a town's streets are listed: every run before every crossing; a
/// run laid whole, all `CUTS` of its pieces wherever one of them is; and
/// the crossings in order of their place, east line by east line, so no
/// two stand at one place.
pub proof fn lemma_streets_in_order(n: int, built: Seq<u8>)
    requires
        0 <= n < 0x1_0000_0000,
    ensures
        ({
            let s = spec_streets_of(n, built);
            &&& forall|x: int, y: int|
                0 <= x < y < s.len() && (#[trigger] s[x]).arms != 0 ==> (#[trigger] s[y]).arms != 0
            &&& forall|x: int, k: int|
                #![trigger s[x], cut_of(s[x], k)]
                0 <= x < s.len() && s[x].arms == 0 && 0 <= k < CUTS ==> s.contains(cut_of(s[x], k))
            &&& forall|x: int, y: int|
                0 <= x < y < s.len() && (#[trigger] s[x]).arms != 0 && (#[trigger] s[y]).arms != 0
                    ==> place_before(s[x], s[y])
        }),
{
    let a = north_rows(n, built, (2 * n + 2) as nat).flatten();
    let b = east_rows(n, built, (2 * n + 2) as nat).flatten();
    let c = cross_rows(n, built, (2 * n + 2) as nat).flatten();
    let s = spec_streets_of(n, built);
    assert(s == a + b + c);
    lemma_cross_rows_sorted(n, built, (2 * n + 2) as nat);
    assert forall|x: int| 0 <= x < s.len() implies ((#[trigger] s[x]).arms == 0 <==> x < a.len() + b.len()) by {
        if x < a.len() {
            assert(a[x] == s[x]);
            assert(a.contains(s[x]));
            lemma_north_runs(n, built, s[x]);
        } else if x < a.len() + b.len() {
            assert(b[x - a.len()] == s[x]);
            assert(b.contains(s[x]));
            lemma_east_runs(n, built, s[x]);
        } else {
            assert(c[x - a.len() - b.len()] == s[x]);
            assert(c.contains(s[x]));
            lemma_crossings(n, built, s[x]);
        }
    }
    assert forall|x: int, k: int|
        #![trigger s[x], cut_of(s[x], k)]
        0 <= x < s.len() && s[x].arms == 0 && 0 <= k < CUTS implies s.contains(cut_of(s[x], k)) by {
        let p = s[x];
        let q = cut_of(p, k);
        assert(s.contains(p));
        lemma_streets_hold(n, built, p);
        lemma_streets_hold(n, built, q);
        lemma_north_runs(n, built, p);
        lemma_north_runs(n, built, q);
        lemma_east_runs(n, built, p);
        lemma_east_runs(n, built, q);
        lemma_crossings(n, built, p);
    }
    assert forall|x: int, y: int|
        0 <= x < y < s.len() && (#[trigger] s[x]).arms != 0 && (#[trigger] s[y]).arms != 0 implies place_before(
        s[x],
        s[y],
    ) by {
        let o = a.len() + b.len();
        assert(c[x - o] == s[x] && c[y - o] == s[y]);
    }
}

proof fn lemma_arm_bits(nb: u8, sb: u8, eb: u8, wb: u8)
    by (bit_vector)
    requires
        nb <= 1,
        sb <= 1,
        eb <= 1,
        wb <= 1,
    ensures
        (nb * 8 + sb * 4 + eb * 2 + wb) as u8 & 8u8 != 0 <==> nb == 1,
        (nb * 8 + sb * 4 + eb * 2 + wb) as u8 & 4u8 != 0 <==> sb == 1,
        (nb * 8 + sb * 4 + eb * 2 + wb) as u8 & 2u8 != 0 <==> eb == 1,
        (nb * 8 + sb * 4 + eb * 2 + wb) as u8 & 1u8 != 0 <==> wb == 1,
{
}

/// Each band of a crossing is carriageway just where a street leaves it
/// that way: the middle always, the east band where the street runs on
/// east of the crossing, the west band where it runs west, the north
/// band north and the south band south, and a corner never.
pub proof fn lemma_paved_where_the_streets_go(n: int, built: Seq<u8>, i: int, j: int)
    ensures
        ({
            let a = spec_arms(n, built, i, j);
            &&& spec_paved(a, 1, 1)
            &&& spec_paved(a, 2, 1) == spec_easterly(n, built, i, j)
            &&& spec_paved(a, 0, 1) == spec_easterly(n, built, i - 1, j)
            &&& spec_paved(a, 1, 2) == spec_northerly(n, built, i, j)
            &&& spec_paved(a, 1, 0) == spec_northerly(n, built, i, j - 1)
            &&& forall|bx: usize, bz: usize| bx != 1 && bz != 1 ==> !#[trigger] spec_paved(a, bx, bz)
        }),
{
    let nb: u8 = if spec_northerly(n, built, i, j) { 1 } else { 0 };
    let sb: u8 = if spec_northerly(n, built, i, j - 1) { 1 } else { 0 };
    let eb: u8 = if spec_easterly(n, built, i, j) { 1 } else { 0 };
    let wb: u8 = if spec_easterly(n, built, i - 1, j) { 1 } else { 0 };
    lemma_arm_bits(nb, sb, eb, wb);
    assert(spec_arms(n, built, i, j) == (nb * 8 + sb * 4 + eb * 2 + wb) as u8);
}

/// Each middle band of a crossing is carriageway exactly when the arm on
/// its own side is there: east for the east band, west for the west,
/// north for the north and south for the south.
pub proof fn lemma_band_follows_its_arm(arms: u8)
    ensures
        spec_paved(arms, 2, 1) == (arms & arm::EAST != 0),
        spec_paved(arms, 0, 1) == (arms & arm::WEST != 0),
        spec_paved(arms, 1, 2) == (arms & arm::NORTH != 0),
        spec_paved(arms, 1, 0) == (arms & arm::SOUTH != 0),
{
}

} // verus!
