//! A building as a list of brushes: what each brush is, how a recipe
//! names it, and how a brush repeats up a building's storeys.
//!
//! A recipe is a list of signed distance brushes in the building's own
//! frame. Each is added or cut, in list order; `each` repeats a brush a
//! storey at a time and `alternate` mirrors it through the centre on odd
//! storeys; a window is an opening onto the room, with or without a pane.
//! Where a brush stands in metres is measurement; which brush, which
//! storeys and which material are the decisions, and they stand here.
use vstd::prelude::*;
use crate::field::{CONCRETE, GLASS, LAMP, LIT, PLATE, STREET, TERRAIN};
use crate::noise::{mix3, spec_mix3};

verus! {

/// Whether a brush adds rock or takes it away.
#[derive(Clone, Copy, PartialEq, Eq, Debug, Structural)]
pub enum Op {
    Add,
    Cut,
}

/// The solid a brush is.
#[derive(Clone, Copy, PartialEq, Eq, Debug, Structural)]
pub enum Shape {
    Box,
    Cyl,
    Sphere,
    Stairs,
}

/// How a brush repeats over the storeys.
#[derive(Clone, Copy, PartialEq, Eq, Debug, Structural)]
pub enum Each {
    Once,
    Storey,
    Upper,
    Flight,
    Top,
}

/// A cylinder's axis, in the building's frame.
#[derive(Clone, Copy, PartialEq, Eq, Debug, Structural)]
pub enum Axis {
    Up,
    North,
    East,
}

/// The most storeys a recipe is compiled for.
pub const MOST_STOREYS: u32 = 64;

/// The hash over which a window with no word on it is lit: a window is
/// lit when its hash, read as a fraction of its range, passes 0.45.
pub const LIT_OVER: u32 = 1_932_735_283;

/// Whether two texts are the same characters.
fn same_text(a: &str, b: &str) -> (r: bool)
    ensures
        r == (a@ == b@),
{
    let n = a.unicode_len();
    let m = b.unicode_len();
    if n != m {
        return false;
    }
    let mut i: usize = 0;
    while i < n
        invariant
            n == a@.len(),
            m == b@.len(),
            n == m,
            i <= n,
            forall|j: int| 0 <= j < i ==> a@[j] == b@[j],
        decreases n - i,
    {
        if a.get_char(i) != b.get_char(i) {
            return false;
        }
        i = i + 1;
    }
    assert(a@ =~= b@);
    true
}

/// Whether a word is there and is the given text.
fn is_word(word: Option<&str>, text: &str) -> (r: bool)
    ensures
        r == (word matches Some(w) && w@ == text@),
{
    match word {
        Some(w) => same_text(w, text),
        None => false,
    }
}

/// Whether an optional word is the given text.
pub open spec fn names(word: Option<&str>, text: Seq<char>) -> bool {
    word matches Some(w) && w@ == text
}

/// The material a name stands for.
pub open spec fn material_named(name: Seq<char>) -> Option<u8> {
    if name == "terrain"@ {
        Some(TERRAIN)
    } else if name == "concrete"@ {
        Some(CONCRETE)
    } else if name == "plate"@ {
        Some(PLATE)
    } else if name == "glass"@ {
        Some(GLASS)
    } else if name == "lamp"@ {
        Some(LAMP)
    } else if name == "lit"@ {
        Some(LIT)
    } else if name == "street"@ {
        Some(STREET)
    } else {
        None
    }
}

/// The material a recipe names, or nothing for a name it does not know.
pub fn material(name: &str) -> (r: Option<u8>)
    ensures
        r == material_named(name@),
{
    if same_text(name, "terrain") {
        Some(TERRAIN)
    } else if same_text(name, "concrete") {
        Some(CONCRETE)
    } else if same_text(name, "plate") {
        Some(PLATE)
    } else if same_text(name, "glass") {
        Some(GLASS)
    } else if same_text(name, "lamp") {
        Some(LAMP)
    } else if same_text(name, "lit") {
        Some(LIT)
    } else if same_text(name, "street") {
        Some(STREET)
    } else {
        None
    }
}

/// How a brush's `each` word says it repeats: anything unknown, or no
/// word at all, is once.
pub open spec fn each_named(word: Option<&str>) -> Each {
    if names(word, "storey"@) {
        Each::Storey
    } else if names(word, "upper"@) {
        Each::Upper
    } else if names(word, "flight"@) {
        Each::Flight
    } else if names(word, "top"@) {
        Each::Top
    } else {
        Each::Once
    }
}

/// Read a brush's `each` word.
pub fn each_of(word: Option<&str>) -> (r: Each)
    ensures
        r == each_named(word),
{
    if is_word(word, "storey") {
        Each::Storey
    } else if is_word(word, "upper") {
        Each::Upper
    } else if is_word(word, "flight") {
        Each::Flight
    } else if is_word(word, "top") {
        Each::Top
    } else {
        Each::Once
    }
}

/// The solid a brush's `shape` word names, or nothing where it names none
/// a brush can be.
pub open spec fn shape_named(word: Option<&str>) -> Option<Shape> {
    if names(word, "box"@) {
        Some(Shape::Box)
    } else if names(word, "cyl"@) {
        Some(Shape::Cyl)
    } else if names(word, "sphere"@) {
        Some(Shape::Sphere)
    } else if names(word, "stairs"@) {
        Some(Shape::Stairs)
    } else {
        None
    }
}

/// Read a brush's `shape` word; a recipe with no known shape is refused.
pub fn shape_of(word: Option<&str>) -> (r: Option<Shape>)
    ensures
        r == shape_named(word),
{
    if is_word(word, "box") {
        Some(Shape::Box)
    } else if is_word(word, "cyl") {
        Some(Shape::Cyl)
    } else if is_word(word, "sphere") {
        Some(Shape::Sphere)
    } else if is_word(word, "stairs") {
        Some(Shape::Stairs)
    } else {
        None
    }
}

/// Whether a brush's `shape` word makes it a window.
pub fn is_window(word: Option<&str>) -> (r: bool)
    ensures
        r == names(word, "window"@),
{
    is_word(word, "window")
}

/// Read a brush's `op` word: a cut only where it says so.
pub fn op_of(word: Option<&str>) -> (r: Op)
    ensures
        r == (if names(word, "cut"@) { Op::Cut } else { Op::Add }),
{
    if is_word(word, "cut") {
        Op::Cut
    } else {
        Op::Add
    }
}

/// Read a cylinder's `axis` word: north, east, or up for anything else.
pub fn axis_of(word: Option<&str>) -> (r: Axis)
    ensures
        r == (if names(word, "n"@) {
            Axis::North
        } else if names(word, "e"@) {
            Axis::East
        } else {
            Axis::Up
        }),
{
    if is_word(word, "n") {
        Axis::North
    } else if is_word(word, "e") {
        Axis::East
    } else {
        Axis::Up
    }
}

/// Read a flight's `dir` word: whether it climbs southward.
pub fn south_of(word: Option<&str>) -> (r: bool)
    ensures
        r == names(word, "s"@),
{
    is_word(word, "s")
}

/// The material a brush is made of: its own name for it, concrete where
/// it names none, and nothing where the name is unknown.
pub fn mat_of(word: Option<&str>) -> (r: Option<u8>)
    ensures
        r == (match word {
            Some(w) => material_named(w@),
            None => Some(CONCRETE),
        }),
{
    match word {
        Some(w) => material(w),
        None => Some(CONCRETE),
    }
}

/// What a recipe's item is, as its words decide it.
#[derive(Clone, Copy, PartialEq, Eq, Debug, Structural)]
pub enum ItemPlan {
    /// A window in the face its `face` word starts with, repeated as its
    /// `each` word says.
    Window { each: Each, face: char },
    /// A brush: added or cut, its solid and material, how it repeats, a
    /// cylinder's axis and whether a flight climbs southward.
    Brush { op: Op, shape: Shape, mat: u8, each: Each, axis: Axis, south: bool },
}

/// Why a recipe's item is refused.
#[derive(Clone, Copy, PartialEq, Eq, Debug, Structural)]
pub enum ItemError {
    /// Its `at` is not three numbers.
    NoAt,
    /// Its `size` is not three numbers.
    NoSize,
    /// Its `shape` names no solid a brush can be.
    NoShape,
    /// Its `mat` names no material.
    NoMaterial,
}

/// The face a window's `face` word names: its first character, or north
/// where there is none.
pub open spec fn face_named(word: Option<&str>) -> char {
    match word {
        Some(w) => if w@.len() > 0 {
            w@[0]
        } else {
            'n'
        },
        None => 'n',
    }
}

/// The material a brush's `mat` word names: concrete where there is no
/// word, nothing where the word is unknown.
pub open spec fn mat_named(word: Option<&str>) -> Option<u8> {
    match word {
        Some(w) => material_named(w@),
        None => Some(CONCRETE),
    }
}

/// What an item of a recipe is, from its words and whether its `at` and
/// `size` are three numbers each: refused for its `at`, then its `size`;
/// a window where its shape says so; otherwise refused for an unknown
/// shape, then for an unknown material; otherwise a brush.
pub open spec fn spec_item_of(
    shape: Option<&str>,
    op: Option<&str>,
    mat: Option<&str>,
    each: Option<&str>,
    axis: Option<&str>,
    dir: Option<&str>,
    face: Option<&str>,
    at_three: bool,
    size_three: bool,
) -> Result<ItemPlan, ItemError> {
    if !at_three {
        Err(ItemError::NoAt)
    } else if !size_three {
        Err(ItemError::NoSize)
    } else if names(shape, "window"@) {
        Ok(ItemPlan::Window { each: each_named(each), face: face_named(face) })
    } else {
        match shape_named(shape) {
            None => Err(ItemError::NoShape),
            Some(sh) => match mat_named(mat) {
                None => Err(ItemError::NoMaterial),
                Some(m) => Ok(
                    ItemPlan::Brush {
                        op: if names(op, "cut"@) {
                            Op::Cut
                        } else {
                            Op::Add
                        },
                        shape: sh,
                        mat: m,
                        each: each_named(each),
                        axis: if names(axis, "n"@) {
                            Axis::North
                        } else if names(axis, "e"@) {
                            Axis::East
                        } else {
                            Axis::Up
                        },
                        south: names(dir, "s"@),
                    },
                ),
            },
        }
    }
}

/// An item reads each of its words on its own: refused for its `at`,
/// then its `size`; a window, repeating as its `each` word says, in the
/// face its `face` word starts with, wherever its shape word is `window`;
/// refused for a shape word naming no solid, then for a material word
/// naming no material; otherwise a brush of that solid and material, cut
/// where its `op` word is `cut`, its axis north for `n`, east for `e` and
/// up for anything else, climbing south where its `dir` word is `s`.
pub proof fn lemma_item_reads_its_words(
    shape: Option<&str>,
    op: Option<&str>,
    mat: Option<&str>,
    each: Option<&str>,
    axis: Option<&str>,
    dir: Option<&str>,
    face: Option<&str>,
    at_three: bool,
    size_three: bool,
)
    ensures
        ({
            let r = spec_item_of(shape, op, mat, each, axis, dir, face, at_three, size_three);
            &&& !at_three ==> r == Err::<ItemPlan, ItemError>(ItemError::NoAt)
            &&& at_three && !size_three ==> r == Err::<ItemPlan, ItemError>(ItemError::NoSize)
            &&& at_three && size_three && names(shape, "window"@) ==> (r matches Ok(
                ItemPlan::Window { each: e, face: f },
            ) && e == each_named(each) && f == face_named(face))
            &&& at_three && size_three && !names(shape, "window"@) && shape_named(shape) is None
                ==> r == Err::<ItemPlan, ItemError>(ItemError::NoShape)
            &&& at_three && size_three && !names(shape, "window"@) && shape_named(shape) is Some
                && mat_named(mat) is None ==> r == Err::<ItemPlan, ItemError>(ItemError::NoMaterial)
            &&& at_three && size_three && !names(shape, "window"@) && shape_named(shape) is Some
                && mat_named(mat) is Some ==> (r matches Ok(
                ItemPlan::Brush { op: o, shape: sh, mat: m, each: e, axis: a, south: so },
            ) && (o == Op::Cut <==> names(op, "cut"@)) && Some(sh) == shape_named(shape) && Some(m)
                == mat_named(mat) && e == each_named(each) && (names(axis, "n"@) ==> a == Axis::North)
                && (names(axis, "e"@) ==> a == Axis::East) && (!names(axis, "n"@) && !names(
                axis,
                "e"@,
            ) ==> a == Axis::Up) && (so <==> names(dir, "s"@)))
        }),
{
    reveal_strlit("n");
    reveal_strlit("e");
    assert("n"@[0] != "e"@[0]);
    assert("n"@ != "e"@);
    if names(axis, "n"@) {
        assert(!names(axis, "e"@));
    }
}

/// Read a window's `face` word.
fn face_of(word: Option<&str>) -> (r: char)
    ensures
        r == face_named(word),
{
    match word {
        Some(w) => {
            if w.unicode_len() > 0 {
                w.get_char(0)
            } else {
                'n'
            }
        },
        None => 'n',
    }
}

/// Decide what an item of a recipe is from its words, and whether its
/// `at` and `size` were three numbers each.
pub fn item_of(
    shape: Option<&str>,
    op: Option<&str>,
    mat: Option<&str>,
    each: Option<&str>,
    axis: Option<&str>,
    dir: Option<&str>,
    face: Option<&str>,
    at_three: bool,
    size_three: bool,
) -> (r: Result<ItemPlan, ItemError>)
    ensures
        r == spec_item_of(shape, op, mat, each, axis, dir, face, at_three, size_three),
{
    let repeat = each_of(each);
    if !at_three {
        return Err(ItemError::NoAt);
    }
    if !size_three {
        return Err(ItemError::NoSize);
    }
    if is_window(shape) {
        return Ok(ItemPlan::Window { each: repeat, face: face_of(face) });
    }
    let solid = match shape_of(shape) {
        Some(sh) => sh,
        None => {
            return Err(ItemError::NoShape);
        },
    };
    let how = op_of(op);
    let stuff = match mat_of(mat) {
        Some(m) => m,
        None => {
            return Err(ItemError::NoMaterial);
        },
    };
    Ok(
        ItemPlan::Brush {
            op: how,
            shape: solid,
            mat: stuff,
            each: repeat,
            axis: axis_of(axis),
            south: south_of(dir),
        },
    )
}

/// Why a recipe is refused: it has no footprint of two numbers, or one
/// of its items is refused.
#[derive(Clone, Copy, PartialEq, Eq, Debug, Structural)]
pub enum RecipeError {
    /// Its `footprint` is not two numbers.
    NoFootprint,
    /// The first of its items that is refused, and why.
    Item(ItemError),
}

/// The items of the first `t` entries, read in order: the first refusal
/// among them where there is one.
pub open spec fn read_upto(items: Seq<Result<ItemPlan, ItemError>>, t: int) -> Result<Seq<ItemPlan>, ItemError>
    decreases t,
{
    if t <= 0 {
        Ok(Seq::empty())
    } else {
        match read_upto(items, t - 1) {
            Err(e) => Err(e),
            Ok(done) => match items[t - 1] {
                Err(e) => Err(e),
                Ok(p) => Ok(done.push(p)),
            },
        }
    }
}

/// What a recipe reads as, from whether its footprint is two numbers and
/// what each of its items reads as: refused for its footprint first, then
/// for its first refused item; otherwise every item in order.
pub open spec fn spec_recipe_of(footprint_two: bool, items: Seq<Result<ItemPlan, ItemError>>) -> Result<
    Seq<ItemPlan>,
    RecipeError,
> {
    if !footprint_two {
        Err(RecipeError::NoFootprint)
    } else {
        match read_upto(items, items.len() as int) {
            Err(e) => Err(RecipeError::Item(e)),
            Ok(ps) => Ok(ps),
        }
    }
}

proof fn lemma_refused_stays(items: Seq<Result<ItemPlan, ItemError>>, t: int, u: int, e: ItemError)
    requires
        0 <= t <= u,
        read_upto(items, t) == Err::<Seq<ItemPlan>, ItemError>(e),
    ensures
        read_upto(items, u) == Err::<Seq<ItemPlan>, ItemError>(e),
    decreases u - t,
{
    if t < u {
        lemma_refused_stays(items, t, u - 1, e);
    }
}

/// Read a recipe's items in order, refusing it for its footprint or for
/// its first refused item.
pub fn recipe_of(footprint_two: bool, items: &Vec<Result<ItemPlan, ItemError>>) -> (r: Result<
    Vec<ItemPlan>,
    RecipeError,
>)
    ensures
        match r {
            Ok(v) => spec_recipe_of(footprint_two, items@) == Ok::<Seq<ItemPlan>, RecipeError>(v@),
            Err(e) => spec_recipe_of(footprint_two, items@) == Err::<Seq<ItemPlan>, RecipeError>(e),
        },
{
    if !footprint_two {
        return Err(RecipeError::NoFootprint);
    }
    let mut out: Vec<ItemPlan> = Vec::new();
    let mut t: usize = 0;
    while t < items.len()
        invariant
            footprint_two,
            t <= items@.len(),
            read_upto(items@, t as int) == Ok::<Seq<ItemPlan>, ItemError>(out@),
        decreases items@.len() - t,
    {
        match items[t] {
            Ok(p) => {
                out.push(p);
            },
            Err(e) => {
                proof {
                    assert(items@[t as int] == Err::<ItemPlan, ItemError>(e));
                    assert(read_upto(items@, t + 1) == Err::<Seq<ItemPlan>, ItemError>(e));
                    lemma_refused_stays(items@, t + 1, items@.len() as int, e);
                }
                return Err(RecipeError::Item(e));
            },
        }
        t = t + 1;
    }
    Ok(out)
}

/// A recipe's name: its own, or "recipe" where it gives none.
pub fn recipe_name(word: Option<&str>) -> (r: String)
    ensures
        r@ == (match word {
            Some(w) => w@,
            None => "recipe"@,
        }),
{
    match word {
        Some(w) => w.to_owned(),
        None => "recipe".to_owned(),
    }
}

/// The material a compiled brush is made of: a cut is made of terrain,
/// whatever it names, since what it leaves is the ground.
pub fn brush_mat(op: Op, mat: u8) -> (r: u8)
    ensures
        r == (if op == Op::Cut {
            TERRAIN
        } else {
            mat
        }),
{
    if op == Op::Cut {
        TERRAIN
    } else {
        mat
    }
}

/// Whether a compiled brush hangs a lamp: an added brush of lamp.
pub fn lights(op: Op, mat: u8) -> (r: bool)
    ensures
        r == (op == Op::Add && mat == LAMP),
{
    op == Op::Add && mat == LAMP
}

/// The count of storeys a recipe is compiled for: what was asked, but at
/// least one and at most `MOST_STOREYS`.
pub fn storeys_for(asked: u32) -> (s: u32)
    ensures
        1 <= s <= MOST_STOREYS,
        asked <= 1 ==> s == 1,
        asked >= MOST_STOREYS ==> s == MOST_STOREYS,
        1 <= asked <= MOST_STOREYS ==> s == asked,
{
    if asked < 1 {
        1
    } else if asked > MOST_STOREYS {
        MOST_STOREYS
    } else {
        asked
    }
}

/// The storeys a brush is laid on, each as how many storey heights up it
/// stands and whether it is an odd one, where `alternate` mirrors it:
/// every storey; every storey but the ground; every storey but the top,
/// where a flight climbs to the next; the roof over the top one; or the
/// ground alone.
pub open spec fn schedule(each: Each, s: nat) -> Seq<(u32, bool)> {
    match each {
        Each::Storey => Seq::new(s, |i: int| (i as u32, i % 2 == 1)),
        Each::Upper => Seq::new(
            (if s >= 1 { s - 1 } else { 0 }) as nat,
            |i: int| ((i + 1) as u32, i % 2 == 1),
        ),
        Each::Flight => Seq::new(
            (if s >= 1 { s - 1 } else { 0 }) as nat,
            |i: int| (i as u32, i % 2 == 1),
        ),
        Each::Top => seq![(s as u32, s % 2 == 1)],
        Each::Once => seq![(0u32, false)],
    }
}

/// Where a brush repeats in a building of `storeys` storeys.
pub fn repeats(each: Each, storeys: u32) -> (r: Vec<(u32, bool)>)
    requires
        1 <= storeys <= MOST_STOREYS,
    ensures
        r@ == schedule(each, storeys as nat),
{
    let mut r: Vec<(u32, bool)> = Vec::new();
    match each {
        Each::Storey => {
            let mut i: u32 = 0;
            while i < storeys
                invariant
                    i <= storeys <= MOST_STOREYS,
                    r@ =~= Seq::new(i as nat, |k: int| (k as u32, k % 2 == 1)),
                decreases storeys - i,
            {
                r.push((i, i % 2 == 1));
                i = i + 1;
            }
        },
        Each::Upper => {
            let mut f: u32 = 1;
            while f < storeys
                invariant
                    1 <= f <= storeys <= MOST_STOREYS,
                    r@ =~= Seq::new((f - 1) as nat, |k: int| ((k + 1) as u32, k % 2 == 1)),
                decreases storeys - f,
            {
                r.push((f, (f - 1) % 2 == 1));
                f = f + 1;
            }
        },
        Each::Flight => {
            let mut i: u32 = 0;
            while i < storeys - 1
                invariant
                    1 <= storeys <= MOST_STOREYS,
                    i <= storeys - 1,
                    r@ =~= Seq::new(i as nat, |k: int| (k as u32, k % 2 == 1)),
                decreases storeys - 1 - i,
            {
                r.push((i, i % 2 == 1));
                i = i + 1;
            }
        },
        Each::Top => {
            r.push((storeys, storeys % 2 == 1));
        },
        Each::Once => {
            r.push((0, false));
        },
    }
    assert(r@ =~= schedule(each, storeys as nat));
    r
}

/// The room a compiled brush names: the next one counted where it is a
/// cut that the recipe calls a room, and none (-1) otherwise.
pub fn room_of(room: bool, op: Op, rooms: &mut usize) -> (r: i32)
    requires
        *old(rooms) < i32::MAX,
    ensures
        room && op == Op::Cut ==> r == *old(rooms) && *final(rooms) == *old(rooms) + 1,
        !(room && op == Op::Cut) ==> r == -1 && *final(rooms) == *old(rooms),
{
    if room && op == Op::Cut {
        let r = *rooms as i32;
        *rooms = *rooms + 1;
        r
    } else {
        -1
    }
}

/// Whether a window with no word on it is lit, off its place in the
/// recipe and the building's seed.
pub open spec fn lit_by_default(index: usize, seed: u32) -> bool {
    spec_mix3(index as i64, 7, 0, seed) > LIT_OVER
}

/// What a window's pane is made of: lit or dark as the recipe says, and
/// where it says nothing, as the dice say.
pub fn pane_of(lit: Option<bool>, index: usize, seed: u32) -> (r: u8)
    ensures
        r == (if (match lit {
            Some(l) => l,
            None => lit_by_default(index, seed),
        }) {
            LIT
        } else {
            GLASS
        }),
{
    let on = match lit {
        Some(l) => l,
        None => {
            #[verifier::truncate]
            let at = index as i64;
            mix3(at, 7, 0, seed) > LIT_OVER
        },
    };
    if on {
        LIT
    } else {
        GLASS
    }
}

/// Whether a window's face is east or west, where its width runs north.
pub fn on_side(face: char) -> (r: bool)
    ensures
        r == (face == 'e' || face == 'w'),
{
    face == 'e' || face == 'w'
}

} // verus!
