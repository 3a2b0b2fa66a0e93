//! The planet as six quadtrees: a cube's faces, each cut into four and
//! four again where the eye wants detail, and the leaves that are drawn.
//!
//! A node is one patch of one face: at level `l` a face is `2^l` patches
//! a side, and `x` and `y` count them from the face's lower corner. Where
//! a patch stands on the sphere and how far it is from the eye are
//! measurements; which patches are cut and which are leaves is the tree,
//! and the tree stands here.
use vstd::prelude::*;

verus! {

/// A cube has six faces.
pub const FACES: u8 = 6;

/// The deepest a tree is cut.
pub const DEEPEST: u8 = 32;

/// One patch of one face: `x` and `y` run 0..2^level across it.
#[derive(Clone, Copy, Debug, PartialEq, Eq, PartialOrd, Ord)]
pub struct Node {
    pub face: u8,
    pub level: u8,
    pub x: u32,
    pub y: u32,
}

/// Two to the `k`: how many patches a side a face is at level `k`.
pub open spec fn two_pow(k: nat) -> nat
    decreases k,
{
    if k == 0 {
        1
    } else {
        2 * two_pow((k - 1) as nat)
    }
}

/// Whether a node is a patch of one of the faces.
pub open spec fn on_cube(n: Node) -> bool {
    n.face < FACES && n.x < two_pow(n.level as nat) && n.y < two_pow(n.level as nat)
}

/// Whether node `n` holds the patch at `x`, `y` of face `f` at level
/// `depth`: the patch is `n` or lies inside it.
pub open spec fn covers(n: Node, f: int, x: int, y: int, depth: nat) -> bool {
    &&& n.face == f
    &&& n.level <= depth
    &&& x / (two_pow((depth - n.level) as nat) as int) == n.x
    &&& y / (two_pow((depth - n.level) as nat) as int) == n.y
}

/// How many of the nodes of `s` hold the patch at `x`, `y` of face `f`
/// at level `depth`.
pub open spec fn cover_count(s: Seq<Node>, f: int, x: int, y: int, depth: nat) -> nat
    decreases s.len(),
{
    if s.len() == 0 {
        0
    } else {
        cover_count(s.drop_last(), f, x, y, depth) + if covers(s.last(), f, x, y, depth) {
            1nat
        } else {
            0nat
        }
    }
}

/// Whether the nodes of `s` hold every patch at level `depth` once and
/// once only.
pub open spec fn partitions(s: Seq<Node>, depth: nat) -> bool {
    forall|f: int, x: int, y: int|
        #![trigger cover_count(s, f, x, y, depth)]
        0 <= f < FACES && 0 <= x < two_pow(depth) && 0 <= y < two_pow(depth) ==> cover_count(
            s,
            f,
            x,
            y,
            depth,
        ) == 1
}

/// The order leaves are listed in: by face, then level, then `x`, then `y`.
pub open spec fn before(a: Node, b: Node) -> bool {
    ||| a.face < b.face
    ||| (a.face == b.face && a.level < b.level)
    ||| (a.face == b.face && a.level == b.level && a.x < b.x)
    ||| (a.face == b.face && a.level == b.level && a.x == b.x && a.y <= b.y)
}

/// The four children of a node, in `x` then `y` order.
pub open spec fn spec_children(n: Node) -> Seq<Node> {
    let (f, l, x, y) = (n.face, (n.level + 1) as u8, (2 * n.x) as u32, (2 * n.y) as u32);
    seq![
        Node { face: f, level: l, x, y },
        Node { face: f, level: l, x: (x + 1) as u32, y },
        Node { face: f, level: l, x, y: (y + 1) as u32 },
        Node { face: f, level: l, x: (x + 1) as u32, y: (y + 1) as u32 },
    ]
}

proof fn lemma_two_pow_grows(a: nat, b: nat)
    requires
        a <= b,
    ensures
        1 <= two_pow(a) <= two_pow(b),
    decreases b,
{
    if b > 0 {
        if b > a {
            lemma_two_pow_grows(a, (b - 1) as nat);
        } else {
            lemma_two_pow_grows(0, (b - 1) as nat);
        }
    }
}

proof fn lemma_two_pow_thirty_one()
    ensures
        two_pow(31) == 0x8000_0000,
{
    reveal_with_fuel(two_pow, 32);
}

impl Node {
    /// The six roots, one a face.
    pub fn roots() -> (r: [Node; 6])
        ensures
            r@ == Seq::new(6, |f: int| Node { face: f as u8, level: 0, x: 0, y: 0 }),
    {
        let r = [
            Node { face: 0, level: 0, x: 0, y: 0 },
            Node { face: 1, level: 0, x: 0, y: 0 },
            Node { face: 2, level: 0, x: 0, y: 0 },
            Node { face: 3, level: 0, x: 0, y: 0 },
            Node { face: 4, level: 0, x: 0, y: 0 },
            Node { face: 5, level: 0, x: 0, y: 0 },
        ];
        assert(r@ =~= Seq::new(6, |f: int| Node { face: f as u8, level: 0, x: 0, y: 0 }));
        r
    }

    /// The four children, in `x` then `y` order.
    pub fn children(&self) -> (r: [Node; 4])
        requires
            self.level < 255,
            self.x < 0x8000_0000,
            self.y < 0x8000_0000,
        ensures
            r@ == spec_children(*self),
    {
        let (f, l, x, y) = (self.face, self.level + 1, self.x * 2, self.y * 2);
        let r = [
            Node { face: f, level: l, x, y },
            Node { face: f, level: l, x: x + 1, y },
            Node { face: f, level: l, x, y: y + 1 },
            Node { face: f, level: l, x: x + 1, y: y + 1 },
        ];
        assert(r@ =~= spec_children(*self));
        r
    }
}

proof fn lemma_count_push(s: Seq<Node>, a: Node, f: int, x: int, y: int, depth: nat)
    ensures
        cover_count(s.push(a), f, x, y, depth) == cover_count(s, f, x, y, depth) + if covers(
            a,
            f,
            x,
            y,
            depth,
        ) {
            1nat
        } else {
            0nat
        },
{
    assert(s.push(a).drop_last() =~= s);
}

proof fn lemma_count_insert(s: Seq<Node>, i: int, a: Node, f: int, x: int, y: int, depth: nat)
    requires
        0 <= i <= s.len(),
    ensures
        cover_count(s.insert(i, a), f, x, y, depth) == cover_count(s, f, x, y, depth) + if covers(
            a,
            f,
            x,
            y,
            depth,
        ) {
            1nat
        } else {
            0nat
        },
    decreases s.len(),
{
    if i == s.len() {
        assert(s.insert(i, a) =~= s.push(a));
        lemma_count_push(s, a, f, x, y, depth);
    } else {
        let rest = s.drop_last();
        lemma_count_insert(rest, i, a, f, x, y, depth);
        assert(s.insert(i, a) =~= rest.insert(i, a).push(s.last()));
        lemma_count_push(rest.insert(i, a), s.last(), f, x, y, depth);
        assert(s =~= rest.push(s.last()));
        lemma_count_push(rest, s.last(), f, x, y, depth);
    }
}

proof fn lemma_count_concat(a: Seq<Node>, b: Seq<Node>, f: int, x: int, y: int, depth: nat)
    ensures
        cover_count(a + b, f, x, y, depth) == cover_count(a, f, x, y, depth) + cover_count(
            b,
            f,
            x,
            y,
            depth,
        ),
    decreases b.len(),
{
    if b.len() == 0 {
        assert(a + b =~= a);
    } else {
        lemma_count_concat(a, b.drop_last(), f, x, y, depth);
        assert((a + b).drop_last() =~= a + b.drop_last());
        assert((a + b).last() == b.last());
    }
}

/// A patch held by a node at a level over `depth` is held by exactly one
/// of its four children, and a patch it does not hold by none of them.
proof fn lemma_children_split(n: Node, f: int, x: int, y: int, depth: nat)
    requires
        n.level < depth,
        n.level < 255,
        n.x < 0x8000_0000,
        n.y < 0x8000_0000,
        0 <= x,
        0 <= y,
    ensures
        cover_count(spec_children(n), f, x, y, depth) == if covers(n, f, x, y, depth) {
            1nat
        } else {
            0nat
        },
{
    let k = (depth - n.level - 1) as nat;
    let q = two_pow(k) as int;
    lemma_two_pow_grows(0, k);
    assert(two_pow((depth - n.level) as nat) == 2 * q);
    vstd::arithmetic::div_mod::lemma_div_denominator(x, q, 2);
    vstd::arithmetic::div_mod::lemma_div_denominator(y, q, 2);
    vstd::arithmetic::div_mod::lemma_fundamental_div_mod(x / q, 2);
    vstd::arithmetic::div_mod::lemma_fundamental_div_mod(y / q, 2);
    assert(x / q >= 0 && y / q >= 0) by {
        vstd::arithmetic::div_mod::lemma_div_pos_is_pos(x, q);
        vstd::arithmetic::div_mod::lemma_div_pos_is_pos(y, q);
    }
    let c = spec_children(n);
    assert(((depth - c[0].level) as nat) == k);
    reveal_with_fuel(cover_count, 5);
    assert(c.drop_last().drop_last().drop_last().drop_last() =~= Seq::<Node>::empty());
}

/// Each patch at level `depth` is held by exactly one of the six roots.
proof fn lemma_roots_partition(depth: nat)
    ensures
        partitions(Seq::new(6, |f: int| Node { face: f as u8, level: 0, x: 0, y: 0 }), depth),
{
    let roots = Seq::new(6, |f: int| Node { face: f as u8, level: 0, x: 0, y: 0 });
    assert forall|f: int, x: int, y: int|
        #![trigger cover_count(roots, f, x, y, depth)]
        0 <= f < FACES && 0 <= x < two_pow(depth) && 0 <= y < two_pow(depth) implies cover_count(
            roots,
            f,
            x,
            y,
            depth,
        ) == 1 by {
        let p = two_pow(depth) as int;
        assert(x / p == 0 && y / p == 0) by {
            vstd::arithmetic::div_mod::lemma_basic_div(x, p);
            vstd::arithmetic::div_mod::lemma_basic_div(y, p);
        }
        reveal_with_fuel(cover_count, 7);
        assert(roots.drop_last().drop_last().drop_last().drop_last().drop_last().drop_last()
            =~= Seq::<Node>::empty());
    }
}

/// The weight of a node with `k` levels still under it: enough that
/// cutting it into four lightens the stack.
pub open spec fn weight_under(k: nat) -> nat
    decreases k,
{
    if k == 0 {
        1
    } else {
        5 * weight_under((k - 1) as nat)
    }
}

/// The weight a node still to be looked at carries.
pub open spec fn weight(n: Node, depth: nat) -> nat {
    if n.level >= depth {
        1
    } else {
        weight_under((depth - n.level) as nat)
    }
}

/// The weight of a stack of nodes.
pub open spec fn stack_weight(s: Seq<Node>, depth: nat) -> nat
    decreases s.len(),
{
    if s.len() == 0 {
        0
    } else {
        stack_weight(s.drop_last(), depth) + weight(s.last(), depth)
    }
}

proof fn lemma_weight_under_pos(k: nat)
    ensures
        weight_under(k) >= 1,
    decreases k,
{
    if k > 0 {
        lemma_weight_under_pos((k - 1) as nat);
    }
}

proof fn lemma_weight_of_children(n: Node, depth: nat)
    requires
        n.level < depth,
        n.level < 255,
    ensures
        weight(n, depth) > 4 * weight(spec_children(n)[0], depth),
        weight(spec_children(n)[0], depth) == weight(spec_children(n)[1], depth),
        weight(spec_children(n)[0], depth) == weight(spec_children(n)[2], depth),
        weight(spec_children(n)[0], depth) == weight(spec_children(n)[3], depth),
{
    let c = spec_children(n);
    lemma_weight_under_pos((depth - n.level - 1) as nat);
    assert(c[0].level == n.level + 1);
}

proof fn lemma_weight_pos(a: Node, depth: nat)
    ensures
        weight(a, depth) >= 1,
{
    if a.level < depth {
        lemma_weight_under_pos((depth - a.level) as nat);
    }
}

proof fn lemma_stack_weight_push(s: Seq<Node>, a: Node, depth: nat)
    ensures
        stack_weight(s.push(a), depth) == stack_weight(s, depth) + weight(a, depth),
{
    assert(s.push(a).drop_last() =~= s);
}

/// Whether a node is a patch of the tree cut no deeper than `depth`.
pub open spec fn in_tree(n: Node, depth: nat) -> bool {
    on_cube(n) && n.level <= depth
}

/// Whether node `a` lies above node `n` in its tree: `n` is inside it and
/// deeper.
pub open spec fn above(a: Node, n: Node) -> bool {
    a.level < n.level && covers(a, n.face as int, n.x as int, n.y as int, n.level as nat)
}

/// Whether `split` said to cut every node above `n`.
pub open spec fn cut_down<F: Fn(Node) -> bool>(split: F, n: Node) -> bool {
    forall|a: Node| #[trigger] above(a, n) ==> split.ensures((a,), true)
}

proof fn lemma_above_child(a: Node, n: Node, t: int)
    requires
        0 <= t < 4,
        on_cube(n),
        n.level < 32,
        two_pow(n.level as nat) <= two_pow(31),
        two_pow(31) == 0x8000_0000,
        above(a, spec_children(n)[t]),
    ensures
        a == n || above(a, n),
{
    let c = spec_children(n)[t];
    assert(c.level == n.level + 1);
    assert(c.face == n.face);
    assert(c.x == 2 * n.x || c.x == 2 * n.x + 1);
    assert(c.y == 2 * n.y || c.y == 2 * n.y + 1);
    let k = (c.level - a.level) as nat;
    assert(k >= 1);
    assert(two_pow(k) == 2 * two_pow((k - 1) as nat));
    let p = two_pow((k - 1) as nat) as int;
    lemma_two_pow_grows(0, (k - 1) as nat);
    vstd::arithmetic::div_mod::lemma_div_denominator(c.x as int, 2, p);
    vstd::arithmetic::div_mod::lemma_div_denominator(c.y as int, 2, p);
    assert((c.x as int) / 2 == n.x);
    assert((c.y as int) / 2 == n.y);
    if a.level == n.level {
        assert(k == 1);
        assert(p == 1);
        assert(a.x == n.x && a.y == n.y && a.face == n.face);
    } else {
        assert(covers(a, n.face as int, n.x as int, n.y as int, n.level as nat));
    }
}

/// The leaves of the six trees: a node is cut into four while it is
/// shallower than `depth` and `split` says to cut it, and is a leaf
/// otherwise. The leaves hold every patch at level `depth` once and once
/// only, each is a leaf because it is at `depth` or because `split` said
/// not to cut it, every node above a leaf is one `split` said to cut, and
/// they come sorted by face, level, `x` and `y`.
pub fn select_by<F: Fn(Node) -> bool>(depth: u8, split: F) -> (leaves: Vec<Node>)
    requires
        depth <= DEEPEST,
        forall|n: Node| #[trigger] split.requires((n,)),
    ensures
        partitions(leaves@, depth as nat),
        forall|t: int| 0 <= t < leaves@.len() ==> #[trigger] in_tree(leaves@[t], depth as nat),
        forall|t: int|
            0 <= t < leaves@.len() ==> leaves@[t].level == depth || split.ensures(
                (#[trigger] leaves@[t],),
                false,
            ),
        forall|t: int| 0 <= t < leaves@.len() ==> cut_down(split, #[trigger] leaves@[t]),
        forall|a: int, b: int| 0 <= a < b < leaves@.len() ==> before(#[trigger] leaves@[a], #[trigger] leaves@[b]),
{
    let ghost d = depth as nat;
    let roots = Node::roots();
    let mut stack: Vec<Node> = Vec::new();
    let mut r: usize = 0;
    while r < 6
        invariant
            r <= 6,
            roots@ == Seq::new(6, |f: int| Node { face: f as u8, level: 0, x: 0, y: 0 }),
            stack@ == roots@.subrange(0, r as int),
        decreases 6 - r,
    {
        stack.push(roots[r]);
        r = r + 1;
        assert(stack@ =~= roots@.subrange(0, r as int));
    }
    proof {
        assert(stack@ =~= roots@);
        lemma_roots_partition(d);
        lemma_two_pow_thirty_one();
        assert forall|t: int| 0 <= t < stack@.len() implies cut_down(split, #[trigger] stack@[t]) by {
            assert(stack@[t].level == 0);
        }
    }
    let mut leaves: Vec<Node> = Vec::new();
    loop
        invariant
            d == depth as nat,
            depth <= DEEPEST,
            two_pow(31) == 0x8000_0000,
            forall|n: Node| #[trigger] split.requires((n,)),
            forall|f: int, x: int, y: int|
                #![trigger cover_count(leaves@, f, x, y, d)]
                0 <= f < FACES && 0 <= x < two_pow(d) && 0 <= y < two_pow(d) ==> cover_count(
                    leaves@,
                    f,
                    x,
                    y,
                    d,
                ) + cover_count(stack@, f, x, y, d) == 1,
            forall|t: int| 0 <= t < stack@.len() ==> #[trigger] in_tree(stack@[t], d),
            forall|t: int| 0 <= t < leaves@.len() ==> #[trigger] in_tree(leaves@[t], d),
            forall|t: int|
                0 <= t < leaves@.len() ==> leaves@[t].level == depth || split.ensures(
                    (#[trigger] leaves@[t],),
                    false,
                ),
            forall|t: int| 0 <= t < stack@.len() ==> cut_down(split, #[trigger] stack@[t]),
            forall|t: int| 0 <= t < leaves@.len() ==> cut_down(split, #[trigger] leaves@[t]),
        ensures
            forall|t: int| 0 <= t < leaves@.len() ==> cut_down(split, #[trigger] leaves@[t]),
            partitions(leaves@, d),
            forall|t: int| 0 <= t < leaves@.len() ==> #[trigger] in_tree(leaves@[t], d),
            forall|t: int|
                0 <= t < leaves@.len() ==> leaves@[t].level == depth || split.ensures(
                    (#[trigger] leaves@[t],),
                    false,
                ),
        decreases stack_weight(stack@, d),
    {
        let ghost whole = stack@;
        let next = stack.pop();
        match next {
            None => {
                proof {
                    assert forall|f: int, x: int, y: int|
                        #![trigger cover_count(leaves@, f, x, y, d)]
                        0 <= f < FACES && 0 <= x < two_pow(d) && 0 <= y < two_pow(d) implies cover_count(
                            leaves@,
                            f,
                            x,
                            y,
                            d,
                        ) == 1 by {
                        assert(cover_count(stack@, f, x, y, d) == 0);
                    }
                }
                break;
            },
            Some(node) => {
                proof {
                    assert(whole =~= stack@.push(node));
                    assert(in_tree(whole[whole.len() - 1], d));
                    lemma_stack_weight_push(stack@, node, d);
                    lemma_weight_pos(node, d);
                    assert forall|t: int| 0 <= t < stack@.len() implies #[trigger] in_tree(stack@[t], d) by {
                        assert(stack@[t] == whole[t]);
                    }
                    assert forall|t: int| 0 <= t < stack@.len() implies cut_down(split, #[trigger] stack@[t]) by {
                        assert(stack@[t] == whole[t]);
                    }
                    assert(cut_down(split, whole[whole.len() - 1]));
                }
                let cut = if node.level < depth {
                    split(node)
                } else {
                    false
                };
                if cut {
                    proof {
                        lemma_two_pow_grows(node.level as nat, 31);
                    }
                    let kids = node.children();
                    let ghost rest = stack@;
                    stack.push(kids[0]);
                    stack.push(kids[1]);
                    stack.push(kids[2]);
                    stack.push(kids[3]);
                    proof {
                        let c = spec_children(node);
                        assert(stack@ =~= rest + c);
                        assert forall|f: int, x: int, y: int|
                            #![trigger cover_count(leaves@, f, x, y, d)]
                            0 <= f < FACES && 0 <= x < two_pow(d) && 0 <= y < two_pow(d) implies cover_count(
                                leaves@,
                                f,
                                x,
                                y,
                                d,
                            ) + cover_count(stack@, f, x, y, d) == 1 by {
                            assert(cover_count(leaves@, f, x, y, d) + cover_count(whole, f, x, y, d) == 1);
                            lemma_count_push(rest, node, f, x, y, d);
                            lemma_count_concat(rest, c, f, x, y, d);
                            lemma_children_split(node, f, x, y, d);
                        }
                        assert forall|t: int| 0 <= t < stack@.len() implies #[trigger] in_tree(stack@[t], d) by {
                            if t < rest.len() {
                                assert(stack@[t] == rest[t]);
                            } else {
                                assert(stack@[t] == c[t - rest.len()]);
                            }
                        }
                        assert(split.ensures((node,), true));
                        assert forall|t: int| 0 <= t < stack@.len() implies cut_down(split, #[trigger] stack@[t]) by {
                            if t < rest.len() {
                                assert(stack@[t] == rest[t]);
                            } else {
                                let i = t - rest.len();
                                assert(stack@[t] == c[i]);
                                assert forall|a: Node| #[trigger] above(a, c[i]) implies split.ensures((a,), true) by {
                                    lemma_above_child(a, node, i);
                                }
                            }
                        }
                        lemma_weight_of_children(node, d);
                        assert(rest.push(c[0]).push(c[1]).push(c[2]).push(c[3]) =~= stack@);
                        lemma_stack_weight_push(rest, c[0], d);
                        lemma_stack_weight_push(rest.push(c[0]), c[1], d);
                        lemma_stack_weight_push(rest.push(c[0]).push(c[1]), c[2], d);
                        lemma_stack_weight_push(rest.push(c[0]).push(c[1]).push(c[2]), c[3], d);
                    }
                } else {
                    let ghost was = leaves@;
                    leaves.push(node);
                    proof {
                        assert forall|f: int, x: int, y: int|
                            #![trigger cover_count(leaves@, f, x, y, d)]
                            0 <= f < FACES && 0 <= x < two_pow(d) && 0 <= y < two_pow(d) implies cover_count(
                                leaves@,
                                f,
                                x,
                                y,
                                d,
                            ) + cover_count(stack@, f, x, y, d) == 1 by {
                            assert(cover_count(was, f, x, y, d) + cover_count(whole, f, x, y, d) == 1);
                            lemma_count_push(was, node, f, x, y, d);
                            lemma_count_push(stack@, node, f, x, y, d);
                        }
                        assert forall|t: int| 0 <= t < leaves@.len() implies #[trigger] in_tree(leaves@[t], d) by {
                            if t < was.len() {
                                assert(leaves@[t] == was[t]);
                            }
                        }
                        assert forall|t: int| 0 <= t < leaves@.len() implies cut_down(split, #[trigger] leaves@[t]) by {
                            if t < was.len() {
                                assert(leaves@[t] == was[t]);
                            }
                        }
                        assert forall|t: int|
                            0 <= t < leaves@.len() implies leaves@[t].level == depth || split.ensures(
                                (#[trigger] leaves@[t],),
                                false,
                            ) by {
                            if t < was.len() {
                                assert(leaves@[t] == was[t]);
                            }
                        }
                    }
                }
            },
        }
    }
    sort_leaves(leaves, Ghost(d), &split)
}

fn comes_before(a: Node, b: Node) -> (r: bool)
    ensures
        r == before(a, b),
{
    a.face < b.face || (a.face == b.face && a.level < b.level) || (a.face == b.face && a.level
        == b.level && a.x < b.x) || (a.face == b.face && a.level == b.level && a.x == b.x && a.y
        <= b.y)
}

/// Sort the leaves into their order, keeping what they hold.
fn sort_leaves<F: Fn(Node) -> bool>(v: Vec<Node>, d: Ghost<nat>, split: &F) -> (out: Vec<Node>)
    requires
        partitions(v@, d@),
        forall|t: int| 0 <= t < v@.len() ==> #[trigger] in_tree(v@[t], d@),
        forall|t: int|
            0 <= t < v@.len() ==> v@[t].level == d@ || split.ensures((#[trigger] v@[t],), false),
        forall|t: int| 0 <= t < v@.len() ==> cut_down(*split, #[trigger] v@[t]),
    ensures
        forall|t: int| 0 <= t < out@.len() ==> cut_down(*split, #[trigger] out@[t]),
        partitions(out@, d@),
        forall|t: int| 0 <= t < out@.len() ==> #[trigger] in_tree(out@[t], d@),
        forall|t: int|
            0 <= t < out@.len() ==> out@[t].level == d@ || split.ensures(
                (#[trigger] out@[t],),
                false,
            ),
        forall|a: int, b: int| 0 <= a < b < out@.len() ==> before(#[trigger] out@[a], #[trigger] out@[b]),
{
    let mut out: Vec<Node> = Vec::new();
    let mut t: usize = 0;
    while t < v.len()
        invariant
            t <= v@.len(),
            forall|f: int, x: int, y: int|
                #![trigger cover_count(out@, f, x, y, d@)]
                cover_count(out@, f, x, y, d@) == cover_count(v@.subrange(0, t as int), f, x, y, d@),
            forall|s: int| 0 <= s < v@.len() ==> #[trigger] in_tree(v@[s], d@),
            forall|s: int|
                0 <= s < v@.len() ==> v@[s].level == d@ || split.ensures((#[trigger] v@[s],), false),
            forall|s: int| 0 <= s < v@.len() ==> cut_down(*split, #[trigger] v@[s]),
            forall|s: int| 0 <= s < out@.len() ==> cut_down(*split, #[trigger] out@[s]),
            forall|s: int| 0 <= s < out@.len() ==> #[trigger] in_tree(out@[s], d@),
            forall|s: int|
                0 <= s < out@.len() ==> out@[s].level == d@ || split.ensures(
                    (#[trigger] out@[s],),
                    false,
                ),
            forall|a: int, b: int| 0 <= a < b < out@.len() ==> before(#[trigger] out@[a], #[trigger] out@[b]),
        decreases v@.len() - t,
    {
        let x = v[t];
        let mut at: usize = 0;
        while at < out.len() && comes_before(out[at], x)
            invariant
                at <= out@.len(),
                forall|y: int| 0 <= y < at ==> before(#[trigger] out@[y], x),
            decreases out@.len() - at,
        {
            at = at + 1;
        }
        let ghost was = out@;
        out.insert(at, x);
        proof {
            assert(v@.subrange(0, t + 1) =~= v@.subrange(0, t as int).push(x));
            assert forall|f: int, px: int, py: int|
                #![trigger cover_count(out@, f, px, py, d@)]
                cover_count(out@, f, px, py, d@) == cover_count(v@.subrange(0, t + 1), f, px, py, d@) by {
                lemma_count_insert(was, at as int, x, f, px, py, d@);
                lemma_count_push(v@.subrange(0, t as int), x, f, px, py, d@);
            }
            assert forall|s: int| 0 <= s < out@.len() implies #[trigger] in_tree(out@[s], d@) && (out@[s].level
                == d@ || split.ensures((out@[s],), false)) && cut_down(*split, out@[s]) by {
                if s < at {
                    assert(out@[s] == was[s]);
                } else if s > at {
                    assert(out@[s] == was[s - 1]);
                }
            }
            assert forall|a: int, b: int| 0 <= a < b < out@.len() implies before(#[trigger] out@[a], #[trigger] out@[b]) by {
                if b < at {
                    assert(out@[a] == was[a] && out@[b] == was[b]);
                } else if b == at {
                    assert(out@[a] == was[a]);
                } else if a == at {
                    assert(out@[b] == was[b - 1]);
                    if at < was.len() {
                        assert(!before(was[at as int], x));
                        assert(before(was[at as int], was[b - 1]) || at as int == b - 1);
                    }
                } else if a < at {
                    assert(out@[a] == was[a] && out@[b] == was[b - 1]);
                } else {
                    assert(out@[a] == was[a - 1] && out@[b] == was[b - 1]);
                }
            }
        }
        t = t + 1;
    }
    proof {
        assert(v@.subrange(0, v@.len() as int) =~= v@);
    }
    out
}

proof fn lemma_two_pow_adds(a: nat, b: nat)
    ensures
        two_pow(a) * two_pow(b) == two_pow(a + b),
    decreases a,
{
    if a == 0 {
        assert(two_pow(a) == 1);
        assert(a + b == b);
    } else {
        let a1 = (a - 1) as nat;
        lemma_two_pow_adds(a1, b);
        let p = two_pow(a1);
        let r = two_pow(b);
        assert(two_pow(a) == 2 * p);
        assert(two_pow(a) * r == 2 * (p * r)) by (nonlinear_arith)
            requires
                two_pow(a) == 2 * p,
        ;
        assert(a1 + b == (a + b - 1) as nat);
        assert(two_pow(a + b) == 2 * two_pow((a + b - 1) as nat));
    }
}

proof fn lemma_count_one(s: Seq<Node>, a: int, f: int, x: int, y: int, depth: nat)
    requires
        0 <= a < s.len(),
        covers(s[a], f, x, y, depth),
    ensures
        cover_count(s, f, x, y, depth) >= 1,
    decreases s.len(),
{
    if a < s.len() - 1 {
        lemma_count_one(s.drop_last(), a, f, x, y, depth);
    }
}

proof fn lemma_count_two(s: Seq<Node>, a: int, b: int, f: int, x: int, y: int, depth: nat)
    requires
        0 <= a < b < s.len(),
        covers(s[a], f, x, y, depth),
        covers(s[b], f, x, y, depth),
    ensures
        cover_count(s, f, x, y, depth) >= 2,
    decreases s.len(),
{
    if b == s.len() - 1 {
        lemma_count_one(s.drop_last(), a, f, x, y, depth);
    } else {
        lemma_count_two(s.drop_last(), a, b, f, x, y, depth);
    }
}

/// No leaf is listed twice: leaves that hold every patch once are apart.
pub proof fn lemma_no_leaf_twice(s: Seq<Node>, depth: nat, a: int, b: int)
    requires
        partitions(s, depth),
        forall|t: int| 0 <= t < s.len() ==> #[trigger] in_tree(s[t], depth),
        0 <= a < b < s.len(),
    ensures
        s[a] != s[b],
{
    if s[a] == s[b] {
        let n = s[a];
        assert(in_tree(s[a], depth));
        let k = (depth - n.level) as nat;
        let q = two_pow(k) as int;
        lemma_two_pow_grows(0, k);
        lemma_two_pow_adds(n.level as nat, k);
        let x = n.x * q;
        let y = n.y * q;
        assert(x / q == n.x && y / q == n.y) by {
            vstd::arithmetic::div_mod::lemma_div_by_multiple(n.x as int, q);
            vstd::arithmetic::div_mod::lemma_div_by_multiple(n.y as int, q);
        }
        assert(0 <= x < two_pow(depth) && 0 <= y < two_pow(depth)) by (nonlinear_arith)
            requires
                0 <= n.x < two_pow(n.level as nat),
                0 <= n.y < two_pow(n.level as nat),
                q >= 1,
                two_pow(n.level as nat) * q == two_pow(depth),
                x == n.x * q,
                y == n.y * q,
        ;
        lemma_count_two(s, a, b, n.face as int, x, y, depth);
        assert(cover_count(s, n.face as int, x, y, depth) == 1);
    }
}

} // verus!
