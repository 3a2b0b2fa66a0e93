//! What has been built on the tiles: a store of how high each tile stands,
//! keyed by the tile's number, and the number itself, one for every point
//! of the twenty faces' lattice.
//!
//! Sorted pairs and a binary search rather than a hash map: the order of
//! the list is a function of what it holds, so two worlds built to the same
//! shape are the same list on every machine.
use vstd::prelude::*;

verus! {

/// Every key of the list is larger than the one before it.
pub open spec fn strictly_sorted<V>(s: Seq<(u64, V)>) -> bool {
    forall|i: int, j: int| 0 <= i < j < s.len() ==> #[trigger] s[i].0 < #[trigger] s[j].0
}

/// Whether the list holds key `k`.
pub open spec fn holds<V>(s: Seq<(u64, V)>, k: u64) -> bool {
    exists|i: int| 0 <= i < s.len() && #[trigger] s[i].0 == k
}

/// What the list holds under key `k`, if anything.
pub open spec fn entry<V>(s: Seq<(u64, V)>, k: u64) -> Option<V> {
    if holds(s, k) {
        Some(s[choose|i: int| 0 <= i < s.len() && #[trigger] s[i].0 == k].1)
    } else {
        None
    }
}

/// How high the built tiles stand, by key, for the tiles that have been
/// built on.
pub struct Stacks<V> {
    raised: Vec<(u64, V)>,
}

impl<V> View for Stacks<V> {
    type V = Seq<(u64, V)>;

    open spec fn view(&self) -> Seq<(u64, V)> {
        self.list()
    }
}

proof fn lemma_entry_at<V>(s: Seq<(u64, V)>, i: int)
    requires
        strictly_sorted(s),
        0 <= i < s.len(),
    ensures
        entry(s, s[i].0) == Some(s[i].1),
{
    assert(holds(s, s[i].0));
    let j = choose|j: int| 0 <= j < s.len() && #[trigger] s[j].0 == s[i].0;
    if j != i {
        if j < i {
            assert(s[j].0 < s[i].0);
        } else {
            assert(s[i].0 < s[j].0);
        }
    }
}

/// Two sorted lists that hold the same thing under every key are one list.
pub proof fn lemma_one_shape_one_list<V>(s: Seq<(u64, V)>, t: Seq<(u64, V)>)
    requires
        strictly_sorted(s),
        strictly_sorted(t),
        forall|k: u64| entry(s, k) == entry(t, k),
    ensures
        s == t,
    decreases s.len(),
{
    if s.len() == 0 {
        if t.len() > 0 {
            lemma_entry_at(t, 0);
            assert(entry(s, t[0].0) == entry(t, t[0].0));
        }
        assert(s =~= t);
    } else {
        lemma_entry_at(s, 0);
        assert(entry(t, s[0].0) == entry(s, s[0].0));
        assert(holds(t, s[0].0));
        assert(t.len() > 0);
        lemma_entry_at(t, 0);
        assert(entry(s, t[0].0) == entry(t, t[0].0));
        assert(holds(s, t[0].0));
        let a = choose|i: int| 0 <= i < s.len() && #[trigger] s[i].0 == t[0].0;
        let b = choose|i: int| 0 <= i < t.len() && #[trigger] t[i].0 == s[0].0;
        if a > 0 {
            assert(s[0].0 < s[a].0);
        }
        if b > 0 {
            assert(t[0].0 < t[b].0);
        }
        assert(s[0].0 == t[0].0);
        assert(s[0].1 == t[0].1);
        let (s1, t1) = (s.drop_first(), t.drop_first());
        assert forall|k: u64| entry(s1, k) == entry(t1, k) by {
            lemma_entry_after_first(s, k);
            lemma_entry_after_first(t, k);
        }
        lemma_one_shape_one_list(s1, t1);
        assert(s =~= seq![s[0]] + s1);
        assert(t =~= seq![t[0]] + t1);
    }
}

proof fn lemma_entry_after_first<V>(s: Seq<(u64, V)>, k: u64)
    requires
        strictly_sorted(s),
        s.len() > 0,
    ensures
        entry(s.drop_first(), k) == (if k == s[0].0 {
            None
        } else {
            entry(s, k)
        }),
{
    let r = s.drop_first();
    if holds(r, k) {
        let i = choose|i: int| 0 <= i < r.len() && #[trigger] r[i].0 == k;
        lemma_entry_at(r, i);
        lemma_entry_at(s, i + 1);
        assert(s[0].0 < s[i + 1].0);
    } else if k != s[0].0 && holds(s, k) {
        let i = choose|i: int| 0 <= i < s.len() && #[trigger] s[i].0 == k;
        assert(r[i - 1].0 == k);
    }
}

/// An edit taken back leaves the store as it was found: setting a key the
/// store did not hold and then taking it away again gives the list back.
pub proof fn lemma_edit_taken_back<V>(
    s: Seq<(u64, V)>,
    set: Seq<(u64, V)>,
    taken: Seq<(u64, V)>,
    k: u64,
    v: V,
)
    requires
        strictly_sorted(s),
        strictly_sorted(set),
        strictly_sorted(taken),
        entry(s, k) is None,
        forall|k2: u64| #[trigger]
            entry(set, k2) == (if k2 == k {
                Some(v)
            } else {
                entry(s, k2)
            }),
        forall|k2: u64| #[trigger]
            entry(taken, k2) == (if k2 == k {
                None
            } else {
                entry(set, k2)
            }),
    ensures
        taken == s,
{
    assert forall|k2: u64| entry(taken, k2) == entry(s, k2) by {
        if k2 != k {
            assert(entry(set, k2) == entry(s, k2));
        }
    }
    lemma_one_shape_one_list(taken, s);
}

impl<V> Stacks<V> {
    /// The pairs of the store, in its own order.
    pub closed spec fn list(&self) -> Seq<(u64, V)> {
        self.raised@
    }

    #[verifier::type_invariant]
    spec fn sorted(&self) -> bool {
        strictly_sorted(self.raised@)
    }

    /// Nothing built anywhere.
    pub fn new() -> (s: Stacks<V>)
        ensures
            s@ == Seq::<(u64, V)>::empty(),
            strictly_sorted(s@),
    {
        Stacks { raised: Vec::new() }
    }

    /// Where key `k` stands in the list, or where it would go.
    fn find(&self, k: u64) -> (r: Result<usize, usize>)
        ensures
            match r {
                Ok(i) => i < self@.len() && self@[i as int].0 == k,
                Err(i) => i <= self@.len() && (forall|j: int| 0 <= j < i ==> #[trigger] self@[j].0 < k)
                    && (forall|j: int| i <= j < self@.len() ==> #[trigger] self@[j].0 > k),
            },
    {
        proof {
            use_type_invariant(self);
        }
        let mut lo: usize = 0;
        let mut hi: usize = self.raised.len();
        while lo < hi
            invariant
                lo <= hi <= self.raised.len(),
                self.raised@ == self@,
                strictly_sorted(self@),
                forall|j: int| 0 <= j < lo ==> #[trigger] self@[j].0 < k,
                forall|j: int| hi <= j < self@.len() ==> #[trigger] self@[j].0 > k,
            decreases hi - lo,
        {
            let mid = lo + (hi - lo) / 2;
            let at = self.raised[mid].0;
            if at == k {
                return Ok(mid);
            } else if at < k {
                proof {
                    assert forall|j: int| 0 <= j < mid + 1 implies #[trigger] self@[j].0 < k by {
                        if j < mid {
                            assert(self@[j].0 < self@[mid as int].0);
                        }
                    }
                }
                lo = mid + 1;
            } else {
                proof {
                    assert forall|j: int| mid <= j < self@.len() implies #[trigger] self@[j].0 > k by {
                        if j > mid {
                            assert(self@[mid as int].0 < self@[j].0);
                        }
                    }
                }
                hi = mid;
            }
        }
        Err(lo)
    }

    /// Set what key `k` stands at, adding the key where the store did not
    /// hold it.
    pub fn put(&mut self, k: u64, v: V)
        ensures
            strictly_sorted(final(self)@),
            forall|k2: u64| #[trigger]
                entry(final(self)@, k2) == (if k2 == k {
                    Some(v)
                } else {
                    entry(old(self)@, k2)
                }),
    {
        proof {
            use_type_invariant(&*self);
        }
        let found = self.find(k);
        let ghost s = self@;
        let mut raised: Vec<(u64, V)> = Vec::new();
        std::mem::swap(&mut raised, &mut self.raised);
        assert(raised@ == s);
        match found {
            Ok(i) => {
                raised.set(i, (k, v));
                proof {
                    lemma_put_over(s, raised@, i as int, k, v);
                }
            },
            Err(i) => {
                raised.insert(i, (k, v));
                proof {
                    lemma_put_new(s, raised@, i as int, k, v);
                }
            },
        }
        self.raised = raised;
    }

    /// Take key `k` out of the store, where it held it.
    pub fn take(&mut self, k: u64)
        ensures
            strictly_sorted(final(self)@),
            forall|k2: u64| #[trigger]
                entry(final(self)@, k2) == (if k2 == k {
                    None
                } else {
                    entry(old(self)@, k2)
                }),
    {
        proof {
            use_type_invariant(&*self);
        }
        let found = self.find(k);
        let ghost s = self@;
        match found {
            Ok(i) => {
                let mut raised: Vec<(u64, V)> = Vec::new();
                std::mem::swap(&mut raised, &mut self.raised);
                assert(raised@ == s);
                raised.remove(i);
                proof {
                    lemma_take_at(s, raised@, i as int, k);
                }
                self.raised = raised;
            },
            Err(_) => {
                proof {
                    assert forall|k2: u64| #[trigger]
                        entry(s, k2) == (if k2 == k {
                            None
                        } else {
                            entry(s, k2)
                        }) by {
                        if k2 == k && holds(s, k) {
                            let j = choose|j: int| 0 <= j < s.len() && #[trigger] s[j].0 == k;
                            assert(s[j].0 != k);
                        }
                    }
                }
            },
        }
    }

    /// How many tiles have been built on.
    pub fn len(&self) -> (n: usize)
        ensures
            n == self@.len(),
    {
        self.raised.len()
    }

    /// Whether nothing has been built.
    pub fn is_empty(&self) -> (b: bool)
        ensures
            b == (self@.len() == 0),
    {
        self.raised.len() == 0
    }
}

impl<V: Copy> Stacks<V> {
    /// What key `k` stands at, where it has been built on.
    pub fn at(&self, k: u64) -> (r: Option<V>)
        ensures
            r == entry(self@, k),
    {
        proof {
            use_type_invariant(self);
        }
        match self.find(k) {
            Ok(i) => {
                proof {
                    lemma_entry_at(self@, i as int);
                }
                Some(self.raised[i].1)
            },
            Err(i) => {
                proof {
                    if holds(self@, k) {
                        let j = choose|j: int| 0 <= j < self@.len() && #[trigger] self@[j].0 == k;
                        if j < i {
                            assert(self@[j].0 < k);
                        } else {
                            assert(self@[j].0 > k);
                        }
                    }
                }
                None
            },
        }
    }

    /// Every key built on, with what it stands at, in the store's own
    /// order.
    pub fn each(&self) -> (out: Vec<(u64, V)>)
        ensures
            out@ == self@,
            strictly_sorted(out@),
    {
        proof {
            use_type_invariant(self);
        }
        let mut out: Vec<(u64, V)> = Vec::new();
        let mut i: usize = 0;
        while i < self.raised.len()
            invariant
                i <= self.raised.len(),
                self.raised@ == self@,
                out@ == self@.subrange(0, i as int),
            decreases self.raised.len() - i,
        {
            out.push(self.raised[i]);
            i = i + 1;
            assert(out@ =~= self@.subrange(0, i as int));
        }
        assert(out@ =~= self@);
        out
    }
}

proof fn lemma_put_over<V>(s: Seq<(u64, V)>, t: Seq<(u64, V)>, i: int, k: u64, v: V)
    requires
        strictly_sorted(s),
        0 <= i < s.len(),
        s[i].0 == k,
        t == s.update(i, (k, v)),
    ensures
        strictly_sorted(t),
        forall|k2: u64| #[trigger]
            entry(t, k2) == (if k2 == k {
                Some(v)
            } else {
                entry(s, k2)
            }),
{
    assert(strictly_sorted(t)) by {
        assert forall|a: int, b: int| 0 <= a < b < t.len() implies #[trigger] t[a].0 < #[trigger] t[b].0 by {
            assert(s[a].0 < s[b].0);
        }
    }
    assert forall|k2: u64| #[trigger]
        entry(t, k2) == (if k2 == k {
            Some(v)
        } else {
            entry(s, k2)
        }) by {
        if k2 == k {
            lemma_entry_at(t, i);
        } else if holds(s, k2) {
            let j = choose|j: int| 0 <= j < s.len() && #[trigger] s[j].0 == k2;
            lemma_entry_at(s, j);
            lemma_entry_at(t, j);
        } else if holds(t, k2) {
            let j = choose|j: int| 0 <= j < t.len() && #[trigger] t[j].0 == k2;
            assert(s[j].0 == k2);
        }
    }
}

proof fn lemma_put_new<V>(s: Seq<(u64, V)>, t: Seq<(u64, V)>, i: int, k: u64, v: V)
    requires
        strictly_sorted(s),
        0 <= i <= s.len(),
        forall|j: int| 0 <= j < i ==> #[trigger] s[j].0 < k,
        forall|j: int| i <= j < s.len() ==> #[trigger] s[j].0 > k,
        t == s.insert(i, (k, v)),
    ensures
        strictly_sorted(t),
        forall|k2: u64| #[trigger]
            entry(t, k2) == (if k2 == k {
                Some(v)
            } else {
                entry(s, k2)
            }),
{
    assert(strictly_sorted(t)) by {
        assert forall|a: int, b: int| 0 <= a < b < t.len() implies #[trigger] t[a].0 < #[trigger] t[b].0 by {
            if b < i {
                assert(s[a].0 < s[b].0);
            } else if b == i {
                assert(s[a].0 < k);
            } else if a < i {
                assert(s[a].0 < k && k < s[b - 1].0);
            } else if a == i {
                assert(s[b - 1].0 > k);
            } else {
                assert(s[a - 1].0 < s[b - 1].0);
            }
        }
    }
    assert forall|k2: u64| #[trigger]
        entry(t, k2) == (if k2 == k {
            Some(v)
        } else {
            entry(s, k2)
        }) by {
        if k2 == k {
            lemma_entry_at(t, i);
        } else if holds(s, k2) {
            let j = choose|j: int| 0 <= j < s.len() && #[trigger] s[j].0 == k2;
            lemma_entry_at(s, j);
            if j < i {
                lemma_entry_at(t, j);
            } else {
                lemma_entry_at(t, j + 1);
            }
        } else if holds(t, k2) {
            let j = choose|j: int| 0 <= j < t.len() && #[trigger] t[j].0 == k2;
            if j < i {
                assert(s[j].0 == k2);
            } else if j > i {
                assert(s[j - 1].0 == k2);
            }
        }
    }
}

proof fn lemma_take_at<V>(s: Seq<(u64, V)>, t: Seq<(u64, V)>, i: int, k: u64)
    requires
        strictly_sorted(s),
        0 <= i < s.len(),
        s[i].0 == k,
        t == s.remove(i),
    ensures
        strictly_sorted(t),
        forall|k2: u64| #[trigger]
            entry(t, k2) == (if k2 == k {
                None
            } else {
                entry(s, k2)
            }),
{
    assert(strictly_sorted(t)) by {
        assert forall|a: int, b: int| 0 <= a < b < t.len() implies #[trigger] t[a].0 < #[trigger] t[b].0 by {
            if b < i {
                assert(s[a].0 < s[b].0);
            } else if a < i {
                assert(s[a].0 < s[b + 1].0);
            } else {
                assert(s[a + 1].0 < s[b + 1].0);
            }
        }
    }
    assert forall|k2: u64| #[trigger]
        entry(t, k2) == (if k2 == k {
            None
        } else {
            entry(s, k2)
        }) by {
        if holds(t, k2) {
            let j = choose|j: int| 0 <= j < t.len() && #[trigger] t[j].0 == k2;
            lemma_entry_at(t, j);
            if j < i {
                lemma_entry_at(s, j);
                assert(s[j].0 < s[i].0);
            } else {
                lemma_entry_at(s, j + 1);
                assert(s[i].0 < s[j + 1].0);
            }
        } else if k2 != k && holds(s, k2) {
            let j = choose|j: int| 0 <= j < s.len() && #[trigger] s[j].0 == k2;
            if j < i {
                assert(t[j].0 == k2);
            } else {
                assert(j != i);
                assert(t[j - 1].0 == k2);
            }
        }
    }
}

/// Whether every key of a lattice `n` tiles along an edge fits a `u64`:
/// the twenty faces' `(n + 1)^2` points each.
pub open spec fn keys_fit(n: int) -> bool {
    0 <= n && FACES * ((n + 1) * (n + 1)) <= 0x1_0000_0000_0000_0000
}

/// How many faces the icosahedron has.
pub const FACES: u64 = 20;

/// The number naming the lattice point `i`, `j` of face `face`, on a
/// lattice `n` tiles along an edge: a face's own points fit in
/// `(n + 1)^2`.
pub open spec fn spec_key(n: int, face: int, i: int, j: int) -> int {
    face * ((n + 1) * (n + 1)) + i * (n + 1) + j
}

/// The lattice point a key names, as its face and its `i` and `j`: none
/// where the key names no point of a face.
pub open spec fn spec_lattice_point(n: int, key: int) -> Option<(u8, u64, u64)> {
    let m = n + 1;
    let face = key / (m * m);
    let rest = key % (m * m);
    let (i, j) = (rest / m, rest % m);
    if face >= FACES || i + j > n {
        None
    } else {
        Some((face as u8, i as u64, j as u64))
    }
}

/// One number naming a tile, which is what a sorted list needs.
pub fn key(n: u64, face: u8, i: u64, j: u64) -> (k: u64)
    requires
        keys_fit(n as int),
        face < FACES,
        i <= n,
        j <= n,
    ensures
        k == spec_key(n as int, face as int, i as int, j as int),
{
    assert(n + 1 <= (n + 1) * (n + 1)) by (nonlinear_arith)
        requires
            n >= 0,
    ;
    let m = n + 1;
    assert(face * (m * m) + i * m + j < 0x1_0000_0000_0000_0000) by (nonlinear_arith)
        requires
            FACES * (m * m) <= 0x1_0000_0000_0000_0000,
            face < FACES,
            i < m,
            j < m,
    ;
    assert(i * m <= face * (m * m) + i * m) by (nonlinear_arith)
        requires
            face >= 0,
            m >= 1,
    ;
    (face as u64) * (m * m) + i * m + j
}

/// The lattice point a key names, which is `key` undone: its face and its
/// `i` and `j` along the face's edges, or none where the key names no
/// point of a face. A point on an edge the faces share is handed back as
/// the face the key was made on; choosing one face for such a point is the
/// grid's own rule, and is not made here.
pub fn lattice_point(n: u64, key: u64) -> (r: Option<(u8, u64, u64)>)
    requires
        (n + 1) * (n + 1) <= u64::MAX,
    ensures
        r == spec_lattice_point(n as int, key as int),
{
    assert(n + 1 <= (n + 1) * (n + 1)) by (nonlinear_arith)
        requires
            n >= 0,
    ;
    let m = n + 1;
    assert(m * m >= 1) by (nonlinear_arith)
        requires
            m >= 1,
    ;
    let mm = m * m;
    let face = key / mm;
    let rest = key % mm;
    let (i, j) = (rest / m, rest % m);
    assert(j < m) by {
        vstd::arithmetic::div_mod::lemma_mod_pos_bound(rest as int, m as int);
    }
    if face >= FACES || i > n - j {
        return None;
    }
    Some((face as u8, i, j))
}

/// A key names its own lattice point and nothing else: every point of a
/// face comes back from its key, and a key that names a point is that
/// point's key.
pub proof fn lemma_key_names_its_point(n: int, face: int, i: int, j: int, key: int)
    requires
        keys_fit(n),
        0 <= key,
    ensures
        0 <= face < FACES && 0 <= i && 0 <= j && i + j <= n ==> spec_lattice_point(n, spec_key(n, face, i, j))
            == Some((face as u8, i as u64, j as u64)),
        spec_lattice_point(n, key) matches Some((f, a, b)) ==> spec_key(n, f as int, a as int, b as int) == key,
{
    let m = n + 1;
    assert(m * m > 0) by (nonlinear_arith)
        requires
            m >= 1,
    ;
    if 0 <= face < FACES && 0 <= i && 0 <= j && i + j <= n {
        let k = spec_key(n, face, i, j);
        assert(0 <= i * m + j < m * m) by (nonlinear_arith)
            requires
                0 <= i < m,
                0 <= j < m,
        ;
        assert(k == face * (m * m) + (i * m + j));
        vstd::arithmetic::div_mod::lemma_fundamental_div_mod_converse(k, m * m, face, i * m + j);
        vstd::arithmetic::div_mod::lemma_fundamental_div_mod_converse(i * m + j, m, i, j);
    }
    let face2 = key / (m * m);
    let rest = key % (m * m);
    let (a, b) = (rest / m, rest % m);
    vstd::arithmetic::div_mod::lemma_fundamental_div_mod(key, m * m);
    vstd::arithmetic::div_mod::lemma_fundamental_div_mod(rest, m);
    vstd::arithmetic::div_mod::lemma_mod_pos_bound(key, m * m);
    vstd::arithmetic::div_mod::lemma_mod_pos_bound(rest, m);
    vstd::arithmetic::div_mod::lemma_div_pos_is_pos(key, m * m);
    vstd::arithmetic::div_mod::lemma_div_pos_is_pos(rest, m);
    if spec_lattice_point(n, key) is Some {
        assert(face2 < FACES && a + b <= n);
        assert(face2 * (m * m) + a * m + b == key) by (nonlinear_arith)
            requires
                key == (m * m) * face2 + rest,
                rest == m * a + b,
        ;
        assert(face2 as u8 as int == face2);
        assert(a as u64 as int == a);
        assert(b as u64 as int == b);
    }
}

} // verus!
