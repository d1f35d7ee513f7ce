use vstd::prelude::*;

verus! {

/// Values that a red-black tree orders by a key.
pub trait Keyed: Sized {
    /// The key of the value.
    spec fn spec_key(&self) -> u64;

    /// The key of the value.
    fn key(&self) -> (k: u64)
        ensures
            k == self.spec_key(),
    ;
}

impl Keyed for u64 {
    open spec fn spec_key(&self) -> u64 {
        *self
    }

    fn key(&self) -> (k: u64) {
        *self
    }
}

/// The color of a node.
#[derive(Clone, Copy, Debug, PartialEq, Eq, Structural)]
pub enum Color {
    Red,
    Black,
}

/// A node of a red-black tree: a value, the node's color and its subtrees, whose values come
/// before and after it in key order.
pub struct RbNode<T> {
    pub value: T,
    pub color: Color,
    pub left: Option<Box<RbNode<T>>>,
    pub right: Option<Box<RbNode<T>>>,
}

/// The values of a subtree in order: the left subtree's, the node's own, the right subtree's.
pub open spec fn inorder<T>(t: Option<Box<RbNode<T>>>) -> Seq<T>
    decreases t,
{
    match t {
        None => Seq::empty(),
        Some(n) => inorder(n.left) + seq![n.value] + inorder(n.right),
    }
}

/// Keys never decrease along `s`.
pub open spec fn sorted<T: Keyed>(s: Seq<T>) -> bool {
    forall|i: int, j: int| 0 <= i <= j < s.len() ==> (#[trigger] s[i]).spec_key() <= (#[trigger] s[j]).spec_key()
}

/// Every key of `s` lies in `[lo, hi]`.
pub open spec fn within<T: Keyed>(s: Seq<T>, lo: u64, hi: u64) -> bool {
    forall|i: int| 0 <= i < s.len() ==> lo <= (#[trigger] s[i]).spec_key() <= hi
}

/// `s` with `v` put before the first value whose key is not below `v`'s.
pub open spec fn insert_sorted<T: Keyed>(s: Seq<T>, v: T) -> Seq<T>
    decreases s.len(),
{
    if s.len() == 0 {
        seq![v]
    } else if v.spec_key() <= s[0].spec_key() {
        seq![v] + s
    } else {
        seq![s[0]] + insert_sorted(s.drop_first(), v)
    }
}

/// Whether the subtree's root is red.
pub open spec fn is_red<T>(t: Option<Box<RbNode<T>>>) -> bool {
    t matches Some(n) && n.color == Color::Red
}

/// The number of black nodes on the path down the left spine.
pub open spec fn black_height<T>(t: Option<Box<RbNode<T>>>) -> nat
    decreases t,
{
    match t {
        None => 0,
        Some(n) => black_height(n.left) + if n.color == Color::Black { 1nat } else { 0nat },
    }
}

/// Every path from a node down to a leaf passes as many black nodes.
pub open spec fn black_balanced<T>(t: Option<Box<RbNode<T>>>) -> bool
    decreases t,
{
    match t {
        None => true,
        Some(n) => black_height(n.left) == black_height(n.right) && black_balanced(n.left) && black_balanced(
            n.right,
        ),
    }
}

/// No red node has a red child.
pub open spec fn red_ok<T>(t: Option<Box<RbNode<T>>>) -> bool
    decreases t,
{
    match t {
        None => true,
        Some(n) => (n.color == Color::Red ==> !is_red(n.left) && !is_red(n.right)) && red_ok(n.left) && red_ok(
            n.right,
        ),
    }
}

/// No red node has a red child, except perhaps the root.
pub open spec fn red_ok_below<T>(t: Option<Box<RbNode<T>>>) -> bool {
    match t {
        None => true,
        Some(n) => red_ok(n.left) && red_ok(n.right),
    }
}

/// The subtree with root `v` of color `c` over subtrees `l` and `r`.
pub open spec fn mk<T>(c: Color, l: Option<Box<RbNode<T>>>, v: T, r: Option<Box<RbNode<T>>>) -> Option<Box<RbNode<T>>> {
    Some(Box::new(RbNode { value: v, color: c, left: l, right: r }))
}

/// Two nodes over three subtrees, in either arrangement, hold the subtrees' values and their
/// own in the same order.
pub proof fn lemma_inorder_two<T>(
    a: Option<Box<RbNode<T>>>,
    x: T,
    b: Option<Box<RbNode<T>>>,
    y: T,
    c: Option<Box<RbNode<T>>>,
    c1: Color,
    c2: Color,
)
    ensures
        inorder(mk(c1, mk(c2, a, x, b), y, c)) == inorder(a) + seq![x] + inorder(b) + seq![y] + inorder(c),
        inorder(mk(c1, a, x, mk(c2, b, y, c))) == inorder(a) + seq![x] + inorder(b) + seq![y] + inorder(c),
{
    reveal_with_fuel(inorder, 2);
    assert(inorder(mk(c1, a, x, mk(c2, b, y, c))) =~= inorder(a) + seq![x] + inorder(b) + seq![y] + inorder(c));
}

/// A node over two nodes over four subtrees holds the subtrees' values and the nodes' own in
/// order.
pub proof fn lemma_inorder_three<T>(
    a: Option<Box<RbNode<T>>>,
    x: T,
    b: Option<Box<RbNode<T>>>,
    y: T,
    c: Option<Box<RbNode<T>>>,
    z: T,
    d: Option<Box<RbNode<T>>>,
    c1: Color,
    c2: Color,
    c3: Color,
)
    ensures
        inorder(mk(c1, mk(c2, a, x, b), y, mk(c3, c, z, d))) == inorder(a) + seq![x] + inorder(b) + seq![y]
            + inorder(c) + seq![z] + inorder(d),
{
    reveal_with_fuel(inorder, 2);
    assert(inorder(mk(c1, mk(c2, a, x, b), y, mk(c3, c, z, d))) =~= inorder(a) + seq![x] + inorder(b) + seq![y]
        + inorder(c) + seq![z] + inorder(d));
}

/// Regrouping concatenations around one value.
proof fn lemma_cat_one<A>(x: Seq<A>, y: Seq<A>, a: A, z: Seq<A>)
    ensures
        x + (y + seq![a] + z) == x + y + seq![a] + z,
        (x + seq![a] + y) + z == x + seq![a] + (y + z),
{
    assert(x + (y + seq![a] + z) =~= x + y + seq![a] + z);
    assert((x + seq![a] + y) + z =~= x + seq![a] + (y + z));
}

/// Regrouping concatenations around two values.
proof fn lemma_cat_two<A>(x: Seq<A>, a: A, y: Seq<A>, z: Seq<A>, c: A, w: Seq<A>, m: Seq<A>)
    requires
        m == y + z,
    ensures
        (x + seq![a] + y) + (z + seq![c] + w) == x + seq![a] + m + seq![c] + w,
        x + seq![a] + (m + seq![c] + w) == x + seq![a] + m + seq![c] + w,
{
    assert((x + seq![a] + y) + (z + seq![c] + w) =~= x + seq![a] + m + seq![c] + w);
    assert(x + seq![a] + (m + seq![c] + w) =~= x + seq![a] + m + seq![c] + w);
}

/// Regrouping concatenations around three values.
proof fn lemma_cat_three<A>(x: Seq<A>, a: A, y: Seq<A>, b: A, z: Seq<A>, c: A, w: Seq<A>)
    ensures
        x + seq![a] + (y + seq![b] + z) + seq![c] + w == x + seq![a] + y + seq![b] + z + seq![c] + w,
        x + seq![a] + (y + seq![b] + z + seq![c] + w) == x + seq![a] + y + seq![b] + (z + seq![c] + w),
        (x + seq![a] + y) + seq![b] + (z + seq![c] + w) == x + seq![a] + y + seq![b] + z + seq![c] + w,
{
    assert(x + seq![a] + (y + seq![b] + z) + seq![c] + w =~= x + seq![a] + y + seq![b] + z + seq![c] + w);
    assert(x + seq![a] + (y + seq![b] + z + seq![c] + w) =~= x + seq![a] + y + seq![b] + (z + seq![c] + w));
    assert((x + seq![a] + y) + seq![b] + (z + seq![c] + w) =~= x + seq![a] + y + seq![b] + z + seq![c] + w);
}

/// A sorted sequence split around one value has sorted sides, the left keys at most the
/// value's and the right ones at least.
pub proof fn lemma_sorted_split<T: Keyed>(a: Seq<T>, x: T, b: Seq<T>)
    requires
        sorted(a + seq![x] + b),
    ensures
        sorted(a),
        sorted(b),
        forall|i: int| 0 <= i < a.len() ==> (#[trigger] a[i]).spec_key() <= x.spec_key(),
        forall|i: int| 0 <= i < b.len() ==> x.spec_key() <= (#[trigger] b[i]).spec_key(),
{
    let s = a + seq![x] + b;
    assert(s[a.len() as int] == x);
    assert forall|i: int, j: int| 0 <= i <= j < a.len() implies (#[trigger] a[i]).spec_key() <= (
    #[trigger] a[j]).spec_key() by {
        assert(s[i] == a[i] && s[j] == a[j]);
    }
    assert forall|i: int, j: int| 0 <= i <= j < b.len() implies (#[trigger] b[i]).spec_key() <= (
    #[trigger] b[j]).spec_key() by {
        assert(s[a.len() + 1 + i] == b[i] && s[a.len() + 1 + j] == b[j]);
    }
    assert forall|i: int| 0 <= i < a.len() implies (#[trigger] a[i]).spec_key() <= x.spec_key() by {
        assert(s[i] == a[i]);
    }
    assert forall|i: int| 0 <= i < b.len() implies x.spec_key() <= (#[trigger] b[i]).spec_key() by {
        assert(s[a.len() + 1 + i] == b[i]);
    }
}

/// Inserting before a tail whose first key is not below `v`'s inserts into the head.
pub proof fn lemma_insert_sorted_before<T: Keyed>(a: Seq<T>, b: Seq<T>, v: T)
    requires
        b.len() > 0 ==> v.spec_key() <= b[0].spec_key(),
    ensures
        insert_sorted(a + b, v) == insert_sorted(a, v) + b,
    decreases a.len(),
{
    if a.len() == 0 {
        assert(a + b =~= b);
        assert(insert_sorted(a, v) + b =~= seq![v] + b);
        if b.len() == 0 {
            assert(seq![v] + b =~= seq![v]);
        }
    } else {
        assert((a + b)[0] == a[0]);
        if v.spec_key() <= a[0].spec_key() {
            assert(seq![v] + (a + b) =~= (seq![v] + a) + b);
        } else {
            assert((a + b).drop_first() =~= a.drop_first() + b);
            lemma_insert_sorted_before(a.drop_first(), b, v);
            assert(seq![a[0]] + (insert_sorted(a.drop_first(), v) + b) =~= (seq![a[0]] + insert_sorted(
                a.drop_first(),
                v,
            )) + b);
        }
    }
}

/// Inserting after a head whose keys are all below `v`'s inserts into the tail.
pub proof fn lemma_insert_sorted_after<T: Keyed>(a: Seq<T>, b: Seq<T>, v: T)
    requires
        forall|i: int| 0 <= i < a.len() ==> (#[trigger] a[i]).spec_key() < v.spec_key(),
    ensures
        insert_sorted(a + b, v) == a + insert_sorted(b, v),
    decreases a.len(),
{
    if a.len() == 0 {
        assert(a + b =~= b);
        assert(a + insert_sorted(b, v) =~= insert_sorted(b, v));
    } else {
        assert((a + b)[0] == a[0]);
        assert((a + b).drop_first() =~= a.drop_first() + b);
        assert forall|i: int| 0 <= i < a.drop_first().len() implies (#[trigger] a.drop_first()[i]).spec_key()
            < v.spec_key() by {
            assert(a.drop_first()[i] == a[i + 1]);
        }
        lemma_insert_sorted_after(a.drop_first(), b, v);
        assert(seq![a[0]] + (a.drop_first() + insert_sorted(b, v)) =~= a + insert_sorted(b, v));
    }
}

/// The insertion puts `v` after the leading values whose keys are below its own and before the
/// rest.
pub proof fn lemma_insert_sorted_shape<T: Keyed>(s: Seq<T>, v: T) -> (c: int)
    ensures
        0 <= c <= s.len(),
        insert_sorted(s, v) == s.take(c) + seq![v] + s.skip(c),
        forall|i: int| 0 <= i < c ==> (#[trigger] s[i]).spec_key() < v.spec_key(),
        c < s.len() ==> v.spec_key() <= s[c].spec_key(),
    decreases s.len(),
{
    if s.len() == 0 {
        assert(s.take(0) + seq![v] + s.skip(0) =~= seq![v]);
        0
    } else if v.spec_key() <= s[0].spec_key() {
        assert(s.take(0) + seq![v] + s.skip(0) =~= seq![v] + s);
        0
    } else {
        let c1 = lemma_insert_sorted_shape(s.drop_first(), v);
        let t = s.drop_first();
        assert(seq![s[0]] + (t.take(c1) + seq![v] + t.skip(c1)) =~= s.take(c1 + 1) + seq![v] + s.skip(c1 + 1));
        assert forall|i: int| 0 <= i < c1 + 1 implies (#[trigger] s[i]).spec_key() < v.spec_key() by {
            if i > 0 {
                assert(s[i] == t[i - 1]);
            }
        }
        if c1 + 1 < s.len() {
            assert(s[c1 + 1] == t[c1]);
        }
        c1 + 1
    }
}

/// Inserting into a sorted sequence keeps it sorted.
pub proof fn lemma_insert_sorted_sorted<T: Keyed>(s: Seq<T>, v: T)
    requires
        sorted(s),
    ensures
        sorted(insert_sorted(s, v)),
        insert_sorted(s, v).len() == s.len() + 1,
{
    let c = lemma_insert_sorted_shape(s, v);
    let r = insert_sorted(s, v);
    assert forall|i: int| 0 <= i < r.len() implies #[trigger] r[i] == if i < c {
        s[i]
    } else if i == c {
        v
    } else {
        s[i - 1]
    } by {}
    assert forall|i: int, j: int| 0 <= i <= j < r.len() implies (#[trigger] r[i]).spec_key() <= (
    #[trigger] r[j]).spec_key() by {
        if i > c {
            assert(s[i - 1].spec_key() <= s[j - 1].spec_key());
        } else if i == c && j > c {
            assert(s[c].spec_key() <= s[j - 1].spec_key());
        } else if i < c && j > c {
            assert(s[i].spec_key() <= s[j - 1].spec_key());
        }
    }
}

/// Removing one value from a sorted sequence keeps it sorted.
pub proof fn lemma_remove_sorted<T: Keyed>(s: Seq<T>, j: int)
    requires
        sorted(s),
        0 <= j < s.len(),
    ensures
        sorted(s.remove(j)),
{
    let r = s.remove(j);
    assert forall|a: int, b: int| 0 <= a <= b < r.len() implies (#[trigger] r[a]).spec_key() <= (
    #[trigger] r[b]).spec_key() by {
        let a2 = if a < j { a } else { a + 1 };
        let b2 = if b < j { b } else { b + 1 };
        assert(r[a] == s[a2] && r[b] == s[b2]);
    }
}

/// Whether the subtree's root is red.
fn red<T>(t: &Option<Box<RbNode<T>>>) -> (r: bool)
    ensures
        r == is_red(*t),
{
    match t {
        Some(n) => n.color == Color::Red,
        None => false,
    }
}

/// A black node over `l`, `v` and `r`, where a red left child with a red child of its own is
/// rotated into a red node over two black ones.
fn balance_left<T>(l: Option<Box<RbNode<T>>>, v: T, r: Option<Box<RbNode<T>>>) -> (t: Option<Box<RbNode<T>>>)
    requires
        black_balanced(l),
        black_balanced(r),
        black_height(l) == black_height(r),
        red_ok_below(l),
        red_ok(r),
    ensures
        t is Some,
        inorder(t) == inorder(l) + seq![v] + inorder(r),
        black_balanced(t),
        black_height(t) == black_height(l) + 1,
        red_ok(t),
{
    reveal_with_fuel(black_height, 2);
    reveal_with_fuel(black_balanced, 2);
    reveal_with_fuel(red_ok, 2);
    let ghost lg = l;
    let ghost rg = r;
    if red(&l) {
        let ln = l.unwrap();
        if red(&ln.left) {
            let RbNode { value: y, color: _, left: ll, right: cc } = *ln;
            let RbNode { value: x, color: _, left: a, right: b } = *ll.unwrap();
            proof {
                lemma_inorder_two(a, x, b, y, cc, Color::Red, Color::Red);
                lemma_inorder_three(a, x, b, y, cc, v, rg, Color::Red, Color::Black, Color::Black);
            }
            let left = Some(Box::new(RbNode { value: x, color: Color::Black, left: a, right: b }));
            let right = Some(Box::new(RbNode { value: v, color: Color::Black, left: cc, right: r }));
            let t = Some(Box::new(RbNode { value: y, color: Color::Red, left, right }));
            proof {
                assert(inorder(t) =~= inorder(lg) + seq![v] + inorder(rg));
            }
            return t;
        }
        if red(&ln.right) {
            let RbNode { value: x, color: _, left: a, right: lr } = *ln;
            let RbNode { value: y, color: _, left: b, right: cc } = *lr.unwrap();
            proof {
                lemma_inorder_two(a, x, b, y, cc, Color::Red, Color::Red);
                lemma_inorder_three(a, x, b, y, cc, v, rg, Color::Red, Color::Black, Color::Black);
            }
            let left = Some(Box::new(RbNode { value: x, color: Color::Black, left: a, right: b }));
            let right = Some(Box::new(RbNode { value: v, color: Color::Black, left: cc, right: r }));
            let t = Some(Box::new(RbNode { value: y, color: Color::Red, left, right }));
            proof {
                assert(inorder(t) =~= inorder(lg) + seq![v] + inorder(rg));
            }
            return t;
        }
        let l = Some(ln);
        return Some(Box::new(RbNode { value: v, color: Color::Black, left: l, right: r }));
    }
    Some(Box::new(RbNode { value: v, color: Color::Black, left: l, right: r }))
}

/// A black node over `l`, `v` and `r`, where a red right child with a red child of its own is
/// rotated into a red node over two black ones.
fn balance_right<T>(l: Option<Box<RbNode<T>>>, v: T, r: Option<Box<RbNode<T>>>) -> (t: Option<Box<RbNode<T>>>)
    requires
        black_balanced(l),
        black_balanced(r),
        black_height(l) == black_height(r),
        red_ok(l),
        red_ok_below(r),
    ensures
        t is Some,
        inorder(t) == inorder(l) + seq![v] + inorder(r),
        black_balanced(t),
        black_height(t) == black_height(l) + 1,
        red_ok(t),
{
    reveal_with_fuel(black_height, 2);
    reveal_with_fuel(black_balanced, 2);
    reveal_with_fuel(red_ok, 2);
    let ghost lg = l;
    let ghost rg = r;
    if red(&r) {
        let rn = r.unwrap();
        if red(&rn.left) {
            let RbNode { value: z, color: _, left: rl, right: d } = *rn;
            let RbNode { value: y, color: _, left: b, right: cc } = *rl.unwrap();
            proof {
                lemma_inorder_two(b, y, cc, z, d, Color::Red, Color::Red);
                lemma_inorder_three(lg, v, b, y, cc, z, d, Color::Red, Color::Black, Color::Black);
            }
            let left = Some(Box::new(RbNode { value: v, color: Color::Black, left: l, right: b }));
            let right = Some(Box::new(RbNode { value: z, color: Color::Black, left: cc, right: d }));
            let t = Some(Box::new(RbNode { value: y, color: Color::Red, left, right }));
            proof {
                assert(inorder(t) =~= inorder(lg) + seq![v] + inorder(rg));
            }
            return t;
        }
        if red(&rn.right) {
            let RbNode { value: y, color: _, left: b, right: rr } = *rn;
            let RbNode { value: z, color: _, left: cc, right: d } = *rr.unwrap();
            proof {
                lemma_inorder_two(b, y, cc, z, d, Color::Red, Color::Red);
                lemma_inorder_three(lg, v, b, y, cc, z, d, Color::Red, Color::Black, Color::Black);
            }
            let left = Some(Box::new(RbNode { value: v, color: Color::Black, left: l, right: b }));
            let right = Some(Box::new(RbNode { value: z, color: Color::Black, left: cc, right: d }));
            let t = Some(Box::new(RbNode { value: y, color: Color::Red, left, right }));
            proof {
                assert(inorder(t) =~= inorder(lg) + seq![v] + inorder(rg));
            }
            return t;
        }
        let r = Some(rn);
        return Some(Box::new(RbNode { value: v, color: Color::Black, left: l, right: r }));
    }
    Some(Box::new(RbNode { value: v, color: Color::Black, left: l, right: r }))
}

/// Inserts `v` into a subtree with sorted values, before those whose keys are not below its
/// own, rebalancing on the way up.
fn ins<T: Keyed>(t: Option<Box<RbNode<T>>>, v: T) -> (r: Option<Box<RbNode<T>>>)
    requires
        sorted(inorder(t)),
        black_balanced(t),
        red_ok(t),
    ensures
        r is Some,
        inorder(r) == insert_sorted(inorder(t), v),
        black_balanced(r),
        black_height(r) == black_height(t),
        red_ok_below(r),
        !is_red(t) ==> red_ok(r),
    decreases t,
{
    reveal_with_fuel(inorder, 2);
    reveal_with_fuel(black_height, 2);
    reveal_with_fuel(black_balanced, 2);
    reveal_with_fuel(red_ok, 2);
    let ghost tg = t;
    match t {
        None => {
            let r = Some(Box::new(RbNode { value: v, color: Color::Red, left: None, right: None }));
            proof {
                assert(inorder(r) =~= seq![v]);
            }
            r
        },
        Some(n) => {
            let RbNode { value, color, left, right } = *n;
            let ghost (sl, sr) = (inorder(left), inorder(right));
            proof {
                lemma_sorted_split(sl, value, sr);
            }
            if v.key() <= value.key() {
                let l2 = ins(left, v);
                let ghost l2g = l2;
                proof {
                    assert(inorder(tg) =~= sl + (seq![value] + sr));
                    lemma_insert_sorted_before(sl, seq![value] + sr, v);
                    assert(inorder(l2g) + seq![value] + sr =~= inorder(l2g) + (seq![value] + sr));
                }
                if color == Color::Black {
                    balance_left(l2, value, right)
                } else {
                    Some(Box::new(RbNode { value, color, left: l2, right }))
                }
            } else {
                let r2 = ins(right, v);
                proof {
                    assert forall|i: int| 0 <= i < (sl + seq![value]).len() implies (#[trigger] (sl + seq![value])[i]).spec_key()
                        < v.spec_key() by {
                        if i < sl.len() {
                            assert((sl + seq![value])[i] == sl[i]);
                        }
                    }
                    lemma_insert_sorted_after(sl + seq![value], sr, v);
                }
                if color == Color::Black {
                    balance_right(left, value, r2)
                } else {
                    Some(Box::new(RbNode { value, color, left, right: r2 }))
                }
            }
        },
    }
}

/// A value with key `k` in a subtree with sorted values, if it holds one.
fn find_in<'a, T: Keyed>(t: &'a Option<Box<RbNode<T>>>, k: u64) -> (r: Option<&'a T>)
    requires
        sorted(inorder(*t)),
    ensures
        r matches Some(x) ==> x.spec_key() == k && inorder(*t).contains(*x),
        r is None ==> forall|i: int| 0 <= i < inorder(*t).len() ==> (#[trigger] inorder(*t)[i]).spec_key() != k,
    decreases *t,
{
    match t {
        None => None,
        Some(n) => {
            let kn = n.value.key();
            let ghost s = inorder(*t);
            let ghost (sl, sr) = (inorder(n.left), inorder(n.right));
            proof {
                lemma_sorted_split(sl, n.value, sr);
                assert(s[sl.len() as int] == n.value);
            }
            if k == kn {
                Some(&n.value)
            } else if k < kn {
                let r = find_in(&n.left, k);
                proof {
                    if let Some(x) = r {
                        let i = choose|i: int| 0 <= i < sl.len() && sl[i] == *x;
                        assert(s[i] == sl[i]);
                    } else {
                        assert forall|i: int| 0 <= i < s.len() implies (#[trigger] s[i]).spec_key() != k by {
                            if i < sl.len() {
                                assert(s[i] == sl[i]);
                            } else if i > sl.len() {
                                assert(s[i] == sr[i - sl.len() - 1]);
                            }
                        }
                    }
                }
                r
            } else {
                let r = find_in(&n.right, k);
                proof {
                    if let Some(x) = r {
                        let i = choose|i: int| 0 <= i < sr.len() && sr[i] == *x;
                        assert(s[sl.len() + 1 + i] == sr[i]);
                    } else {
                        assert forall|i: int| 0 <= i < s.len() implies (#[trigger] s[i]).spec_key() != k by {
                            if i < sl.len() {
                                assert(s[i] == sl[i]);
                            } else if i > sl.len() {
                                assert(s[i] == sr[i - sl.len() - 1]);
                            }
                        }
                    }
                }
                r
            }
        },
    }
}

/// Appends the values of a subtree to `out` in order.
fn collect_in<'a, T>(t: &'a Option<Box<RbNode<T>>>, out: &mut Vec<&'a T>)
    ensures
        final(out)@.len() == old(out)@.len() + inorder(*t).len(),
        forall|i: int| 0 <= i < old(out)@.len() ==> final(out)@[i] == old(out)@[i],
        forall|i: int| 0 <= i < inorder(*t).len() ==> *final(out)@[old(out)@.len() + i] == inorder(*t)[i],
    decreases *t,
{
    match t {
        None => {},
        Some(n) => {
            let ghost o0 = out@;
            collect_in(&n.left, out);
            let ghost o1 = out@;
            out.push(&n.value);
            let ghost o2 = out@;
            collect_in(&n.right, out);
            proof {
                let s = inorder(*t);
                assert(s == inorder(n.left) + seq![n.value] + inorder(n.right));
                assert forall|i: int| 0 <= i < s.len() implies *out@[o0.len() + i] == s[i] by {
                    if i < inorder(n.left).len() {
                        assert(out@[o0.len() + i] == o1[o0.len() + i]);
                    } else if i == inorder(n.left).len() {
                        assert(out@[o0.len() + i] == o2[o0.len() + i]);
                    } else {
                        let j = i - inorder(n.left).len() - 1;
                        assert(*out@[o2.len() + j] == inorder(n.right)[j]);
                    }
                }
            }
        },
    }
}

/// A red node over `l`, `a` and `r`, rebalanced where `l` is one black node short of `r`.
#[verifier::spinoff_prover]
#[verifier::rlimit(40)]
fn bald_left<T>(l: Option<Box<RbNode<T>>>, a: T, r: Option<Box<RbNode<T>>>) -> (t: Option<Box<RbNode<T>>>)
    requires
        black_balanced(l),
        black_balanced(r),
        black_height(l) + 1 == black_height(r),
        red_ok_below(l),
        red_ok(r),
    ensures
        t is Some,
        inorder(t) == inorder(l) + seq![a] + inorder(r),
        black_balanced(t),
        black_height(t) == black_height(r),
        red_ok_below(t),
        !is_red(r) ==> red_ok(t),
{
    reveal_with_fuel(black_height, 2);
    reveal_with_fuel(black_balanced, 2);
    reveal_with_fuel(red_ok, 2);
    let ghost lg = l;
    let ghost rg = r;
    if red(&l) {
        let RbNode { value: x, color: _, left: t1, right: t2 } = *l.unwrap();
        proof {
            lemma_inorder_two(t1, x, t2, a, rg, Color::Red, Color::Black);
        }
        let left = Some(Box::new(RbNode { value: x, color: Color::Black, left: t1, right: t2 }));
        return Some(Box::new(RbNode { value: a, color: Color::Red, left, right: r }));
    }
    match r {
        Some(rn) => {
            if rn.color == Color::Black {
                let RbNode { value: b, color: _, left: t2, right: t3 } = *rn;
                let r2 = Some(Box::new(RbNode { value: b, color: Color::Red, left: t2, right: t3 }));
                return balance_right(l, a, r2);
            }
            let RbNode { value: c, color: rc, left: rl, right: t4 } = *rn;
            if rl.is_some() && !red(&rl) && t4.is_some() {
                let RbNode { value: b, color: _, left: t2, right: t3 } = *rl.unwrap();
                let ghost t4g = t4;
                let RbNode { value: t4v, color: _, left: t4l, right: t4r } = *t4.unwrap();
                let t4red = Some(Box::new(RbNode { value: t4v, color: Color::Red, left: t4l, right: t4r }));
                proof {
                    assert(inorder(t4red) == inorder(t4g));
                    lemma_inorder_two(t2, b, t3, c, t4g, Color::Red, Color::Black);
                    lemma_cat_three(inorder(lg), a, inorder(t2), b, inorder(t3), c, inorder(t4g));
                }
                let right = balance_right(t3, c, t4red);
                proof {
                    lemma_inorder_two(lg, a, t2, b, right, Color::Red, Color::Black);
                }
                let left = Some(Box::new(RbNode { value: a, color: Color::Black, left: l, right: t2 }));
                let t = Some(Box::new(RbNode { value: b, color: Color::Red, left, right }));
                return t;
            }
            let r = Some(Box::new(RbNode { value: c, color: rc, left: rl, right: t4 }));
            return Some(Box::new(RbNode { value: a, color: Color::Red, left: l, right: r }));
        },
        None => {
            return Some(Box::new(RbNode { value: a, color: Color::Red, left: l, right: None }));
        },
    }
}

/// A red node over `l`, `a` and `r`, rebalanced where `r` is one black node short of `l`.
#[verifier::spinoff_prover]
#[verifier::rlimit(40)]
fn bald_right<T>(l: Option<Box<RbNode<T>>>, a: T, r: Option<Box<RbNode<T>>>) -> (t: Option<Box<RbNode<T>>>)
    requires
        black_balanced(l),
        black_balanced(r),
        black_height(l) == black_height(r) + 1,
        red_ok(l),
        red_ok_below(r),
    ensures
        t is Some,
        inorder(t) == inorder(l) + seq![a] + inorder(r),
        black_balanced(t),
        black_height(t) == black_height(l),
        red_ok_below(t),
        !is_red(l) ==> red_ok(t),
{
    reveal_with_fuel(black_height, 2);
    reveal_with_fuel(black_balanced, 2);
    reveal_with_fuel(red_ok, 2);
    let ghost lg = l;
    let ghost rg = r;
    if red(&r) {
        let RbNode { value: x, color: _, left: t2, right: t3 } = *r.unwrap();
        proof {
            lemma_inorder_two(lg, a, t2, x, t3, Color::Red, Color::Black);
        }
        let right = Some(Box::new(RbNode { value: x, color: Color::Black, left: t2, right: t3 }));
        return Some(Box::new(RbNode { value: a, color: Color::Red, left: l, right }));
    }
    match l {
        Some(ln) => {
            if ln.color == Color::Black {
                let RbNode { value: b, color: _, left: t1, right: t2 } = *ln;
                let l2 = Some(Box::new(RbNode { value: b, color: Color::Red, left: t1, right: t2 }));
                return balance_left(l2, a, r);
            }
            let RbNode { value: c, color: lc, left: t1, right: lr } = *ln;
            if lr.is_some() && !red(&lr) && t1.is_some() {
                let RbNode { value: b, color: _, left: t2, right: t3 } = *lr.unwrap();
                let ghost t1g = t1;
                let RbNode { value: t1v, color: _, left: t1l, right: t1r } = *t1.unwrap();
                let t1red = Some(Box::new(RbNode { value: t1v, color: Color::Red, left: t1l, right: t1r }));
                proof {
                    assert(inorder(t1red) == inorder(t1g));
                    lemma_inorder_two(t1g, c, t2, b, t3, Color::Red, Color::Black);
                }
                let left = balance_left(t1red, c, t2);
                proof {
                    lemma_inorder_two(left, b, t3, a, rg, Color::Red, Color::Black);
                }
                let right = Some(Box::new(RbNode { value: a, color: Color::Black, left: t3, right: r }));
                let t = Some(Box::new(RbNode { value: b, color: Color::Red, left, right }));
                return t;
            }
            let l = Some(Box::new(RbNode { value: c, color: lc, left: t1, right: lr }));
            return Some(Box::new(RbNode { value: a, color: Color::Red, left: l, right: r }));
        },
        None => {
            return Some(Box::new(RbNode { value: a, color: Color::Red, left: None, right: r }));
        },
    }
}

/// Joins two subtrees of equal black height into one that holds the values of `l` and then
/// those of `r`.
#[verifier::spinoff_prover]
#[verifier::rlimit(40)]
fn combine<T>(l: Option<Box<RbNode<T>>>, r: Option<Box<RbNode<T>>>) -> (t: Option<Box<RbNode<T>>>)
    requires
        black_balanced(l),
        black_balanced(r),
        black_height(l) == black_height(r),
        red_ok(l),
        red_ok(r),
    ensures
        inorder(t) == inorder(l) + inorder(r),
        black_balanced(t),
        black_height(t) == black_height(l),
        red_ok_below(t),
        !is_red(l) && !is_red(r) ==> red_ok(t),
    decreases l, r,
{
    reveal_with_fuel(black_height, 2);
    reveal_with_fuel(black_balanced, 2);
    reveal_with_fuel(red_ok, 2);
    let ghost lg = l;
    let ghost rg = r;
    if l.is_none() {
        proof {
            assert(inorder(lg) + inorder(rg) =~= inorder(rg));
        }
        return r;
    }
    if r.is_none() {
        proof {
            assert(inorder(lg) + inorder(rg) =~= inorder(lg));
        }
        return l;
    }
    let ln = l.unwrap();
    let rn = r.unwrap();
    if ln.color == Color::Red && rn.color == Color::Red {
        let RbNode { value: a, color: _, left: t1, right: t2 } = *ln;
        let RbNode { value: c, color: _, left: t3, right: t4 } = *rn;
        let t23 = combine(t2, t3);
        if red(&t23) {
            let ghost t23g = t23;
            let RbNode { value: b, color: _, left: u2, right: u3 } = *t23.unwrap();
            proof {
                lemma_cat_two(inorder(t1), a, inorder(t2), inorder(t3), c, inorder(t4), inorder(t23g));
                lemma_cat_three(inorder(t1), a, inorder(u2), b, inorder(u3), c, inorder(t4));
                lemma_inorder_three(t1, a, u2, b, u3, c, t4, Color::Red, Color::Red, Color::Red);
            }
            let left = Some(Box::new(RbNode { value: a, color: Color::Red, left: t1, right: u2 }));
            let right = Some(Box::new(RbNode { value: c, color: Color::Red, left: u3, right: t4 }));
            let t = Some(Box::new(RbNode { value: b, color: Color::Red, left, right }));
            return t;
        } else {
            let ghost t23g = t23;
            proof {
                lemma_cat_two(inorder(t1), a, inorder(t2), inorder(t3), c, inorder(t4), inorder(t23g));
                lemma_inorder_two(t1, a, t23g, c, t4, Color::Red, Color::Red);
            }
            let right = Some(Box::new(RbNode { value: c, color: Color::Red, left: t23, right: t4 }));
            let t = Some(Box::new(RbNode { value: a, color: Color::Red, left: t1, right }));
            return t;
        }
    }
    if ln.color == Color::Black && rn.color == Color::Black {
        let RbNode { value: a, color: _, left: t1, right: t2 } = *ln;
        let RbNode { value: c, color: _, left: t3, right: t4 } = *rn;
        let t23 = combine(t2, t3);
        if red(&t23) {
            let ghost t23g = t23;
            let RbNode { value: b, color: _, left: u2, right: u3 } = *t23.unwrap();
            proof {
                lemma_cat_two(inorder(t1), a, inorder(t2), inorder(t3), c, inorder(t4), inorder(t23g));
                lemma_cat_three(inorder(t1), a, inorder(u2), b, inorder(u3), c, inorder(t4));
                lemma_inorder_three(t1, a, u2, b, u3, c, t4, Color::Red, Color::Black, Color::Black);
            }
            let left = Some(Box::new(RbNode { value: a, color: Color::Black, left: t1, right: u2 }));
            let right = Some(Box::new(RbNode { value: c, color: Color::Black, left: u3, right: t4 }));
            let t = Some(Box::new(RbNode { value: b, color: Color::Red, left, right }));
            return t;
        } else {
            let ghost t23g = t23;
            proof {
                lemma_cat_two(inorder(t1), a, inorder(t2), inorder(t3), c, inorder(t4), inorder(t23g));
            }
            let right = Some(Box::new(RbNode { value: c, color: Color::Black, left: t23, right: t4 }));
            let t = bald_left(t1, a, right);
            return t;
        }
    }
    if rn.color == Color::Red {
        let RbNode { value: a, color: _, left: t2, right: t3 } = *rn;
        let l = Some(ln);
        let t12 = combine(l, t2);
        proof {
            lemma_cat_one(inorder(lg), inorder(t2), a, inorder(t3));
        }
        let t = Some(Box::new(RbNode { value: a, color: Color::Red, left: t12, right: t3 }));
        return t;
    }
    let RbNode { value: a, color: _, left: t1, right: t2 } = *ln;
    let r = Some(rn);
    let t23 = combine(t2, r);
    proof {
        lemma_cat_one(inorder(t1), inorder(t2), a, inorder(rg));
    }
    let t = Some(Box::new(RbNode { value: a, color: Color::Red, left: t1, right: t23 }));
    t
}

/// Removes a value with key `k` from a subtree with sorted values, if it holds one, and hands
/// it back. A red subtree keeps its black height; a black one loses one black node on every
/// path, and may come back with a red root over a red child.
#[verifier::spinoff_prover]
#[verifier::rlimit(40)]
fn del<T: Keyed>(t: Option<Box<RbNode<T>>>, k: u64) -> (res: (Option<Box<RbNode<T>>>, Option<T>))
    requires
        sorted(inorder(t)),
        black_balanced(t),
        red_ok(t),
    ensures
        res.1 matches Some(x) ==> x.spec_key() == k && exists|j: int|
            0 <= j < inorder(t).len() && inorder(t)[j] == x && inorder(res.0) == inorder(t).remove(j),
        res.1 is None ==> inorder(res.0) == inorder(t) && forall|i: int|
            0 <= i < inorder(t).len() ==> (#[trigger] inorder(t)[i]).spec_key() != k,
        black_balanced(res.0),
        t is None ==> res.0 is None,
        is_red(t) ==> black_height(res.0) == black_height(t) && red_ok(res.0),
        t is Some && !is_red(t) ==> black_height(res.0) + 1 == black_height(t) && red_ok_below(res.0),
    decreases t,
{
    reveal_with_fuel(black_height, 2);
    reveal_with_fuel(black_balanced, 2);
    reveal_with_fuel(red_ok, 2);
    let ghost tg = t;
    match t {
        None => (None, None),
        Some(n) => {
            let RbNode { value: a, color: col, left: l, right: r } = *n;
            let ak = a.key();
            let ghost (sl, sr) = (inorder(l), inorder(r));
            let ghost s = inorder(tg);
            proof {
                lemma_sorted_split(sl, a, sr);
                assert(s[sl.len() as int] == a);
            }
            if k < ak {
                let l_black = l.is_some() && !red(&l);
                let (l2, x) = del(l, k);
                let ghost (l2g, xg) = (l2, x);
                proof {
                    if let Some(xv) = xg {
                        let j = choose|j: int| 0 <= j < sl.len() && sl[j] == xv && inorder(l2g) == sl.remove(j);
                        assert(s[j] == sl[j]);
                        assert(inorder(l2g) + seq![a] + sr =~= s.remove(j));
                    } else {
                        assert forall|i: int| 0 <= i < s.len() implies (#[trigger] s[i]).spec_key() != k by {
                            if i < sl.len() {
                                assert(s[i] == sl[i]);
                            } else if i > sl.len() {
                                assert(s[i] == sr[i - sl.len() - 1]);
                            }
                        }
                    }
                }
                let t2 = if l_black {
                    bald_left(l2, a, r)
                } else {
                    Some(Box::new(RbNode { value: a, color: Color::Red, left: l2, right: r }))
                };
                (t2, x)
            } else if ak < k {
                let r_black = r.is_some() && !red(&r);
                let (r2, x) = del(r, k);
                let ghost (r2g, xg) = (r2, x);
                proof {
                    if let Some(xv) = xg {
                        let j = choose|j: int| 0 <= j < sr.len() && sr[j] == xv && inorder(r2g) == sr.remove(j);
                        assert(s[sl.len() + 1 + j] == sr[j]);
                        assert(sl + seq![a] + inorder(r2g) =~= s.remove(sl.len() + 1 + j));
                    } else {
                        assert forall|i: int| 0 <= i < s.len() implies (#[trigger] s[i]).spec_key() != k by {
                            if i < sl.len() {
                                assert(s[i] == sl[i]);
                            } else if i > sl.len() {
                                assert(s[i] == sr[i - sl.len() - 1]);
                            }
                        }
                    }
                }
                let t2 = if r_black {
                    bald_right(l, a, r2)
                } else {
                    Some(Box::new(RbNode { value: a, color: Color::Red, left: l, right: r2 }))
                };
                (t2, x)
            } else {
                proof {
                    assert(sl + sr =~= s.remove(sl.len() as int));
                }
                let t2 = combine(l, r);
                (t2, Some(a))
            }
        },
    }
}

/// A node's values are sorted with keys in `[lo, hi]` exactly where its key lies in
/// `[lo, hi]`, its left subtree's values are sorted with keys in `[lo, key]` and its right
/// subtree's with keys in `[key, hi]`.
proof fn lemma_sorted_within<T: Keyed>(a: Seq<T>, x: T, b: Seq<T>, lo: u64, hi: u64)
    ensures
        (sorted(a + seq![x] + b) && within(a + seq![x] + b, lo, hi)) == (lo <= x.spec_key() <= hi && sorted(a)
            && within(a, lo, x.spec_key()) && sorted(b) && within(b, x.spec_key(), hi)),
{
    let s = a + seq![x] + b;
    let k = x.spec_key();
    assert(s[a.len() as int] == x);
    if sorted(s) && within(s, lo, hi) {
        lemma_sorted_split(a, x, b);
        assert forall|i: int| 0 <= i < a.len() implies lo <= (#[trigger] a[i]).spec_key() <= k by {
            assert(s[i] == a[i]);
        }
        assert forall|i: int| 0 <= i < b.len() implies k <= (#[trigger] b[i]).spec_key() <= hi by {
            assert(s[a.len() + 1 + i] == b[i]);
        }
    }
    if lo <= k <= hi && sorted(a) && within(a, lo, k) && sorted(b) && within(b, k, hi) {
        assert forall|i: int| 0 <= i < s.len() implies lo <= (#[trigger] s[i]).spec_key() <= hi by {
            if i < a.len() {
                assert(s[i] == a[i]);
            } else if i > a.len() {
                assert(s[i] == b[i - a.len() - 1]);
            }
        }
        assert forall|i: int, j: int| 0 <= i <= j < s.len() implies (#[trigger] s[i]).spec_key() <= (
        #[trigger] s[j]).spec_key() by {
            if j < a.len() {
                assert(s[i] == a[i] && s[j] == a[j]);
            } else if i > a.len() {
                assert(s[i] == b[i - a.len() - 1] && s[j] == b[j - a.len() - 1]);
            } else if i < a.len() {
                assert(s[i] == a[i]);
                if j > a.len() {
                    assert(s[j] == b[j - a.len() - 1]);
                }
            } else if j > a.len() {
                assert(s[j] == b[j - a.len() - 1]);
            }
        }
    }
}

/// Checks a subtree whose keys should lie in `[lo, hi]`: its black height, where its values
/// are sorted with keys in `[lo, hi]`, it is black-balanced and no red node has a red child.
/// A black height that does not fit in a `u64` is not reported.
fn check_node<T: Keyed>(t: &Option<Box<RbNode<T>>>, lo: u64, hi: u64) -> (r: Option<u64>)
    ensures
        r matches Some(h) ==> h == black_height(*t),
        r is Some ==> sorted(inorder(*t)) && within(inorder(*t), lo, hi) && black_balanced(*t) && red_ok(*t),
        r is None ==> !(sorted(inorder(*t)) && within(inorder(*t), lo, hi) && black_balanced(*t) && red_ok(*t))
            || black_height(*t) > u64::MAX,
    decreases *t,
{
    match t {
        None => Some(0),
        Some(n) => {
            let k = n.value.key();
            proof {
                lemma_sorted_within(inorder(n.left), n.value, inorder(n.right), lo, hi);
            }
            if k < lo || hi < k {
                return None;
            }
            if n.color == Color::Red && (red(&n.left) || red(&n.right)) {
                return None;
            }
            let hl = match check_node(&n.left, lo, k) {
                Some(h) => h,
                None => return None,
            };
            let hr = match check_node(&n.right, k, hi) {
                Some(h) => h,
                None => return None,
            };
            if hl != hr {
                return None;
            }
            if n.color == Color::Black {
                if hl == u64::MAX {
                    return None;
                }
                Some(hl + 1)
            } else {
                Some(hl)
            }
        },
    }
}

impl<T> RbNode<T> {
    /// A red node holding `value`, with no children.
    pub fn new(value: T) -> (n: Self)
        ensures
            n.value == value,
            n.color == Color::Red,
            n.left is None,
            n.right is None,
    {
        RbNode { value, color: Color::Red, left: None, right: None }
    }

    /// The value the node holds.
    pub fn value(&self) -> (r: &T)
        ensures
            *r == self.value,
    {
        &self.value
    }

    /// The value the node holds, taken out of it.
    pub fn into_value(self) -> (r: T)
        ensures
            r == self.value,
    {
        self.value
    }

    /// The root of the left subtree, if any.
    pub fn left(&self) -> (r: Option<&RbNode<T>>)
        ensures
            r == match self.left {
                Some(b) => Some(&*b),
                None => None::<&RbNode<T>>,
            },
    {
        match &self.left {
            Some(b) => Some(&**b),
            None => None,
        }
    }

    /// The root of the right subtree, if any.
    pub fn right(&self) -> (r: Option<&RbNode<T>>)
        ensures
            r == match self.right {
                Some(b) => Some(&*b),
                None => None::<&RbNode<T>>,
            },
    {
        match &self.right {
            Some(b) => Some(&**b),
            None => None,
        }
    }
}

/// A red-black tree: a binary search tree whose nodes are red or black, where no red node has a
/// red child and every path down passes as many black nodes, so that its height stays
/// logarithmic in its size. It holds its values in key order; values with equal keys may repeat.
pub struct RbTree<T> {
    root: Option<Box<RbNode<T>>>,
}

impl<T> View for RbTree<T> {
    type V = Seq<T>;

    closed spec fn view(&self) -> Seq<T> {
        inorder(self.root)
    }
}

impl<T: Keyed> RbTree<T> {
    /// The number of black nodes on a path from the root down.
    pub closed spec fn black_depth(&self) -> nat {
        black_height(self.root)
    }

    /// The values are in key order and the tree is balanced as a red-black tree.
    pub closed spec fn wf(&self) -> bool {
        &&& sorted(inorder(self.root))
        &&& black_balanced(self.root)
        &&& red_ok(self.root)
    }

    /// An empty tree.
    pub fn new() -> (t: Self)
        ensures
            t.wf(),
            t@ == Seq::<T>::empty(),
    {
        RbTree { root: None }
    }

    /// The root node, if the tree is not empty.
    pub fn head(&self) -> (r: &Option<Box<RbNode<T>>>)
        ensures
            inorder(*r) == self@,
    {
        &self.root
    }

    /// Adds `v` before the values whose keys are not below its own.
    pub fn insert(&mut self, v: T)
        requires
            old(self).wf(),
        ensures
            final(self).wf(),
            final(self)@ == insert_sorted(old(self)@, v),
    {
        let root = self.root.take();
        let r = ins(root, v);
        proof {
            lemma_insert_sorted_sorted(old(self)@, v);
        }
        if let Some(n) = r {
            let RbNode { value, color: _, left, right } = *n;
            self.root = Some(Box::new(RbNode { value, color: Color::Black, left, right }));
        }
    }

    /// A value with key `k`, if the tree holds one.
    pub fn find(&self, k: u64) -> (r: Option<&T>)
        requires
            self.wf(),
        ensures
            r matches Some(x) ==> x.spec_key() == k && self@.contains(*x),
            r is None ==> forall|i: int| 0 <= i < self@.len() ==> (#[trigger] self@[i]).spec_key() != k,
    {
        find_in(&self.root, k)
    }

    /// Removes a value with key `k`, if the tree holds one, and hands it back.
    pub fn remove(&mut self, k: u64) -> (r: Option<T>)
        requires
            old(self).wf(),
        ensures
            final(self).wf(),
            r matches Some(x) ==> x.spec_key() == k && exists|j: int|
                0 <= j < old(self)@.len() && old(self)@[j] == x && final(self)@ == old(self)@.remove(j),
            r is None ==> final(self)@ == old(self)@ && forall|i: int|
                0 <= i < old(self)@.len() ==> (#[trigger] old(self)@[i]).spec_key() != k,
    {
        let root = self.root.take();
        let (t, x) = del(root, k);
        let ghost xg = x;
        proof {
            if let Some(xv) = xg {
                let j = choose|j: int| 0 <= j < old(self)@.len() && old(self)@[j] == xv && inorder(t) == old(self)@.remove(j);
                lemma_remove_sorted(old(self)@, j);
            }
        }
        if let Some(n) = t {
            let RbNode { value, color: _, left, right } = *n;
            self.root = Some(Box::new(RbNode { value, color: Color::Black, left, right }));
        }
        x
    }

    /// The values in key order.
    pub fn iter(&self) -> (r: Vec<&T>)
        ensures
            r@.len() == self@.len(),
            forall|i: int| 0 <= i < r@.len() ==> *r@[i] == self@[i],
    {
        let mut out: Vec<&T> = Vec::new();
        collect_in(&self.root, &mut out);
        out
    }

    /// Whether the tree is well-formed: its values in key order, balanced as a red-black tree.
    /// A tree whose black height does not fit in a `u64` is reported as not well-formed.
    pub fn check(&self) -> (r: bool)
        ensures
            r ==> self.wf(),
            !r ==> !self.wf() || self.black_depth() > u64::MAX,
    {
        check_node(&self.root, 0, u64::MAX).is_some()
    }

    /// The values of a well-formed tree are in key order.
    pub proof fn lemma_sorted(&self)
        requires
            self.wf(),
        ensures
            sorted(self@),
    {
    }
}

/// Removing a value with the key of a value just inserted, where no other value had that key,
/// gives back the values from before the insertion.
pub proof fn lemma_remove_undoes_insert<T: Keyed>(s: Seq<T>, v: T, j: int)
    requires
        forall|i: int| 0 <= i < s.len() ==> (#[trigger] s[i]).spec_key() != v.spec_key(),
        0 <= j < insert_sorted(s, v).len(),
        insert_sorted(s, v)[j].spec_key() == v.spec_key(),
    ensures
        insert_sorted(s, v)[j] == v,
        insert_sorted(s, v).remove(j) == s,
{
    let c = lemma_insert_sorted_shape(s, v);
    let r = insert_sorted(s, v);
    if j < c {
        assert(r[j] == s[j]);
    } else if j > c {
        assert(r[j] == s[j - 1]);
    }
    assert(r.remove(j) =~= s);
}

/// An inserted value is held by the sequence after the insertion.
pub proof fn lemma_insert_sorted_holds<T: Keyed>(s: Seq<T>, v: T)
    ensures
        insert_sorted(s, v).contains(v),
{
    let c = lemma_insert_sorted_shape(s, v);
    assert(insert_sorted(s, v)[c] == v);
}

} // verus!
