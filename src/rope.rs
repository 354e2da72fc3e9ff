use vstd::prelude::*;

verus! {

/// Below this length a rope is kept as a single leaf, and a leaf is edited in place.
pub const THRESHOLD: usize = 500;

/// A node of a rope: a non-empty leaf array, or an ordered pair of nodes with their
/// cached total length and height.
pub enum Node<T> {
    Leaf(Vec<T>),
    App { left: Box<Node<T>>, right: Box<Node<T>>, length: usize, depth: i8 },
}

impl<T> Node<T> {
    pub open spec fn nview(&self) -> Seq<T>
        decreases self,
    {
        match self {
            Node::Leaf(v) => v@,
            Node::App { left, right, .. } => left.nview() + right.nview(),
        }
    }

    /// The lengths of the leaves, left to right.
    pub open spec fn leaves(&self) -> Seq<usize> {
        leaf_lens_spec(self)
    }

    pub open spec fn height(&self) -> nat
        decreases self,
    {
        match self {
            Node::Leaf(_) => 0,
            Node::App { left, right, .. } => 1 + if left.height() >= right.height() {
                left.height()
            } else {
                right.height()
            },
        }
    }

    /// Cached lengths and heights are right, leaves are not empty, and the heights of
    /// the two children of every pair differ by at most one.
    pub open spec fn wf(&self) -> bool
        decreases self,
    {
        match self {
            Node::Leaf(v) => 0 < v@.len() <= usize::MAX,
            Node::App { left, right, length, depth } => {
                &&& left.wf()
                &&& right.wf()
                &&& *length as int == left.nview().len() + right.nview().len()
                &&& *depth as int == self.height()
                &&& left.height() <= right.height() + 1
                &&& right.height() <= left.height() + 1
            },
        }
    }
}

/// The least length of a well-formed node of height `h`.
spec fn min_len(h: nat) -> nat
    decreases h,
{
    if h == 0 {
        1
    } else if h == 1 {
        2
    } else {
        min_len((h - 1) as nat) + min_len((h - 2) as nat)
    }
}

spec fn pow5(k: nat) -> nat
    decreases k,
{
    if k == 0 {
        1
    } else {
        5 * pow5((k - 1) as nat)
    }
}

proof fn lemma_min_len_mono(a: nat, b: nat)
    requires
        a <= b,
    ensures
        min_len(a) <= min_len(b),
    decreases b,
{
    if a < b {
        lemma_min_len_mono(a, (b - 1) as nat);
        if b >= 2 {
            assert(min_len(b) == min_len((b - 1) as nat) + min_len((b - 2) as nat));
        }
    }
}

proof fn lemma_min_len_pow(k: nat)
    ensures
        min_len(4 * k) >= pow5(k),
    decreases k,
{
    if k > 0 {
        let h = (4 * (k - 1)) as nat;
        lemma_min_len_pow((k - 1) as nat);
        lemma_min_len_mono(h, h + 1);
        assert(min_len(h + 2) == min_len(h + 1) + min_len(h));
        assert(min_len(h + 3) == min_len(h + 2) + min_len(h + 1));
        assert(min_len(h + 4) == min_len(h + 3) + min_len(h + 2));
        assert(4 * k == h + 4);
    }
}

proof fn lemma_len_bound<T>(n: &Node<T>)
    requires
        n.wf(),
    ensures
        n.nview().len() >= min_len(n.height()),
    decreases n,
{
    match n {
        Node::Leaf(_) => {},
        Node::App { left, right, .. } => {
            lemma_len_bound(left);
            lemma_len_bound(right);
            let h = n.height();
            if h >= 2 {
                lemma_min_len_mono((h - 2) as nat, left.height());
                lemma_min_len_mono((h - 2) as nat, right.height());
            }
        },
    }
}

/// A well-formed node is at most 111 high: a higher one would hold more than
/// `usize::MAX` elements.
proof fn lemma_height_bound<T>(n: &Node<T>)
    requires
        n.wf(),
        n.nview().len() <= usize::MAX,
    ensures
        n.height() <= 111,
{
    lemma_len_bound(n);
    if n.height() > 111 {
        lemma_min_len_pow(28);
        lemma_min_len_mono(112, n.height());
        reveal_with_fuel(pow5, 29);
        assert(pow5(28) == 37252902984619140625nat);
    }
}

fn node_len<T>(n: &Node<T>) -> (r: usize)
    requires
        n.wf(),
    ensures
        r == n.nview().len(),
{
    match n {
        Node::Leaf(v) => v.len(),
        Node::App { length, .. } => *length,
    }
}

fn node_dep<T>(n: &Node<T>) -> (r: i8)
    requires
        n.wf(),
    ensures
        r as int == n.height(),
        0 <= r <= 111,
{
    proof {
        lemma_node_len_fits(n);
        lemma_height_bound(n);
    }
    match n {
        Node::Leaf(_) => 0,
        Node::App { depth, .. } => *depth,
    }
}

proof fn lemma_node_len_fits<T>(n: &Node<T>)
    requires
        n.wf(),
    ensures
        n.nview().len() <= usize::MAX,
{
    match n {
        Node::Leaf(v) => {},
        Node::App { .. } => {},
    }
}

/// The pair of two nodes whose heights differ by at most one.
fn mk_app<T>(l: Box<Node<T>>, r: Box<Node<T>>) -> (out: Box<Node<T>>)
    requires
        l.wf(),
        r.wf(),
        l.height() <= r.height() + 1,
        r.height() <= l.height() + 1,
        l.nview().len() + r.nview().len() <= usize::MAX,
    ensures
        out.wf(),
        out.nview() == l.nview() + r.nview(),
        out.leaves() == l.leaves() + r.leaves(),
        out.height() == 1 + if l.height() >= r.height() {
            l.height()
        } else {
            r.height()
        },
{
    let ll = node_len(&l);
    let rl = node_len(&r);
    let ld = node_dep(&l);
    let rd = node_dep(&r);
    let depth = if ld >= rd {
        ld + 1
    } else {
        rd + 1
    };
    Box::new(Node::App { left: l, right: r, length: ll + rl, depth })
}

/// Concatenates two non-empty nodes into one balanced node (AVL join): descends the
/// spine of the taller one and restores balance with single or double rotations.
#[verifier::rlimit(60)]
fn join_avl<T>(l: Box<Node<T>>, r: Box<Node<T>>) -> (out: Box<Node<T>>)
    requires
        l.wf(),
        r.wf(),
        l.nview().len() + r.nview().len() <= usize::MAX,
    ensures
        out.wf(),
        out.nview() == l.nview() + r.nview(),
        out.leaves() == l.leaves() + r.leaves(),
        max_h(l.height(), r.height()) <= out.height() <= max_h(l.height(), r.height()) + 1,
    decreases l.height() + r.height(),
{
    let ld = node_dep(&l);
    let rd = node_dep(&r);
    if ld <= rd + 1 && rd <= ld + 1 {
        return mk_app(l, r);
    }
    if ld > rd {
        match *l {
            Node::Leaf(_) => {
                proof {
                    assert(false);
                }
                unreached()
            },
            Node::App { left: ll, right: lr, .. } => {
                proof {
                    assert(l.nview() == ll.nview() + lr.nview());
                    assert(l.leaves() == ll.leaves() + lr.leaves());
                }
                let t = join_avl(lr, r);
                proof {
                    lemma_cat3(ll.nview(), lr.nview(), r.nview());
                    lemma_cat3(ll.leaves(), lr.leaves(), r.leaves());
                }
                let lld = node_dep(&ll);
                let td = node_dep(&t);
                if td <= lld + 1 {
                    mk_app(ll, t)
                } else {
                    match *t {
                        Node::Leaf(_) => {
                            proof {
                                assert(false);
                            }
                            unreached()
                        },
                        Node::App { left: tl, right: tr, .. } => {
                            proof {
                                assert(t.nview() == tl.nview() + tr.nview());
                                assert(t.leaves() == tl.leaves() + tr.leaves());
                            }
                            if node_dep(&tl) <= node_dep(&tr) {
                                let a = mk_app(ll, tl);
                                proof {
                                    lemma_cat3(ll.nview(), tl.nview(), tr.nview());
                                    lemma_cat3(ll.leaves(), tl.leaves(), tr.leaves());
                                }
                                mk_app(a, tr)
                            } else {
                                match *tl {
                                    Node::Leaf(_) => {
                                        proof {
                                            assert(false);
                                        }
                                        unreached()
                                    },
                                    Node::App { left: tll, right: tlr, .. } => {
                                        proof {
                                            assert(tl.wf());
                                            assert(tll.wf() && tlr.wf());
                                            assert(tl.nview() == tll.nview() + tlr.nview());
                                            assert(tl.leaves() == tll.leaves() + tlr.leaves());
                                        }
                                        let a = mk_app(ll, tll);
                                        let b = mk_app(tlr, tr);
                                        let out = mk_app(a, b);
                                        proof {
                                            lemma_cat3(tll.nview(), tlr.nview(), tr.nview());
                                            lemma_cat3(tll.leaves(), tlr.leaves(), tr.leaves());
                                            lemma_cat3(ll.nview(), tll.nview(), tlr.nview() + tr.nview());
                                            lemma_cat3(ll.leaves(), tll.leaves(), tlr.leaves() + tr.leaves());
                                        }
                                        out
                                    },
                                }
                            }
                        },
                    }
                }
            },
        }
    } else {
        match *r {
            Node::Leaf(_) => {
                proof {
                    assert(false);
                }
                unreached()
            },
            Node::App { left: rl, right: rr, .. } => {
                proof {
                    assert(r.nview() == rl.nview() + rr.nview());
                    assert(r.leaves() == rl.leaves() + rr.leaves());
                }
                let t = join_avl(l, rl);
                proof {
                    lemma_cat3(l.nview(), rl.nview(), rr.nview());
                    lemma_cat3(l.leaves(), rl.leaves(), rr.leaves());
                }
                let rrd = node_dep(&rr);
                let td = node_dep(&t);
                if td <= rrd + 1 {
                    mk_app(t, rr)
                } else {
                    match *t {
                        Node::Leaf(_) => {
                            proof {
                                assert(false);
                            }
                            unreached()
                        },
                        Node::App { left: tl, right: tr, .. } => {
                            proof {
                                assert(t.nview() == tl.nview() + tr.nview());
                                assert(t.leaves() == tl.leaves() + tr.leaves());
                            }
                            if node_dep(&tr) <= node_dep(&tl) {
                                let b = mk_app(tr, rr);
                                proof {
                                    lemma_cat3(tl.nview(), tr.nview(), rr.nview());
                                    lemma_cat3(tl.leaves(), tr.leaves(), rr.leaves());
                                }
                                mk_app(tl, b)
                            } else {
                                match *tr {
                                    Node::Leaf(_) => {
                                        proof {
                                            assert(false);
                                        }
                                        unreached()
                                    },
                                    Node::App { left: trl, right: trr, .. } => {
                                        proof {
                                            assert(tr.wf());
                                            assert(trl.wf() && trr.wf());
                                            assert(tr.nview() == trl.nview() + trr.nview());
                                            assert(tr.leaves() == trl.leaves() + trr.leaves());
                                        }
                                        let a = mk_app(tl, trl);
                                        let b = mk_app(trr, rr);
                                        let out = mk_app(a, b);
                                        proof {
                                            lemma_cat3(tl.nview(), trl.nview(), trr.nview());
                                            lemma_cat3(tl.leaves(), trl.leaves(), trr.leaves());
                                            lemma_cat3(tl.nview() + trl.nview(), trr.nview(), rr.nview());
                                            lemma_cat3(tl.leaves() + trl.leaves(), trr.leaves(), rr.leaves());
                                        }
                                        out
                                    },
                                }
                            }
                        },
                    }
                }
            },
        }
    }
}

proof fn lemma_cat3<T>(a: Seq<T>, b: Seq<T>, c: Seq<T>)
    ensures
        (a + b) + c == a + (b + c),
{
    assert((a + b) + c =~= a + (b + c));
}

pub open spec fn max_h(a: nat, b: nat) -> nat {
    if a >= b {
        a
    } else {
        b
    }
}

/// Appends the elements of `n` to `out`.
fn flatten<T: Copy>(n: &Node<T>, out: &mut Vec<T>)
    ensures
        final(out)@ == old(out)@ + n.nview(),
    decreases n,
{
    match n {
        Node::Leaf(v) => {
            let ghost start = out@;
            let mut i: usize = 0;
            while i < v.len()
                invariant
                    0 <= i <= v@.len(),
                    out@ == start + v@.take(i as int),
                decreases v@.len() - i,
            {
                out.push(v[i]);
                i = i + 1;
                proof {
                    assert(v@.take(i as int) =~= v@.take(i - 1).push(v@[i - 1]));
                }
            }
            proof {
                assert(v@.take(i as int) =~= v@);
            }
        },
        Node::App { left, right, .. } => {
            flatten(left, out);
            flatten(right, out);
            proof {
                lemma_cat3(old(out)@, left.nview(), right.nview());
            }
        },
    }
}

/// The reference model of a splice on a plain vector: `length` elements removed at
/// `start` and `ins` put in their place.
pub open spec fn splice_model<T>(s: Seq<T>, start: int, length: int, ins: Seq<T>) -> Seq<T> {
    s.subrange(0, start) + ins + s.subrange(start + length, s.len() as int)
}

/// The lengths of the leaves of `n`, left to right.
pub open spec fn leaf_lens_spec<T>(n: &Node<T>) -> Seq<usize>
    decreases n,
{
    match n {
        Node::Leaf(v) => seq![v@.len() as usize],
        Node::App { left, right, .. } => leaf_lens_spec(left) + leaf_lens_spec(right),
    }
}

/// The elements that an optional insertion adds.
pub open spec fn inserted<T>(o: Option<Vec<T>>) -> Seq<T> {
    match o {
        Some(v) => v@,
        None => Seq::empty(),
    }
}

/// A sequence rope: a balanced binary tree over arrays of elements, with random access,
/// splice and concatenation in logarithmic time.
pub struct Rope<T> {
    root: Option<Box<Node<T>>>,
}

impl<T> View for Rope<T> {
    type V = Seq<T>;

    closed spec fn view(&self) -> Seq<T> {
        match self.root {
            None => Seq::empty(),
            Some(n) => n.nview(),
        }
    }
}

impl<T: Copy> Rope<T> {
    /// Each pair node caches its length and height correctly, the heights of its
    /// children differ by at most one, and no leaf is empty.
    pub closed spec fn wf(&self) -> bool {
        match self.root {
            None => true,
            Some(n) => n.wf(),
        }
    }

    /// The height of the tree; 0 for the empty rope and for a single leaf.
    pub closed spec fn height(&self) -> nat {
        match self.root {
            None => 0,
            Some(n) => n.height(),
        }
    }

    /// The lengths of the leaves, left to right.
    pub closed spec fn leaves(&self) -> Seq<usize> {
        match self.root {
            None => Seq::empty(),
            Some(n) => n.leaves(),
        }
    }

    /// The tree of a non-empty rope.
    pub closed spec fn node(&self) -> Option<Box<Node<T>>> {
        self.root
    }

    /// What the rope's view, height and well-formedness are in terms of its tree:
    /// every pair node reachable from a well-formed rope has the right cached length
    /// and height, and children whose heights differ by at most one.
    pub proof fn lemma_unfold(&self)
        ensures
            self.wf() == match self.node() {
                None => true,
                Some(n) => n.wf(),
            },
            self@ == match self.node() {
                None => Seq::empty(),
                Some(n) => n.nview(),
            },
            self.height() == match self.node() {
                None => 0,
                Some(n) => n.height(),
            },
            self.leaves() == match self.node() {
                None => Seq::<usize>::empty(),
                Some(n) => n.leaves(),
            },
    {
    }

    pub proof fn lemma_wf_len(&self)
        requires
            self.wf(),
        ensures
            self@.len() <= usize::MAX,
    {
        match self.root {
            None => {},
            Some(n) => lemma_node_len_fits(&*n),
        }
    }

    pub fn new() -> (r: Rope<T>)
        ensures
            r.wf(),
            r@ == Seq::<T>::empty(),
    {
        Rope { root: None }
    }

    pub fn from_vec(vec: Vec<T>) -> (r: Rope<T>)
        ensures
            r.wf(),
            r@ == vec@,
            r.height() == 0,
            r.leaves() == if vec@.len() == 0 {
                Seq::<usize>::empty()
            } else {
                seq![vec@.len() as usize]
            },
    {
        if vec.len() == 0 {
            Rope { root: None }
        } else {
            Rope { root: Some(Box::new(Node::Leaf(vec))) }
        }
    }

    pub fn from_slice(slice: &[T]) -> (r: Rope<T>)
        ensures
            r.wf(),
            r@ == slice@,
            r.height() == 0,
            r.leaves() == if slice@.len() == 0 {
                Seq::<usize>::empty()
            } else {
                seq![slice@.len() as usize]
            },
    {
        let mut v: Vec<T> = Vec::new();
        let mut i: usize = 0;
        while i < slice.len()
            invariant
                0 <= i <= slice@.len(),
                v@ == slice@.take(i as int),
            decreases slice@.len() - i,
        {
            v.push(slice[i]);
            i = i + 1;
            proof {
                assert(slice@.take(i as int) =~= slice@.take(i - 1).push(slice@[i - 1]));
            }
        }
        proof {
            assert(slice@.take(i as int) =~= slice@);
        }
        Rope::from_vec(v)
    }

    pub fn len(&self) -> (r: usize)
        requires
            self.wf(),
        ensures
            r == self@.len(),
    {
        match &self.root {
            None => 0,
            Some(n) => node_len(n),
        }
    }

    /// The height of the tree.
    pub fn dep(&self) -> (r: i8)
        requires
            self.wf(),
        ensures
            r as int == self.height(),
    {
        match &self.root {
            None => 0,
            Some(n) => node_dep(n),
        }
    }

    /// Whether the invariants hold: lengths and heights cached right, children's
    /// heights at most one apart, no empty leaf.
    pub fn check_invariants(&self) -> (r: bool)
        ensures
            r == self.wf(),
    {
        match &self.root {
            None => true,
            Some(n) => check_node(n),
        }
    }

    /// The lengths of the leaves, left to right.
    pub fn leaf_lens(&self) -> (r: Vec<usize>)
        requires
            self.wf(),
        ensures
            r@ == self.leaves(),
    {
        let mut out: Vec<usize> = Vec::new();
        match &self.root {
            None => {},
            Some(n) => leaf_lens_of(n, &mut out),
        }
        out
    }

    /// All elements, in order.
    pub fn to_vec(&self) -> (r: Vec<T>)
        ensures
            r@ == self@,
    {
        let mut out: Vec<T> = Vec::new();
        match &self.root {
            None => {},
            Some(n) => flatten(n, &mut out),
        }
        proof {
            assert(out@ =~= self@);
        }
        out
    }

    /// The element at `index`.
    pub fn at(&self, index: usize) -> (r: T)
        requires
            self.wf(),
            index < self@.len(),
        ensures
            r == self@[index as int],
    {
        match &self.root {
            None => {
                proof {
                    assert(false);
                }
                unreached()
            },
            Some(n) => {
                proof {
                    lemma_node_len_fits(&**n);
                }
                let (start, leaf) = find_leaf(n, index, 0);
                leaf[index - start]
            },
        }
    }

    /// Concatenates two ropes into a balanced one; a result shorter than
    /// `THRESHOLD` becomes a single leaf.
    pub fn join(left: Rope<T>, right: Rope<T>) -> (r: Rope<T>)
        requires
            left.wf(),
            right.wf(),
            left@.len() + right@.len() <= usize::MAX,
        ensures
            r.wf(),
            r@ == left@ + right@,
            left@.len() > 0 && right@.len() > 0 && left@.len() + right@.len() < THRESHOLD ==> r.height()
                == 0 && r.leaves() == seq![(left@.len() + right@.len()) as usize],
            left@.len() + right@.len() >= THRESHOLD ==> r.leaves() == left.leaves() + right.leaves(),
            left@.len() > 0 && right@.len() > 0 && left.height() == 0 && right.height() == 0 && left@.len()
                + right@.len() >= THRESHOLD ==> r.height() == 1,
    {
        match left.root {
            None => {
                proof {
                    assert(right@ =~= left@ + right@);
                    assert(right.leaves() =~= left.leaves() + right.leaves());
                }
                right
            },
            Some(a) => match right.root {
                None => {
                    proof {
                        assert(left@ =~= left@ + right@);
                        assert(left.leaves() =~= left.leaves() + right.leaves());
                    }
                    Rope { root: Some(a) }
                },
                Some(b) => {
                    if node_len(&a) + node_len(&b) < THRESHOLD {
                        proof {
                            lemma_len_bound(&*a);
                            lemma_min_len_mono(0, a.height());
                        }
                        let mut v: Vec<T> = Vec::new();
                        flatten(&a, &mut v);
                        flatten(&b, &mut v);
                        proof {
                            assert(v@ =~= left@ + right@);
                            assert(leaf_lens_spec(&Node::Leaf(v)) == seq![v@.len() as usize]);
                        }
                        Rope { root: Some(Box::new(Node::Leaf(v))) }
                    } else {
                        let j = join_avl(a, b);
                        proof {
                            if a.height() == 0 && b.height() == 0 {
                                assert(j.height() >= 1) by {
                                    match *j {
                                        Node::Leaf(_) => {
                                            assert(j.nview().len() == a.nview().len() + b.nview().len());
                                            assert(j.leaves().len() == 1);
                                            assert(a.leaves().len() == 1 && b.leaves().len() == 1);
                                        },
                                        Node::App { .. } => {},
                                    }
                                }
                            }
                        }
                        Rope { root: Some(j) }
                    }
                },
            },
        }
    }

    /// Two ropes side by side, balanced, never merged into one leaf.
    fn pair(left: Rope<T>, right: Rope<T>) -> (r: Rope<T>)
        requires
            left.wf(),
            right.wf(),
            left@.len() + right@.len() <= usize::MAX,
        ensures
            r.wf(),
            r@ == left@ + right@,
    {
        match left.root {
            None => {
                proof {
                    assert(right@ =~= left@ + right@);
                }
                right
            },
            Some(a) => match right.root {
                None => {
                    proof {
                        assert(left@ =~= left@ + right@);
                    }
                    Rope { root: Some(a) }
                },
                Some(b) => Rope { root: Some(join_avl(a, b)) },
            },
        }
    }

    /// Appends `right` at the end.
    pub fn append_rope(&mut self, right: Rope<T>)
        requires
            old(self).wf(),
            right.wf(),
            old(self)@.len() + right@.len() <= usize::MAX,
        ensures
            final(self).wf(),
            final(self)@ == old(self)@ + right@,
            old(self)@.len() > 0 && right@.len() > 0 && old(self)@.len() + right@.len() < THRESHOLD
                ==> final(self).height() == 0 && final(self).leaves() == seq![(old(self)@.len() + right@.len()) as usize],
            old(self)@.len() + right@.len() >= THRESHOLD ==> final(self).leaves() == old(self).leaves()
                + right.leaves(),
            old(self)@.len() > 0 && right@.len() > 0 && old(self).height() == 0 && right.height() == 0
                && old(self)@.len() + right@.len() >= THRESHOLD ==> final(self).height() == 1,
    {
        let left = Rope { root: self.root.take() };
        *self = Rope::join(left, right);
    }

    pub fn append_slice(&mut self, right: &[T])
        requires
            old(self).wf(),
            old(self)@.len() + right@.len() <= usize::MAX,
        ensures
            final(self).wf(),
            final(self)@ == old(self)@ + right@,
            old(self)@.len() > 0 && right@.len() > 0 && old(self)@.len() + right@.len() < THRESHOLD
                ==> final(self).height() == 0 && final(self).leaves() == seq![(old(self)@.len() + right@.len()) as usize],
            old(self)@.len() + right@.len() >= THRESHOLD && right@.len() > 0 ==> final(self).leaves()
                == old(self).leaves().push(right@.len() as usize),
            old(self)@.len() > 0 && right@.len() > 0 && old(self).height() == 0 && old(self)@.len()
                + right@.len() >= THRESHOLD ==> final(self).height() == 1,
    {
        self.append_rope(Rope::from_slice(right))
    }

    pub fn prepend_slice(&mut self, left: &[T])
        requires
            old(self).wf(),
            old(self)@.len() + left@.len() <= usize::MAX,
        ensures
            final(self).wf(),
            final(self)@ == left@ + old(self)@,
            old(self)@.len() > 0 && left@.len() > 0 && old(self)@.len() + left@.len() < THRESHOLD
                ==> final(self).height() == 0 && final(self).leaves() == seq![(left@.len() + old(self)@.len()) as usize],
            old(self)@.len() + left@.len() >= THRESHOLD && left@.len() > 0 ==> final(self).leaves()
                == seq![left@.len() as usize] + old(self).leaves(),
            old(self)@.len() > 0 && left@.len() > 0 && old(self).height() == 0 && old(self)@.len()
                + left@.len() >= THRESHOLD ==> final(self).height() == 1,
    {
        let right = Rope { root: self.root.take() };
        *self = Rope::join(Rope::from_slice(left), right);
    }

    /// Removes `length` elements from `start` and puts the elements of `insert`, if
    /// any, in their place.
    pub fn splice(&mut self, start: usize, length: usize, insert: Option<Vec<T>>)
        requires
            old(self).wf(),
            start + length <= old(self)@.len(),
            old(self)@.len() - length + inserted(insert).len() <= usize::MAX,
        ensures
            final(self).wf(),
            final(self)@ == splice_model(old(self)@, start as int, length as int, inserted(insert)),
    {
        let root = self.root.take();
        match root {
            None => {
                let r = match insert {
                    Some(v) => Rope::from_vec(v),
                    None => Rope::new(),
                };
                proof {
                    assert(r@ =~= old(self)@.subrange(0, start as int) + inserted(insert) + old(self)@.subrange(start + length, old(self)@.len() as int));
                }
                *self = r;
            },
            Some(n) => {
                *self = splice_node(n, start, start + length, insert);
            },
        }
    }

    pub fn cursor(&self) -> (r: RopeCursor<'_, T>)
        requires
            self.wf(),
        ensures
            r.wf(),
            r.data() == self@,
            r.spec_pos() == 0,
    {
        RopeCursor::new(self)
    }

    pub fn iter(&self) -> (r: RopeCursor<'_, T>)
        requires
            self.wf(),
        ensures
            r.wf(),
            r.data() == self@,
            r.spec_pos() == 0,
    {
        RopeCursor::new(self)
    }
}

fn leaf_lens_of<T>(n: &Node<T>, out: &mut Vec<usize>)
    requires
        n.wf(),
    ensures
        final(out)@ == old(out)@ + leaf_lens_spec(n),
    decreases n,
{
    match n {
        Node::Leaf(v) => {
            out.push(v.len());
            proof {
                assert(final(out)@ =~= old(out)@ + leaf_lens_spec(n));
            }
        },
        Node::App { left, right, .. } => {
            leaf_lens_of(left, out);
            leaf_lens_of(right, out);
            proof {
                lemma_cat3(old(out)@, leaf_lens_spec(&**left), leaf_lens_spec(&**right));
            }
        },
    }
}

/// Whether `n` is well formed, checked node by node.
fn check_node<T>(n: &Node<T>) -> (r: bool)
    ensures
        r == n.wf(),
    decreases n,
{
    match n {
        Node::Leaf(v) => v.len() > 0,
        Node::App { left, right, length, depth } => {
            if !check_node(left) || !check_node(right) {
                return false;
            }
            let ll = node_len(left);
            let rl = node_len(right);
            if ll > usize::MAX - rl || *length != ll + rl {
                return false;
            }
            let ld = node_dep(left);
            let rd = node_dep(right);
            let h = if ld >= rd {
                ld + 1
            } else {
                rd + 1
            };
            *depth == h && ld <= rd + 1 && rd <= ld + 1
        },
    }
}

/// The rope made of `n` with `[start, end)` replaced by the insertion.
fn splice_node<T: Copy>(n: Box<Node<T>>, start: usize, end: usize, insert: Option<Vec<T>>) -> (r:
    Rope<T>)
    requires
        n.wf(),
        start <= end <= n.nview().len(),
        n.nview().len() - (end - start) + inserted(insert).len() <= usize::MAX,
    ensures
        r.wf(),
        r@ == n.nview().subrange(0, start as int) + inserted(insert) + n.nview().subrange(
            end as int,
            n.nview().len() as int,
        ),
    decreases n,
{
    let ghost s = n.nview();
    match *n {
        Node::App { left, right, .. } => {
            let ll = node_len(&left);
            proof {
                lemma_node_len_fits(&*right);
            }
            let rl = node_len(&right);
            let ghost ls = left.nview();
            let ghost rs = right.nview();
            if start >= ll {
                let r2 = splice_node(right, start - ll, end - ll, insert);
                let l2 = Rope { root: Some(left) };
                proof {
                    assert(s.subrange(0, start as int) =~= ls + rs.subrange(0, start - ll));
                    assert(s.subrange(end as int, s.len() as int) =~= rs.subrange(
                        end - ll,
                        rs.len() as int,
                    ));
                    assert(l2@ == ls);
                    lemma_cat3(ls, rs.subrange(0, start - ll), inserted(insert));
                    lemma_cat3(
                        ls,
                        rs.subrange(0, start - ll) + inserted(insert),
                        rs.subrange(end - ll, rs.len() as int),
                    );
                }
                Rope::join(l2, r2)
            } else if end <= ll {
                let l2 = splice_node(left, start, end, insert);
                let r2 = Rope { root: Some(right) };
                proof {
                    assert(s.subrange(0, start as int) =~= ls.subrange(0, start as int));
                    assert(s.subrange(end as int, s.len() as int) =~= ls.subrange(
                        end as int,
                        ls.len() as int,
                    ) + rs);
                    assert(r2@ == rs);
                    lemma_cat3(
                        ls.subrange(0, start as int) + inserted(insert),
                        ls.subrange(end as int, ls.len() as int),
                        rs,
                    );
                }
                Rope::join(l2, r2)
            } else {
                let l2 = splice_node(left, start, ll, None);
                let r2 = splice_node(right, 0, end - ll, insert);
                proof {
                    assert(l2@ =~= ls.subrange(0, start as int));
                    assert(r2@ =~= inserted(insert) + rs.subrange(end - ll, rs.len() as int));
                    assert(s.subrange(0, start as int) =~= ls.subrange(0, start as int));
                    assert(s.subrange(end as int, s.len() as int) =~= rs.subrange(
                        end - ll,
                        rs.len() as int,
                    ));
                    lemma_cat3(
                        ls.subrange(0, start as int),
                        inserted(insert),
                        rs.subrange(end - ll, rs.len() as int),
                    );
                }
                Rope::join(l2, r2)
            }
        },
        Node::Leaf(arr) => {
            let mut arr = arr;
            let len = arr.len();
            let ins_len: usize = match &insert {
                Some(v) => v.len(),
                None => 0,
            };
            let new_len = len - (end - start) + ins_len;
            let ghost want = s.subrange(0, start as int) + inserted(insert) + s.subrange(
                end as int,
                s.len() as int,
            );
            if new_len < THRESHOLD || (ins_len == 0 && (start == 0 || end == len)) {
                let mut suffix = arr.split_off(end);
                arr.truncate(start);
                match insert {
                    Some(v) => {
                        let mut v = v;
                        arr.append(&mut v);
                    },
                    None => {},
                }
                arr.append(&mut suffix);
                proof {
                    assert(arr@ =~= want);
                }
                Rope::from_vec(arr)
            } else {
                let suffix = arr.split_off(end);
                arr.truncate(start);
                let mut left = Rope::from_vec(arr);
                let mut right = Rope::from_vec(suffix);
                let middle = match insert {
                    Some(v) => Rope::from_vec(v),
                    None => Rope::new(),
                };
                let ghost (l0, m0, r0) = (left@, middle@, right@);
                proof {
                    assert(want == l0 + m0 + r0);
                }
                let left_len = left.len();
                let right_len = right.len();
                if right_len == 0 {
                    right = middle;
                    proof {
                        assert(want =~= left@ + right@);
                    }
                } else if left_len == 0 {
                    left = middle;
                    proof {
                        assert(want =~= left@ + right@);
                    }
                } else if middle.len() > 0 {
                    if left_len < right_len {
                        left = Rope::pair(left, middle);
                    } else {
                        right = Rope::pair(middle, right);
                        proof {
                            lemma_cat3(l0, m0, r0);
                        }
                    }
                } else {
                    proof {
                        assert(want =~= left@ + right@);
                    }
                }
                Rope::pair(left, right)
            }
        },
    }
}

/// The leaf of `n` that holds the element at `index`, and the position of its first
/// element counted from `start`.
fn find_leaf<'a, T>(n: &'a Node<T>, index: usize, start: usize) -> (r: (usize, &'a Vec<T>))
    requires
        n.wf(),
        index < n.nview().len(),
        start + n.nview().len() <= usize::MAX,
    ensures
        start <= r.0 <= start + index < r.0 + r.1@.len(),
        r.0 + r.1@.len() <= start + n.nview().len(),
        r.1@ == n.nview().subrange(r.0 - start, r.0 - start + r.1@.len()),
    decreases n,
{
    match n {
        Node::Leaf(v) => {
            proof {
                assert(v@ =~= n.nview().subrange(0, v@.len() as int));
            }
            (start, v)
        },
        Node::App { left, right, .. } => {
            let ll = node_len(left);
            if index < ll {
                let r = find_leaf(left, index, start);
                proof {
                    assert(r.1@ =~= n.nview().subrange(r.0 - start, r.0 - start + r.1@.len()));
                }
                r
            } else {
                let r = find_leaf(right, index - ll, start + ll);
                proof {
                    assert(r.1@ =~= n.nview().subrange(r.0 - start, r.0 - start + r.1@.len()));
                }
                r
            }
        },
    }
}

/// A read position in a rope, with a finger on the leaf last read so that reads
/// near each other do not descend from the root again.
pub struct RopeCursor<'a, T> {
    root: &'a Rope<T>,
    start: usize,
    index: usize,
    leaf: Option<&'a Vec<T>>,
}

impl<'a, T: Copy> RopeCursor<'a, T> {
    /// The elements of the rope read.
    pub closed spec fn data(&self) -> Seq<T> {
        self.root@
    }

    /// The current position.
    pub closed spec fn spec_pos(&self) -> int {
        self.index as int
    }

    pub proof fn lemma_pos(&self)
        ensures
            0 <= self.spec_pos() <= usize::MAX,
    {
    }

    /// The rope is well formed and the cached leaf, if any, is the part of the rope
    /// that starts at `start`.
    pub closed spec fn wf(&self) -> bool {
        &&& self.root.wf()
        &&& match self.leaf {
            None => true,
            Some(v) => {
                &&& self.start + v@.len() <= self.root@.len()
                &&& v@ == self.root@.subrange(self.start as int, self.start + v@.len())
            },
        }
    }

    pub proof fn lemma_len(&self)
        requires
            self.wf(),
        ensures
            self.data().len() <= usize::MAX,
    {
        self.root.lemma_wf_len();
    }

    fn new(root: &'a Rope<T>) -> (r: Self)
        requires
            root.wf(),
        ensures
            r.wf(),
            r.data() == root@,
            r.spec_pos() == 0,
    {
        RopeCursor { root, start: 0, index: 0, leaf: None }
    }

    pub fn root(&self) -> (r: &'a Rope<T>)
        ensures
            r@ == self.data(),
    {
        self.root
    }

    pub fn full_len(&self) -> (r: usize)
        requires
            self.wf(),
        ensures
            r == self.data().len(),
    {
        self.root.len()
    }

    pub fn at_end(&self) -> (r: bool)
        requires
            self.wf(),
        ensures
            r == (self.spec_pos() >= self.data().len()),
    {
        self.index >= self.root.len()
    }

    pub fn pos(&self) -> (r: usize)
        ensures
            r == self.spec_pos(),
    {
        self.index
    }

    pub fn seek(&mut self, pos: usize)
        ensures
            final(self).wf() == old(self).wf(),
            final(self).data() == old(self).data(),
            final(self).spec_pos() == pos,
    {
        self.index = pos;
    }

    /// Moves the position by `delta`.
    pub fn skip(&mut self, delta: isize)
        requires
            0 <= old(self).spec_pos() + delta <= isize::MAX,
            old(self).spec_pos() <= isize::MAX,
        ensures
            final(self).wf() == old(self).wf(),
            final(self).data() == old(self).data(),
            final(self).spec_pos() == old(self).spec_pos() + delta,
    {
        self.index = (self.index as isize + delta) as usize;
    }

    /// The element at `pos`; the position does not move.
    pub fn at(&mut self, pos: usize) -> (r: T)
        requires
            old(self).wf(),
            pos < old(self).data().len(),
        ensures
            final(self).wf(),
            final(self).data() == old(self).data(),
            final(self).spec_pos() == old(self).spec_pos(),
            r == old(self).data()[pos as int],
    {
        match self.leaf {
            Some(v) => {
                if self.start <= pos && pos - self.start < v.len() {
                    return v[pos - self.start];
                }
            },
            None => {},
        }
        match &self.root.root {
            None => {
                proof {
                    assert(false);
                }
                unreached()
            },
            Some(n) => {
                proof {
                    lemma_node_len_fits(&**n);
                }
                let (s, v) = find_leaf(n, pos, 0);
                self.start = s;
                self.leaf = Some(v);
                v[pos - s]
            },
        }
    }

    /// The element at `pos`, or `None` past the end.
    pub fn try_at(&mut self, pos: usize) -> (r: Option<T>)
        requires
            old(self).wf(),
        ensures
            final(self).wf(),
            final(self).data() == old(self).data(),
            final(self).spec_pos() == old(self).spec_pos(),
            r == if pos < old(self).data().len() {
                Some(old(self).data()[pos as int])
            } else {
                None
            },
    {
        if pos < self.root.len() {
            Some(self.at(pos))
        } else {
            None
        }
    }

    /// The element at the current position, or `None` at the end.
    pub fn peek(&mut self) -> (r: Option<T>)
        requires
            old(self).wf(),
        ensures
            final(self).wf(),
            final(self).data() == old(self).data(),
            final(self).spec_pos() == old(self).spec_pos(),
            r == if old(self).spec_pos() < old(self).data().len() {
                Some(old(self).data()[old(self).spec_pos()])
            } else {
                None
            },
    {
        let i = self.index;
        self.try_at(i)
    }

    /// The element at the current position, moving past it; `None` at the end.
    pub fn next(&mut self) -> (r: Option<T>)
        requires
            old(self).wf(),
        ensures
            final(self).wf(),
            final(self).data() == old(self).data(),
            old(self).spec_pos() < old(self).data().len() ==> r == Some(
                old(self).data()[old(self).spec_pos()],
            ) && final(self).spec_pos() == old(self).spec_pos() + 1,
            old(self).spec_pos() >= old(self).data().len() ==> r.is_none() && final(self).spec_pos() == old(self).spec_pos(),
    {
        let i = self.index;
        if i < self.root.len() {
            let x = self.at(i);
            self.index = i + 1;
            Some(x)
        } else {
            None
        }
    }
}

} // verus!
