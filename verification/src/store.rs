//! The expression store: an arena that holds every node once. Children are
//! stored before their parents, and structurally equal expressions share one
//! slot, so two indices denote the same expression exactly when they are equal.

use vstd::prelude::*;
use crate::expr::{size, sizes, valid_symbol, wf, Expr};

verus! {

/// A node of the arena. Children are indices of earlier slots.
#[derive(Debug)]
pub enum Node {
    /// A symbolic leaf.
    Sym(Vec<u8>),
    /// A de Bruijn variable.
    Var(usize),
    /// A parameter slot.
    Param(usize),
    /// A binder of `params` variables over the expression at `body`.
    Lam { params: usize, body: usize },
    /// An application: the function followed by its arguments.
    App(Vec<usize>),
}

/// The mathematical content of a [`Node`].
pub enum Shape {
    Sym(Seq<u8>),
    Var(usize),
    Param(usize),
    Lam { params: usize, body: usize },
    App(Seq<usize>),
}

impl View for Node {
    type V = Shape;

    open spec fn view(&self) -> Shape {
        match self {
            Node::Sym(s) => Shape::Sym(s@),
            Node::Var(i) => Shape::Var(*i),
            Node::Param(i) => Shape::Param(*i),
            Node::Lam { params, body } => Shape::Lam { params: *params, body: *body },
            Node::App(items) => Shape::App(items@),
        }
    }
}

/// A shape that may be stored at position `limit`: its children come earlier
/// and it is locally well formed.
pub open spec fn shape_ok(s: Shape, limit: int) -> bool {
    match s {
        Shape::Sym(name) => valid_symbol(name),
        Shape::Var(_) => true,
        Shape::Param(_) => true,
        Shape::Lam { params, body } => params >= 1 && body < limit,
        Shape::App(items) => items.len() >= 2 && forall|k: int|
            0 <= k < items.len() ==> #[trigger] items[k] < limit,
    }
}

/// The arena invariant: children first, and no shape stored twice.
pub open spec fn valid_nodes(nodes: Seq<Shape>) -> bool {
    &&& forall|i: int| 0 <= i < nodes.len() ==> shape_ok(#[trigger] nodes[i], i)
    &&& forall|i: int, j: int| 0 <= i < j < nodes.len() ==> #[trigger] nodes[i] != #[trigger] nodes[j]
}

/// `a` is an initial segment of `b`.
pub open spec fn prefix(a: Seq<Shape>, b: Seq<Shape>) -> bool {
    &&& a.len() <= b.len()
    &&& forall|i: int| 0 <= i < a.len() ==> #[trigger] a[i] == b[i]
}

/// The expression that slot `i` of `nodes` denotes.
pub open spec fn expr_at(nodes: Seq<Shape>, i: int) -> Expr
    decreases i, 2int,
{
    if 0 <= i < nodes.len() {
        shape_expr(nodes, nodes[i], i)
    } else {
        Expr::Var(0)
    }
}

/// The expression that the shape `s` denotes when its children are slots of
/// `nodes` below `limit`.
pub open spec fn shape_expr(nodes: Seq<Shape>, s: Shape, limit: int) -> Expr
    decreases limit, 1int,
{
    match s {
        Shape::Sym(name) => Expr::Sym(name),
        Shape::Var(k) => Expr::Var(k as nat),
        Shape::Param(k) => Expr::Param(k as nat),
        Shape::Lam { params, body } => if body < limit {
            Expr::Lam(params as nat, Box::new(expr_at(nodes, body as int)))
        } else {
            Expr::Var(0)
        },
        Shape::App(items) => if 0 <= limit {
            Expr::App(exprs_at(nodes, items, limit))
        } else {
            Expr::Var(0)
        },
    }
}

/// The expressions that the slots `items`, all below `limit`, denote.
pub open spec fn exprs_at(nodes: Seq<Shape>, items: Seq<usize>, limit: int) -> Seq<Expr>
    decreases limit, 0int,
{
    Seq::new(
        items.len(),
        |k: int|
            if 0 <= k < items.len() && items[k] < limit {
                expr_at(nodes, items[k] as int)
            } else {
                Expr::Var(0)
            },
    )
}

/// A node count as the arena caches it: exact below `u64::MAX`.
pub open spec fn clamp(n: nat) -> u64 {
    if n >= u64::MAX {
        u64::MAX
    } else {
        n as u64
    }
}

/// Slots keep denoting the same expression when the arena grows.
pub proof fn lemma_prefix_expr(a: Seq<Shape>, b: Seq<Shape>, i: int)
    requires
        prefix(a, b),
        0 <= i < a.len(),
    ensures
        expr_at(b, i) == expr_at(a, i),
    decreases i,
{
    assert(a[i] == b[i]);
    match a[i] {
        Shape::Lam { params, body } => {
            if body < i {
                lemma_prefix_expr(a, b, body as int);
            }
        },
        Shape::App(items) => {
            assert forall|k: int| 0 <= k < items.len() && items[k] < i implies expr_at(
                b,
                items[k] as int,
            ) == expr_at(a, items[k] as int) by {
                lemma_prefix_expr(a, b, items[k] as int);
            }
            assert(exprs_at(b, items, i) =~= exprs_at(a, items, i));
        },
        _ => {},
    }
}

/// Every slot of a valid arena denotes a well-formed expression.
pub proof fn lemma_expr_wf(nodes: Seq<Shape>, i: int)
    requires
        valid_nodes(nodes),
        0 <= i < nodes.len(),
    ensures
        wf(expr_at(nodes, i)),
    decreases i,
{
    assert(shape_ok(nodes[i], i));
    match nodes[i] {
        Shape::Lam { params, body } => {
            lemma_expr_wf(nodes, body as int);
        },
        Shape::App(items) => {
            let es = exprs_at(nodes, items, i);
            assert forall|k: int| 0 <= k < es.len() implies wf(#[trigger] es[k]) by {
                lemma_expr_wf(nodes, items[k] as int);
            }
        },
        _ => {},
    }
}

/// Sharing is maximal: two slots that denote the same expression are the
/// same slot.
pub proof fn lemma_canonical(nodes: Seq<Shape>, i: int, j: int)
    requires
        valid_nodes(nodes),
        0 <= i < nodes.len(),
        0 <= j < nodes.len(),
        expr_at(nodes, i) == expr_at(nodes, j),
    ensures
        i == j,
    decreases i,
{
    assert(shape_ok(nodes[i], i));
    assert(shape_ok(nodes[j], j));
    match nodes[i] {
        Shape::Lam { params, body } => {
            let bj = nodes[j]->Lam_body;
            lemma_canonical(nodes, body as int, bj as int);
        },
        Shape::App(items) => {
            let other = nodes[j]->App_0;
            let es = exprs_at(nodes, items, i);
            let fs = exprs_at(nodes, other, j);
            assert(es == fs);
            assert(es.len() == fs.len());
            assert forall|k: int| 0 <= k < items.len() implies items[k] == other[k] by {
                assert(es[k] == fs[k]);
                lemma_canonical(nodes, items[k] as int, other[k] as int);
            }
            assert(items =~= other);
        },
        _ => {},
    }
    assert(nodes[i] == nodes[j]);
}

/// One slot of the arena: the node and the cached size of what it denotes.
struct Slot {
    node: Node,
    size: u64,
}

/// The arena of expression nodes. Beside the slots it keeps, for each
/// bucket of a hash of the shapes, the slots that hold a shape of that
/// bucket, so that a shape is found without going through all slots.
pub struct ExprStore {
    slots: Vec<Slot>,
    index: Vec<Vec<usize>>,
}

/// The number of buckets of the index.
const BUCKETS: usize = 65536;

/// The modulus of the hash: the prime 2^61 - 1.
const MODULUS: u64 = 0x1FFF_FFFF_FFFF_FFFF;

/// The hash `h` with the number `x` mixed in.
spec fn mix(h: nat, x: nat) -> nat {
    (h * 31 + x) % (MODULUS as nat)
}

/// The hash of the first `n` bytes of a name.
spec fn hash_bytes(s: Seq<u8>, n: nat) -> nat
    decreases n,
{
    if n == 0 || n > s.len() {
        1
    } else {
        mix(hash_bytes(s, (n - 1) as nat), s[n - 1] as nat)
    }
}

/// The hash of the first `n` slots of a list.
spec fn hash_slots(s: Seq<usize>, n: nat) -> nat
    decreases n,
{
    if n == 0 || n > s.len() {
        5
    } else {
        mix(hash_slots(s, (n - 1) as nat), s[n - 1] as nat)
    }
}

/// The hash of a shape.
spec fn hash_of(s: Shape) -> nat {
    match s {
        Shape::Sym(name) => hash_bytes(name, name.len()),
        Shape::Var(i) => mix(2, i as nat),
        Shape::Param(i) => mix(3, i as nat),
        Shape::Lam { params, body } => mix(mix(4, params as nat), body as nat),
        Shape::App(items) => hash_slots(items, items.len()),
    }
}

/// The slot `i` stands in the bucket.
spec fn holds(bucket: Seq<usize>, i: int) -> bool {
    exists|k: int| 0 <= k < bucket.len() && #[trigger] bucket[k] as int == i
}

/// The bucket of a shape.
spec fn bucket_of(s: Shape) -> int {
    (hash_of(s) % (BUCKETS as nat)) as int
}

/// The hash `h` with the number `x` mixed in.
fn mixed(h: u64, x: u64) -> (r: u64)
    requires
        h < MODULUS,
    ensures
        r == mix(h as nat, x as nat),
        r < MODULUS,
{
    let wide: u128 = (h as u128) * 31 + (x as u128);
    (wide % (MODULUS as u128)) as u64
}

impl Node {
    /// The bucket of the node.
    fn bucket(&self) -> (r: usize)
        ensures
            r == bucket_of(self@),
            r < BUCKETS,
    {
        let h: u64 = match self {
            Node::Sym(name) => {
                let mut h: u64 = 1;
                let mut i: usize = 0;
                while i < name.len()
                    invariant
                        i <= name@.len(),
                        h == hash_bytes(name@, i as nat),
                        h < MODULUS,
                    decreases name@.len() - i,
                {
                    h = mixed(h, name[i] as u64);
                    i += 1;
                }
                h
            },
            Node::Var(i) => mixed(2, *i as u64),
            Node::Param(i) => mixed(3, *i as u64),
            Node::Lam { params, body } => mixed(mixed(4, *params as u64), *body as u64),
            Node::App(items) => {
                let mut h: u64 = 5;
                let mut i: usize = 0;
                while i < items.len()
                    invariant
                        i <= items@.len(),
                        h == hash_slots(items@, i as nat),
                        h < MODULUS,
                    decreases items@.len() - i,
                {
                    h = mixed(h, items[i] as u64);
                    i += 1;
                }
                h
            },
        };
        (h % (BUCKETS as u64)) as usize
    }
}

impl View for ExprStore {
    type V = Seq<Shape>;

    closed spec fn view(&self) -> Seq<Shape> {
        Seq::new(self.slots@.len(), |i: int| self.slots@[i].node@)
    }
}

/// Whether two byte strings are equal.
pub fn bytes_eq(a: &[u8], b: &[u8]) -> (r: bool)
    ensures
        r == (a@ == b@),
{
    if a.len() != b.len() {
        return false;
    }
    let mut i: usize = 0;
    while i < a.len()
        invariant
            i <= a.len(),
            a.len() == b.len(),
            forall|k: int| 0 <= k < i ==> a@[k] == b@[k],
        decreases a.len() - i,
    {
        if a[i] != b[i] {
            return false;
        }
        i += 1;
    }
    assert(a@ =~= b@);
    true
}

/// Whether two index lists are equal.
pub fn indices_eq(a: &[usize], b: &[usize]) -> (r: bool)
    ensures
        r == (a@ == b@),
{
    if a.len() != b.len() {
        return false;
    }
    let mut i: usize = 0;
    while i < a.len()
        invariant
            i <= a.len(),
            a.len() == b.len(),
            forall|k: int| 0 <= k < i ==> a@[k] == b@[k],
        decreases a.len() - i,
    {
        if a[i] != b[i] {
            return false;
        }
        i += 1;
    }
    assert(a@ =~= b@);
    true
}

impl Node {
    /// Whether two nodes have the same shape.
    pub fn same(&self, other: &Node) -> (r: bool)
        ensures
            r == (self@ == other@),
    {
        match (self, other) {
            (Node::Sym(a), Node::Sym(b)) => bytes_eq(a.as_slice(), b.as_slice()),
            (Node::Var(a), Node::Var(b)) => *a == *b,
            (Node::Param(a), Node::Param(b)) => *a == *b,
            (Node::Lam { params: pa, body: ba }, Node::Lam { params: pb, body: bb }) => *pa == *pb
                && *ba == *bb,
            (Node::App(a), Node::App(b)) => indices_eq(a.as_slice(), b.as_slice()),
            _ => false,
        }
    }

    /// An owned copy of the node.
    pub fn duplicate(&self) -> (r: Node)
        ensures
            r@ == self@,
    {
        match self {
            Node::Sym(a) => Node::Sym(vstd::slice::slice_to_vec(a.as_slice())),
            Node::Var(a) => Node::Var(*a),
            Node::Param(a) => Node::Param(*a),
            Node::Lam { params, body } => Node::Lam { params: *params, body: *body },
            Node::App(a) => Node::App(vstd::slice::slice_to_vec(a.as_slice())),
        }
    }
}

/// Saturating addition of cached sizes agrees with addition of the sizes.
pub proof fn lemma_clamp_add(a: nat, b: nat)
    ensures
        clamp(a + b) == if clamp(a) + clamp(b) >= u64::MAX {
            u64::MAX
        } else {
            (clamp(a) + clamp(b)) as u64
        },
{
}

/// A shape denotes the same expression in a larger arena.
pub proof fn lemma_prefix_shape(a: Seq<Shape>, b: Seq<Shape>, s: Shape, limit: int)
    requires
        prefix(a, b),
        0 <= limit <= a.len(),
    ensures
        shape_expr(b, s, limit) == shape_expr(a, s, limit),
{
    match s {
        Shape::Lam { params, body } => {
            if body < limit {
                lemma_prefix_expr(a, b, body as int);
            }
        },
        Shape::App(items) => {
            assert forall|k: int| 0 <= k < items.len() && items[k] < limit implies expr_at(
                b,
                items[k] as int,
            ) == expr_at(a, items[k] as int) by {
                lemma_prefix_expr(a, b, items[k] as int);
            }
            assert(exprs_at(b, items, limit) =~= exprs_at(a, items, limit));
        },
        _ => {},
    }
}

impl ExprStore {
    /// Every cached size is the clamped node count of what its slot denotes.
    pub closed spec fn sizes_cached(&self) -> bool {
        forall|i: int|
            0 <= i < self.slots@.len() ==> (#[trigger] self.slots@[i]).size == clamp(
                size(expr_at(self@, i)),
            )
    }

    /// The index is in order: every slot stands in the bucket of its
    /// shape, and a bucket holds slots of its shapes only, in rising order.
    pub closed spec fn indexed(&self) -> bool {
        &&& self.index@.len() == BUCKETS
        &&& forall|b: int, k: int|
            0 <= b < self.index@.len() && 0 <= k < self.index@[b]@.len() ==> (
            #[trigger] self.index@[b]@[k]) < self.slots@.len() && bucket_of(
                self.slots@[self.index@[b]@[k] as int].node@,
            ) == b
        &&& forall|b: int, j: int, k: int|
            0 <= b < self.index@.len() && 0 <= j < k < self.index@[b]@.len()
                ==> #[trigger] self.index@[b]@[j] < #[trigger] self.index@[b]@[k]
        &&& forall|i: int|
            0 <= i < self.slots@.len() ==> holds(
                self.index@[bucket_of((#[trigger] self.slots@[i]).node@)]@,
                i,
            )
    }

    /// The invariant of the store.
    pub open spec fn wf(&self) -> bool {
        valid_nodes(self@) && self.sizes_cached() && self.indexed()
    }

    /// The expression that slot `i` denotes.
    pub open spec fn expr(&self, i: int) -> Expr {
        expr_at(self@, i)
    }

    /// The expressions that the slots `items` denote.
    pub open spec fn exprs(&self, items: Seq<usize>) -> Seq<Expr> {
        exprs_at(self@, items, self@.len() as int)
    }

    /// `self` holds every slot of `old`, unchanged.
    pub open spec fn extends(&self, old: &ExprStore) -> bool {
        prefix(old@, self@)
    }

    /// An empty store.
    pub fn new() -> (r: ExprStore)
        ensures
            r.wf(),
            r@.len() == 0,
    {
        let mut index: Vec<Vec<usize>> = Vec::new();
        let mut b: usize = 0;
        while b < BUCKETS
            invariant
                b <= BUCKETS,
                index@.len() == b,
                forall|j: int| 0 <= j < b ==> (#[trigger] index@[j])@.len() == 0,
            decreases BUCKETS - b,
        {
            index.push(Vec::new());
            b += 1;
        }
        ExprStore { slots: Vec::new(), index }
    }

    /// Number of slots.
    pub fn len(&self) -> (n: usize)
        ensures
            n == self@.len(),
    {
        self.slots.len()
    }

    /// The node at slot `i`.
    pub fn node(&self, i: usize) -> (r: &Node)
        requires
            i < self@.len(),
        ensures
            r@ == self@[i as int],
    {
        &self.slots[i].node
    }

    /// An owned copy of the node at slot `i`.
    pub fn get(&self, i: usize) -> (r: Node)
        requires
            i < self@.len(),
        ensures
            r@ == self@[i as int],
    {
        self.slots[i].node.duplicate()
    }

    /// Node count of the expression at slot `i`; `u64::MAX` stands for that
    /// many nodes or more.
    pub fn size(&self, i: usize) -> (r: u64)
        requires
            self.wf(),
            i < self@.len(),
        ensures
            r == clamp(size(self.expr(i as int))),
    {
        self.slots[i].size
    }

    /// The slot that holds `node`, if one does.
    pub fn find(&self, node: &Node) -> (r: Option<usize>)
        requires
            self.wf(),
        ensures
            match r {
                Some(i) => i < self@.len() && self@[i as int] == node@,
                None => forall|i: int| 0 <= i < self@.len() ==> self@[i] != node@,
            },
    {
        let b = node.bucket();
        let bucket = &self.index[b];
        let mut k: usize = 0;
        while k < bucket.len()
            invariant
                self.wf(),
                b == bucket_of(node@),
                b < self.index@.len(),
                bucket@ == self.index@[b as int]@,
                k <= bucket@.len(),
                forall|j: int| 0 <= j < k ==> self@[#[trigger] bucket@[j] as int] != node@,
            decreases bucket@.len() - k,
        {
            let i = bucket[k];
            assert(self.index@[b as int]@[k as int] < self.slots@.len());
            if self.slots[i].node.same(node) {
                return Some(i);
            }
            k += 1;
        }
        proof {
            assert forall|i: int| 0 <= i < self@.len() implies self@[i] != node@ by {
                if self@[i] == node@ {
                    assert(self.slots@[i].node@ == node@);
                    assert(holds(self.index@[b as int]@, i));
                    let j = choose|j: int|
                        0 <= j < bucket@.len() && #[trigger] bucket@[j] as int == i;
                    assert(self@[bucket@[j] as int] != node@);
                }
            }
        }
        None
    }

    /// Whether `node` may be stored next: it is locally well formed and its
    /// children are slots of this store.
    pub fn admits(&self, node: &Node) -> (r: bool)
        ensures
            r == shape_ok(node@, self@.len() as int),
    {
        match node {
            Node::Sym(name) => crate::symbol::symbol(name.as_slice()),
            Node::Var(_) => true,
            Node::Param(_) => true,
            Node::Lam { params, body } => *params >= 1 && *body < self.slots.len(),
            Node::App(items) => {
                if items.len() < 2 {
                    return false;
                }
                let mut k: usize = 0;
                while k < items.len()
                    invariant
                        k <= items@.len(),
                        items@.len() >= 2,
                        node@ == Shape::App(items@),
                        forall|j: int| 0 <= j < k ==> #[trigger] items@[j] < self@.len(),
                    decreases items@.len() - k,
                {
                    if items[k] >= self.slots.len() {
                        assert(!(items@[k as int] < self@.len()));
                        return false;
                    }
                    k += 1;
                }
                true
            },
        }
    }

    /// Cached size for `node`, computed from the cached sizes of its children.
    fn measure(&self, node: &Node) -> (r: u64)
        requires
            self.wf(),
            shape_ok(node@, self@.len() as int),
        ensures
            r == clamp(size(shape_expr(self@, node@, self@.len() as int))),
    {
        match node {
            Node::Lam { params, body } => {
                proof {
                    lemma_clamp_add(1, size(expr_at(self@, *body as int)));
                }
                self.slots[*body].size.saturating_add(1)
            },
            Node::App(items) => {
                let ghost es = exprs_at(self@, items@, self@.len() as int);
                let mut acc: u64 = 1;
                let mut k: usize = 0;
                while k < items.len()
                    invariant
                        self.wf(),
                        shape_ok(node@, self@.len() as int),
                        node@ == Shape::App(items@),
                        es == exprs_at(self@, items@, self@.len() as int),
                        k <= items@.len(),
                        acc == clamp(1 + sizes(es, k as nat)),
                    decreases items@.len() - k,
                {
                    proof {
                        assert(items@[k as int] < self@.len());
                        assert(es[k as int] == expr_at(self@, items@[k as int] as int));
                        lemma_clamp_add(1 + sizes(es, k as nat), size(es[k as int]));
                    }
                    acc = acc.saturating_add(self.slots[items[k]].size);
                    k += 1;
                }
                acc
            },
            _ => 1,
        }
    }

    /// Interns `node`: returns the slot that holds it, adding one if none
    /// does. Returns `None`, and leaves the store unchanged, exactly when the
    /// node is malformed or names a child that is not a slot of the store.
    pub fn insert(&mut self, node: Node) -> (r: Option<usize>)
        requires
            old(self).wf(),
        ensures
            final(self).wf(),
            final(self).extends(old(self)),
            final(self)@.len() <= old(self)@.len() + 1,
            r is Some <==> shape_ok(node@, old(self)@.len() as int),
            r is None ==> final(self)@ == old(self)@,
            r matches Some(i) ==> i < final(self)@.len() && final(self)@[i as int] == node@
                && final(self).expr(i as int) == shape_expr(
                old(self)@,
                node@,
                old(self)@.len() as int,
            ),
    {
        if !self.admits(&node) {
            return None;
        }
        match self.find(&node) {
            Some(i) => {
                proof {
                    self.lemma_slot_expr(i as int);
                }
                return Some(i);
            },
            None => {},
        }
        let cached = self.measure(&node);
        let n = self.slots.len();
        let b = node.bucket();
        let ghost before = self@;
        let ghost shape = node@;
        let ghost held = self.slots@;
        let ghost table = self.index@;
        self.slots.push(Slot { node, size: cached });
        let mut bucket: Vec<usize> = Vec::new();
        std::mem::swap(&mut bucket, &mut self.index[b]);
        bucket.push(n);
        self.index.set(b, bucket);
        proof {
            assert(self.slots@ =~= held.push(self.slots@[n as int]));
            assert(self.index@[b as int]@ =~= table[b as int]@.push(n));
            assert forall|c: int, k: int|
                0 <= c < self.index@.len() && 0 <= k < self.index@[c]@.len() implies (
            #[trigger] self.index@[c]@[k]) < self.slots@.len() && bucket_of(
                self.slots@[self.index@[c]@[k] as int].node@,
            ) == c by {
                if c == b && k == table[b as int]@.len() {
                } else {
                    assert(self.index@[c]@[k] == table[c]@[k]);
                    assert(table[c]@[k] < held.len());
                }
            }
            assert forall|c: int, j: int, k: int|
                0 <= c < self.index@.len() && 0 <= j < k < self.index@[c]@.len() implies #[trigger] self.index@[c]@[j]
                < #[trigger] self.index@[c]@[k] by {
                if c == b {
                    assert(self.index@[c]@[j] == table[c]@[j]);
                    if k < table[b as int]@.len() {
                        assert(self.index@[c]@[k] == table[c]@[k]);
                    } else {
                        assert(table[c]@[j] < held.len());
                    }
                } else {
                    assert(self.index@[c]@[j] == table[c]@[j]);
                    assert(self.index@[c]@[k] == table[c]@[k]);
                }
            }
            assert forall|i: int| 0 <= i < self.slots@.len() implies holds(
                self.index@[bucket_of((#[trigger] self.slots@[i]).node@)]@,
                i,
            ) by {
                let c = bucket_of(self.slots@[i].node@);
                if i < n {
                    assert(self.slots@[i] == held[i]);
                    assert(holds(table[c]@, i));
                    let k = choose|k: int|
                        0 <= k < table[c]@.len() && #[trigger] table[c]@[k] as int == i;
                    assert(self.index@[c]@[k] as int == i);
                } else {
                    assert(self.index@[b as int]@[table[b as int]@.len() as int] == n);
                }
            }
            assert(self@ =~= before.push(shape));
            assert(prefix(before, self@));
            assert forall|i: int| 0 <= i < self.slots@.len() implies (#[trigger] self.slots@[i]).size
                == clamp(size(expr_at(self@, i))) by {
                if i < n {
                    lemma_prefix_expr(before, self@, i);
                } else {
                    lemma_prefix_shape(before, self@, shape, n as int);
                }
            }
            lemma_prefix_shape(before, self@, shape, n as int);
        }
        Some(n)
    }

    /// A stored shape denotes the same expression when read at any later
    /// limit.
    pub proof fn lemma_slot_expr(&self, i: int)
        requires
            valid_nodes(self@),
            0 <= i < self@.len(),
        ensures
            self.expr(i) == shape_expr(self@, self@[i], self@.len() as int),
    {
        assert(shape_ok(self@[i], i));
        match self@[i] {
            Shape::App(items) => {
                assert(exprs_at(self@, items, i) =~= exprs_at(self@, items, self@.len() as int));
            },
            _ => {},
        }
    }

    /// Forgets every slot from `len` on.
    pub(crate) fn truncate(&mut self, len: usize)
        requires
            old(self).wf(),
            len <= old(self)@.len(),
        ensures
            final(self).wf(),
            final(self)@ == old(self)@.subrange(0, len as int),
    {
        let ghost start = *self;
        while self.slots.len() > len
            invariant
                self.wf(),
                len <= self@.len() <= start@.len(),
                self@ == start@.subrange(0, self@.len() as int),
            decreases self@.len(),
        {
            self.drop_last();
            proof {
                assert(self@ =~= start@.subrange(0, self@.len() as int));
            }
        }
        proof {
            assert(self@ =~= start@.subrange(0, len as int));
        }
    }

    /// Forgets the last slot.
    fn drop_last(&mut self)
        requires
            old(self).wf(),
            old(self)@.len() > 0,
        ensures
            final(self).wf(),
            final(self)@ == old(self)@.drop_last(),
    {
        let ghost before = self@;
        let ghost held = self.slots@;
        let ghost table = self.index@;
        let top = self.slots.len() - 1;
        let b = self.slots[top].node.bucket();
        proof {
            assert(holds(table[b as int]@, top as int));
            let k = choose|k: int|
                0 <= k < table[b as int]@.len() && #[trigger] table[b as int]@[k] as int == top;
            let last = table[b as int]@.len() - 1;
            if k < last {
                assert(table[b as int]@[k] < table[b as int]@[last]);
                assert(table[b as int]@[last] < held.len());
            }
            assert(table[b as int]@[last] == top);
        }
        let mut bucket: Vec<usize> = Vec::new();
        std::mem::swap(&mut bucket, &mut self.index[b]);
        bucket.pop();
        self.index.set(b, bucket);
        self.slots.pop();
        proof {
            assert(self.slots@ =~= held.drop_last());
            assert(self.index@[b as int]@ =~= table[b as int]@.drop_last());
            assert(self@ =~= before.drop_last());
            assert(prefix(self@, before));
            assert forall|i: int| 0 <= i < self.slots@.len() implies (#[trigger] self.slots@[i]).size
                == clamp(size(expr_at(self@, i))) by {
                assert(self.slots@[i] == held[i]);
                lemma_prefix_expr(self@, before, i);
            }
            assert forall|i: int| 0 <= i < self@.len() implies shape_ok(#[trigger] self@[i], i) by {
                assert(shape_ok(before[i], i));
            }
            assert forall|i: int, j: int| 0 <= i < j < self@.len() implies #[trigger] self@[i]
                != #[trigger] self@[j] by {
                assert(before[i] != before[j]);
            }
            assert forall|c: int, k: int|
                0 <= c < self.index@.len() && 0 <= k < self.index@[c]@.len() implies (
            #[trigger] self.index@[c]@[k]) < self.slots@.len() && bucket_of(
                self.slots@[self.index@[c]@[k] as int].node@,
            ) == c by {
                assert(self.index@[c]@[k] == table[c]@[k]);
                assert(table[c]@[k] < held.len());
                if c == b {
                    assert(table[c]@[k] < table[c]@[table[c]@.len() - 1]);
                } else {
                    assert(bucket_of(held[table[c]@[k] as int].node@) == c);
                }
                assert(self.slots@[table[c]@[k] as int] == held[table[c]@[k] as int]);
            }
            assert forall|c: int, j: int, k: int|
                0 <= c < self.index@.len() && 0 <= j < k < self.index@[c]@.len() implies #[trigger] self.index@[c]@[j]
                < #[trigger] self.index@[c]@[k] by {
                assert(self.index@[c]@[j] == table[c]@[j]);
                assert(self.index@[c]@[k] == table[c]@[k]);
            }
            assert forall|i: int| 0 <= i < self.slots@.len() implies holds(
                self.index@[bucket_of((#[trigger] self.slots@[i]).node@)]@,
                i,
            ) by {
                assert(self.slots@[i] == held[i]);
                let c = bucket_of(held[i].node@);
                assert(holds(table[c]@, i));
                let k = choose|k: int|
                    0 <= k < table[c]@.len() && #[trigger] table[c]@[k] as int == i;
                if c == b {
                    assert(k < table[c]@.len() - 1);
                }
                assert(self.index@[c]@[k] as int == i);
            }
        }
    }

    /// Slots denote the same expressions in a store that extends this one.
    pub proof fn lemma_extends_expr(&self, old: &ExprStore, i: int)
        requires
            self.extends(old),
            0 <= i < old@.len(),
        ensures
            self.expr(i) == old.expr(i),
    {
        lemma_prefix_expr(old@, self@, i);
    }

    /// Lists of slots denote the same expressions in a store that extends
    /// this one.
    pub proof fn lemma_extends_exprs(&self, old: &ExprStore, items: Seq<usize>)
        requires
            self.extends(old),
            forall|k: int| 0 <= k < items.len() ==> #[trigger] items[k] < old@.len(),
        ensures
            self.exprs(items) == old.exprs(items),
    {
        assert forall|k: int| 0 <= k < items.len() implies expr_at(self@, items[k] as int)
            == expr_at(old@, items[k] as int) by {
            lemma_prefix_expr(old@, self@, items[k] as int);
        }
        assert(self.exprs(items) =~= old.exprs(items));
    }

    /// Extension is transitive.
    pub proof fn lemma_extends_trans(&self, mid: &ExprStore, old: &ExprStore)
        requires
            self.extends(mid),
            mid.extends(old),
        ensures
            self.extends(old),
    {
        assert forall|i: int| 0 <= i < old@.len() implies #[trigger] old@[i] == self@[i] by {
            assert(old@[i] == mid@[i]);
            assert(mid@[i] == self@[i]);
        }
    }
}

} // verus!
