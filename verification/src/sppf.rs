//! The shared packed parse forest: an append-only arena of nodes.

use crate::grammar::Grammar;
use crate::grammar::GrammarView;
use crate::grammar::Label;
use crate::grammar::Symbol;
use vstd::prelude::*;

verus! {

/// A forest node. Children are arena indices.
#[derive(Debug, Clone, PartialEq, Eq)]
pub enum SPPFNode {
    /// "No node yet": the left sibling of a first child.
    Dummy,
    /// A symbol spanning the input from the first position to the second;
    /// its children are packed nodes, one per derivation.
    Symbol(Symbol, usize, usize, Vec<usize>),
    /// A production prefix, named by the label after it, with its span; its
    /// children are packed nodes.
    Intermediate(Label, usize, usize, Vec<usize>),
    /// One way to split a span: the label, the pivot, and one or two children.
    Packed(Label, usize, Vec<usize>),
}

/// The mathematical value of a forest node.
pub enum NodeView {
    Dummy,
    Symbol(Symbol, usize, usize, Seq<usize>),
    Intermediate(Label, usize, usize, Seq<usize>),
    Packed(Label, usize, Seq<usize>),
}

impl NodeView {
    /// Symbol and intermediate nodes are the containers of packed nodes.
    pub open spec fn is_container(self) -> bool {
        self is Symbol || self is Intermediate
    }

    /// The left extent of a container.
    pub open spec fn left(self) -> usize {
        match self {
            NodeView::Symbol(_, l, _, _) => l,
            NodeView::Intermediate(_, l, _, _) => l,
            _ => 0,
        }
    }

    /// The right extent of a container.
    pub open spec fn right(self) -> usize {
        match self {
            NodeView::Symbol(_, _, r, _) => r,
            NodeView::Intermediate(_, _, r, _) => r,
            _ => 0,
        }
    }

    /// The children of a node; a dummy node has none.
    pub open spec fn children(self) -> Seq<usize> {
        match self {
            NodeView::Dummy => Seq::empty(),
            NodeView::Symbol(_, _, _, c) => c,
            NodeView::Intermediate(_, _, _, c) => c,
            NodeView::Packed(_, _, c) => c,
        }
    }

    /// The same node with other children.
    pub open spec fn with_children(self, c: Seq<usize>) -> NodeView {
        match self {
            NodeView::Dummy => NodeView::Dummy,
            NodeView::Symbol(x, l, r, _) => NodeView::Symbol(x, l, r, c),
            NodeView::Intermediate(x, l, r, _) => NodeView::Intermediate(x, l, r, c),
            NodeView::Packed(x, k, _) => NodeView::Packed(x, k, c),
        }
    }
}

impl View for SPPFNode {
    type V = NodeView;

    open spec fn view(&self) -> NodeView {
        match *self {
            SPPFNode::Dummy => NodeView::Dummy,
            SPPFNode::Symbol(x, l, r, c) => NodeView::Symbol(x, l, r, c@),
            SPPFNode::Intermediate(x, l, r, c) => NodeView::Intermediate(x, l, r, c@),
            SPPFNode::Packed(x, k, c) => NodeView::Packed(x, k, c@),
        }
    }
}

impl SPPFNode {
    /// The right extent of a symbol or intermediate node.
    pub fn right_extent(&self) -> (r: usize)
        requires
            self@.is_container(),
        ensures
            r == self@.right(),
    {
        match self {
            SPPFNode::Symbol(_, _, r, _) => *r,
            SPPFNode::Intermediate(_, _, r, _) => *r,
            _ => 0,
        }
    }

    /// The left extent of a symbol or intermediate node.
    pub fn left_extent(&self) -> (l: usize)
        requires
            self@.is_container(),
        ensures
            l == self@.left(),
    {
        match self {
            SPPFNode::Symbol(_, l, _, _) => *l,
            SPPFNode::Intermediate(_, l, _, _) => *l,
            _ => 0,
        }
    }

    /// The children of a node, `None` for the dummy node.
    pub fn children(&self) -> (c: Option<&Vec<usize>>)
        ensures
            c is None <==> self@ is Dummy,
            c matches Some(v) ==> v@ == self@.children(),
    {
        match self {
            SPPFNode::Dummy => None,
            SPPFNode::Symbol(_, _, _, children) => Some(children),
            SPPFNode::Intermediate(_, _, _, children) => Some(children),
            SPPFNode::Packed(_, _, children) => Some(children),
        }
    }

    /// Mutable access to the packed children of a symbol or intermediate
    /// node; whatever the caller leaves in the list becomes the node's
    /// children, and nothing else of the node changes.
    pub fn children_mut(&mut self) -> (c: Option<&mut Vec<usize>>)
        requires
            old(self)@.is_container(),
        ensures
            c matches Some(v) && v@ == old(self)@.children() && final(self)@ == old(self)@.with_children(
                final(v)@,
            ),
    {
        match self {
            SPPFNode::Symbol(_, _, _, children) => Some(children),
            SPPFNode::Intermediate(_, _, _, children) => Some(children),
            _ => None,
        }
    }
}

/// The key by which a symbol or intermediate node is found again.
pub enum Key {
    Symbol(Symbol, usize, usize),
    Intermediate(Label, usize, usize),
}

impl Key {
    /// The left extent named by the key.
    pub open spec fn left(self) -> usize {
        match self {
            Key::Symbol(_, l, _) => l,
            Key::Intermediate(_, l, _) => l,
        }
    }

    /// The right extent named by the key.
    pub open spec fn right(self) -> usize {
        match self {
            Key::Symbol(_, _, r) => r,
            Key::Intermediate(_, _, r) => r,
        }
    }

    /// The key names a span within `0..=m`.
    pub open spec fn valid(self, m: usize) -> bool {
        self.left() <= self.right() <= m
    }

    /// The key names a symbol or a dot position of `g`.
    pub open spec fn known(self, g: GrammarView) -> bool {
        match self {
            Key::Symbol(x, _, _) => valid_symbol(g, x),
            Key::Intermediate(l, _, _) => g.is_slot(l),
        }
    }
}

/// Whether `x` is a symbol of `g`.
pub open spec fn valid_symbol(g: GrammarView, x: Symbol) -> bool {
    match x {
        Symbol::Nonterminal(y) => y < g.nonterminals,
        _ => true,
    }
}

/// The key of a container; packed and dummy nodes have none.
pub open spec fn node_key(n: NodeView) -> Option<Key> {
    match n {
        NodeView::Symbol(x, l, r, _) => Some(Key::Symbol(x, l, r)),
        NodeView::Intermediate(x, l, r, _) => Some(Key::Intermediate(x, l, r)),
        _ => None,
    }
}

/// A container with the given key and no children yet.
pub open spec fn fresh_node(k: Key) -> NodeView {
    match k {
        Key::Symbol(x, l, r) => NodeView::Symbol(x, l, r, Seq::empty()),
        Key::Intermediate(x, l, r) => NodeView::Intermediate(x, l, r, Seq::empty()),
    }
}

/// `i` is the least index of a node with key `k`.
pub open spec fn is_first_match(a: Seq<NodeView>, k: Key, i: int) -> bool {
    &&& 0 <= i < a.len()
    &&& node_key(a[i]) == Some(k)
    &&& forall|j: int| 0 <= j < i ==> node_key(#[trigger] a[j]) != Some(k)
}

/// The least index of a node with key `k`, if there is one.
pub open spec fn find_node(a: Seq<NodeView>, k: Key) -> Option<usize> {
    if exists|i: int| is_first_match(a, k, i) {
        Some((choose|i: int| is_first_match(a, k, i)) as usize)
    } else {
        None
    }
}

/// The arena after a lookup of `k` that appends a fresh container when
/// there is none, with the index of the container.
pub open spec fn find_or_create(a: Seq<NodeView>, k: Key) -> (Seq<NodeView>, usize) {
    match find_node(a, k) {
        Some(i) => (a, i),
        None => (a.push(fresh_node(k)), a.len() as usize),
    }
}

/// Whether `n` is a packed node with label `l` and pivot `k`.
pub open spec fn is_packed_with(n: NodeView, l: Label, k: usize) -> bool {
    match n {
        NodeView::Packed(l2, k2, _) => l2 == l && k2 == k,
        _ => false,
    }
}

/// Whether node `y` has a packed child with label `l` and pivot `k`.
pub open spec fn has_packed(a: Seq<NodeView>, y: usize, l: Label, k: usize) -> bool {
    exists|j: int|
        0 <= j < a[y as int].children().len() && is_packed_with(
            a[(#[trigger] a[y as int].children()[j]) as int],
            l,
            k,
        )
}

/// The arena after container `y` has been given a packed child `(l, k)`
/// with children `kids`, unless it already had one with that label and pivot.
pub open spec fn add_packed(
    a: Seq<NodeView>,
    y: usize,
    l: Label,
    k: usize,
    kids: Seq<usize>,
) -> Seq<
    NodeView,
> {
    if has_packed(a, y, l, k) {
        a
    } else {
        a.update(
            y as int,
            a[y as int].with_children(a[y as int].children().push(a.len() as usize)),
        ).push(NodeView::Packed(l, k, kids))
    }
}

/// What `get_node_t` does: the arena with the node of terminal or epsilon
/// `x` at position `i`, and that node's index.
pub open spec fn node_t(a: Seq<NodeView>, x: Symbol, i: usize) -> (Seq<NodeView>, usize) {
    find_or_create(
        a,
        Key::Symbol(
            x,
            i,
            if x == Symbol::Eps {
                i
            } else {
                (i + 1) as usize
            },
        ),
    )
}

/// The key of the container that `get_node_p` looks up for label `l`, left
/// sibling `w` and right child `z`.
pub open spec fn container_key(
    g: GrammarView,
    a: Seq<NodeView>,
    l: Label,
    w: usize,
    z: usize,
) -> Key {
    let left = if a[w as int] is Dummy {
        a[z as int].left()
    } else {
        a[w as int].left()
    };
    match g.end(l) {
        Some(x) => Key::Symbol(x, left, a[z as int].right()),
        None => Key::Intermediate(l, left, a[z as int].right()),
    }
}

/// The children of the packed node that `get_node_p` adds.
pub open spec fn packed_kids(a: Seq<NodeView>, w: usize, z: usize) -> Seq<usize> {
    if a[w as int] is Dummy {
        seq![z]
    } else {
        seq![w, z]
    }
}

/// What `get_node_p` does: the arena after the step past label `l` that
/// joins left sibling `w` and right child `z`, and the index of the node
/// that stands for the joined span.
pub open spec fn node_p(g: GrammarView, a: Seq<NodeView>, l: Label, w: usize, z: usize) -> (
    Seq<NodeView>,
    usize,
) {
    if g.first(l) {
        (a, z)
    } else {
        let (a1, y) = find_or_create(a, container_key(g, a, l, w, z));
        (add_packed(a1, y, l, a[z as int].left(), packed_kids(a, w, z)), y)
    }
}

/// Index 0 holds the dummy node, and no other index does.
pub open spec fn wf_shape(a: Seq<NodeView>) -> bool {
    &&& a.len() >= 1
    &&& a[0] is Dummy
    &&& forall|i: int| 0 < i < a.len() ==> !((#[trigger] a[i]) is Dummy)
}

/// Every container spans a stretch of `0..=m`.
pub open spec fn wf_containers(a: Seq<NodeView>, m: usize) -> bool {
    forall|i: int|
        0 <= i < a.len() && (#[trigger] a[i]).is_container() ==> node_key(a[i]).unwrap().valid(m)
}

/// Node `c` is a well-formed packed child of container `y`: it comes after
/// `y` and after its own children, its right child starts at the pivot and
/// ends where `y` ends, and its left child, if any, spans from where `y`
/// starts to the pivot.
pub open spec fn packed_ok(a: Seq<NodeView>, y: int, c: usize) -> bool {
    &&& y < c < a.len()
    &&& match a[c as int] {
        NodeView::Packed(_, k, kids) => {
            &&& 1 <= kids.len() <= 2
            &&& kids.last() < c
            &&& a[kids.last() as int].is_container()
            &&& a[kids.last() as int].left() == k
            &&& a[kids.last() as int].right() == a[y].right()
            &&& kids.len() == 1 ==> a[y].left() == k
            &&& kids.len() == 2 ==> {
                &&& kids[0] < c
                &&& a[kids[0] as int].is_container()
                &&& a[kids[0] as int].right() == k
                &&& a[kids[0] as int].left() == a[y].left()
            }
        },
        _ => false,
    }
}

/// Every child of a container is a well-formed packed node under it.
pub open spec fn wf_children(a: Seq<NodeView>) -> bool {
    forall|y: int, j: int|
        0 <= y < a.len() && a[y].is_container() && 0 <= j < a[y].children().len() ==> packed_ok(
            a,
            y,
            #[trigger] a[y].children()[j],
        )
}

/// No two packed children of one container share label and pivot.
pub open spec fn wf_packed_unique(a: Seq<NodeView>) -> bool {
    forall|y: int, j1: int, j2: int|
        0 <= y < a.len() && a[y].is_container() && 0 <= j1 < j2 < a[y].children().len() ==> {
            let c1 = #[trigger] a[y].children()[j1];
            let c2 = #[trigger] a[y].children()[j2];
            a[c1 as int] matches NodeView::Packed(l, k, _) ==> !is_packed_with(a[c2 as int], l, k)
        }
}

/// No two containers share a key.
pub open spec fn wf_unique(a: Seq<NodeView>) -> bool {
    forall|i: int, j: int|
        0 <= i < j < a.len() && (#[trigger] a[i]).is_container() && (#[trigger] a[j]).is_container()
            ==> node_key(a[i]) != node_key(a[j])
}

/// Container `y` lists `c` among its children.
pub open spec fn is_parent(a: Seq<NodeView>, y: int, c: int) -> bool {
    0 <= y < c && a[y].is_container() && a[y].children().contains(c as usize)
}

/// Every packed node is the child of some container.
pub open spec fn wf_parents(a: Seq<NodeView>) -> bool {
    forall|c: int|
        0 <= c < a.len() && (#[trigger] a[c]) is Packed ==> exists|y: int| is_parent(a, y, c)
}

/// The invariant of a forest over positions `0..=m`.
pub open spec fn forest_wf(a: Seq<NodeView>, m: usize) -> bool {
    &&& wf_shape(a)
    &&& wf_containers(a, m)
    &&& wf_children(a)
    &&& wf_packed_unique(a)
    &&& wf_unique(a)
    &&& wf_parents(a)
}

/// `b` is `a` grown: nodes are only appended, packed nodes never change,
/// and a container keeps its key and its children, in order, in front of
/// any new ones.
pub open spec fn extends(a: Seq<NodeView>, b: Seq<NodeView>) -> bool {
    &&& a.len() <= b.len()
    &&& forall|i: int|
        0 <= i < a.len() ==> {
            &&& (#[trigger] a[i]).is_container() ==> {
                &&& b[i].is_container()
                &&& node_key(b[i]) == node_key(a[i])
                &&& a[i].children().is_prefix_of(b[i].children())
            }
            &&& !a[i].is_container() ==> b[i] == a[i]
        }
}

/// If no index is a least match for `k`, then no node below `n` has key `k`.
proof fn lemma_no_match(a: Seq<NodeView>, k: Key, n: int)
    requires
        find_node(a, k) is None,
        0 <= n <= a.len(),
    ensures
        forall|j: int| 0 <= j < n ==> node_key(#[trigger] a[j]) != Some(k),
    decreases n,
{
    if n > 0 {
        lemma_no_match(a, k, n - 1);
        if node_key(a[n - 1]) == Some(k) {
            assert(is_first_match(a, k, n - 1));
        }
    }
}

/// A least match is what `find_node` returns.
pub proof fn lemma_find_node_some(a: Seq<NodeView>, k: Key, i: int)
    requires
        is_first_match(a, k, i),
        a.len() <= usize::MAX,
    ensures
        find_node(a, k) == Some(i as usize),
{
    let c = choose|c: int| is_first_match(a, k, c);
    assert(is_first_match(a, k, c));
    if c < i {
        assert(node_key(a[c]) != Some(k));
    }
    if i < c {
        assert(node_key(a[i]) != Some(k));
    }
}

/// Without any match `find_node` returns nothing.
pub proof fn lemma_find_node_none(a: Seq<NodeView>, k: Key)
    requires
        forall|j: int| 0 <= j < a.len() ==> node_key(#[trigger] a[j]) != Some(k),
    ensures
        find_node(a, k) is None,
{
    if exists|i: int| is_first_match(a, k, i) {
        let c = choose|c: int| is_first_match(a, k, c);
        assert(node_key(a[c]) != Some(k));
    }
}

/// What `find_node` returns is a node with the key.
pub proof fn lemma_find_node_found(a: Seq<NodeView>, k: Key)
    requires
        find_node(a, k) is Some,
        a.len() <= usize::MAX,
    ensures
        find_node(a, k).unwrap() < a.len(),
        node_key(a[find_node(a, k).unwrap() as int]) == Some(k),
{
    let c = choose|c: int| is_first_match(a, k, c);
    assert(is_first_match(a, k, c));
}

/// Growth is reflexive.
pub proof fn lemma_extends_refl(a: Seq<NodeView>)
    ensures
        extends(a, a),
{
}

/// Growth is transitive.
pub proof fn lemma_extends_trans(a: Seq<NodeView>, b: Seq<NodeView>, c: Seq<NodeView>)
    requires
        extends(a, b),
        extends(b, c),
    ensures
        extends(a, c),
{
    assert forall|i: int| 0 <= i < a.len() implies {
        &&& (#[trigger] a[i]).is_container() ==> {
            &&& c[i].is_container()
            &&& node_key(c[i]) == node_key(a[i])
            &&& a[i].children().is_prefix_of(c[i].children())
        }
        &&& !a[i].is_container() ==> c[i] == a[i]
    } by {
        let _ = b[i];
        if a[i].is_container() {
            let x = a[i].children();
            let y = b[i].children();
            let z = c[i].children();
            assert(x.is_prefix_of(z)) by {
                assert(x.len() <= y.len() <= z.len());
                assert forall|j: int| 0 <= j < x.len() implies x[j] == z[j] by {
                    assert(x[j] == y[j]);
                    assert(y[j] == z[j]);
                }
            }
        }
    }
}

/// A lookup keeps the forest well-formed, only grows it, and yields a
/// container with the key.
pub proof fn lemma_find_or_create(a: Seq<NodeView>, k: Key, m: usize)
    requires
        forest_wf(a, m),
        k.valid(m),
        find_or_create(a, k).0.len() <= usize::MAX,
    ensures
        forest_wf(find_or_create(a, k).0, m),
        extends(a, find_or_create(a, k).0),
        find_or_create(a, k).1 < find_or_create(a, k).0.len(),
        node_key(find_or_create(a, k).0[find_or_create(a, k).1 as int]) == Some(k),
        a.len() <= find_or_create(a, k).0.len() <= a.len() + 1,
{
    let (b, y) = find_or_create(a, k);
    if find_node(a, k) is Some {
        lemma_find_node_found(a, k);
    } else {
        lemma_no_match(a, k, a.len() as int);
        let n = a.len() as int;
        assert(b == a.push(fresh_node(k)));
        assert(node_key(b[n]) == Some(k));
        assert forall|i: int| 0 <= i < n implies b[i] == a[i] by {}
        assert(wf_shape(b));
        assert(wf_containers(b, m));
        assert forall|y: int, j: int|
            0 <= y < b.len() && b[y].is_container() && 0 <= j < b[y].children().len() implies packed_ok(
            b,
            y,
            #[trigger] b[y].children()[j],
        ) by {
            assert(y < n);
            let c = a[y].children()[j];
            assert(packed_ok(a, y, c));
        }
        assert(wf_packed_unique(b)) by {
            assert forall|y: int, j1: int, j2: int|
                0 <= y < b.len() && b[y].is_container() && 0 <= j1 < j2 < b[y].children().len() implies {
                let c1 = #[trigger] b[y].children()[j1];
                let c2 = #[trigger] b[y].children()[j2];
                b[c1 as int] matches NodeView::Packed(l, k, _) ==> !is_packed_with(b[c2 as int], l, k)
            } by {
                assert(y < n);
                let c1 = a[y].children()[j1];
                let c2 = a[y].children()[j2];
                assert(packed_ok(a, y, c1));
                assert(packed_ok(a, y, c2));
            }
        }
        assert(wf_unique(b));
        assert forall|c: int| 0 <= c < b.len() && (#[trigger] b[c]) is Packed implies exists|y: int|
            is_parent(b, y, c) by {
            assert(c < n);
            let _ = a[c];
            let y = choose|y: int| is_parent(a, y, c);
            assert(is_parent(b, y, c));
        }
    }
}

/// The conditions under which `kids` may become the children of a packed
/// node with pivot `k` under container `y`.
pub open spec fn kids_ok(a: Seq<NodeView>, y: usize, k: usize, kids: Seq<usize>) -> bool {
    &&& 1 <= kids.len() <= 2
    &&& kids.last() < a.len()
    &&& a[kids.last() as int].is_container()
    &&& a[kids.last() as int].left() == k
    &&& a[kids.last() as int].right() == a[y as int].right()
    &&& kids.len() == 1 ==> a[y as int].left() == k
    &&& kids.len() == 2 ==> {
        &&& kids[0] < a.len()
        &&& a[kids[0] as int].is_container()
        &&& a[kids[0] as int].right() == k
        &&& a[kids[0] as int].left() == a[y as int].left()
    }
}

/// Packing keeps the forest well-formed and only grows it; afterwards the
/// container has a packed child with the label and pivot.
pub proof fn lemma_add_packed(
    a: Seq<NodeView>,
    y: usize,
    l: Label,
    k: usize,
    kids: Seq<usize>,
    m: usize,
)
    requires
        forest_wf(a, m),
        y < a.len(),
        a[y as int].is_container(),
        kids_ok(a, y, k, kids),
        add_packed(a, y, l, k, kids).len() <= usize::MAX,
    ensures
        forest_wf(add_packed(a, y, l, k, kids), m),
        extends(a, add_packed(a, y, l, k, kids)),
        has_packed(add_packed(a, y, l, k, kids), y, l, k),
        a.len() <= add_packed(a, y, l, k, kids).len() <= a.len() + 1,
{
    let b = add_packed(a, y, l, k, kids);
    if !has_packed(a, y, l, k) {
        let n = a.len() as int;
        let old_kids = a[y as int].children();
        let new_kids = old_kids.push(n as usize);
        assert(b[y as int] == a[y as int].with_children(new_kids));
        assert(b[n] == NodeView::Packed(l, k, kids));
        assert(b[y as int].children() == new_kids);
        assert forall|i: int| 0 <= i < n && i != y implies b[i] == a[i] by {}
        assert forall|i: int| 0 <= i < n implies {
            &&& (#[trigger] b[i]).is_container() == a[i].is_container()
            &&& node_key(b[i]) == node_key(a[i])
            &&& b[i].left() == a[i].left()
            &&& b[i].right() == a[i].right()
            &&& (b[i] is Dummy) == (a[i] is Dummy)
            &&& (b[i] is Packed) == (a[i] is Packed)
        } by {}
        assert(wf_shape(b)) by {
            assert forall|i: int| 0 < i < b.len() implies !((#[trigger] b[i]) is Dummy) by {
                if i < n {
                    let _ = a[i];
                }
            }
        }
        assert(wf_containers(b, m)) by {
            assert forall|i: int| 0 <= i < b.len() && (#[trigger] b[i]).is_container() implies node_key(
                b[i],
            ).unwrap().valid(m) by {
                let _ = a[i];
            }
        }
        assert forall|y2: int, j: int|
            0 <= y2 < b.len() && b[y2].is_container() && 0 <= j < b[y2].children().len() implies packed_ok(
            b,
            y2,
            #[trigger] b[y2].children()[j],
        ) by {
            assert(y2 < n);
            let c = b[y2].children()[j];
            if y2 == y && j == old_kids.len() {
                assert(c == n);
                assert(packed_ok(b, y2, c));
            } else {
                assert(c == a[y2].children()[j]);
                assert(packed_ok(a, y2, c));
                assert(c != y);
                assert(b[c as int] == a[c as int]);
                assert(packed_ok(b, y2, c));
            }
        }
        assert(wf_children(b));
        assert(wf_packed_unique(b)) by {
            assert forall|y2: int, j1: int, j2: int|
                0 <= y2 < b.len() && b[y2].is_container() && 0 <= j1 < j2 < b[y2].children().len() implies {
                let c1 = #[trigger] b[y2].children()[j1];
                let c2 = #[trigger] b[y2].children()[j2];
                b[c1 as int] matches NodeView::Packed(l1, k1, _) ==> !is_packed_with(
                    b[c2 as int],
                    l1,
                    k1,
                )
            } by {
                assert(y2 < n);
                let c1 = b[y2].children()[j1];
                let c2 = b[y2].children()[j2];
                assert(c1 == a[y2].children()[j1]);
                assert(packed_ok(a, y2, c1));
                assert(b[c1 as int] == a[c1 as int]);
                if y2 == y && j2 == old_kids.len() {
                    assert(c2 == n);
                    if is_packed_with(a[c1 as int], l, k) {
                        assert(has_packed(a, y, l, k));
                    }
                } else {
                    assert(c2 == a[y2].children()[j2]);
                    assert(packed_ok(a, y2, c2));
                    assert(b[c2 as int] == a[c2 as int]);
                }
            }
        }
        assert(wf_unique(b)) by {
            assert forall|i: int, j: int|
                0 <= i < j < b.len() && (#[trigger] b[i]).is_container() && (
                #[trigger] b[j]).is_container() implies node_key(b[i]) != node_key(b[j]) by {
                let _ = a[i];
                let _ = a[j];
            }
        }
        assert forall|c: int| 0 <= c < b.len() && (#[trigger] b[c]) is Packed implies exists|y2: int|
            is_parent(b, y2, c) by {
            if c == n {
                assert(new_kids[old_kids.len() as int] == n as usize);
                assert(is_parent(b, y as int, c));
            } else {
                let _ = a[c];
                let y2 = choose|y2: int| is_parent(a, y2, c);
                let i = choose|i: int| 0 <= i < a[y2].children().len() && a[y2].children()[i] == c as usize;
                assert(b[y2].children()[i] == c as usize);
                assert(is_parent(b, y2, c));
            }
        }
        assert(wf_parents(b));
        assert(extends(a, b)) by {
            assert forall|i: int| 0 <= i < a.len() implies {
                &&& (#[trigger] a[i]).is_container() ==> {
                    &&& b[i].is_container()
                    &&& node_key(b[i]) == node_key(a[i])
                    &&& a[i].children().is_prefix_of(b[i].children())
                }
                &&& !a[i].is_container() ==> b[i] == a[i]
            } by {
                let _ = b[i];
            }
        }
        assert(has_packed(b, y, l, k)) by {
            assert(b[y as int].children()[old_kids.len() as int] == n as usize);
            assert(is_packed_with(b[(b[y as int].children()[old_kids.len() as int]) as int], l, k));
        }
    } else {
        lemma_extends_refl(a);
    }
}

/// Every symbol and label in the forest is one of `g`.
pub open spec fn labels_ok(g: GrammarView, a: Seq<NodeView>) -> bool {
    forall|i: int|
        0 <= i < a.len() ==> match #[trigger] a[i] {
            NodeView::Dummy => true,
            NodeView::Symbol(x, _, _, _) => valid_symbol(g, x),
            NodeView::Intermediate(l, _, _, _) => g.is_slot(l),
            NodeView::Packed(l, _, _) => g.is_slot(l),
        }
}

/// The forest that holds the dummy node alone is well-formed.
pub proof fn lemma_initial_forest(g: GrammarView, m: usize)
    ensures
        forest_wf(seq![NodeView::Dummy], m),
        labels_ok(g, seq![NodeView::Dummy]),
{
}

/// The nodes that `get_node_p` may join under label `l`: unless `l` is a
/// first-child marker, `z` is a container and `w` is the dummy node or a
/// container that ends where `z` starts.
pub open spec fn joinable(g: GrammarView, a: Seq<NodeView>, l: Label, w: usize, z: usize) -> bool {
    &&& w < a.len()
    &&& z < a.len()
    &&& !g.first(l) ==> {
        &&& a[z as int].is_container()
        &&& a[w as int] is Dummy || (a[w as int].is_container() && a[w as int].right()
            == a[z as int].left())
    }
}

/// `get_node_t` keeps the forest well-formed and only grows it; its result
/// is the symbol node of `x` at `i`.
pub proof fn lemma_node_t(a: Seq<NodeView>, x: Symbol, i: usize, m: usize)
    requires
        forest_wf(a, m),
        x == Symbol::Eps ==> i <= m,
        x != Symbol::Eps ==> i < m,
        node_t(a, x, i).0.len() <= usize::MAX,
    ensures
        forest_wf(node_t(a, x, i).0, m),
        extends(a, node_t(a, x, i).0),
        node_t(a, x, i).1 < node_t(a, x, i).0.len(),
        a.len() <= node_t(a, x, i).0.len() <= a.len() + 1,
        node_t(a, x, i).0[node_t(a, x, i).1 as int].is_container(),
        node_t(a, x, i).0[node_t(a, x, i).1 as int].left() == i,
        node_t(a, x, i).0[node_t(a, x, i).1 as int].right() == if x == Symbol::Eps {
            i as int
        } else {
            i + 1
        },
{
    let r = if x == Symbol::Eps {
        i
    } else {
        (i + 1) as usize
    };
    lemma_find_or_create(a, Key::Symbol(x, i, r), m);
}

/// `get_node_t` on a symbol of `g` keeps every label in the forest one of `g`.
pub proof fn lemma_node_t_labels(g: GrammarView, a: Seq<NodeView>, x: Symbol, i: usize)
    requires
        labels_ok(g, a),
        valid_symbol(g, x),
    ensures
        labels_ok(g, node_t(a, x, i).0),
{
    let b = node_t(a, x, i).0;
    assert forall|j: int| 0 <= j < b.len() implies match #[trigger] b[j] {
        NodeView::Dummy => true,
        NodeView::Symbol(x, _, _, _) => valid_symbol(g, x),
        NodeView::Intermediate(l, _, _, _) => g.is_slot(l),
        NodeView::Packed(l, _, _) => g.is_slot(l),
    } by {
        if j < a.len() {
            let _ = a[j];
        }
    }
}

/// `get_node_p` keeps the forest well-formed and only grows it. Past a
/// first-child marker nothing changes and the result is `z`; otherwise the
/// result is the container with the looked-up key, and it has a packed child
/// with label `l` and the left extent of `z` as its pivot.
pub proof fn lemma_node_p(g: GrammarView, a: Seq<NodeView>, l: Label, w: usize, z: usize, m: usize)
    requires
        forest_wf(a, m),
        joinable(g, a, l, w, z),
        node_p(g, a, l, w, z).0.len() <= usize::MAX,
    ensures
        forest_wf(node_p(g, a, l, w, z).0, m),
        extends(a, node_p(g, a, l, w, z).0),
        node_p(g, a, l, w, z).1 < node_p(g, a, l, w, z).0.len(),
        a.len() <= node_p(g, a, l, w, z).0.len() <= a.len() + 2,
        g.first(l) ==> node_p(g, a, l, w, z) == (a, z),
        !g.first(l) ==> {
            let (b, y) = node_p(g, a, l, w, z);
            &&& node_key(b[y as int]) == Some(container_key(g, a, l, w, z))
            &&& has_packed(b, y, l, a[z as int].left())
        },
{
    if g.first(l) {
        lemma_extends_refl(a);
    } else {
        let key = container_key(g, a, l, w, z);
        let k = a[z as int].left();
        let kids = packed_kids(a, w, z);
        let (a1, y) = find_or_create(a, key);
        assert(a1.len() <= add_packed(a1, y, l, k, kids).len());
        lemma_find_or_create(a, key, m);
        assert(a1[z as int].is_container() && node_key(a1[z as int]) == node_key(a[z as int]));
        if !(a[w as int] is Dummy) {
            assert(a1[w as int].is_container() && node_key(a1[w as int]) == node_key(a[w as int]));
        }
        assert(kids_ok(a1, y, k, kids));
        lemma_add_packed(a1, y, l, k, kids, m);
        let b = add_packed(a1, y, l, k, kids);
        lemma_extends_trans(a, a1, b);
        assert(node_key(b[y as int]) == node_key(a1[y as int]));
    }
}

/// `get_node_p` for a dot position of a well-formed grammar keeps every
/// label in the forest one of the grammar.
pub proof fn lemma_node_p_labels(g: GrammarView, a: Seq<NodeView>, l: Label, w: usize, z: usize)
    requires
        labels_ok(g, a),
        g.wf(),
        g.is_slot(l),
    ensures
        labels_ok(g, node_p(g, a, l, w, z).0),
{
    if !g.first(l) {
        let key = container_key(g, a, l, w, z);
        let k = a[z as int].left();
        let kids = packed_kids(a, w, z);
        let (a1, y) = find_or_create(a, key);
        let b = add_packed(a1, y, l, k, kids);
        assert(key.known(g)) by {
            if let Label::Slot(p, d) = l {
                assert(g.productions[p as int].wf(g.nonterminals));
            }
        }
        assert(labels_ok(g, a1)) by {
            assert forall|j: int| 0 <= j < a1.len() implies match #[trigger] a1[j] {
                NodeView::Dummy => true,
                NodeView::Symbol(x, _, _, _) => valid_symbol(g, x),
                NodeView::Intermediate(l, _, _, _) => g.is_slot(l),
                NodeView::Packed(l, _, _) => g.is_slot(l),
            } by {
                if j < a.len() {
                    let _ = a[j];
                }
            }
        }
        assert forall|j: int| 0 <= j < b.len() implies match #[trigger] b[j] {
            NodeView::Dummy => true,
            NodeView::Symbol(x, _, _, _) => valid_symbol(g, x),
            NodeView::Intermediate(l, _, _, _) => g.is_slot(l),
            NodeView::Packed(l, _, _) => g.is_slot(l),
        } by {
            if j < a1.len() {
                let _ = a1[j];
            }
        }
    }
}

/// No two symbol nodes of a well-formed forest agree in symbol and span,
/// and no two intermediate nodes agree in label and span.
pub proof fn lemma_containers_unique(a: Seq<NodeView>, m: usize, i: int, j: int)
    requires
        forest_wf(a, m),
        0 <= i < a.len(),
        0 <= j < a.len(),
        i != j,
        a[i].is_container(),
        a[j].is_container(),
    ensures
        node_key(a[i]) != node_key(a[j]),
        a[i] matches NodeView::Symbol(x, l, r, _) ==> (a[j] matches NodeView::Symbol(
            x2,
            l2,
            r2,
            _,
        ) ==> (x, l, r) != (x2, l2, r2)),
        a[i] matches NodeView::Intermediate(x, l, r, _) ==> (a[j] matches NodeView::Intermediate(
            x2,
            l2,
            r2,
            _,
        ) ==> (x, l, r) != (x2, l2, r2)),
{
    if i < j {
        assert(node_key(a[i]) != node_key(a[j]));
    } else {
        assert(node_key(a[j]) != node_key(a[i]));
    }
}

/// No two packed children of one container of a well-formed forest agree
/// in label and pivot.
pub proof fn lemma_packed_unique(a: Seq<NodeView>, m: usize, y: int, j1: int, j2: int)
    requires
        forest_wf(a, m),
        0 <= y < a.len(),
        a[y].is_container(),
        0 <= j1 < a[y].children().len(),
        0 <= j2 < a[y].children().len(),
        j1 != j2,
    ensures
        a[a[y].children()[j1] as int] is Packed,
        a[a[y].children()[j2] as int] is Packed,
        a[a[y].children()[j1] as int] matches NodeView::Packed(l, k, _) ==> !is_packed_with(
            a[a[y].children()[j2] as int],
            l,
            k,
        ),
{
    let c1 = a[y].children()[j1];
    let c2 = a[y].children()[j2];
    assert(packed_ok(a, y, c1));
    assert(packed_ok(a, y, c2));
    if j1 < j2 {
        let _ = a[y].children()[j1];
        let _ = a[y].children()[j2];
    } else {
        let _ = a[y].children()[j2];
        let _ = a[y].children()[j1];
    }
}

/// The extents of a well-formed forest cohere: under every container, a
/// packed child has one or two children; its last child starts at the
/// pivot and ends where the container ends; a first of two children starts
/// where the container starts and ends at the pivot; and with one child
/// alone the pivot is where the container starts.
pub proof fn lemma_extents_cohere(a: Seq<NodeView>, m: usize, y: int, j: int)
    requires
        forest_wf(a, m),
        0 <= y < a.len(),
        a[y].is_container(),
        0 <= j < a[y].children().len(),
    ensures
        a[a[y].children()[j] as int] matches NodeView::Packed(_, k, kids) && {
            &&& 1 <= kids.len() <= 2
            &&& a[kids.last() as int].is_container()
            &&& a[kids.last() as int].left() == k
            &&& a[kids.last() as int].right() == a[y].right()
            &&& kids.len() == 2 ==> {
                &&& a[kids[0] as int].is_container()
                &&& a[kids[0] as int].left() == a[y].left()
                &&& a[kids[0] as int].right() == k
            }
            &&& kids.len() == 1 ==> k == a[y].left()
        },
        a[y].left() <= a[y].right() <= m,
{
    assert(packed_ok(a, y, a[y].children()[j]));
}

/// Node `y` lists a packed node of the forest with label `l` and pivot `k`
/// among its children.
pub open spec fn holds_packed(a: Seq<NodeView>, y: usize, l: Label, k: usize) -> bool {
    exists|j: int|
        0 <= j < a[y as int].children().len() && (#[trigger] a[y as int].children()[j]) < a.len()
            && is_packed_with(a[a[y as int].children()[j] as int], l, k)
}

/// In a well-formed forest every packed child is a node of the forest.
pub proof fn lemma_holds_packed(a: Seq<NodeView>, m: usize, y: usize, l: Label, k: usize)
    requires
        forest_wf(a, m),
        y < a.len(),
        a[y as int].is_container(),
        has_packed(a, y, l, k),
    ensures
        holds_packed(a, y, l, k),
{
    let j = choose|j: int|
        0 <= j < a[y as int].children().len() && is_packed_with(
            a[(#[trigger] a[y as int].children()[j]) as int],
            l,
            k,
        );
    assert(packed_ok(a, y as int, a[y as int].children()[j]));
}

/// A packed child, once under its container, stays there when the forest
/// grows.
pub proof fn lemma_holds_packed_grows(
    a: Seq<NodeView>,
    b: Seq<NodeView>,
    y: usize,
    l: Label,
    k: usize,
)
    requires
        extends(a, b),
        y < a.len(),
        a[y as int].is_container(),
        holds_packed(a, y, l, k),
    ensures
        holds_packed(b, y, l, k),
        has_packed(b, y, l, k),
{
    let j = choose|j: int|
        0 <= j < a[y as int].children().len() && (#[trigger] a[y as int].children()[j]) < a.len()
            && is_packed_with(a[a[y as int].children()[j] as int], l, k);
    let c = a[y as int].children()[j];
    let _ = a[y as int];
    let _ = a[c as int];
    assert(b[y as int].children()[j] == c);
    assert(b[c as int] == a[c as int]);
}

/// The forest: the arena of nodes, and the largest input position that a
/// node may name.
#[derive(Debug)]
pub struct Sppf {
    /// The nodes; index 0 is the dummy node.
    pub nodes: Vec<SPPFNode>,
    /// The largest input position.
    pub limit: usize,
}

impl View for Sppf {
    type V = Seq<NodeView>;

    open spec fn view(&self) -> Seq<NodeView> {
        Seq::new(self.nodes@.len(), |i: int| self.nodes@[i]@)
    }
}

impl Sppf {
    /// The forest invariant over positions up to the limit.
    pub open spec fn wf(&self) -> bool {
        forest_wf(self@, self.limit)
    }

    /// A forest that holds the dummy node alone.
    pub fn new(limit: usize) -> (s: Sppf)
        ensures
            s@ == seq![NodeView::Dummy],
            s.limit == limit,
            s.wf(),
    {
        let mut nodes: Vec<SPPFNode> = Vec::new();
        nodes.push(SPPFNode::Dummy);
        let s = Sppf { nodes, limit };
        assert(s@ =~= seq![NodeView::Dummy]);
        s
    }

    /// The number of nodes.
    pub fn len(&self) -> (n: usize)
        ensures
            n == self@.len(),
    {
        self.nodes.len()
    }

    /// The index of the symbol node `(s, i, j)`, if the forest holds it.
    pub fn find_symbol(&self, s: Symbol, i: usize, j: usize) -> (found: Option<usize>)
        ensures
            found == find_node(self@, Key::Symbol(s, i, j)),
    {
        let ghost key = Key::Symbol(s, i, j);
        let mut index: usize = 0;
        while index < self.nodes.len()
            invariant
                index <= self.nodes.len(),
                key == Key::Symbol(s, i, j),
                forall|t: int| 0 <= t < index ==> node_key(#[trigger] self@[t]) != Some(key),
            decreases self.nodes.len() - index,
        {
            assert(self@[index as int] == self.nodes@[index as int]@);
            match &self.nodes[index] {
                SPPFNode::Symbol(node_s, node_i, node_j, _) => {
                    if *node_s == s && *node_i == i && *node_j == j {
                        proof {
                            lemma_find_node_some(self@, key, index as int);
                        }
                        return Some(index);
                    }
                },
                _ => {},
            }
            index = index + 1;
        }
        proof {
            lemma_find_node_none(self@, key);
        }
        None
    }

    /// The index of the symbol node `(s, i, j)`, appended without children
    /// if there was none.
    pub fn find_or_create_sppf_symbol(&mut self, s: Symbol, i: usize, j: usize) -> (index: usize)
        ensures
            (final(self)@, index) == find_or_create(old(self)@, Key::Symbol(s, i, j)),
            final(self).limit == old(self).limit,
    {
        match self.find_symbol(s, i, j) {
            Some(index) => index,
            None => {
                self.nodes.push(SPPFNode::Symbol(s, i, j, Vec::new()));
                assert(self@ =~= old(self)@.push(fresh_node(Key::Symbol(s, i, j))));
                self.nodes.len() - 1
            },
        }
    }

    /// The index of the intermediate node `(l, i, j)`, appended without
    /// children if there was none.
    pub fn find_or_create_sppf_intermediate(&mut self, l: Label, i: usize, j: usize) -> (index:
        usize)
        ensures
            (final(self)@, index) == find_or_create(old(self)@, Key::Intermediate(l, i, j)),
            final(self).limit == old(self).limit,
    {
        let ghost a = self@;
        let ghost key = Key::Intermediate(l, i, j);
        let mut index: usize = 0;
        while index < self.nodes.len()
            invariant
                index <= self.nodes.len(),
                self@ == a,
                key == Key::Intermediate(l, i, j),
                forall|t: int| 0 <= t < index ==> node_key(#[trigger] a[t]) != Some(key),
            decreases self.nodes.len() - index,
        {
            assert(a[index as int] == self.nodes@[index as int]@);
            match &self.nodes[index] {
                SPPFNode::Intermediate(node_l, node_i, node_j, _) => {
                    if *node_l == l && *node_i == i && *node_j == j {
                        proof {
                            lemma_find_node_some(a, key, index as int);
                        }
                        return index;
                    }
                },
                _ => {},
            }
            index = index + 1;
        }
        proof {
            lemma_find_node_none(a, key);
        }
        self.nodes.push(SPPFNode::Intermediate(l, i, j, Vec::new()));
        assert(self@ =~= a.push(fresh_node(key)));
        self.nodes.len() - 1
    }

    /// The symbol node of terminal `x` over `i..i+1`, or of epsilon over
    /// `i..i`, created if it was not there.
    pub fn get_node_t(&mut self, x: Symbol, i: usize) -> (index: usize)
        requires
            old(self).wf(),
            x == Symbol::Eps ==> i <= old(self).limit,
            x != Symbol::Eps ==> i < old(self).limit,
        ensures
            (final(self)@, index) == node_t(old(self)@, x, i),
            final(self).limit == old(self).limit,
            final(self).wf(),
            extends(old(self)@, final(self)@),
            index < final(self)@.len(),
    {
        let h = if x.is_eps() {
            i
        } else {
            i + 1
        };
        let index = self.find_or_create_sppf_symbol(x, i, h);
        proof {
            assert(self@.len() == self.nodes.len());
            lemma_node_t(old(self)@, x, i, self.limit);
        }
        index
    }

    /// Whether container `y` has a packed child with label `l` and pivot `k`.
    pub fn has_packed(&self, y: usize, l: Label, k: usize) -> (found: bool)
        requires
            self.wf(),
            y < self@.len(),
            self@[y as int].is_container(),
        ensures
            found == has_packed(self@, y, l, k),
    {
        match self.nodes[y].children() {
            None => false,
            Some(children) => {
                let mut j: usize = 0;
                while j < children.len()
                    invariant
                        j <= children.len(),
                        self.wf(),
                        y < self@.len(),
                        self@[y as int].is_container(),
                        children@ == self@[y as int].children(),
                        forall|t: int|
                            0 <= t < j ==> !is_packed_with(
                                self@[(#[trigger] children@[t]) as int],
                                l,
                                k,
                            ),
                    decreases children.len() - j,
                {
                    let c = children[j];
                    assert(packed_ok(self@, y as int, self@[y as int].children()[j as int]));
                    assert(self@[c as int] == self.nodes@[c as int]@);
                    match &self.nodes[c] {
                        SPPFNode::Packed(node_l, node_k, _) => {
                            if *node_l == l && *node_k == k {
                                return true;
                            }
                        },
                        _ => {},
                    }
                    j = j + 1;
                }
                false
            },
        }
    }

    /// Gives container `y` a packed child `(l, k)` over `w` and `z`, or over
    /// `z` alone when `w` is the dummy node, unless `y` has one with that
    /// label and pivot.
    fn pack(&mut self, y: usize, l: Label, k: usize, w: usize, z: usize)
        requires
            old(self).wf(),
            y < old(self)@.len(),
            w < old(self)@.len(),
            old(self)@[y as int].is_container(),
            kids_ok(old(self)@, y, k, packed_kids(old(self)@, w, z)),
        ensures
            final(self)@ == add_packed(old(self)@, y, l, k, packed_kids(old(self)@, w, z)),
            final(self).limit == old(self).limit,
    {
        let ghost a = self@;
        if !self.has_packed(y, l, k) {
            let len = self.nodes.len();
            assert(a[w as int] == self.nodes@[w as int]@);
            assert(a[y as int] == self.nodes@[y as int]@);
            let alone = match &self.nodes[w] {
                SPPFNode::Dummy => true,
                _ => false,
            };
            match self.nodes[y].children_mut() {
                Some(children) => {
                    children.push(len);
                },
                None => {},
            }
            let mut kids: Vec<usize> = Vec::new();
            if !alone {
                kids.push(w);
            }
            kids.push(z);
            assert(kids@ =~= packed_kids(a, w, z));
            self.nodes.push(SPPFNode::Packed(l, k, kids));
            assert(self@ =~= add_packed(a, y, l, k, packed_kids(a, w, z)));
        }
    }

    /// The node that stands for the span of `w` followed by `z` once the
    /// dot has reached `l`. Past a first-child marker that is `z` itself.
    /// Otherwise it is the symbol node of the left-hand side when `l` ends a
    /// production, else the intermediate node of `l`, spanning from the
    /// start of `w` (of `z` when `w` is the dummy node) to the end of `z`;
    /// it is created if missing and gets a packed child for this split
    /// unless it has one with the same label and pivot.
    pub fn get_node_p(&mut self, g: &Grammar, l: Label, w: usize, z: usize) -> (index: usize)
        requires
            old(self).wf(),
            joinable(g@, old(self)@, l, w, z),
        ensures
            (final(self)@, index) == node_p(g@, old(self)@, l, w, z),
            final(self).limit == old(self).limit,
            final(self).wf(),
            extends(old(self)@, final(self)@),
            index < final(self)@.len(),
    {
        let ghost a = self@;
        if g.first(l) {
            proof {
                lemma_extends_refl(a);
            }
            z
        } else {
            assert(a[z as int] == self.nodes@[z as int]@);
            assert(a[w as int] == self.nodes@[w as int]@);
            let k = self.nodes[z].left_extent();
            let i = self.nodes[z].right_extent();
            let j = match &self.nodes[w] {
                SPPFNode::Dummy => k,
                node_w => node_w.left_extent(),
            };
            let y = match g.end(l) {
                Some(t) => self.find_or_create_sppf_symbol(t, j, i),
                None => self.find_or_create_sppf_intermediate(l, j, i),
            };
            proof {
                let key = container_key(g@, a, l, w, z);
                assert(self@.len() == self.nodes.len());
                lemma_find_or_create(a, key, self.limit);
                let a1 = self@;
                assert(a1[z as int].is_container() && node_key(a1[z as int]) == node_key(
                    a[z as int],
                ));
                if !(a[w as int] is Dummy) {
                    assert(a1[w as int].is_container() && node_key(a1[w as int]) == node_key(
                        a[w as int],
                    ));
                }
                assert(packed_kids(a1, w, z) == packed_kids(a, w, z));
                assert(kids_ok(a1, y, k, packed_kids(a, w, z)));
            }
            self.pack(y, l, k, w, z);
            proof {
                assert(self@.len() == self.nodes.len());
                lemma_node_p(g@, a, l, w, z, self.limit);
            }
            y
        }
    }
}

/// `get_node_t` never shrinks the forest.
pub proof fn lemma_node_t_len(a: Seq<NodeView>, x: Symbol, i: usize)
    ensures
        a.len() <= node_t(a, x, i).0.len(),
{
}

/// `get_node_p` never shrinks the forest.
pub proof fn lemma_node_p_len(g: GrammarView, a: Seq<NodeView>, l: Label, w: usize, z: usize)
    ensures
        a.len() <= node_p(g, a, l, w, z).0.len(),
{
}

} // verus!
