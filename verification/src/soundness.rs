//! What holds of every state that the parser reaches.

use crate::grammar::GrammarView;
use crate::grammar::Label;
use crate::grammar::Symbol;
use crate::model::StateView;
use crate::sppf::Key;
use crate::sppf::NodeView;
use crate::sppf::container_key;
use crate::sppf::extends;
use crate::sppf::find_node;
use crate::sppf::forest_wf;
use crate::sppf::is_first_match;
use crate::sppf::labels_ok;
use crate::sppf::lemma_find_node_found;
use crate::sppf::lemma_find_node_some;
use crate::sppf::node_key;
use vstd::prelude::*;

verus! {

/// Node `w` is a container that spans `left..right`.
pub open spec fn spans(a: Seq<NodeView>, w: usize, left: usize, right: usize) -> bool {
    &&& w < a.len()
    &&& a[w as int].is_container()
    &&& a[w as int].left() == left
    &&& a[w as int].right() == right
}

/// Node `w` stands for the first `d` symbols of a production over
/// `left..right`: the dummy node over an empty span for none, else a
/// container.
pub open spec fn prefix_ok(a: Seq<NodeView>, d: int, w: usize, left: usize, right: usize) -> bool {
    if d == 0 {
        w == 0 && left == right
    } else {
        spans(a, w, left, right)
    }
}

/// Descriptor `(label, frame, position, forest node)` is sound: the label
/// is a dot position, the frame exists, and the forest node stands for the
/// symbols before the dot, from the position of the frame to the
/// descriptor's own; at the end of a production that is not empty it is
/// the symbol node of the left-hand side.
pub open spec fn desc_ok(
    g: GrammarView,
    a: Seq<NodeView>,
    nodes: Seq<(Label, usize)>,
    m: usize,
    d: (Label, usize, usize, usize),
) -> bool {
    &&& g.is_slot(d.0)
    &&& d.1 < nodes.len()
    &&& d.2 <= m
    &&& match d.0 {
        Label::Slot(p, dot) => {
            &&& prefix_ok(a, dot as int, d.3, nodes[d.1 as int].1, d.2)
            &&& dot >= 1 && dot == g.rhs(p as int).len() ==> node_key(a[d.3 as int]) == Some(
                Key::Symbol(
                    Symbol::Nonterminal(g.productions[p as int].lhs),
                    nodes[d.1 as int].1,
                    d.2,
                ),
            )
        },
        _ => false,
    }
}

/// The stack frames are sound: frame 0 is the initial one, every other
/// frame has a return label and a position within the input, and no frame
/// occurs twice.
pub open spec fn frames_ok(g: GrammarView, nodes: Seq<(Label, usize)>, m: usize) -> bool {
    &&& nodes.len() >= 1
    &&& nodes[0] == (Label::L0, 0usize)
    &&& forall|v: int|
        0 < v < nodes.len() ==> g.is_return((#[trigger] nodes[v]).0) && nodes[v].1 <= m
    &&& forall|i: int, j: int|
        0 <= i < j < nodes.len() ==> #[trigger] nodes[i] != #[trigger] nodes[j]
}

/// Edge `(frame, caller, forest node)` is sound: it leaves a return frame,
/// and its forest node stands for the symbols before the call, from the
/// position of the caller to the position of the frame.
pub open spec fn edge_ok(
    a: Seq<NodeView>,
    nodes: Seq<(Label, usize)>,
    e: (usize, usize, usize),
) -> bool {
    &&& 0 < e.0 < nodes.len()
    &&& e.1 < nodes.len()
    &&& match nodes[e.0 as int].0 {
        Label::Slot(_, d) => d >= 1 && prefix_ok(
            a,
            d - 1,
            e.2,
            nodes[e.1 as int].1,
            nodes[e.0 as int].1,
        ),
        _ => false,
    }
}

/// Every edge is sound.
pub open spec fn edges_ok(
    a: Seq<NodeView>,
    nodes: Seq<(Label, usize)>,
    edges: Seq<(usize, usize, usize)>,
) -> bool {
    forall|k: int| 0 <= k < edges.len() ==> edge_ok(a, nodes, #[trigger] edges[k])
}

/// No two edges lead from the same frame to the same caller.
pub open spec fn edges_distinct(edges: Seq<(usize, usize, usize)>) -> bool {
    forall|k1: int, k2: int|
        0 <= k1 < k2 < edges.len() ==> ((#[trigger] edges[k1]).0, edges[k1].1) != (
            (#[trigger] edges[k2]).0,
            edges[k2].1,
        )
}

/// Popped pair `(frame, forest node)` is sound: the frame is a return
/// frame and the node a container that starts at the frame's position.
pub open spec fn pair_ok(a: Seq<NodeView>, nodes: Seq<(Label, usize)>, pr: (usize, usize)) -> bool {
    &&& 0 < pr.0 < nodes.len()
    &&& pr.1 < a.len()
    &&& a[pr.1 as int].is_container()
    &&& a[pr.1 as int].left() == nodes[pr.0 as int].1
}

/// Every popped pair is sound, and none occurs twice.
pub open spec fn popped_ok(
    a: Seq<NodeView>,
    nodes: Seq<(Label, usize)>,
    popped: Seq<(usize, usize)>,
) -> bool {
    &&& forall|i: int| 0 <= i < popped.len() ==> pair_ok(a, nodes, #[trigger] popped[i])
    &&& forall|i: int, j: int|
        0 <= i < j < popped.len() ==> #[trigger] popped[i] != #[trigger] popped[j]
}

/// Every pending descriptor is sound.
pub open spec fn todo_ok(
    g: GrammarView,
    a: Seq<NodeView>,
    nodes: Seq<(Label, usize)>,
    m: usize,
    todo: Seq<(Label, usize, usize, usize)>,
) -> bool {
    forall|k: int| 0 <= k < todo.len() ==> desc_ok(g, a, nodes, m, #[trigger] todo[k])
}

/// There is one record per input position; every recorded descriptor is
/// sound, and none is recorded twice at one position.
pub open spec fn visited_ok(
    g: GrammarView,
    a: Seq<NodeView>,
    nodes: Seq<(Label, usize)>,
    m: usize,
    visited: Seq<Seq<(Label, usize, usize)>>,
) -> bool {
    &&& visited.len() == m + 1
    &&& forall|j: int, t: int|
        0 <= j < visited.len() && 0 <= t < visited[j].len() ==> desc_ok(
            g,
            a,
            nodes,
            m,
            ((#[trigger] visited[j][t]).0, visited[j][t].1, j as usize, visited[j][t].2),
        )
    &&& forall|j: int, t1: int, t2: int|
        0 <= j < visited.len() && 0 <= t1 < t2 < visited[j].len() ==> #[trigger] visited[j][t1]
            != #[trigger] visited[j][t2]
}

/// Descriptor `(l, u, i, w)` has been scheduled.
pub open spec fn recorded(
    visited: Seq<Seq<(Label, usize, usize)>>,
    l: Label,
    u: usize,
    i: usize,
    w: usize,
) -> bool {
    i < visited.len() && visited[i as int].contains((l, u, w))
}

/// The index that `get_node_p` returns for label `l`, left sibling `w` and
/// right child `z` once the joined node is in the forest.
pub open spec fn joined(g: GrammarView, a: Seq<NodeView>, l: Label, w: usize, z: usize) -> Option<
    usize,
> {
    if g.first(l) {
        Some(z)
    } else {
        find_node(a, container_key(g, a, l, w, z))
    }
}

/// The popped pair `pr` has been delivered along edge `e`, if the edge
/// leaves the frame of the pair: the joined node exists and, with the
/// label of the frame and the caller, is scheduled at the position where
/// the popped node ends; unless the label is a first-child marker, the
/// joined node has a packed child with the label whose pivot is the start
/// of the popped node.
pub open spec fn closed(
    g: GrammarView,
    a: Seq<NodeView>,
    nodes: Seq<(Label, usize)>,
    visited: Seq<Seq<(Label, usize, usize)>>,
    pr: (usize, usize),
    e: (usize, usize, usize),
) -> bool {
    pr.0 == e.0 ==> {
        let l = nodes[e.0 as int].0;
        let y = joined(g, a, l, e.2, pr.1);
        &&& y is Some
        &&& recorded(visited, l, e.1, a[pr.1 as int].right(), y.unwrap())
        &&& !g.first(l) ==> crate::sppf::holds_packed(a, y.unwrap(), l, a[pr.1 as int].left())
    }
}

/// Every popped pair has been delivered along every edge of its frame.
pub open spec fn pop_closed(
    g: GrammarView,
    a: Seq<NodeView>,
    nodes: Seq<(Label, usize)>,
    edges: Seq<(usize, usize, usize)>,
    visited: Seq<Seq<(Label, usize, usize)>>,
    popped: Seq<(usize, usize)>,
) -> bool {
    forall|i: int, k: int|
        0 <= i < popped.len() && 0 <= k < edges.len() ==> closed(
            g,
            a,
            nodes,
            visited,
            #[trigger] popped[i],
            #[trigger] edges[k],
        )
}

/// The registers are sound for the current label: at a dot position they
/// form a sound descriptor; at the entry of a nonterminal the current frame
/// stands at the current position; on return the current forest node spans
/// from the frame's position to the current one.
pub open spec fn registers_ok(g: GrammarView, s: StateView, m: usize) -> bool {
    match s.label {
        Label::L0 => true,
        Label::Ret => {
            &&& s.node < s.nodes.len()
            &&& s.position <= m
            &&& spans(s.sppf, s.sppf_node, s.nodes[s.node as int].1, s.position)
        },
        Label::Entry(x) => {
            &&& x < g.nonterminals
            &&& s.node < s.nodes.len()
            &&& s.position <= m
            &&& s.nodes[s.node as int].1 == s.position
        },
        Label::Slot(_, _) => desc_ok(
            g,
            s.sppf,
            s.nodes,
            m,
            (s.label, s.node, s.position, s.sppf_node),
        ),
    }
}

/// The part of the invariant that holds between any two operations: the
/// forest and every collection are sound.
pub open spec fn sound(g: GrammarView, s: StateView, m: usize) -> bool {
    &&& forest_wf(s.sppf, m)
    &&& labels_ok(g, s.sppf)
    &&& frames_ok(g, s.nodes, m)
    &&& edges_ok(s.sppf, s.nodes, s.edges)
    &&& edges_distinct(s.edges)
    &&& visited_ok(g, s.sppf, s.nodes, m, s.visited)
    &&& todo_ok(g, s.sppf, s.nodes, m, s.todo)
    &&& popped_ok(s.sppf, s.nodes, s.popped)
}

/// The invariant of the dispatcher for grammar `g` over positions `0..=m`.
pub open spec fn inv(g: GrammarView, s: StateView, m: usize) -> bool {
    &&& sound(g, s, m)
    &&& pop_closed(g, s.sppf, s.nodes, s.edges, s.visited, s.popped)
    &&& registers_ok(g, s, m)
}

/// One state has grown into another: the forest has only grown, and
/// frames, edges, popped pairs and the records of each position have only
/// been appended to.
pub open spec fn grows(s: StateView, t: StateView) -> bool {
    &&& extends(s.sppf, t.sppf)
    &&& s.nodes.is_prefix_of(t.nodes)
    &&& s.edges.is_prefix_of(t.edges)
    &&& s.popped.is_prefix_of(t.popped)
    &&& s.visited.len() == t.visited.len()
    &&& forall|j: int|
        0 <= j < s.visited.len() ==> (#[trigger] s.visited[j]).is_prefix_of(t.visited[j])
}

/// A span survives the growth of the forest.
pub proof fn lemma_spans_grows(
    a: Seq<NodeView>,
    b: Seq<NodeView>,
    w: usize,
    left: usize,
    right: usize,
)
    requires
        spans(a, w, left, right),
        extends(a, b),
    ensures
        spans(b, w, left, right),
{
    let _ = a[w as int];
}

/// A prefix node survives the growth of the forest.
pub proof fn lemma_prefix_grows(
    a: Seq<NodeView>,
    b: Seq<NodeView>,
    d: int,
    w: usize,
    left: usize,
    right: usize,
)
    requires
        prefix_ok(a, d, w, left, right),
        extends(a, b),
    ensures
        prefix_ok(b, d, w, left, right),
{
    if d != 0 {
        lemma_spans_grows(a, b, w, left, right);
    }
}

/// A sound descriptor stays sound when forest and stack grow.
pub proof fn lemma_desc_grows(
    g: GrammarView,
    a: Seq<NodeView>,
    nodes: Seq<(Label, usize)>,
    b: Seq<NodeView>,
    nodes2: Seq<(Label, usize)>,
    m: usize,
    d: (Label, usize, usize, usize),
)
    requires
        desc_ok(g, a, nodes, m, d),
        extends(a, b),
        nodes.is_prefix_of(nodes2),
    ensures
        desc_ok(g, b, nodes2, m, d),
{
    assert(nodes2[d.1 as int] == nodes[d.1 as int]);
    if let Label::Slot(_, dot) = d.0 {
        lemma_prefix_grows(a, b, dot as int, d.3, nodes[d.1 as int].1, d.2);
    }
}

/// A sound edge stays sound when forest and stack grow.
pub proof fn lemma_edge_grows(
    a: Seq<NodeView>,
    nodes: Seq<(Label, usize)>,
    b: Seq<NodeView>,
    nodes2: Seq<(Label, usize)>,
    e: (usize, usize, usize),
)
    requires
        edge_ok(a, nodes, e),
        extends(a, b),
        nodes.is_prefix_of(nodes2),
    ensures
        edge_ok(b, nodes2, e),
{
    assert(nodes2[e.0 as int] == nodes[e.0 as int]);
    assert(nodes2[e.1 as int] == nodes[e.1 as int]);
    if let Label::Slot(_, d) = nodes[e.0 as int].0 {
        lemma_prefix_grows(a, b, d - 1, e.2, nodes[e.1 as int].1, nodes[e.0 as int].1);
    }
}

/// A sound popped pair stays sound when forest and stack grow.
pub proof fn lemma_pair_grows(
    a: Seq<NodeView>,
    nodes: Seq<(Label, usize)>,
    b: Seq<NodeView>,
    nodes2: Seq<(Label, usize)>,
    pr: (usize, usize),
)
    requires
        pair_ok(a, nodes, pr),
        extends(a, b),
        nodes.is_prefix_of(nodes2),
    ensures
        pair_ok(b, nodes2, pr),
{
    assert(nodes2[pr.0 as int] == nodes[pr.0 as int]);
    let _ = a[pr.1 as int];
}

/// In a well-formed forest the node with a key is what `find_node` finds.
pub proof fn lemma_find_unique(a: Seq<NodeView>, m: usize, key: crate::sppf::Key, y: usize)
    requires
        forest_wf(a, m),
        y < a.len(),
        a.len() <= usize::MAX,
        node_key(a[y as int]) == Some(key),
    ensures
        find_node(a, key) == Some(y),
{
    assert forall|j: int| 0 <= j < y implies node_key(#[trigger] a[j]) != Some(key) by {
        if a[j].is_container() {
            assert(a[y as int].is_container());
        }
    }
    assert(is_first_match(a, key, y as int));
    lemma_find_node_some(a, key, y as int);
}

/// The key that `get_node_p` looks up does not change when the forest grows.
pub proof fn lemma_key_grows(
    g: GrammarView,
    a: Seq<NodeView>,
    b: Seq<NodeView>,
    l: Label,
    w: usize,
    z: usize,
)
    requires
        extends(a, b),
        w < a.len(),
        z < a.len(),
        a[z as int].is_container(),
    ensures
        container_key(g, b, l, w, z) == container_key(g, a, l, w, z),
{
    let _ = a[w as int];
    let _ = a[z as int];
}

/// A joined node, once in the forest, stays what `get_node_p` returns.
pub proof fn lemma_joined_grows(
    g: GrammarView,
    a: Seq<NodeView>,
    b: Seq<NodeView>,
    l: Label,
    w: usize,
    z: usize,
)
    requires
        extends(a, b),
        w < a.len(),
        z < a.len(),
        a[z as int].is_container(),
        b.len() <= usize::MAX,
        joined(g, a, l, w, z) is Some,
    ensures
        joined(g, b, l, w, z) == joined(g, a, l, w, z),
{
    if !g.first(l) {
        let key = container_key(g, a, l, w, z);
        lemma_key_grows(g, a, b, l, w, z);
        lemma_find_node_found(a, key);
        let y = choose|c: int| is_first_match(a, key, c);
        assert(is_first_match(a, key, y));
        assert forall|j: int| 0 <= j < y implies node_key(#[trigger] b[j]) != Some(key) by {
            let _ = a[j];
        }
        let _ = a[y];
        assert(is_first_match(b, key, y));
        lemma_find_node_some(b, key, y);
    }
}

/// A delivery, once made, stays made when the state grows.
pub proof fn lemma_closed_grows(
    g: GrammarView,
    s: StateView,
    t: StateView,
    pr: (usize, usize),
    e: (usize, usize, usize),
)
    requires
        closed(g, s.sppf, s.nodes, s.visited, pr, e),
        pair_ok(s.sppf, s.nodes, pr),
        edge_ok(s.sppf, s.nodes, e),
        s.sppf.len() >= 1,
        grows(s, t),
        t.sppf.len() <= usize::MAX,
    ensures
        closed(g, t.sppf, t.nodes, t.visited, pr, e),
{
    if pr.0 == e.0 {
        let l = s.nodes[e.0 as int].0;
        assert(t.nodes[e.0 as int] == s.nodes[e.0 as int]);
        assert(e.2 < s.sppf.len());
        lemma_joined_grows(g, s.sppf, t.sppf, l, e.2, pr.1);
        let y = joined(g, s.sppf, l, e.2, pr.1).unwrap();
        let i = s.sppf[pr.1 as int].right();
        let _ = s.sppf[pr.1 as int];
        assert(t.sppf[pr.1 as int].right() == i);
        let rec = s.visited[i as int];
        let k = choose|k: int| 0 <= k < rec.len() && rec[k] == (l, e.1, y);
        assert(t.visited[i as int][k] == (l, e.1, y));
        if !g.first(l) {
            lemma_find_node_found(s.sppf, container_key(g, s.sppf, l, e.2, pr.1));
            crate::sppf::lemma_holds_packed_grows(
                s.sppf,
                t.sppf,
                y,
                l,
                s.sppf[pr.1 as int].left(),
            );
        }
    }
}

/// Growth is reflexive.
pub proof fn lemma_grows_refl(s: StateView)
    ensures
        grows(s, s),
{
    crate::sppf::lemma_extends_refl(s.sppf);
}

/// Growth is transitive.
pub proof fn lemma_grows_trans(s: StateView, t: StateView, r: StateView)
    requires
        grows(s, t),
        grows(t, r),
    ensures
        grows(s, r),
{
    crate::sppf::lemma_extends_trans(s.sppf, t.sppf, r.sppf);
    assert forall|j: int| 0 <= j < s.visited.len() implies (#[trigger] s.visited[j]).is_prefix_of(
        r.visited[j],
    ) by {
        let x = s.visited[j];
        let y = t.visited[j];
        let z = r.visited[j];
        assert(x.is_prefix_of(y));
        assert(y.is_prefix_of(z));
        assert forall|k: int| 0 <= k < x.len() implies x[k] == z[k] by {
            assert(x[k] == y[k]);
            assert(y[k] == z[k]);
        }
    }
    assert forall|k: int| 0 <= k < s.nodes.len() implies s.nodes[k] == r.nodes[k] by {
        assert(s.nodes[k] == t.nodes[k]);
    }
    assert forall|k: int| 0 <= k < s.edges.len() implies s.edges[k] == r.edges[k] by {
        assert(s.edges[k] == t.edges[k]);
    }
    assert forall|k: int| 0 <= k < s.popped.len() implies s.popped[k] == r.popped[k] by {
        assert(s.popped[k] == t.popped[k]);
    }
}

/// The collections of a sound state stay sound when forest and stack grow
/// around them.
pub proof fn lemma_sound_grows(g: GrammarView, s: StateView, t: StateView, m: usize)
    requires
        sound(g, s, m),
        extends(s.sppf, t.sppf),
        s.nodes.is_prefix_of(t.nodes),
        forest_wf(t.sppf, m),
        labels_ok(g, t.sppf),
        frames_ok(g, t.nodes, m),
        t.edges == s.edges,
        t.visited == s.visited,
        t.todo == s.todo,
        t.popped == s.popped,
    ensures
        sound(g, t, m),
        grows(s, t),
{
    assert forall|k: int| 0 <= k < t.edges.len() implies edge_ok(
        t.sppf,
        t.nodes,
        #[trigger] t.edges[k],
    ) by {
        lemma_edge_grows(s.sppf, s.nodes, t.sppf, t.nodes, s.edges[k]);
    }
    assert forall|j: int, k: int|
        0 <= j < t.visited.len() && 0 <= k < t.visited[j].len() implies desc_ok(
        g,
        t.sppf,
        t.nodes,
        m,
        ((#[trigger] t.visited[j][k]).0, t.visited[j][k].1, j as usize, t.visited[j][k].2),
    ) by {
        let e = s.visited[j][k];
        lemma_desc_grows(g, s.sppf, s.nodes, t.sppf, t.nodes, m, (e.0, e.1, j as usize, e.2));
    }
    assert forall|k: int| 0 <= k < t.todo.len() implies desc_ok(
        g,
        t.sppf,
        t.nodes,
        m,
        #[trigger] t.todo[k],
    ) by {
        lemma_desc_grows(g, s.sppf, s.nodes, t.sppf, t.nodes, m, s.todo[k]);
    }
    assert forall|i: int| 0 <= i < t.popped.len() implies pair_ok(
        t.sppf,
        t.nodes,
        #[trigger] t.popped[i],
    ) by {
        lemma_pair_grows(s.sppf, s.nodes, t.sppf, t.nodes, s.popped[i]);
    }
}

/// Deliveries made for the given pairs along the given edges stay made
/// when the state grows.
pub proof fn lemma_pop_closed_grows(
    g: GrammarView,
    s: StateView,
    t: StateView,
    edges: Seq<(usize, usize, usize)>,
    popped: Seq<(usize, usize)>,
)
    requires
        pop_closed(g, s.sppf, s.nodes, edges, s.visited, popped),
        edges_ok(s.sppf, s.nodes, edges),
        forall|i: int| 0 <= i < popped.len() ==> pair_ok(s.sppf, s.nodes, #[trigger] popped[i]),
        s.sppf.len() >= 1,
        grows(s, t),
        t.sppf.len() <= usize::MAX,
    ensures
        pop_closed(g, t.sppf, t.nodes, edges, t.visited, popped),
{
    assert forall|i: int, k: int| 0 <= i < popped.len() && 0 <= k < edges.len() implies closed(
        g,
        t.sppf,
        t.nodes,
        t.visited,
        #[trigger] popped[i],
        #[trigger] edges[k],
    ) by {
        lemma_closed_grows(g, s, t, popped[i], edges[k]);
    }
}

/// Sound registers stay sound when the state grows around them.
pub proof fn lemma_registers_grow(g: GrammarView, s: StateView, t: StateView, m: usize)
    requires
        registers_ok(g, s, m),
        grows(s, t),
        t.label == s.label,
        t.node == s.node,
        t.position == s.position,
        t.sppf_node == s.sppf_node,
    ensures
        registers_ok(g, t, m),
{
    match s.label {
        Label::L0 => {},
        Label::Ret => {
            assert(t.nodes[s.node as int] == s.nodes[s.node as int]);
            lemma_spans_grows(s.sppf, t.sppf, s.sppf_node, s.nodes[s.node as int].1, s.position);
        },
        Label::Entry(_) => {
            assert(t.nodes[s.node as int] == s.nodes[s.node as int]);
        },
        Label::Slot(_, _) => {
            lemma_desc_grows(
                g,
                s.sppf,
                s.nodes,
                t.sppf,
                t.nodes,
                m,
                (s.label, s.node, s.position, s.sppf_node),
            );
        },
    }
}

/// Scheduling a sound descriptor keeps the state sound and grows it;
/// afterwards the descriptor is recorded.
pub proof fn lemma_schedule(
    g: GrammarView,
    s: StateView,
    m: usize,
    l: Label,
    u: usize,
    i: usize,
    w: usize,
)
    requires
        sound(g, s, m),
        desc_ok(g, s.sppf, s.nodes, m, (l, u, i, w)),
    ensures
        sound(g, crate::model::schedule(s, l, u, i, w), m),
        grows(s, crate::model::schedule(s, l, u, i, w)),
        recorded(crate::model::schedule(s, l, u, i, w).visited, l, u, i, w),
{
    let t = crate::model::schedule(s, l, u, i, w);
    crate::sppf::lemma_extends_refl(s.sppf);
    if !s.visited[i as int].contains((l, u, w)) {
        let rec = s.visited[i as int];
        let rec2 = rec.push((l, u, w));
        assert(t.visited[i as int] == rec2);
        assert(rec2[rec.len() as int] == (l, u, w));
        assert forall|j: int, k: int|
            0 <= j < t.visited.len() && 0 <= k < t.visited[j].len() implies desc_ok(
            g,
            t.sppf,
            t.nodes,
            m,
            ((#[trigger] t.visited[j][k]).0, t.visited[j][k].1, j as usize, t.visited[j][k].2),
        ) by {
            if j == i && k == rec.len() {
            } else {
                let _ = s.visited[j][k];
            }
        }
        assert forall|j: int, t1: int, t2: int|
            0 <= j < t.visited.len() && 0 <= t1 < t2 < t.visited[j].len() implies #[trigger] t.visited[j][t1]
            != #[trigger] t.visited[j][t2] by {
            if j == i && t2 == rec.len() {
                assert(rec[t1] == t.visited[j][t1]);
                assert(rec.contains(rec[t1]));
            } else {
                let _ = s.visited[j][t1];
                let _ = s.visited[j][t2];
            }
        }
        assert forall|k: int| 0 <= k < t.todo.len() implies desc_ok(
            g,
            t.sppf,
            t.nodes,
            m,
            #[trigger] t.todo[k],
        ) by {
            if k < s.todo.len() {
                let _ = s.todo[k];
            }
        }
        assert forall|j: int| 0 <= j < s.visited.len() implies (#[trigger] s.visited[j]).is_prefix_of(
            t.visited[j],
        ) by {}
    }
}

/// The nodes that a delivery joins may be joined: along a sound edge `e`,
/// the forest node of the edge and a node popped at its frame fit together.
pub proof fn lemma_deliver_joinable(
    g: GrammarView,
    s: StateView,
    m: usize,
    e: (usize, usize, usize),
    z: usize,
)
    requires
        sound(g, s, m),
        edge_ok(s.sppf, s.nodes, e),
        pair_ok(s.sppf, s.nodes, (e.0, z)),
    ensures
        crate::sppf::joinable(g, s.sppf, s.nodes[e.0 as int].0, e.2, z),
        s.sppf[z as int].right() <= m,
        g.is_slot(s.nodes[e.0 as int].0),
{
    let _ = s.nodes[e.0 as int];
    let _ = s.sppf[z as int];
}

/// One delivery: after the popped node `z` has been joined with the forest
/// node of edge `e` and the result scheduled for the caller, the state is
/// still sound, it has grown, and the pair counts as delivered along `e`.
pub proof fn lemma_deliver_one(
    g: GrammarView,
    s: StateView,
    m: usize,
    e: (usize, usize, usize),
    z: usize,
)
    requires
        g.wf(),
        sound(g, s, m),
        edge_ok(s.sppf, s.nodes, e),
        pair_ok(s.sppf, s.nodes, (e.0, z)),
        node_p_of(g, s, e, z).0.len() <= usize::MAX,
    ensures
        sound(g, delivered(g, s, e, z), m),
        grows(s, delivered(g, s, e, z)),
        closed(
            g,
            delivered(g, s, e, z).sppf,
            delivered(g, s, e, z).nodes,
            delivered(g, s, e, z).visited,
            (e.0, z),
            e,
        ),
{
    let l = s.nodes[e.0 as int].0;
    let w = e.2;
    let (a, y) = node_p_of(g, s, e, z);
    let i = s.sppf[z as int].right();
    lemma_deliver_joinable(g, s, m, e, z);
    crate::sppf::lemma_node_p(g, s.sppf, l, w, z, m);
    crate::sppf::lemma_node_p_labels(g, s.sppf, l, w, z);
    let s1 = StateView { sppf: a, ..s };
    lemma_sound_grows(g, s, s1, m);
    let _ = s.sppf[z as int];
    let _ = s.sppf[w as int];
    assert(a[z as int].is_container() && node_key(a[z as int]) == node_key(s.sppf[z as int]));
    assert(spans(a, y, s.nodes[e.1 as int].1, i)) by {
        if let Label::Slot(_, d) = l {
            if d - 1 != 0 {
                assert(a[w as int].is_container() && node_key(a[w as int]) == node_key(
                    s.sppf[w as int],
                ));
            }
        }
    }
    assert(desc_ok(g, a, s.nodes, m, (l, e.1, i, y)));
    lemma_schedule(g, s1, m, l, e.1, i, y);
    let t = crate::model::schedule(s1, l, e.1, i, y);
    assert(t == delivered(g, s, e, z));
    lemma_grows_trans(s, s1, t);
    assert(joined(g, a, l, w, z) == Some(y)) by {
        if !g.first(l) {
            lemma_key_grows(g, s.sppf, a, l, w, z);
            lemma_find_unique(a, m, container_key(g, a, l, w, z), y);
        }
    }    if !g.first(l) {
        crate::sppf::lemma_holds_packed(a, m, y, l, s.sppf[z as int].left());
    }
}

/// The forest and the joined node of one delivery along edge `e`.
pub open spec fn node_p_of(g: GrammarView, s: StateView, e: (usize, usize, usize), z: usize) -> (
    Seq<NodeView>,
    usize,
) {
    crate::sppf::node_p(g, s.sppf, s.nodes[e.0 as int].0, e.2, z)
}

/// The state after one delivery of `z` along edge `e`.
pub open spec fn delivered(
    g: GrammarView,
    s: StateView,
    e: (usize, usize, usize),
    z: usize,
) -> StateView {
    crate::model::schedule(
        StateView { sppf: node_p_of(g, s, e, z).0, ..s },
        s.nodes[e.0 as int].0,
        e.1,
        s.sppf[z as int].right(),
        node_p_of(g, s, e, z).1,
    )
}

/// What a call needs: `l` is a return label, the caller `u` exists, the
/// position lies within the input, and `w` stands for the symbols before
/// the called nonterminal, from the caller's position to `j`.
pub open spec fn call_ok(
    g: GrammarView,
    s: StateView,
    m: usize,
    l: Label,
    u: usize,
    j: usize,
    w: usize,
) -> bool {
    &&& g.is_return(l)
    &&& u < s.nodes.len()
    &&& j <= m
    &&& match l {
        Label::Slot(_, d) => prefix_ok(s.sppf, d - 1, w, s.nodes[u as int].1, j),
        _ => false,
    }
}

/// What `find_frame` returns is the frame.
pub proof fn lemma_find_frame_found(nodes: Seq<(Label, usize)>, l: Label, j: usize)
    requires
        crate::model::find_frame(nodes, l, j) is Some,
        nodes.len() <= usize::MAX,
    ensures
        crate::model::find_frame(nodes, l, j).unwrap() < nodes.len(),
        nodes[crate::model::find_frame(nodes, l, j).unwrap() as int] == (l, j),
{
    let c = choose|c: int| crate::model::is_first_frame(nodes, l, j, c);
    assert(crate::model::is_first_frame(nodes, l, j, c));
}

/// If `find_frame` returns nothing, no frame below `n` is the one sought.
pub proof fn lemma_find_frame_missing(nodes: Seq<(Label, usize)>, l: Label, j: usize, n: int)
    requires
        crate::model::find_frame(nodes, l, j) is None,
        0 <= n <= nodes.len(),
    ensures
        forall|t: int| 0 <= t < n ==> #[trigger] nodes[t] != (l, j),
    decreases n,
{
    if n > 0 {
        lemma_find_frame_missing(nodes, l, j, n - 1);
        if nodes[n - 1] == (l, j) {
            assert(crate::model::is_first_frame(nodes, l, j, n - 1));
        }
    }
}

/// Finding or adding the frame of a call keeps the state sound.
pub proof fn lemma_create_frame(
    g: GrammarView,
    s: StateView,
    t: StateView,
    m: usize,
    l: Label,
    j: usize,
    v: usize,
)
    requires
        sound(g, s, m),
        g.is_return(l),
        j <= m,
        s.nodes.len() <= usize::MAX,
        t == (StateView { nodes: t.nodes, ..s }),
        match crate::model::find_frame(s.nodes, l, j) {
            Some(x) => t.nodes == s.nodes && v == x,
            None => t.nodes == s.nodes.push((l, j)) && v == s.nodes.len(),
        },
    ensures
        sound(g, t, m),
        grows(s, t),
        0 < v < t.nodes.len(),
        t.nodes[v as int] == (l, j),
{
    crate::sppf::lemma_extends_refl(s.sppf);
    if crate::model::find_frame(s.nodes, l, j) is Some {
        lemma_find_frame_found(s.nodes, l, j);
        assert(t == s);
        lemma_grows_refl(s);
    } else {
        lemma_find_frame_missing(s.nodes, l, j, s.nodes.len() as int);
        assert forall|a: int, b: int| 0 <= a < b < t.nodes.len() implies #[trigger] t.nodes[a]
            != #[trigger] t.nodes[b] by {
            if b < s.nodes.len() {
                assert(s.nodes[a] != s.nodes[b]);
            } else {
                assert(s.nodes[a] != (l, j));
            }
        }
        assert forall|x: int| 0 < x < t.nodes.len() implies g.is_return((#[trigger] t.nodes[x]).0)
            && t.nodes[x].1 <= m by {
            if x < s.nodes.len() {
                let _ = s.nodes[x];
            }
        }
        assert(frames_ok(g, t.nodes, m));
        lemma_sound_grows(g, s, t, m);
    }
}

/// Adding the edge of a call keeps the state sound.
pub proof fn lemma_create_edge(
    g: GrammarView,
    s: StateView,
    t: StateView,
    m: usize,
    e: (usize, usize, usize),
    j: usize,
)
    requires
        sound(g, s, m),
        0 < e.0 < s.nodes.len(),
        s.nodes[e.0 as int].1 == j,
        call_ok(g, s, m, s.nodes[e.0 as int].0, e.1, j, e.2),
        !crate::gss::has_edge(s.edges, e.0, e.1),
        t == (StateView { edges: s.edges.push(e), ..s }),
    ensures
        sound(g, t, m),
        grows(s, t),
{
    crate::sppf::lemma_extends_refl(s.sppf);
    assert(edge_ok(s.sppf, s.nodes, e));
    assert forall|k1: int, k2: int| 0 <= k1 < k2 < t.edges.len() implies ((
        #[trigger] t.edges[k1]).0, t.edges[k1].1) != ((#[trigger] t.edges[k2]).0, t.edges[k2].1) by {
        if k2 < s.edges.len() {
            let _ = s.edges[k1];
            let _ = s.edges[k2];
        } else {
            let _ = s.edges[k1];
        }
    }
    assert forall|k: int| 0 <= k < t.edges.len() implies edge_ok(
        t.sppf,
        t.nodes,
        #[trigger] t.edges[k],
    ) by {
        if k < s.edges.len() {
            let _ = s.edges[k];
        }
    }
}

/// Whatever was sound or delivered before a growth of the state is so
/// after it.
pub open spec fn carries(g: GrammarView, s: StateView, t: StateView) -> bool {
    &&& forall|e: (usize, usize, usize)| #[trigger]
        edge_ok(s.sppf, s.nodes, e) ==> edge_ok(t.sppf, t.nodes, e)
    &&& forall|pr: (usize, usize)| #[trigger]
        pair_ok(s.sppf, s.nodes, pr) ==> pair_ok(t.sppf, t.nodes, pr)
    &&& forall|pr: (usize, usize), e: (usize, usize, usize)|
        pair_ok(s.sppf, s.nodes, pr) && edge_ok(s.sppf, s.nodes, e) && #[trigger] closed(
            g,
            s.sppf,
            s.nodes,
            s.visited,
            pr,
            e,
        ) ==> closed(g, t.sppf, t.nodes, t.visited, pr, e)
}

/// A state that has grown carries over what was sound and delivered.
pub proof fn lemma_carries(g: GrammarView, s: StateView, t: StateView)
    requires
        s.sppf.len() >= 1,
        grows(s, t),
        t.sppf.len() <= usize::MAX,
    ensures
        carries(g, s, t),
{
    assert forall|e: (usize, usize, usize)| #[trigger]
        edge_ok(s.sppf, s.nodes, e) implies edge_ok(t.sppf, t.nodes, e) by {
        lemma_edge_grows(s.sppf, s.nodes, t.sppf, t.nodes, e);
    }
    assert forall|pr: (usize, usize)| #[trigger]
        pair_ok(s.sppf, s.nodes, pr) implies pair_ok(t.sppf, t.nodes, pr) by {
        lemma_pair_grows(s.sppf, s.nodes, t.sppf, t.nodes, pr);
    }
    assert forall|pr: (usize, usize), e: (usize, usize, usize)|
        pair_ok(s.sppf, s.nodes, pr) && edge_ok(s.sppf, s.nodes, e) && #[trigger] closed(
            g,
            s.sppf,
            s.nodes,
            s.visited,
            pr,
            e,
        ) implies closed(g, t.sppf, t.nodes, t.visited, pr, e) by {
        lemma_closed_grows(g, s, t, pr, e);
    }
}

/// One delivery, with all that the loops of `pop` and `create` keep: the
/// state stays sound and grows, the pair counts as delivered along the
/// edge, earlier deliveries carry over, and the credit does not fall.
pub proof fn lemma_delivery(
    g: GrammarView,
    s: StateView,
    m: usize,
    e: (usize, usize, usize),
    z: usize,
    edges: Seq<(usize, usize, usize)>,
    popped: Seq<(usize, usize)>,
)
    requires
        g.wf(),
        sound(g, s, m),
        edge_ok(s.sppf, s.nodes, e),
        pair_ok(s.sppf, s.nodes, (e.0, z)),
        node_p_of(g, s, e, z).0.len() <= usize::MAX,
        edges.is_prefix_of(s.edges),
        popped.is_prefix_of(s.popped),
        pop_closed(g, s.sppf, s.nodes, edges, s.visited, popped),
    ensures
        sound(g, delivered(g, s, e, z), m),
        grows(s, delivered(g, s, e, z)),
        carries(g, s, delivered(g, s, e, z)),
        closed(
            g,
            delivered(g, s, e, z).sppf,
            delivered(g, s, e, z).nodes,
            delivered(g, s, e, z).visited,
            (e.0, z),
            e,
        ),
        pop_closed(
            g,
            delivered(g, s, e, z).sppf,
            delivered(g, s, e, z).nodes,
            edges,
            delivered(g, s, e, z).visited,
            popped,
        ),
        crate::progress::credit(delivered(g, s, e, z)) >= crate::progress::credit(s),
        delivered(g, s, e, z).sppf[z as int].right() == s.sppf[z as int].right(),
{
    let t = delivered(g, s, e, z);
    lemma_deliver_one(g, s, m, e, z);
    lemma_carries(g, s, t);
    assert(edges_ok(s.sppf, s.nodes, edges)) by {
        assert forall|k: int| 0 <= k < edges.len() implies edge_ok(
            s.sppf,
            s.nodes,
            #[trigger] edges[k],
        ) by {
            assert(edges[k] == s.edges[k]);
        }
    }
    assert forall|i: int| 0 <= i < popped.len() implies pair_ok(
        s.sppf,
        s.nodes,
        #[trigger] popped[i],
    ) by {
        assert(popped[i] == s.popped[i]);
    }
    lemma_pop_closed_grows(g, s, t, edges, popped);
    crate::progress::lemma_credit_schedule(
        StateView { sppf: node_p_of(g, s, e, z).0, ..s },
        s.nodes[e.0 as int].0,
        e.1,
        s.sppf[z as int].right(),
        node_p_of(g, s, e, z).1,
    );
    let _ = s.sppf[z as int];
}

/// Moving the dot over a terminal keeps the invariant: the joined node
/// stands for the symbols before the new dot.
pub proof fn lemma_shift(g: GrammarView, s: StateView, m: usize, p: usize, d: usize, b: u8)
    requires
        g.wf(),
        inv(g, s, m),
        s.label == Label::Slot(p, d),
        d < g.rhs(p as int).len(),
        g.rhs(p as int)[d as int] == crate::grammar::Symbol::Terminal(b),
        s.position < m,
        crate::model::shift(g, s, p, d, b).sppf.len() <= usize::MAX,
    ensures
        crate::sppf::joinable(
            g,
            crate::sppf::node_t(s.sppf, crate::grammar::Symbol::Terminal(b), s.position).0,
            Label::Slot(p, (d + 1) as usize),
            s.sppf_node,
            crate::sppf::node_t(s.sppf, crate::grammar::Symbol::Terminal(b), s.position).1,
        ),
        inv(g, crate::model::shift(g, s, p, d, b), m),
        grows(s, crate::model::shift(g, s, p, d, b)),
{
    let x = crate::grammar::Symbol::Terminal(b);
    let (a1, r) = crate::sppf::node_t(s.sppf, x, s.position);
    let next = Label::Slot(p, (d + 1) as usize);
    let w = s.sppf_node;
    let (a2, y) = crate::sppf::node_p(g, a1, next, w, r);
    let t = crate::model::shift(g, s, p, d, b);
    assert(g.productions[p as int].wf(g.nonterminals));
    assert(g.productions[p as int].wf(g.nonterminals));
    assert(d + 1 <= usize::MAX);
    crate::sppf::lemma_node_t_len(s.sppf, x, s.position);
    crate::sppf::lemma_node_p_len(g, a1, next, w, r);
    crate::sppf::lemma_node_t(s.sppf, x, s.position, m);
    crate::sppf::lemma_node_t_labels(g, s.sppf, x, s.position);
    let pos = s.nodes[s.node as int].1;
    lemma_prefix_grows(s.sppf, a1, d as int, w, pos, s.position);
    assert(!g.first(next));
    assert(crate::sppf::joinable(g, a1, next, w, r));
    crate::sppf::lemma_node_p(g, a1, next, w, r, m);
    crate::sppf::lemma_node_p_labels(g, a1, next, w, r);
    crate::sppf::lemma_extends_trans(s.sppf, a1, a2);
    let mid = StateView { sppf: a2, ..s };
    lemma_sound_grows(g, s, mid, m);
    lemma_pop_closed_grows(g, s, mid, s.edges, s.popped);
    assert(grows(s, t));
    assert(spans(a2, y, pos, (s.position + 1) as usize));
}

/// Recognising an empty production keeps the invariant: the joined node
/// spans nothing at the current position.
pub proof fn lemma_reduce_empty(g: GrammarView, s: StateView, m: usize, p: usize)
    requires
        g.wf(),
        inv(g, s, m),
        s.label == Label::Slot(p, 0),
        g.rhs(p as int).len() == 0,
        crate::model::reduce_empty(g, s, p).sppf.len() <= usize::MAX,
    ensures
        s.position <= m,
        crate::sppf::joinable(
            g,
            crate::sppf::node_t(s.sppf, crate::grammar::Symbol::Eps, s.position).0,
            Label::Slot(p, 0),
            s.sppf_node,
            crate::sppf::node_t(s.sppf, crate::grammar::Symbol::Eps, s.position).1,
        ),
        inv(g, crate::model::reduce_empty(g, s, p), m),
        grows(s, crate::model::reduce_empty(g, s, p)),
{
    let x = crate::grammar::Symbol::Eps;
    let (a1, r) = crate::sppf::node_t(s.sppf, x, s.position);
    let l = Label::Slot(p, 0);
    let w = s.sppf_node;
    let (a2, y) = crate::sppf::node_p(g, a1, l, w, r);
    let t = crate::model::reduce_empty(g, s, p);
    crate::sppf::lemma_node_t_len(s.sppf, x, s.position);
    crate::sppf::lemma_node_p_len(g, a1, l, w, r);
    crate::sppf::lemma_node_t(s.sppf, x, s.position, m);
    crate::sppf::lemma_node_t_labels(g, s.sppf, x, s.position);
    let pos = s.nodes[s.node as int].1;
    assert(!g.first(l));
    assert(crate::sppf::joinable(g, a1, l, w, r));
    crate::sppf::lemma_node_p(g, a1, l, w, r, m);
    crate::sppf::lemma_node_p_labels(g, a1, l, w, r);
    crate::sppf::lemma_extends_trans(s.sppf, a1, a2);
    let mid = StateView { sppf: a2, ..s };
    lemma_sound_grows(g, s, mid, m);
    lemma_pop_closed_grows(g, s, mid, s.edges, s.popped);
    assert(grows(s, t));
    assert(spans(a2, y, pos, s.position));
}

/// Before the dot moves over a terminal, the current forest node and the
/// terminal's node fit together.
pub proof fn lemma_shift_joinable(g: GrammarView, s: StateView, m: usize, p: usize, d: usize, b: u8)
    requires
        g.wf(),
        inv(g, s, m),
        s.label == Label::Slot(p, d),
        d < g.rhs(p as int).len(),
        g.rhs(p as int)[d as int] == crate::grammar::Symbol::Terminal(b),
        s.position < m,
        crate::sppf::node_t(s.sppf, crate::grammar::Symbol::Terminal(b), s.position).0.len()
            <= usize::MAX,
    ensures
        crate::sppf::joinable(
            g,
            crate::sppf::node_t(s.sppf, crate::grammar::Symbol::Terminal(b), s.position).0,
            Label::Slot(p, (d + 1) as usize),
            s.sppf_node,
            crate::sppf::node_t(s.sppf, crate::grammar::Symbol::Terminal(b), s.position).1,
        ),
{
    let x = crate::grammar::Symbol::Terminal(b);
    let (a1, r) = crate::sppf::node_t(s.sppf, x, s.position);
    let next = Label::Slot(p, (d + 1) as usize);
    let w = s.sppf_node;
    assert(g.productions[p as int].wf(g.nonterminals));
    crate::sppf::lemma_node_t(s.sppf, x, s.position, m);
    let pos = s.nodes[s.node as int].1;
    lemma_prefix_grows(s.sppf, a1, d as int, w, pos, s.position);
    assert(!g.first(next));
}

/// Before an empty production is recognised, the current forest node, the
/// dummy node, and the epsilon node fit together.
pub proof fn lemma_reduce_joinable(g: GrammarView, s: StateView, m: usize, p: usize)
    requires
        g.wf(),
        inv(g, s, m),
        s.label == Label::Slot(p, 0),
        g.rhs(p as int).len() == 0,
        crate::sppf::node_t(s.sppf, crate::grammar::Symbol::Eps, s.position).0.len()
            <= usize::MAX,
    ensures
        crate::sppf::joinable(
            g,
            crate::sppf::node_t(s.sppf, crate::grammar::Symbol::Eps, s.position).0,
            Label::Slot(p, 0),
            s.sppf_node,
            crate::sppf::node_t(s.sppf, crate::grammar::Symbol::Eps, s.position).1,
        ),
{
    crate::sppf::lemma_node_t(s.sppf, crate::grammar::Symbol::Eps, s.position, m);
}

/// A descriptor, once recorded, stays recorded however the state grows.
pub proof fn lemma_recorded_stays(
    s: StateView,
    t: StateView,
    l: Label,
    u: usize,
    i: usize,
    w: usize,
)
    requires
        grows(s, t),
        recorded(s.visited, l, u, i, w),
    ensures
        recorded(t.visited, l, u, i, w),
{
    let rec = s.visited[i as int];
    let k = choose|k: int| 0 <= k < rec.len() && rec[k] == (l, u, w);
    assert(t.visited[i as int][k] == (l, u, w));
}

/// A stack edge, once added, stays as it is however the state grows: it
/// keeps its place, its two frames and its forest node.
pub proof fn lemma_edge_stays(s: StateView, t: StateView, k: int)
    requires
        grows(s, t),
        0 <= k < s.edges.len(),
    ensures
        k < t.edges.len(),
        t.edges[k] == s.edges[k],
{
}

/// Pops are closed under the invariant: for every popped pair and every
/// edge that leaves its frame, the node that joins the forest node of the
/// edge with the popped node is in the forest, and the descriptor that
/// hands it to the caller, under the label of the frame and at the position
/// where the popped node ends, has been recorded.
pub proof fn lemma_pop_closure(g: GrammarView, s: StateView, m: usize, i: int, k: int)
    requires
        inv(g, s, m),
        0 <= i < s.popped.len(),
        0 <= k < s.edges.len(),
        s.popped[i].0 == s.edges[k].0,
    ensures
        joined(g, s.sppf, s.nodes[s.edges[k].0 as int].0, s.edges[k].2, s.popped[i].1) is Some,
        recorded(
            s.visited,
            s.nodes[s.edges[k].0 as int].0,
            s.edges[k].1,
            s.sppf[s.popped[i].1 as int].right(),
            joined(
                g,
                s.sppf,
                s.nodes[s.edges[k].0 as int].0,
                s.edges[k].2,
                s.popped[i].1,
            ).unwrap(),
        ),
{
    assert(closed(g, s.sppf, s.nodes, s.visited, s.popped[i], s.edges[k]));
}

/// Scheduling grows the state.
pub proof fn lemma_schedule_grows(s: StateView, l: Label, u: usize, i: usize, w: usize)
    ensures
        grows(s, crate::model::schedule(s, l, u, i, w)),
{
    crate::sppf::lemma_extends_refl(s.sppf);
    let t = crate::model::schedule(s, l, u, i, w);
    assert forall|j: int| 0 <= j < s.visited.len() implies (#[trigger] s.visited[j]).is_prefix_of(
        t.visited[j],
    ) by {}
}

/// The stack never holds two edges from one frame to one caller: edges of
/// a sound state with the same two frames are the same edge.
pub proof fn lemma_edges_distinct(g: GrammarView, s: StateView, m: usize, k1: int, k2: int)
    requires
        sound(g, s, m),
        0 <= k1 < s.edges.len(),
        0 <= k2 < s.edges.len(),
        s.edges[k1].0 == s.edges[k2].0,
        s.edges[k1].1 == s.edges[k2].1,
    ensures
        k1 == k2,
{
    if k1 < k2 {
        let _ = s.edges[k1];
        let _ = s.edges[k2];
    } else if k2 < k1 {
        let _ = s.edges[k2];
        let _ = s.edges[k1];
    }
}

} // verus!
