//! What the parser's data mean: every node, descriptor, edge and popped
//! pair stands for a derivation of a stretch of the text.

use crate::grammar::GrammarView;
use crate::grammar::Label;
use crate::grammar::Symbol;
use crate::language::derivable;
use crate::language::lemma_prefix_extend;
use crate::language::lemma_production;
use crate::language::prefix_derivable;
use crate::model::StateView;
use crate::model::schedule;
use crate::soundness::delivered;
use crate::soundness::desc_ok;
use crate::soundness::edge_ok;
use crate::soundness::lemma_deliver_joinable;
use crate::soundness::node_p_of;
use crate::soundness::pair_ok;
use crate::soundness::sound;
use crate::sppf::Key;
use crate::sppf::NodeView;
use crate::sppf::container_key;
use crate::sppf::extends;
use crate::sppf::find_or_create;
use crate::sppf::node_key;
use crate::sppf::node_p;
use crate::sppf::node_t;
use vstd::prelude::*;

verus! {

/// The nonterminal on whose behalf frame `u` was created: the start symbol
/// for the initial frame, else the symbol in front of the dot of the
/// frame's label.
pub open spec fn callee(g: GrammarView, nodes: Seq<(Label, usize)>, u: usize) -> usize {
    if u == 0 {
        g.start
    } else {
        match nodes[u as int].0 {
            Label::Slot(p, d) => match g.rhs(p as int)[d - 1] {
                Symbol::Nonterminal(y) => y,
                _ => 0,
            },
            _ => 0,
        }
    }
}

/// The key of the node that stands for the first `d` symbols of production
/// `p` over `k..i`: none before the first symbol; the symbol node of the
/// first symbol behind a first-child marker; the symbol node of the
/// left-hand side at the end of the production; else the intermediate node
/// of the dot position.
pub open spec fn prefix_key(g: GrammarView, p: int, d: int, k: usize, i: usize) -> Option<Key> {
    if d <= 0 {
        None
    } else if g.first(Label::Slot(p as usize, d as usize)) {
        Some(Key::Symbol(g.rhs(p)[0], k, i))
    } else if d == g.rhs(p).len() {
        Some(Key::Symbol(Symbol::Nonterminal(g.productions[p].lhs), k, i))
    } else {
        Some(Key::Intermediate(Label::Slot(p as usize, d as usize), k, i))
    }
}

/// Node `w` is a node of the forest and has the given key.
pub open spec fn has_key(a: Seq<NodeView>, w: usize, key: Option<Key>) -> bool {
    w < a.len() && key is Some && node_key(a[w as int]) == key
}

/// A node keeps its key when the forest grows.
pub proof fn lemma_has_key_grows(a: Seq<NodeView>, b: Seq<NodeView>, w: usize, key: Option<Key>)
    requires
        extends(a, b),
        has_key(a, w, key),
    ensures
        has_key(b, w, key),
{
    let _ = a[w as int];
}

/// The byte of the input at position `k`, where `text` is the input before
/// its sentinel.
pub open spec fn byte_at(text: Seq<u8>, k: usize) -> u8 {
    if k < text.len() {
        text[k as int]
    } else {
        crate::grammar::SENTINEL
    }
}

/// Production `p` is admitted at position `k`.
pub open spec fn admitted(g: GrammarView, text: Seq<u8>, p: int, k: usize) -> bool {
    crate::model::admits(g, p, byte_at(text, k))
}

/// What a container stands for: the symbol of a symbol node derives its
/// span; the label of an intermediate node is a dot position inside a
/// production that is admitted where the node starts, behind more than the
/// first child, and the symbols before the dot derive the span.
pub open spec fn node_means(g: GrammarView, text: Seq<u8>, n: NodeView) -> bool {
    match n {
        NodeView::Symbol(x, l, r, _) => derivable(g, text, x, l as int, r as int),
        NodeView::Intermediate(lab, l, r, _) => match lab {
            Label::Slot(p, d) => {
                &&& p < g.productions.len()
                &&& 1 <= d < g.rhs(p as int).len()
                &&& !g.first(lab)
                &&& admitted(g, text, p as int, l)
                &&& prefix_derivable(g, text, p as int, d as int, l as int, r as int)
            },
            _ => false,
        },
        _ => true,
    }
}

/// What packed node `c` under container `y` stands for: one step of a
/// derivation. Its label is a dot position; under a symbol node the dot
/// stands at the end of a production of that symbol, under an intermediate
/// node it is the node's own label. The symbols before the last one in
/// front of the dot derive the text from the start of `y` to the pivot, and
/// that last symbol derives the text from the pivot to the end of `y`;
/// under the label of an empty production `y` spans nothing.
pub open spec fn packed_means(
    g: GrammarView,
    text: Seq<u8>,
    a: Seq<NodeView>,
    y: int,
    c: usize,
) -> bool {
    match a[c as int] {
        NodeView::Packed(lab, k, kids) => match lab {
            Label::Slot(p, d) => {
                &&& p < g.productions.len()
                &&& d <= g.rhs(p as int).len()
                &&& match a[y] {
                    NodeView::Symbol(x, _, _, _) => x == Symbol::Nonterminal(
                        g.productions[p as int].lhs,
                    ) && d == g.rhs(p as int).len(),
                    NodeView::Intermediate(l2, _, _, _) => l2 == lab,
                    _ => false,
                }
                &&& d == 0 ==> a[y].left() == a[y].right()
                &&& d >= 1 ==> {
                    &&& prefix_derivable(g, text, p as int, d - 1, a[y].left() as int, k as int)
                    &&& derivable(g, text, g.rhs(p as int)[d - 1], k as int, a[y].right() as int)
                }
                &&& kids_mean(g, a, p as int, d as int, a[y].left(), k, a[y].right(), kids)
            },
            _ => false,
        },
        _ => false,
    }
}

/// The children of a packed node with the dot behind the `d`-th symbol of
/// production `p`, over `left..right` with pivot `k`, are the nodes of what
/// they stand for: the last child is the symbol node of the symbol in front
/// of the dot over `k..right` (of epsilon for an empty production); it is
/// the only child if that symbol is the first of the production, else the
/// first child is the node of the symbols before it over `left..k`.
pub open spec fn kids_mean(
    g: GrammarView,
    a: Seq<NodeView>,
    p: int,
    d: int,
    left: usize,
    k: usize,
    right: usize,
    kids: Seq<usize>,
) -> bool {
    if d == 0 {
        kids.len() == 1 && has_key(a, kids[0], Some(Key::Symbol(Symbol::Eps, k, k)))
    } else {
        &&& kids.len() >= 1
        &&& has_key(a, kids.last(), Some(Key::Symbol(g.rhs(p)[d - 1], k, right)))
        &&& d == 1 ==> kids.len() == 1
        &&& d >= 2 ==> kids.len() == 2 && has_key(a, kids[0], prefix_key(g, p, d - 1, left, k))
    }
}

/// Every node of the forest stands for a derivation: every container
/// derives its span, and every packed node is a step of a derivation.
pub open spec fn forest_means(g: GrammarView, text: Seq<u8>, a: Seq<NodeView>) -> bool {
    &&& forall|i: int| 0 <= i < a.len() ==> node_means(g, text, #[trigger] a[i])
    &&& forall|y: int, j: int|
        0 <= y < a.len() && a[y].is_container() && 0 <= j < a[y].children().len() ==> packed_means(
            g,
            text,
            a,
            y,
            #[trigger] a[y].children()[j],
        )
}

/// What the join of `w` and `z` under label `l` needs to stand for a step
/// of a derivation: the symbols before the last one in front of the dot
/// derive the text from the start of the joined span to the start of `z`,
/// and that last symbol derives the text of `z`; under the label of an
/// empty production the joined span is empty.
pub open spec fn split_means(
    g: GrammarView,
    text: Seq<u8>,
    a: Seq<NodeView>,
    l: Label,
    w: usize,
    z: usize,
) -> bool {
    match l {
        Label::Slot(p, d) => {
            let key = container_key(g, a, l, w, z);
            let k = a[z as int].left();
            &&& p < g.productions.len()
            &&& d <= g.rhs(p as int).len()
            &&& admitted(g, text, p as int, key.left())
            &&& d == 0 ==> g.rhs(p as int).len() == 0 && key.left() == key.right()
            &&& d >= 1 ==> {
                &&& key.left() <= k <= key.right()
                &&& prefix_derivable(g, text, p as int, d - 1, key.left() as int, k as int)
                &&& derivable(g, text, g.rhs(p as int)[d - 1], k as int, key.right() as int)
            }
            &&& kids_mean(
                g,
                a,
                p as int,
                d as int,
                key.left(),
                k,
                key.right(),
                crate::sppf::packed_kids(a, w, z),
            )
        },
        _ => false,
    }
}

/// A descriptor stands for a derivation: its production is one of the
/// nonterminal that its frame was created for, and the symbols before its
/// dot derive the text from the frame's position to its own.
pub open spec fn desc_means(
    g: GrammarView,
    text: Seq<u8>,
    nodes: Seq<(Label, usize)>,
    d: (Label, usize, usize, usize),
) -> bool {
    match d.0 {
        Label::Slot(p, dot) => {
            &&& g.productions[p as int].lhs == callee(g, nodes, d.1)
            &&& admitted(g, text, p as int, nodes[d.1 as int].1)
            &&& prefix_derivable(g, text, p as int, dot as int, nodes[d.1 as int].1 as int, d.2 as int)
        },
        _ => false,
    }
}

/// An edge stands for a derivation: the production of its frame is one of
/// the nonterminal that the caller was created for, and the symbols before
/// the called nonterminal derive the text from the caller's position to the
/// frame's.
pub open spec fn edge_means(
    g: GrammarView,
    text: Seq<u8>,
    nodes: Seq<(Label, usize)>,
    e: (usize, usize, usize),
) -> bool {
    match nodes[e.0 as int].0 {
        Label::Slot(p, d) => {
            &&& g.productions[p as int].lhs == callee(g, nodes, e.1)
            &&& admitted(g, text, p as int, nodes[e.1 as int].1)
            &&& prefix_derivable(
                g,
                text,
                p as int,
                d - 1,
                nodes[e.1 as int].1 as int,
                nodes[e.0 as int].1 as int,
            )
        },
        _ => false,
    }
}

/// A popped pair stands for a derivation: the nonterminal that the frame
/// was created for derives the text from the frame's position to the end
/// of the popped node.
pub open spec fn pair_means(
    g: GrammarView,
    text: Seq<u8>,
    a: Seq<NodeView>,
    nodes: Seq<(Label, usize)>,
    pr: (usize, usize),
) -> bool {
    derivable(
        g,
        text,
        Symbol::Nonterminal(callee(g, nodes, pr.0)),
        nodes[pr.0 as int].1 as int,
        a[pr.1 as int].right() as int,
    )
}

/// The registers stand for a derivation: at a dot position they form a
/// descriptor that does; at the entry of a nonterminal the current frame
/// was created for it; on return the nonterminal of the current frame
/// derives the text from the frame's position to the current one.
pub open spec fn registers_mean(g: GrammarView, text: Seq<u8>, s: StateView) -> bool {
    match s.label {
        Label::L0 => true,
        Label::Ret => derivable(
            g,
            text,
            Symbol::Nonterminal(callee(g, s.nodes, s.node)),
            s.nodes[s.node as int].1 as int,
            s.position as int,
        ),
        Label::Entry(x) => x == callee(g, s.nodes, s.node),
        Label::Slot(_, _) => desc_means(g, text, s.nodes, (s.label, s.node, s.position, s.sppf_node)),
    }
}

/// The forest node of a descriptor is the node of the symbols before its
/// dot, from the frame's position to the descriptor's own.
pub open spec fn desc_kind(
    g: GrammarView,
    a: Seq<NodeView>,
    nodes: Seq<(Label, usize)>,
    d: (Label, usize, usize, usize),
) -> bool {
    match d.0 {
        Label::Slot(p, dot) => dot >= 1 ==> has_key(
            a,
            d.3,
            prefix_key(g, p as int, dot as int, nodes[d.1 as int].1, d.2),
        ),
        _ => true,
    }
}

/// The forest node of an edge is the node of the symbols before the called
/// nonterminal, from the caller's position to the frame's.
pub open spec fn edge_kind(
    g: GrammarView,
    a: Seq<NodeView>,
    nodes: Seq<(Label, usize)>,
    e: (usize, usize, usize),
) -> bool {
    match nodes[e.0 as int].0 {
        Label::Slot(p, d) => d >= 2 ==> has_key(
            a,
            e.2,
            prefix_key(g, p as int, d - 1, nodes[e.1 as int].1, nodes[e.0 as int].1),
        ),
        _ => true,
    }
}

/// The forest node of a popped pair is the symbol node of the nonterminal
/// that the frame was created for, from the frame's position on.
pub open spec fn pair_kind(
    g: GrammarView,
    a: Seq<NodeView>,
    nodes: Seq<(Label, usize)>,
    pr: (usize, usize),
) -> bool {
    has_key(
        a,
        pr.1,
        Some(
            Key::Symbol(
                Symbol::Nonterminal(callee(g, nodes, pr.0)),
                nodes[pr.0 as int].1,
                a[pr.1 as int].right(),
            ),
        ),
    )
}

/// The current forest node is the node of what the registers stand for.
pub open spec fn registers_kind(g: GrammarView, s: StateView) -> bool {
    match s.label {
        Label::Ret => has_key(
            s.sppf,
            s.sppf_node,
            Some(
                Key::Symbol(
                    Symbol::Nonterminal(callee(g, s.nodes, s.node)),
                    s.nodes[s.node as int].1,
                    s.position,
                ),
            ),
        ),
        Label::Slot(_, _) => desc_kind(
            g,
            s.sppf,
            s.nodes,
            (s.label, s.node, s.position, s.sppf_node),
        ),
        _ => true,
    }
}

/// Every forest node that the state refers to is the node of what it
/// stands for.
pub open spec fn kinds(g: GrammarView, s: StateView) -> bool {
    &&& forall|k: int| 0 <= k < s.edges.len() ==> edge_kind(g, s.sppf, s.nodes, #[trigger] s.edges[k])
    &&& forall|j: int, t: int|
        0 <= j < s.visited.len() && 0 <= t < s.visited[j].len() ==> desc_kind(
            g,
            s.sppf,
            s.nodes,
            ((#[trigger] s.visited[j][t]).0, s.visited[j][t].1, j as usize, s.visited[j][t].2),
        )
    &&& forall|k: int| 0 <= k < s.todo.len() ==> desc_kind(g, s.sppf, s.nodes, #[trigger] s.todo[k])
    &&& forall|i: int| 0 <= i < s.popped.len() ==> pair_kind(g, s.sppf, s.nodes, #[trigger] s.popped[i])
    &&& registers_kind(g, s)
}

/// A descriptor keeps its node when forest and stack grow.
pub proof fn lemma_desc_kind_grows(
    g: GrammarView,
    a: Seq<NodeView>,
    nodes: Seq<(Label, usize)>,
    b: Seq<NodeView>,
    nodes2: Seq<(Label, usize)>,
    d: (Label, usize, usize, usize),
)
    requires
        extends(a, b),
        nodes.is_prefix_of(nodes2),
        d.1 < nodes.len(),
        desc_kind(g, a, nodes, d),
    ensures
        desc_kind(g, b, nodes2, d),
{
    assert(nodes2[d.1 as int] == nodes[d.1 as int]);
    if let Label::Slot(p, dot) = d.0 {
        if dot >= 1 {
            lemma_has_key_grows(a, b, d.3, prefix_key(g, p as int, dot as int, nodes[d.1 as int].1, d.2));
        }
    }
}

/// An edge keeps its node when forest and stack grow.
pub proof fn lemma_edge_kind_grows(
    g: GrammarView,
    a: Seq<NodeView>,
    nodes: Seq<(Label, usize)>,
    b: Seq<NodeView>,
    nodes2: Seq<(Label, usize)>,
    e: (usize, usize, usize),
)
    requires
        extends(a, b),
        nodes.is_prefix_of(nodes2),
        e.0 < nodes.len(),
        e.1 < nodes.len(),
        edge_kind(g, a, nodes, e),
    ensures
        edge_kind(g, b, nodes2, e),
{
    assert(nodes2[e.0 as int] == nodes[e.0 as int]);
    assert(nodes2[e.1 as int] == nodes[e.1 as int]);
    if let Label::Slot(p, d) = nodes[e.0 as int].0 {
        if d >= 2 {
            lemma_has_key_grows(
                a,
                b,
                e.2,
                prefix_key(g, p as int, d - 1, nodes[e.1 as int].1, nodes[e.0 as int].1),
            );
        }
    }
}

/// A popped pair keeps its node when forest and stack grow.
pub proof fn lemma_pair_kind_grows(
    g: GrammarView,
    a: Seq<NodeView>,
    nodes: Seq<(Label, usize)>,
    b: Seq<NodeView>,
    nodes2: Seq<(Label, usize)>,
    pr: (usize, usize),
)
    requires
        extends(a, b),
        nodes.is_prefix_of(nodes2),
        pr.0 < nodes.len(),
        pair_kind(g, a, nodes, pr),
    ensures
        pair_kind(g, b, nodes2, pr),
{
    lemma_callee_grows(g, nodes, nodes2, pr.0);
    assert(nodes2[pr.0 as int] == nodes[pr.0 as int]);
    let _ = a[pr.1 as int];
    lemma_has_key_grows(
        a,
        b,
        pr.1,
        Some(
            Key::Symbol(
                Symbol::Nonterminal(callee(g, nodes, pr.0)),
                nodes[pr.0 as int].1,
                a[pr.1 as int].right(),
            ),
        ),
    );
}

/// Some frame at position `k` was created for nonterminal `x`.
pub open spec fn framed(g: GrammarView, nodes: Seq<(Label, usize)>, x: usize, k: usize) -> bool {
    exists|u: usize| u < nodes.len() && #[trigger] callee(g, nodes, u) == x && nodes[u as int].1 == k
}

/// The nonterminal and the position for which a container needs a frame:
/// a symbol node of a nonterminal that nonterminal, an intermediate node
/// the left-hand side of its production, each where the node starts.
pub open spec fn frame_of(g: GrammarView, n: NodeView) -> Option<(usize, usize)> {
    match n {
        NodeView::Symbol(Symbol::Nonterminal(x), k, _, _) => Some((x, k)),
        NodeView::Intermediate(Label::Slot(p, _), k, _, _) => Some((g.productions[p as int].lhs, k)),
        _ => None,
    }
}

/// Every symbol node of a nonterminal starts where a frame of that
/// nonterminal stands, and every intermediate node where a frame of the
/// left-hand side of its production stands.
pub open spec fn forest_framed(
    g: GrammarView,
    a: Seq<NodeView>,
    nodes: Seq<(Label, usize)>,
) -> bool {
    forall|i: int|
        0 <= i < a.len() ==> match frame_of(g, #[trigger] a[i]) {
            Some((x, k)) => framed(g, nodes, x, k),
            None => true,
        }
}

/// Everything in the state stands for a derivation over `text`.
pub open spec fn meaning(g: GrammarView, text: Seq<u8>, s: StateView) -> bool {
    &&& forest_means(g, text, s.sppf)
    &&& forest_framed(g, s.sppf, s.nodes)
    &&& forall|k: int| 0 <= k < s.edges.len() ==> edge_means(g, text, s.nodes, #[trigger] s.edges[k])
    &&& forall|j: int, t: int|
        0 <= j < s.visited.len() && 0 <= t < s.visited[j].len() ==> desc_means(
            g,
            text,
            s.nodes,
            ((#[trigger] s.visited[j][t]).0, s.visited[j][t].1, j as usize, s.visited[j][t].2),
        )
    &&& forall|k: int| 0 <= k < s.todo.len() ==> desc_means(g, text, s.nodes, #[trigger] s.todo[k])
    &&& forall|i: int|
        0 <= i < s.popped.len() ==> pair_means(g, text, s.sppf, s.nodes, #[trigger] s.popped[i])
    &&& registers_mean(g, text, s)
    &&& kinds(g, s)
}

/// The frame's nonterminal does not change when the stack grows.
pub proof fn lemma_callee_grows(
    g: GrammarView,
    nodes: Seq<(Label, usize)>,
    nodes2: Seq<(Label, usize)>,
    u: usize,
)
    requires
        nodes.is_prefix_of(nodes2),
        u < nodes.len(),
    ensures
        callee(g, nodes2, u) == callee(g, nodes, u),
{
    assert(nodes2[u as int] == nodes[u as int]);
}

/// What a descriptor means does not change when the stack grows.
pub proof fn lemma_desc_means_grows(
    g: GrammarView,
    text: Seq<u8>,
    nodes: Seq<(Label, usize)>,
    nodes2: Seq<(Label, usize)>,
    d: (Label, usize, usize, usize),
)
    requires
        nodes.is_prefix_of(nodes2),
        d.1 < nodes.len(),
        desc_means(g, text, nodes, d),
    ensures
        desc_means(g, text, nodes2, d),
{
    lemma_callee_grows(g, nodes, nodes2, d.1);
    assert(nodes2[d.1 as int] == nodes[d.1 as int]);
}

/// What an edge means does not change when the stack grows.
pub proof fn lemma_edge_means_grows(
    g: GrammarView,
    text: Seq<u8>,
    nodes: Seq<(Label, usize)>,
    nodes2: Seq<(Label, usize)>,
    e: (usize, usize, usize),
)
    requires
        nodes.is_prefix_of(nodes2),
        e.0 < nodes.len(),
        e.1 < nodes.len(),
        edge_means(g, text, nodes, e),
    ensures
        edge_means(g, text, nodes2, e),
{
    lemma_callee_grows(g, nodes, nodes2, e.1);
    assert(nodes2[e.0 as int] == nodes[e.0 as int]);
    assert(nodes2[e.1 as int] == nodes[e.1 as int]);
}

/// What a popped pair means does not change when forest and stack grow.
pub proof fn lemma_pair_means_grows(
    g: GrammarView,
    text: Seq<u8>,
    a: Seq<NodeView>,
    nodes: Seq<(Label, usize)>,
    b: Seq<NodeView>,
    nodes2: Seq<(Label, usize)>,
    pr: (usize, usize),
)
    requires
        nodes.is_prefix_of(nodes2),
        extends(a, b),
        pair_ok(a, nodes, pr),
        pair_means(g, text, a, nodes, pr),
    ensures
        pair_means(g, text, b, nodes2, pr),
{
    lemma_callee_grows(g, nodes, nodes2, pr.0);
    assert(nodes2[pr.0 as int] == nodes[pr.0 as int]);
    let _ = a[pr.1 as int];
}

/// A frame stays where it is, and for its nonterminal, when the stack
/// grows.
pub proof fn lemma_framed_grows(
    g: GrammarView,
    nodes: Seq<(Label, usize)>,
    nodes2: Seq<(Label, usize)>,
    x: usize,
    k: usize,
)
    requires
        nodes.is_prefix_of(nodes2),
        framed(g, nodes, x, k),
    ensures
        framed(g, nodes2, x, k),
{
    let u = choose|u: usize|
        u < nodes.len() && #[trigger] callee(g, nodes, u) == x && nodes[u as int].1 == k;
    lemma_callee_grows(g, nodes, nodes2, u);
    assert(nodes2[u as int] == nodes[u as int]);
}

/// The symbol nodes keep their frames when the stack grows.
pub proof fn lemma_forest_framed_grows(
    g: GrammarView,
    a: Seq<NodeView>,
    nodes: Seq<(Label, usize)>,
    nodes2: Seq<(Label, usize)>,
)
    requires
        nodes.is_prefix_of(nodes2),
        forest_framed(g, a, nodes),
    ensures
        forest_framed(g, a, nodes2),
{
    assert forall|i: int| 0 <= i < a.len() implies match frame_of(g, #[trigger] a[i]) {
        Some((x, k)) => framed(g, nodes2, x, k),
        None => true,
    } by {
        if let Some((x, k)) = frame_of(g, a[i]) {
            lemma_framed_grows(g, nodes, nodes2, x, k);
        }
    }
}

/// A lookup keeps the frames of the symbol nodes if the key looked up, when
/// it is that of a nonterminal, has a frame.
pub proof fn lemma_find_or_create_framed(
    g: GrammarView,
    a: Seq<NodeView>,
    nodes: Seq<(Label, usize)>,
    key: Key,
)
    requires
        forest_framed(g, a, nodes),
        frame_of(g, crate::sppf::fresh_node(key)) matches Some((x, k)) ==> framed(g, nodes, x, k),
    ensures
        forest_framed(g, find_or_create(a, key).0, nodes),
{
    let b = find_or_create(a, key).0;
    assert forall|i: int| 0 <= i < b.len() implies match frame_of(g, #[trigger] b[i]) {
        Some((x, k)) => framed(g, nodes, x, k),
        None => true,
    } by {
        if i < a.len() {
            let _ = a[i];
        }
    }
}

/// `get_node_p` keeps the frames of the symbol nodes if the key it looks
/// up, when it is that of a nonterminal, has a frame.
pub proof fn lemma_node_p_framed(
    g: GrammarView,
    a: Seq<NodeView>,
    nodes: Seq<(Label, usize)>,
    l: Label,
    w: usize,
    z: usize,
)
    requires
        forest_framed(g, a, nodes),
        !g.first(l) ==> (frame_of(g, crate::sppf::fresh_node(container_key(g, a, l, w, z))) matches Some(
            (x, k),
        ) ==> framed(g, nodes, x, k)),
    ensures
        forest_framed(g, node_p(g, a, l, w, z).0, nodes),
{
    if !g.first(l) {
        let key = container_key(g, a, l, w, z);
        let (a1, y) = find_or_create(a, key);
        lemma_find_or_create_framed(g, a, nodes, key);
        let b = node_p(g, a, l, w, z).0;
        assert forall|i: int| 0 <= i < b.len() implies match frame_of(g, #[trigger] b[i]) {
            Some((x, k)) => framed(g, nodes, x, k),
            None => true,
        } by {
            if i < a1.len() {
                let _ = a1[i];
                assert(frame_of(g, b[i]) == frame_of(g, a1[i]));
            }
        }
    }
}

/// The collections and registers of a state keep their meaning when forest
/// and stack grow around them, as long as the forest keeps its own.
pub proof fn lemma_meaning_grows(
    g: GrammarView,
    text: Seq<u8>,
    s: StateView,
    t: StateView,
    m: usize,
)
    requires
        sound(g, s, m),
        crate::soundness::registers_ok(g, s, m),
        meaning(g, text, s),
        extends(s.sppf, t.sppf),
        s.nodes.is_prefix_of(t.nodes),
        forest_means(g, text, t.sppf),
        forest_framed(g, t.sppf, s.nodes),
        t.edges == s.edges,
        t.visited == s.visited,
        t.todo == s.todo,
        t.popped == s.popped,
        t.label == s.label,
        t.node == s.node,
        t.position == s.position,
        t.sppf_node == s.sppf_node,
    ensures
        meaning(g, text, t),
{
    lemma_forest_framed_grows(g, t.sppf, s.nodes, t.nodes);
    assert forall|k: int| 0 <= k < t.edges.len() implies edge_means(
        g,
        text,
        t.nodes,
        #[trigger] t.edges[k],
    ) by {
        let _ = s.edges[k];
        lemma_edge_means_grows(g, text, s.nodes, t.nodes, s.edges[k]);
    }
    assert forall|j: int, k: int|
        0 <= j < t.visited.len() && 0 <= k < t.visited[j].len() implies desc_means(
        g,
        text,
        t.nodes,
        ((#[trigger] t.visited[j][k]).0, t.visited[j][k].1, j as usize, t.visited[j][k].2),
    ) by {
        let e = s.visited[j][k];
        lemma_desc_means_grows(g, text, s.nodes, t.nodes, (e.0, e.1, j as usize, e.2));
    }
    assert forall|k: int| 0 <= k < t.todo.len() implies desc_means(
        g,
        text,
        t.nodes,
        #[trigger] t.todo[k],
    ) by {
        let _ = s.todo[k];
        lemma_desc_means_grows(g, text, s.nodes, t.nodes, s.todo[k]);
    }
    assert forall|i: int| 0 <= i < t.popped.len() implies pair_means(
        g,
        text,
        t.sppf,
        t.nodes,
        #[trigger] t.popped[i],
    ) by {
        let _ = s.popped[i];
        lemma_pair_means_grows(g, text, s.sppf, s.nodes, t.sppf, t.nodes, s.popped[i]);
    }
    match s.label {
        Label::L0 => {},
        Label::Ret => {
            lemma_callee_grows(g, s.nodes, t.nodes, s.node);
            assert(t.nodes[s.node as int] == s.nodes[s.node as int]);
            lemma_has_key_grows(
                s.sppf,
                t.sppf,
                s.sppf_node,
                Some(
                    Key::Symbol(
                        Symbol::Nonterminal(callee(g, s.nodes, s.node)),
                        s.nodes[s.node as int].1,
                        s.position,
                    ),
                ),
            );
        },
        Label::Entry(_) => {
            lemma_callee_grows(g, s.nodes, t.nodes, s.node);
        },
        Label::Slot(_, _) => {
            lemma_desc_means_grows(
                g,
                text,
                s.nodes,
                t.nodes,
                (s.label, s.node, s.position, s.sppf_node),
            );
            lemma_desc_kind_grows(
                g,
                s.sppf,
                s.nodes,
                t.sppf,
                t.nodes,
                (s.label, s.node, s.position, s.sppf_node),
            );
        },
    }
    assert forall|k: int| 0 <= k < t.edges.len() implies edge_kind(
        g,
        t.sppf,
        t.nodes,
        #[trigger] t.edges[k],
    ) by {
        let _ = s.edges[k];
        lemma_edge_kind_grows(g, s.sppf, s.nodes, t.sppf, t.nodes, s.edges[k]);
    }
    assert forall|j: int, k: int|
        0 <= j < t.visited.len() && 0 <= k < t.visited[j].len() implies desc_kind(
        g,
        t.sppf,
        t.nodes,
        ((#[trigger] t.visited[j][k]).0, t.visited[j][k].1, j as usize, t.visited[j][k].2),
    ) by {
        let e = s.visited[j][k];
        lemma_desc_kind_grows(g, s.sppf, s.nodes, t.sppf, t.nodes, (e.0, e.1, j as usize, e.2));
    }
    assert forall|k: int| 0 <= k < t.todo.len() implies desc_kind(
        g,
        t.sppf,
        t.nodes,
        #[trigger] t.todo[k],
    ) by {
        let _ = s.todo[k];
        lemma_desc_kind_grows(g, s.sppf, s.nodes, t.sppf, t.nodes, s.todo[k]);
    }
    assert forall|i: int| 0 <= i < t.popped.len() implies pair_kind(
        g,
        t.sppf,
        t.nodes,
        #[trigger] t.popped[i],
    ) by {
        let _ = s.popped[i];
        lemma_pair_kind_grows(g, s.sppf, s.nodes, t.sppf, t.nodes, s.popped[i]);
    }
}

/// Scheduling a descriptor that stands for a derivation keeps the meaning
/// of the state.
pub proof fn lemma_schedule_means(
    g: GrammarView,
    text: Seq<u8>,
    s: StateView,
    l: Label,
    u: usize,
    i: usize,
    w: usize,
)
    requires
        meaning(g, text, s),
        desc_means(g, text, s.nodes, (l, u, i, w)),
        desc_kind(g, s.sppf, s.nodes, (l, u, i, w)),
    ensures
        meaning(g, text, schedule(s, l, u, i, w)),
{
    let t = schedule(s, l, u, i, w);
    if i < s.visited.len() && !s.visited[i as int].contains((l, u, w)) {
        let rec = s.visited[i as int];
        assert forall|j: int, k: int|
            0 <= j < t.visited.len() && 0 <= k < t.visited[j].len() implies desc_kind(
            g,
            t.sppf,
            t.nodes,
            ((#[trigger] t.visited[j][k]).0, t.visited[j][k].1, j as usize, t.visited[j][k].2),
        ) by {
            if j == i && k == rec.len() {
            } else {
                let _ = s.visited[j][k];
            }
        }
        assert forall|k: int| 0 <= k < t.todo.len() implies desc_kind(
            g,
            t.sppf,
            t.nodes,
            #[trigger] t.todo[k],
        ) by {
            if k < s.todo.len() {
                let _ = s.todo[k];
            }
        }
        assert forall|j: int, k: int|
            0 <= j < t.visited.len() && 0 <= k < t.visited[j].len() implies desc_means(
            g,
            text,
            t.nodes,
            ((#[trigger] t.visited[j][k]).0, t.visited[j][k].1, j as usize, t.visited[j][k].2),
        ) by {
            if j == i && k == rec.len() {
            } else {
                let _ = s.visited[j][k];
            }
        }
        assert forall|k: int| 0 <= k < t.todo.len() implies desc_means(
            g,
            text,
            t.nodes,
            #[trigger] t.todo[k],
        ) by {
            if k < s.todo.len() {
                let _ = s.todo[k];
            }
        }
    }
}

/// A lookup of a key whose node would stand for a derivation keeps the
/// meaning of the forest.
pub proof fn lemma_find_or_create_means(
    g: GrammarView,
    text: Seq<u8>,
    a: Seq<NodeView>,
    k: Key,
    m: usize,
)
    requires
        crate::sppf::forest_wf(a, m),
        forest_means(g, text, a),
        node_means(g, text, crate::sppf::fresh_node(k)),
    ensures
        forest_means(g, text, find_or_create(a, k).0),
{
    let b = find_or_create(a, k).0;
    assert forall|i: int| 0 <= i < b.len() implies node_means(g, text, #[trigger] b[i]) by {
        if i < a.len() {
            let _ = a[i];
        }
    }
    assert forall|y: int, j: int|
        0 <= y < b.len() && b[y].is_container() && 0 <= j < b[y].children().len() implies packed_means(
        g,
        text,
        b,
        y,
        #[trigger] b[y].children()[j],
    ) by {
        assert(y < a.len());
        let c = a[y].children()[j];
        assert(crate::sppf::packed_ok(a, y, c));
        assert(packed_means(g, text, a, y, c));
        lemma_packed_means_grows(g, text, a, b, y, c);
    }
}

/// What a packed node stands for does not change when nodes are added
/// behind it and its container keeps its key.
pub proof fn lemma_packed_means_grows(
    g: GrammarView,
    text: Seq<u8>,
    a: Seq<NodeView>,
    b: Seq<NodeView>,
    y: int,
    c: usize,
)
    requires
        extends(a, b),
        0 <= y < a.len(),
        a[y].is_container(),
        crate::sppf::packed_ok(a, y, c),
        packed_means(g, text, a, y, c),
    ensures
        packed_means(g, text, b, y, c),
{
    let _ = a[y];
    let _ = a[c as int];
    if let NodeView::Packed(lab, k, kids) = a[c as int] {
        if let Label::Slot(p, d) = lab {
            assert(b[c as int] == a[c as int]);
            if d == 0 {
                lemma_has_key_grows(a, b, kids[0], Some(Key::Symbol(Symbol::Eps, k, k)));
            } else {
                lemma_has_key_grows(
                    a,
                    b,
                    kids.last(),
                    Some(Key::Symbol(g.rhs(p as int)[d - 1], k, a[y].right())),
                );
                if d >= 2 {
                    lemma_has_key_grows(
                        a,
                        b,
                        kids[0],
                        prefix_key(g, p as int, d - 1, a[y].left(), k),
                    );
                }
            }
        }
    }
}

/// `get_node_t` for a symbol that derives its span keeps the meaning of
/// the forest.
pub proof fn lemma_node_t_means(
    g: GrammarView,
    text: Seq<u8>,
    a: Seq<NodeView>,
    x: Symbol,
    i: usize,
    m: usize,
)
    requires
        crate::sppf::forest_wf(a, m),
        forest_means(g, text, a),
        derivable(g, text, x, i as int, if x == Symbol::Eps {
            i as int
        } else {
            i + 1
        }),
        x != Symbol::Eps ==> i < usize::MAX,
    ensures
        forest_means(g, text, node_t(a, x, i).0),
{
    let r = if x == Symbol::Eps {
        i
    } else {
        (i + 1) as usize
    };
    lemma_find_or_create_means(g, text, a, Key::Symbol(x, i, r), m);
}

/// `get_node_p` keeps the meaning of the forest if the join stands for a
/// step of a derivation.
pub proof fn lemma_node_p_means(
    g: GrammarView,
    text: Seq<u8>,
    a: Seq<NodeView>,
    l: Label,
    w: usize,
    z: usize,
    m: usize,
)
    requires
        crate::sppf::forest_wf(a, m),
        crate::sppf::joinable(g, a, l, w, z),
        node_p(g, a, l, w, z).0.len() <= usize::MAX,
        forest_means(g, text, a),
        !g.first(l) ==> split_means(g, text, a, l, w, z),
    ensures
        forest_means(g, text, node_p(g, a, l, w, z).0),
{
    if !g.first(l) {
        if let Label::Slot(p, d) = l {
            let key = container_key(g, a, l, w, z);
            let k = a[z as int].left();
            let kids = crate::sppf::packed_kids(a, w, z);
            let (a1, y) = find_or_create(a, key);
            let b = crate::sppf::add_packed(a1, y, l, k, kids);
            assert(a1.len() <= b.len());
            // The container stands for what the join derives.
            if d >= 1 {
                lemma_prefix_extend(
                    g,
                    text,
                    p as int,
                    d - 1,
                    key.left() as int,
                    k as int,
                    key.right() as int,
                );
            } else {
                crate::language::lemma_prefix_empty(g, text, p as int, key.left() as int);
            }
            if g.end(l) is Some {
                lemma_production(g, text, p as int, key.left() as int, key.right() as int);
            }
            crate::sppf::lemma_find_or_create(a, key, m);
            lemma_find_or_create_means(g, text, a, key, m);
            crate::sppf::lemma_add_packed(a1, y, l, k, kids, m);
            if !crate::sppf::has_packed(a1, y, l, k) {
                let n = a1.len() as int;
                let old_kids = a1[y as int].children();
                assert(b[n] == NodeView::Packed(l, k, kids));
                assert(b[y as int] == a1[y as int].with_children(old_kids.push(n as usize)));
                assert forall|i: int| 0 <= i < n && i != y implies b[i] == a1[i] by {}
                assert forall|i: int| 0 <= i < b.len() implies node_means(g, text, #[trigger] b[i]) by {
                    if i < n {
                        let _ = a1[i];
                    }
                }
                assert forall|y2: int, j: int|
                    0 <= y2 < b.len() && b[y2].is_container() && 0 <= j < b[y2].children().len() implies packed_means(
                    g,
                    text,
                    b,
                    y2,
                    #[trigger] b[y2].children()[j],
                ) by {
                    assert(y2 < n);
                    let c = b[y2].children()[j];
                    if y2 == y && j == old_kids.len() {
                        assert(c == n);
                    } else {
                        assert(c == a1[y2].children()[j]);
                        assert(crate::sppf::packed_ok(a1, y2, c));
                        assert(packed_means(g, text, a1, y2, c));
                        assert(b[c as int] == a1[c as int]);
                        lemma_packed_means_grows(g, text, a1, b, y2, c);
                    }
                }
            }
        }
    }
}

/// Along a sound edge that stands for a derivation, a popped pair that
/// does so too yields a derivation of the symbols before the dot of the
/// frame, from the caller's position to the end of the popped node.
pub proof fn lemma_delivery_derives(
    g: GrammarView,
    text: Seq<u8>,
    s: StateView,
    m: usize,
    e: (usize, usize, usize),
    z: usize,
)
    requires
        g.wf(),
        sound(g, s, m),
        edge_ok(s.sppf, s.nodes, e),
        pair_ok(s.sppf, s.nodes, (e.0, z)),
        edge_means(g, text, s.nodes, e),
        pair_means(g, text, s.sppf, s.nodes, (e.0, z)),
        edge_kind(g, s.sppf, s.nodes, e),
        pair_kind(g, s.sppf, s.nodes, (e.0, z)),
    ensures
        desc_means(
            g,
            text,
            s.nodes,
            (s.nodes[e.0 as int].0, e.1, s.sppf[z as int].right(), 0usize),
        ),
        !g.first(s.nodes[e.0 as int].0) ==> {
            &&& container_key(g, s.sppf, s.nodes[e.0 as int].0, e.2, z).left()
                == s.nodes[e.1 as int].1
            &&& container_key(g, s.sppf, s.nodes[e.0 as int].0, e.2, z).right()
                == s.sppf[z as int].right()
            &&& split_means(g, text, s.sppf, s.nodes[e.0 as int].0, e.2, z)
        },
{
    let _ = s.nodes[e.0 as int];
    let _ = s.sppf[z as int];
    let _ = s.sppf[e.2 as int];
    if let Label::Slot(p, d) = s.nodes[e.0 as int].0 {
        let pos_u = s.nodes[e.1 as int].1 as int;
        let pos_v = s.nodes[e.0 as int].1 as int;
        let right = s.sppf[z as int].right() as int;
        let before = d - 1;
        let pi = p as int;
        let n1 = choose|n: nat| crate::language::derives_prefix(g, text, pi, before, pos_u, pos_v, n);
        crate::language::lemma_prefix_within(g, text, pi, before, pos_u, pos_v, n1);
        let x = Symbol::Nonterminal(callee(g, s.nodes, e.0));
        let n2 = choose|n: nat| crate::language::derives(g, text, x, pos_v, right, n);
        crate::language::lemma_derives_within(g, text, x, pos_v, right, n2);
        assert(g.rhs(p as int)[d - 1] == x);
        lemma_prefix_extend(g, text, p as int, d - 1, pos_u, pos_v, right);
    }
}

/// One delivery keeps the meaning of the state.
pub proof fn lemma_delivery_means(
    g: GrammarView,
    text: Seq<u8>,
    s: StateView,
    m: usize,
    e: (usize, usize, usize),
    z: usize,
)
    requires
        g.wf(),
        sound(g, s, m),
        crate::soundness::registers_ok(g, s, m),
        meaning(g, text, s),
        edge_ok(s.sppf, s.nodes, e),
        pair_ok(s.sppf, s.nodes, (e.0, z)),
        edge_means(g, text, s.nodes, e),
        pair_means(g, text, s.sppf, s.nodes, (e.0, z)),
        edge_kind(g, s.sppf, s.nodes, e),
        pair_kind(g, s.sppf, s.nodes, (e.0, z)),
        node_p_of(g, s, e, z).0.len() <= usize::MAX,
    ensures
        meaning(g, text, delivered(g, s, e, z)),
{
    let l = s.nodes[e.0 as int].0;
    let (a, y) = node_p_of(g, s, e, z);
    let i = s.sppf[z as int].right();
    lemma_delivery_derives(g, text, s, m, e, z);
    lemma_deliver_joinable(g, s, m, e, z);
    crate::sppf::lemma_node_p(g, s.sppf, l, e.2, z, m);
    lemma_node_p_means(g, text, s.sppf, l, e.2, z, m);
    assert(framed(g, s.nodes, callee(g, s.nodes, e.1), s.nodes[e.1 as int].1));
    lemma_node_p_framed(g, s.sppf, s.nodes, l, e.2, z);
    let s1 = StateView { sppf: a, ..s };
    lemma_meaning_grows(g, text, s, s1, m);
    let _ = s.nodes[e.0 as int];
    let _ = s.sppf[z as int];
    assert(desc_kind(g, a, s.nodes, (l, e.1, i, y)));
    lemma_schedule_means(g, text, s1, l, e.1, i, y);
}

/// Deliveries never shrink the forest.
pub proof fn lemma_deliver_len(
    g: GrammarView,
    s: StateView,
    l: Label,
    i: usize,
    z: usize,
    out: Seq<(usize, usize)>,
)
    ensures
        s.sppf.len() <= crate::model::deliver(g, s, l, i, z, out).sppf.len(),
    decreases out.len(),
{
    if out.len() > 0 {
        let (a, y) = node_p(g, s.sppf, l, out[0].1, z);
        crate::sppf::lemma_node_p_len(g, s.sppf, l, out[0].1, z);
        lemma_deliver_len(
            g,
            schedule(StateView { sppf: a, ..s }, l, out[0].0, i, y),
            l,
            i,
            z,
            out.drop_first(),
        );
    }
}

/// Delivering a popped node that stands for a derivation along edges that
/// do so too keeps the meaning of the state.
pub proof fn lemma_deliver_means(
    g: GrammarView,
    text: Seq<u8>,
    s: StateView,
    m: usize,
    u: usize,
    z: usize,
    out: Seq<(usize, usize)>,
)
    requires
        g.wf(),
        sound(g, s, m),
        crate::soundness::registers_ok(g, s, m),
        meaning(g, text, s),
        pair_ok(s.sppf, s.nodes, (u, z)),
        pair_means(g, text, s.sppf, s.nodes, (u, z)),
        pair_kind(g, s.sppf, s.nodes, (u, z)),
        forall|j: int|
            0 <= j < out.len() ==> edge_ok(s.sppf, s.nodes, (u, (#[trigger] out[j]).0, out[j].1))
                && edge_means(g, text, s.nodes, (u, out[j].0, out[j].1)) && edge_kind(
                g,
                s.sppf,
                s.nodes,
                (u, out[j].0, out[j].1),
            ),
        crate::model::deliver(
            g,
            s,
            s.nodes[u as int].0,
            s.sppf[z as int].right(),
            z,
            out,
        ).sppf.len() <= usize::MAX,
    ensures
        meaning(
            g,
            text,
            crate::model::deliver(g, s, s.nodes[u as int].0, s.sppf[z as int].right(), z, out),
        ),
    decreases out.len(),
{
    if out.len() > 0 {
        let l = s.nodes[u as int].0;
        let i = s.sppf[z as int].right();
        let e = (u, out[0].0, out[0].1);
        let s1 = delivered(g, s, e, z);
        let rest = out.drop_first();
        lemma_deliver_len(g, s1, l, i, z, rest);
        assert(crate::soundness::pop_closed(
            g,
            s.sppf,
            s.nodes,
            Seq::<(usize, usize, usize)>::empty(),
            s.visited,
            Seq::<(usize, usize)>::empty(),
        ));
        crate::soundness::lemma_delivery(
            g,
            s,
            m,
            e,
            z,
            Seq::<(usize, usize, usize)>::empty(),
            Seq::<(usize, usize)>::empty(),
        );
        lemma_delivery_means(g, text, s, m, e, z);
        crate::soundness::lemma_registers_grow(g, s, s1, m);
        lemma_pair_means_grows(g, text, s.sppf, s.nodes, s1.sppf, s1.nodes, (u, z));
        lemma_pair_kind_grows(g, s.sppf, s.nodes, s1.sppf, s1.nodes, (u, z));
        assert forall|j: int| 0 <= j < rest.len() implies edge_ok(
            s1.sppf,
            s1.nodes,
            (u, (#[trigger] rest[j]).0, rest[j].1),
        ) && edge_means(g, text, s1.nodes, (u, rest[j].0, rest[j].1)) && edge_kind(
            g,
            s1.sppf,
            s1.nodes,
            (u, rest[j].0, rest[j].1),
        ) by {
            assert(rest[j] == out[j + 1]);
            lemma_edge_means_grows(g, text, s.nodes, s1.nodes, (u, out[j + 1].0, out[j + 1].1));
            lemma_edge_kind_grows(
                g,
                s.sppf,
                s.nodes,
                s1.sppf,
                s1.nodes,
                (u, out[j + 1].0, out[j + 1].1),
            );
        }
        assert(s1.nodes[u as int] == s.nodes[u as int]);
        lemma_deliver_means(g, text, s1, m, u, z, rest);
    }
}

/// Remembering a sound popped pair keeps the state sound.
pub proof fn lemma_remember(g: GrammarView, s: StateView, m: usize, pr: (usize, usize))
    requires
        sound(g, s, m),
        pair_ok(s.sppf, s.nodes, pr),
    ensures
        sound(g, remembered(s, pr), m),
        crate::soundness::grows(s, remembered(s, pr)),
        remembered(s, pr).popped.contains(pr),
{
    let t = remembered(s, pr);
    crate::soundness::lemma_grows_refl(s);
    if !s.popped.contains(pr) {
        assert(t.popped[s.popped.len() as int] == pr);
        assert forall|k: int| 0 <= k < t.popped.len() implies pair_ok(
            t.sppf,
            t.nodes,
            #[trigger] t.popped[k],
        ) by {
            if k < s.popped.len() {
                let _ = s.popped[k];
            }
        }
        assert forall|t1: int, t2: int| 0 <= t1 < t2 < t.popped.len() implies #[trigger] t.popped[t1]
            != #[trigger] t.popped[t2] by {
            if t2 == s.popped.len() {
                assert(s.popped[t1] == t.popped[t1]);
                assert(s.popped.contains(s.popped[t1]));
            } else {
                let _ = s.popped[t1];
                let _ = s.popped[t2];
            }
        }
    }
}

/// The state after a popped pair has been remembered.
pub open spec fn remembered(s: StateView, pr: (usize, usize)) -> StateView {
    StateView {
        popped: if s.popped.contains(pr) {
            s.popped
        } else {
            s.popped.push(pr)
        },
        ..s
    }
}

/// A return keeps the meaning of the state.
pub proof fn lemma_return_means(g: GrammarView, text: Seq<u8>, s: StateView, m: usize)
    requires
        g.wf(),
        crate::soundness::inv(g, s, m),
        meaning(g, text, s),
        s.label == Label::Ret,
        crate::model::pop_frame(g, s, s.node, s.position, s.sppf_node).sppf.len() <= usize::MAX,
    ensures
        meaning(
            g,
            text,
            StateView {
                label: Label::L0,
                ..crate::model::pop_frame(g, s, s.node, s.position, s.sppf_node)
            },
        ),
{
    let u = s.node;
    let z = s.sppf_node;
    if u != 0 {
        let _ = s.nodes[u as int];
        let s1 = remembered(s, (u, z));
        lemma_remember(g, s, m, (u, z));
        assert forall|i: int| 0 <= i < s1.popped.len() implies pair_means(
            g,
            text,
            s1.sppf,
            s1.nodes,
            #[trigger] s1.popped[i],
        ) by {
            if i < s.popped.len() {
                let _ = s.popped[i];
            }
        }
        assert forall|i: int| 0 <= i < s1.popped.len() implies pair_kind(
            g,
            s1.sppf,
            s1.nodes,
            #[trigger] s1.popped[i],
        ) by {
            if i < s.popped.len() {
                let _ = s.popped[i];
            }
        }
        assert(meaning(g, text, s1));
        let out = crate::gss::out_edges(s.edges, u);
        assert forall|j: int| 0 <= j < out.len() implies edge_ok(
            s1.sppf,
            s1.nodes,
            (u, (#[trigger] out[j]).0, out[j].1),
        ) && edge_means(g, text, s1.nodes, (u, out[j].0, out[j].1)) && edge_kind(
            g,
            s1.sppf,
            s1.nodes,
            (u, out[j].0, out[j].1),
        ) by {
            crate::gss::lemma_out_edges_sound(s.edges, u, j);
            let k = choose|k: int|
                0 <= k < s.edges.len() && #[trigger] s.edges[k] == (u, out[j].0, out[j].1);
            let _ = s.edges[k];
        }
        lemma_deliver_means(g, text, s1, m, u, z, out);
    }
}

/// Redeliveries never shrink the forest.
pub proof fn lemma_redeliver_len(
    g: GrammarView,
    s: StateView,
    l: Label,
    u: usize,
    w: usize,
    v: usize,
    popped: Seq<(usize, usize)>,
)
    ensures
        s.sppf.len() <= crate::model::redeliver(g, s, l, u, w, v, popped).sppf.len(),
    decreases popped.len(),
{
    if popped.len() > 0 {
        let z = popped[0].1;
        let s1 = if popped[0].0 == v {
            let (a, y) = node_p(g, s.sppf, l, w, z);
            crate::sppf::lemma_node_p_len(g, s.sppf, l, w, z);
            schedule(StateView { sppf: a, ..s }, l, u, a[z as int].right(), y)
        } else {
            s
        };
        lemma_redeliver_len(g, s1, l, u, w, v, popped.drop_first());
    }
}

/// Redelivering popped pairs that stand for derivations along an edge that
/// does so too keeps the meaning of the state.
pub proof fn lemma_redeliver_means(
    g: GrammarView,
    text: Seq<u8>,
    s: StateView,
    m: usize,
    e: (usize, usize, usize),
    popped: Seq<(usize, usize)>,
)
    requires
        g.wf(),
        sound(g, s, m),
        crate::soundness::registers_ok(g, s, m),
        meaning(g, text, s),
        edge_ok(s.sppf, s.nodes, e),
        edge_means(g, text, s.nodes, e),
        edge_kind(g, s.sppf, s.nodes, e),
        forall|i: int|
            0 <= i < popped.len() ==> pair_ok(s.sppf, s.nodes, #[trigger] popped[i]) && pair_means(
                g,
                text,
                s.sppf,
                s.nodes,
                popped[i],
            ) && pair_kind(g, s.sppf, s.nodes, popped[i]),
        crate::model::redeliver(g, s, s.nodes[e.0 as int].0, e.1, e.2, e.0, popped).sppf.len()
            <= usize::MAX,
    ensures
        meaning(
            g,
            text,
            crate::model::redeliver(g, s, s.nodes[e.0 as int].0, e.1, e.2, e.0, popped),
        ),
    decreases popped.len(),
{
    if popped.len() > 0 {
        let l = s.nodes[e.0 as int].0;
        let z = popped[0].1;
        let rest = popped.drop_first();
        let _ = popped[0];
        if popped[0].0 == e.0 {
            let (a, y) = node_p(g, s.sppf, l, e.2, z);
            let s1 = schedule(StateView { sppf: a, ..s }, l, e.1, a[z as int].right(), y);
            lemma_redeliver_len(g, s1, l, e.1, e.2, e.0, rest);
            lemma_deliver_joinable(g, s, m, e, z);
            crate::sppf::lemma_node_p(g, s.sppf, l, e.2, z, m);
            let _ = s.sppf[z as int];
            assert(a[z as int].right() == s.sppf[z as int].right());
            assert(s1 == delivered(g, s, e, z));
            assert(crate::soundness::pop_closed(
                g,
                s.sppf,
                s.nodes,
                Seq::<(usize, usize, usize)>::empty(),
                s.visited,
                Seq::<(usize, usize)>::empty(),
            ));
            crate::soundness::lemma_delivery(
                g,
                s,
                m,
                e,
                z,
                Seq::<(usize, usize, usize)>::empty(),
                Seq::<(usize, usize)>::empty(),
            );
            lemma_delivery_means(g, text, s, m, e, z);
            crate::soundness::lemma_registers_grow(g, s, s1, m);
            lemma_edge_means_grows(g, text, s.nodes, s1.nodes, e);
            lemma_edge_kind_grows(g, s.sppf, s.nodes, s1.sppf, s1.nodes, e);
            assert forall|i: int| 0 <= i < rest.len() implies pair_ok(
                s1.sppf,
                s1.nodes,
                #[trigger] rest[i],
            ) && pair_means(g, text, s1.sppf, s1.nodes, rest[i]) && pair_kind(
                g,
                s1.sppf,
                s1.nodes,
                rest[i],
            ) by {
                assert(rest[i] == popped[i + 1]);
                lemma_pair_means_grows(g, text, s.sppf, s.nodes, s1.sppf, s1.nodes, popped[i + 1]);
                lemma_pair_kind_grows(g, s.sppf, s.nodes, s1.sppf, s1.nodes, popped[i + 1]);
            }
            assert(s1.nodes[e.0 as int] == s.nodes[e.0 as int]);
            lemma_redeliver_means(g, text, s1, m, e, rest);
        } else {
            assert forall|i: int| 0 <= i < rest.len() implies pair_ok(
                s.sppf,
                s.nodes,
                #[trigger] rest[i],
            ) && pair_means(g, text, s.sppf, s.nodes, rest[i]) && pair_kind(
                g,
                s.sppf,
                s.nodes,
                rest[i],
            ) by {
                assert(rest[i] == popped[i + 1]);
            }
            lemma_redeliver_means(g, text, s, m, e, rest);
        }
    }
}

/// A call keeps the meaning of the state.
pub proof fn lemma_call_means(
    g: GrammarView,
    text: Seq<u8>,
    s: StateView,
    m: usize,
    p: usize,
    d: usize,
    x: usize,
)
    requires
        g.wf(),
        crate::soundness::inv(g, s, m),
        meaning(g, text, s),
        s.label == Label::Slot(p, d),
        d < g.rhs(p as int).len(),
        g.rhs(p as int)[d as int] == Symbol::Nonterminal(x),
        s.nodes.len() <= usize::MAX,
        crate::model::call(g, s, p, d, x).sppf.len() <= usize::MAX,
    ensures
        meaning(g, text, crate::model::call(g, s, p, d, x)),
{
    let l = Label::Slot(p, (d + 1) as usize);
    let u = s.node;
    let j = s.position;
    let w = s.sppf_node;
    assert(g.productions[p as int].wf(g.nonterminals));
    let found = crate::model::find_frame(s.nodes, l, j);
    let (nodes, v) = match found {
        Some(v) => (s.nodes, v),
        None => (s.nodes.push((l, j)), s.nodes.len() as usize),
    };
    let t1 = StateView { nodes, ..s };
    crate::soundness::lemma_create_frame(g, s, t1, m, l, j, v);
    crate::soundness::lemma_registers_grow(g, s, t1, m);
    crate::sppf::lemma_extends_refl(s.sppf);
    lemma_meaning_grows(g, text, s, t1, m);
    assert(callee(g, t1.nodes, v) == x);
    if crate::gss::has_edge(s.edges, v, u) {
    } else {
        let e = (v, u, w);
        let t2 = StateView { edges: s.edges.push(e), ..t1 };
        assert(t1.nodes[u as int] == s.nodes[u as int]);
        lemma_callee_grows(g, s.nodes, t1.nodes, u);
        crate::soundness::lemma_create_edge(g, t1, t2, m, e, j);
        crate::soundness::lemma_registers_grow(g, t1, t2, m);
        assert(edge_means(g, text, t2.nodes, e));
        assert(edge_kind(g, t2.sppf, t2.nodes, e));
        assert forall|k: int| 0 <= k < t2.edges.len() implies edge_means(
            g,
            text,
            t2.nodes,
            #[trigger] t2.edges[k],
        ) by {
            if k < t1.edges.len() {
                let _ = t1.edges[k];
            }
        }
        assert forall|k: int| 0 <= k < t2.edges.len() implies edge_kind(
            g,
            t2.sppf,
            t2.nodes,
            #[trigger] t2.edges[k],
        ) by {
            if k < t1.edges.len() {
                let _ = t1.edges[k];
            }
        }
        assert(meaning(g, text, t2));
        assert forall|i: int| 0 <= i < s.popped.len() implies pair_ok(
            t2.sppf,
            t2.nodes,
            #[trigger] s.popped[i],
        ) && pair_means(g, text, t2.sppf, t2.nodes, s.popped[i]) && pair_kind(
            g,
            t2.sppf,
            t2.nodes,
            s.popped[i],
        ) by {
            let _ = t2.popped[i];
        }
        assert(edge_ok(t2.sppf, t2.nodes, e)) by {
            let _ = t2.edges[t1.edges.len() as int];
        }
        lemma_redeliver_means(g, text, t2, m, e, s.popped);
        let t3 = crate::model::redeliver(g, t2, l, u, w, v, s.popped);
        lemma_redeliver_frames(g, t2, l, u, w, v, s.popped);
        assert(callee(g, t3.nodes, v) == x);
    }
}

/// Redeliveries leave the stack frames as they are.
pub proof fn lemma_redeliver_frames(
    g: GrammarView,
    s: StateView,
    l: Label,
    u: usize,
    w: usize,
    v: usize,
    popped: Seq<(usize, usize)>,
)
    ensures
        crate::model::redeliver(g, s, l, u, w, v, popped).nodes == s.nodes,
    decreases popped.len(),
{
    if popped.len() > 0 {
        let z = popped[0].1;
        let s1 = if popped[0].0 == v {
            let (a, y) = node_p(g, s.sppf, l, w, z);
            schedule(StateView { sppf: a, ..s }, l, u, a[z as int].right(), y)
        } else {
            s
        };
        lemma_redeliver_frames(g, s1, l, u, w, v, popped.drop_first());
    }
}

/// Scheduling the alternatives of a nonterminal keeps the meaning of the
/// state.
pub proof fn lemma_enter_means(
    g: GrammarView,
    text: Seq<u8>,
    s: StateView,
    m: usize,
    x: usize,
    b: u8,
    from: int,
)
    requires
        g.wf(),
        sound(g, s, m),
        crate::soundness::registers_ok(g, s, m),
        meaning(g, text, s),
        s.label == Label::Entry(x),
        0 <= from,
        g.productions.len() <= usize::MAX,
        b == byte_at(text, s.position),
    ensures
        meaning(g, text, crate::model::enter(g, s, x, b, from)),
    decreases g.productions.len() - from,
{
    if from < g.productions.len() {
        if g.productions[from].lhs == x && crate::model::admits(g, from, b) {
            let l = Label::Slot(from as usize, 0);
            let s1 = schedule(s, l, s.node, s.position, 0);
            crate::language::lemma_prefix_empty(g, text, from, s.position as int);
            assert(desc_ok(g, s.sppf, s.nodes, m, (l, s.node, s.position, 0usize)));
            crate::soundness::lemma_schedule(g, s, m, l, s.node, s.position, 0);
            lemma_schedule_means(g, text, s, l, s.node, s.position, 0);
            crate::soundness::lemma_registers_grow(g, s, s1, m);
            lemma_enter_means(g, text, s1, m, x, b, from + 1);
        } else {
            lemma_enter_means(g, text, s, m, x, b, from + 1);
        }
    }
}

/// Moving the dot over a terminal that the text holds keeps the meaning of
/// the state.
pub proof fn lemma_shift_means(
    g: GrammarView,
    text: Seq<u8>,
    s: StateView,
    m: usize,
    p: usize,
    d: usize,
    b: u8,
)
    requires
        g.wf(),
        crate::soundness::inv(g, s, m),
        meaning(g, text, s),
        s.label == Label::Slot(p, d),
        d < g.rhs(p as int).len(),
        g.rhs(p as int)[d as int] == Symbol::Terminal(b),
        s.position < m,
        s.position < text.len(),
        text[s.position as int] == b,
        crate::model::shift(g, s, p, d, b).sppf.len() <= usize::MAX,
    ensures
        meaning(g, text, crate::model::shift(g, s, p, d, b)),
{
    let x = Symbol::Terminal(b);
    let (a1, r) = node_t(s.sppf, x, s.position);
    let next = Label::Slot(p, (d + 1) as usize);
    let w = s.sppf_node;
    let (a2, y) = node_p(g, a1, next, w, r);
    let t = crate::model::shift(g, s, p, d, b);
    let pos = s.nodes[s.node as int].1;
    assert(g.productions[p as int].wf(g.nonterminals));
    crate::sppf::lemma_node_t_len(s.sppf, x, s.position);
    crate::sppf::lemma_node_p_len(g, a1, next, w, r);
    crate::sppf::lemma_node_t(s.sppf, x, s.position, m);
    crate::language::lemma_terminal(g, text, s.position as int);
    lemma_node_t_means(g, text, s.sppf, x, s.position, m);
    crate::soundness::lemma_shift_joinable(g, s, m, p, d, b);
    crate::soundness::lemma_prefix_grows(s.sppf, a1, d as int, w, pos, s.position);
    let before = choose|n: nat|
        crate::language::derives_prefix(g, text, p as int, d as int, pos as int, s.position as int, n);
    crate::language::lemma_prefix_within(
        g,
        text,
        p as int,
        d as int,
        pos as int,
        s.position as int,
        before,
    );
    lemma_prefix_extend(g, text, p as int, d as int, pos as int, s.position as int, s.position + 1);
    let key = container_key(g, a1, next, w, r);
    assert(key.left() == pos && key.right() == s.position + 1);
    assert(split_means(g, text, a1, next, w, r));
    lemma_node_p_means(g, text, a1, next, w, r, m);
    lemma_find_or_create_framed(
        g,
        s.sppf,
        s.nodes,
        Key::Symbol(x, s.position, (s.position + 1) as usize),
    );
    assert(framed(g, s.nodes, callee(g, s.nodes, s.node), pos));
    lemma_node_p_framed(g, a1, s.nodes, next, w, r);
    crate::sppf::lemma_node_p(g, a1, next, w, r, m);
    crate::sppf::lemma_extends_trans(s.sppf, a1, a2);
    let mid = StateView { sppf: a2, ..s };
    lemma_meaning_grows(g, text, s, mid, m);
}

/// Recognising an empty production keeps the meaning of the state.
pub proof fn lemma_reduce_means(g: GrammarView, text: Seq<u8>, s: StateView, m: usize, p: usize)
    requires
        g.wf(),
        crate::soundness::inv(g, s, m),
        meaning(g, text, s),
        s.label == Label::Slot(p, 0),
        g.rhs(p as int).len() == 0,
        crate::model::reduce_empty(g, s, p).sppf.len() <= usize::MAX,
    ensures
        meaning(g, text, crate::model::reduce_empty(g, s, p)),
{
    let x = Symbol::Eps;
    let (a1, r) = node_t(s.sppf, x, s.position);
    let l = Label::Slot(p, 0);
    let w = s.sppf_node;
    let (a2, y) = node_p(g, a1, l, w, r);
    let pos = s.nodes[s.node as int].1;
    crate::sppf::lemma_node_t_len(s.sppf, x, s.position);
    crate::sppf::lemma_node_p_len(g, a1, l, w, r);
    crate::sppf::lemma_node_t(s.sppf, x, s.position, m);
    crate::language::lemma_epsilon(g, text, s.position as int);
    lemma_node_t_means(g, text, s.sppf, x, s.position, m);
    crate::soundness::lemma_reduce_joinable(g, s, m, p);
    let key = container_key(g, a1, l, w, r);
    assert(key.left() == pos && key.right() == s.position);
    assert(split_means(g, text, a1, l, w, r));
    lemma_node_p_means(g, text, a1, l, w, r, m);
    lemma_find_or_create_framed(g, s.sppf, s.nodes, Key::Symbol(x, s.position, s.position));
    assert(framed(g, s.nodes, callee(g, s.nodes, s.node), pos));
    lemma_node_p_framed(g, a1, s.nodes, l, w, r);
    crate::sppf::lemma_node_p(g, a1, l, w, r, m);
    crate::sppf::lemma_extends_trans(s.sppf, a1, a2);
    let mid = StateView { sppf: a2, ..s };
    lemma_meaning_grows(g, text, s, mid, m);
}

/// One turn of the dispatcher keeps the meaning of the state, where `text`
/// is the input before its sentinel.
pub proof fn lemma_step_means(
    g: GrammarView,
    input: Seq<u8>,
    text: Seq<u8>,
    s: StateView,
    m: usize,
)
    requires
        g.wf(),
        crate::soundness::inv(g, s, m),
        meaning(g, text, s),
        input.len() == m + 1,
        input[m as int] == crate::grammar::SENTINEL,
        text == input.subrange(0, m as int),
        s.nodes.len() <= usize::MAX,
        g.productions.len() <= usize::MAX,
        crate::model::step(g, input, s).sppf.len() <= usize::MAX,
    ensures
        meaning(g, text, crate::model::step(g, input, s)),
{
    let b = input[s.position as int];
    match s.label {
        Label::L0 => {
            if s.todo.len() > 0 {
                let _ = s.todo[s.todo.len() - 1];
                let t = crate::model::step(g, input, s);
                assert forall|k: int| 0 <= k < t.todo.len() implies desc_means(
                    g,
                    text,
                    t.nodes,
                    #[trigger] t.todo[k],
                ) by {
                    let _ = s.todo[k];
                }
            }
        },
        Label::Ret => {
            lemma_return_means(g, text, s, m);
        },
        Label::Entry(x) => {
            lemma_enter_means(g, text, s, m, x, b, 0);
        },
        Label::Slot(p, d) => {
            assert(g.productions[p as int].wf(g.nonterminals));
            if d == g.rhs(p as int).len() {
                if d == 0 {
                    lemma_reduce_means(g, text, s, m, p);
                } else {
                    lemma_production(
                        g,
                        text,
                        p as int,
                        s.nodes[s.node as int].1 as int,
                        s.position as int,
                    );
                }
            } else {
                match g.rhs(p as int)[d as int] {
                    Symbol::Nonterminal(x) => {
                        if d == 0 || g.productions[p as int].lookahead[d as int].contains(b) {
                            lemma_call_means(g, text, s, m, p, d, x);
                        }
                    },
                    Symbol::Terminal(t) => {
                        if t == b {
                            assert(s.position != m);
                            lemma_shift_means(g, text, s, m, p, d, b);
                        }
                    },
                    Symbol::Eps => {},
                }
            }
        },
    }
}

/// Before the first turn the state has its meaning: there is nothing in it
/// but the entry of the start symbol at the initial frame.
pub proof fn lemma_initial_means(g: GrammarView, text: Seq<u8>, n: nat)
    ensures
        meaning(g, text, crate::model::initial(g, n)),
{
}

/// If the forest of a state with its meaning holds the node of the start
/// symbol over all of the text, the text is a sentence.
pub proof fn lemma_root_means(g: GrammarView, text: Seq<u8>, a: Seq<NodeView>, root: usize)
    requires
        forest_means(g, text, a),
        root < a.len(),
        text.len() <= usize::MAX,
        node_key(a[root as int]) == Some(
            Key::Symbol(Symbol::Nonterminal(g.start), 0, text.len() as usize),
        ),
    ensures
        crate::language::is_sentence(g, text),
{
    let _ = a[root as int];
}

} // verus!
