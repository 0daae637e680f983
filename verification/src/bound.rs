//! How large a parse can grow.
//!
//! Symbol and intermediate nodes are unique by their key, packed nodes by
//! their container, label and pivot, stack frames by label and position,
//! and the descriptors recorded at a position by their three parts. Each of
//! these is numbered within a finite range, so each collection is bounded
//! by the size of the grammar and the length of the input.

use crate::grammar::GrammarView;
use crate::grammar::Label;
use crate::grammar::Symbol;
use crate::model::StateView;
use crate::progress::credit;
use crate::progress::recorded_upto;
use crate::soundness::frames_ok;
use crate::soundness::sound;
use crate::sppf::Key;
use crate::sppf::NodeView;
use crate::sppf::forest_wf;
use crate::sppf::is_parent;
use crate::sppf::labels_ok;
use crate::sppf::node_key;
use crate::sppf::packed_ok;
use vstd::prelude::*;

verus! {

/// The set of the first `n` values of `code`.
pub open spec fn image(code: spec_fn(int) -> int, n: int) -> Set<int>
    decreases n,
{
    if n <= 0 {
        Set::empty()
    } else {
        image(code, n - 1).insert(code(n - 1))
    }
}

/// The first `n` values of an injective numbering form a set of `n`
/// numbers.
proof fn lemma_image(code: spec_fn(int) -> int, n: int, k: int)
    requires
        0 <= n,
        forall|i: int| 0 <= i < n ==> 0 <= #[trigger] code(i) < k,
        forall|i: int, j: int| 0 <= i < j < n ==> #[trigger] code(i) != #[trigger] code(j),
    ensures
        image(code, n).finite(),
        image(code, n).len() == n,
        forall|c: int| #[trigger]
            image(code, n).contains(c) ==> 0 <= c < k && exists|i: int|
                0 <= i < n && #[trigger] code(i) == c,
    decreases n,
{
    if n > 0 {
        lemma_image(code, n - 1, k);
        let prev = image(code, n - 1);
        if prev.contains(code(n - 1)) {
            let i = choose|i: int| 0 <= i < n - 1 && #[trigger] code(i) == code(n - 1);
            assert(code(i) != code(n - 1));
        }
        assert forall|c: int| #[trigger] image(code, n).contains(c) implies 0 <= c < k && exists|
            i: int,
        |
            0 <= i < n && #[trigger] code(i) == c by {
            if c == code(n - 1) {
            } else {
                assert(prev.contains(c));
                let i = choose|i: int| 0 <= i < n - 1 && #[trigger] code(i) == c;
                assert(0 <= i < n && code(i) == c);
            }
        }
    }
}

/// No more than `k` things can be numbered differently within `0..k`.
pub proof fn lemma_pigeonhole(code: spec_fn(int) -> int, n: int, k: int)
    requires
        0 <= n,
        0 <= k,
        forall|i: int| 0 <= i < n ==> 0 <= #[trigger] code(i) < k,
        forall|i: int, j: int| 0 <= i < j < n ==> #[trigger] code(i) != #[trigger] code(j),
    ensures
        n <= k,
{
    lemma_image(code, n, k);
    if n > 0 {
        assert(0 <= code(0) < k);
        vstd::set_lib::lemma_int_range(0, k);
        assert(image(code, n).subset_of(vstd::set_lib::set_int_range(0, k)));
        vstd::set_lib::lemma_len_subset(image(code, n), vstd::set_lib::set_int_range(0, k));
    }
}

/// The number of the pair `(a, b)` among pairs whose second part is below
/// `width`.
pub open spec fn pair_code(a: int, b: int, width: int) -> int {
    a * width + b
}

/// Pairs within a range are numbered within the product of the ranges.
pub proof fn lemma_pair_range(a: int, b: int, count: int, width: int)
    requires
        0 <= a < count,
        0 <= b < width,
    ensures
        0 <= pair_code(a, b, width) < count * width,
{
    assert(0 <= a * width + b < count * width) by (nonlinear_arith)
        requires
            0 <= a < count,
            0 <= b < width,
    ;
}

/// Different pairs have different numbers.
pub proof fn lemma_pair_injective(a: int, b: int, a2: int, b2: int, width: int)
    requires
        0 <= b < width,
        0 <= b2 < width,
        pair_code(a, b, width) == pair_code(a2, b2, width),
    ensures
        a == a2,
        b == b2,
{
    assert(a == a2) by (nonlinear_arith)
        requires
            0 <= b < width,
            0 <= b2 < width,
            a * width + b == a2 * width + b2,
    ;
}

/// The largest length of a right-hand side among the first `n` productions.
pub open spec fn max_rhs(g: GrammarView, n: int) -> int
    decreases n,
{
    if n <= 0 {
        0
    } else if g.rhs(n - 1).len() > max_rhs(g, n - 1) {
        g.rhs(n - 1).len() as int
    } else {
        max_rhs(g, n - 1)
    }
}

/// No right-hand side is longer than the largest.
pub proof fn lemma_max_rhs(g: GrammarView, n: int, p: int)
    requires
        0 <= p < n,
    ensures
        g.rhs(p).len() <= max_rhs(g, n),
        0 <= max_rhs(g, n),
    decreases n,
{
    if p < n - 1 {
        lemma_max_rhs(g, n - 1, p);
    } else if n - 1 > 0 {
        lemma_max_rhs(g, n - 1, 0);
    }
}

/// The number of dot positions that one production can have at most.
pub open spec fn dots(g: GrammarView) -> int {
    max_rhs(g, g.productions.len() as int) + 1
}

/// A bound on the number of dot positions of the grammar.
pub open spec fn label_count(g: GrammarView) -> int {
    g.productions.len() * dots(g)
}

/// The number of a dot position.
pub open spec fn label_code(g: GrammarView, l: Label) -> int {
    match l {
        Label::Slot(p, d) => pair_code(p as int, d as int, dots(g)),
        _ => 0,
    }
}

/// Dot positions are numbered below the label count.
pub proof fn lemma_label_range(g: GrammarView, l: Label)
    requires
        g.is_slot(l),
    ensures
        0 <= label_code(g, l) < label_count(g),
        0 < dots(g),
{
    if let Label::Slot(p, d) = l {
        lemma_max_rhs(g, g.productions.len() as int, p as int);
        lemma_pair_range(p as int, d as int, g.productions.len() as int, dots(g));
    }
}

/// Different dot positions have different numbers.
pub proof fn lemma_label_injective(g: GrammarView, l: Label, l2: Label)
    requires
        g.is_slot(l),
        g.is_slot(l2),
        label_code(g, l) == label_code(g, l2),
    ensures
        l == l2,
{
    if let Label::Slot(p, d) = l {
        if let Label::Slot(p2, d2) = l2 {
            lemma_max_rhs(g, g.productions.len() as int, p as int);
            lemma_max_rhs(g, g.productions.len() as int, p2 as int);
            lemma_pair_injective(p as int, d as int, p2 as int, d2 as int, dots(g));
        }
    }
}

/// The number of symbols: 256 terminals, the nonterminals, and epsilon.
pub open spec fn symbol_count(g: GrammarView) -> int {
    257 + g.nonterminals
}

/// The number of a symbol.
pub open spec fn symbol_code(g: GrammarView, x: Symbol) -> int {
    match x {
        Symbol::Terminal(b) => b as int,
        Symbol::Nonterminal(y) => 256 + y,
        Symbol::Eps => 256 + g.nonterminals,
    }
}

/// What a key is about, numbered: a symbol, or behind the symbols a label.
pub open spec fn tag_code(g: GrammarView, k: Key) -> int {
    match k {
        Key::Symbol(x, _, _) => symbol_code(g, x),
        Key::Intermediate(l, _, _) => symbol_count(g) + label_code(g, l),
    }
}

/// The number of things that a key can be about.
pub open spec fn tag_count(g: GrammarView) -> int {
    symbol_count(g) + label_count(g)
}

/// The number of a key over positions `0..=m`.
pub open spec fn key_code(g: GrammarView, m: usize, k: Key) -> int {
    pair_code(pair_code(tag_code(g, k), k.left() as int, m + 1), k.right() as int, m + 1)
}

/// The number of keys over positions `0..=m`.
pub open spec fn key_count(g: GrammarView, m: usize) -> int {
    (tag_count(g) * (m + 1)) * (m + 1)
}

/// The label count is not negative.
pub proof fn lemma_label_count(g: GrammarView)
    ensures
        0 <= label_count(g),
        0 < dots(g),
{
    if g.productions.len() > 0 {
        lemma_max_rhs(g, g.productions.len() as int, 0);
    }
    assert(0 <= g.productions.len() * dots(g)) by (nonlinear_arith)
        requires
            0 <= g.productions.len(),
            0 <= dots(g),
    ;
}

/// Known keys within the input are numbered below the key count.
pub proof fn lemma_key_range(g: GrammarView, m: usize, k: Key)
    requires
        k.valid(m),
        k.known(g),
    ensures
        0 <= key_code(g, m, k) < key_count(g, m),
{
    lemma_label_count(g);
    match k {
        Key::Symbol(_, _, _) => {},
        Key::Intermediate(l, _, _) => {
            lemma_label_range(g, l);
        },
    }
    lemma_pair_range(tag_code(g, k), k.left() as int, tag_count(g), m + 1);
    lemma_pair_range(
        pair_code(tag_code(g, k), k.left() as int, m + 1),
        k.right() as int,
        tag_count(g) * (m + 1),
        m + 1,
    );
}

/// Different keys have different numbers.
pub proof fn lemma_key_injective(g: GrammarView, m: usize, k: Key, k2: Key)
    requires
        k.valid(m),
        k.known(g),
        k2.valid(m),
        k2.known(g),
        key_code(g, m, k) == key_code(g, m, k2),
    ensures
        k == k2,
{
    lemma_label_count(g);
    lemma_pair_injective(
        pair_code(tag_code(g, k), k.left() as int, m + 1),
        k.right() as int,
        pair_code(tag_code(g, k2), k2.left() as int, m + 1),
        k2.right() as int,
        m + 1,
    );
    lemma_pair_injective(
        tag_code(g, k),
        k.left() as int,
        tag_code(g, k2),
        k2.left() as int,
        m + 1,
    );
    match k {
        Key::Symbol(_, _, _) => {
            if let Key::Intermediate(l2, _, _) = k2 {
                lemma_label_range(g, l2);
            }
        },
        Key::Intermediate(l, _, _) => {
            lemma_label_range(g, l);
            if let Key::Intermediate(l2, _, _) = k2 {
                lemma_label_range(g, l2);
                lemma_label_injective(g, l, l2);
            }
        },
    }
}

/// A product of counts is not negative.
pub proof fn lemma_product(a: int, b: int)
    requires
        0 <= a,
        0 <= b,
    ensures
        0 <= a * b,
{
    assert(0 <= a * b) by (nonlinear_arith)
        requires
            0 <= a,
            0 <= b,
    ;
}

/// The number of keys is not negative.
pub proof fn lemma_key_count(g: GrammarView, m: usize)
    ensures
        0 <= key_count(g, m),
        0 <= tag_count(g),
{
    lemma_label_count(g);
    lemma_product(tag_count(g), m + 1);
    lemma_product(tag_count(g) * (m + 1), m + 1);
}

/// A container that lists packed node `c`.
pub open spec fn parent_of(a: Seq<NodeView>, c: int) -> int {
    choose|y: int| is_parent(a, y, c)
}

/// The number of packed nodes that containers over `0..=m` can have.
pub open spec fn packed_count(g: GrammarView, m: usize) -> int {
    (key_count(g, m) * label_count(g)) * (m + 1)
}

/// The number of a packed node with label `l` and pivot `k` under a
/// container with key `parent`.
pub open spec fn packed_code(g: GrammarView, m: usize, parent: Key, l: Label, k: usize) -> int {
    pair_code(
        pair_code(key_code(g, m, parent), label_code(g, l), label_count(g)),
        k as int,
        m + 1,
    )
}

/// A bound on the number of nodes of a forest over positions `0..=m`: the
/// dummy node, one container per key, and one packed node per container,
/// label and pivot.
pub open spec fn forest_bound(g: GrammarView, m: usize) -> int {
    1 + key_count(g, m) + packed_count(g, m)
}

/// The number of node `i` of forest `a`.
pub open spec fn node_code(g: GrammarView, m: usize, a: Seq<NodeView>, i: int) -> int {
    match a[i] {
        NodeView::Dummy => 0,
        NodeView::Packed(l, k, _) => 1 + key_count(g, m) + packed_code(
            g,
            m,
            node_key(a[parent_of(a, i)]).unwrap(),
            l,
            k,
        ),
        _ => 1 + key_code(g, m, node_key(a[i]).unwrap()),
    }
}

/// The key of a container of a well-formed forest is valid and known.
proof fn lemma_container_key(g: GrammarView, m: usize, a: Seq<NodeView>, i: int)
    requires
        forest_wf(a, m),
        labels_ok(g, a),
        0 <= i < a.len(),
        a[i].is_container(),
    ensures
        node_key(a[i]).unwrap().valid(m),
        node_key(a[i]).unwrap().known(g),
        0 <= key_code(g, m, node_key(a[i]).unwrap()) < key_count(g, m),
{
    lemma_key_range(g, m, node_key(a[i]).unwrap());
}

/// A packed node of a well-formed forest lies under its parent, which is a
/// container; its label is a dot position and its pivot lies in the input.
proof fn lemma_packed_parent(g: GrammarView, m: usize, a: Seq<NodeView>, c: int)
    requires
        forest_wf(a, m),
        labels_ok(g, a),
        0 <= c < a.len(),
        a[c] is Packed,
        a.len() <= usize::MAX,
    ensures
        is_parent(a, parent_of(a, c), c),
        packed_ok(a, parent_of(a, c), c as usize),
        a[c] matches NodeView::Packed(l, k, _) && g.is_slot(l) && k <= m,
        0 <= node_code(g, m, a, c) - 1 - key_count(g, m) < packed_count(g, m),
{
    let y = parent_of(a, c);
    assert(is_parent(a, y, c));
    let kids = a[y].children();
    let j = choose|j: int| 0 <= j < kids.len() && kids[j] == c as usize;
    assert(packed_ok(a, y, a[y].children()[j]));
    if let NodeView::Packed(l, k, sub) = a[c] {
        let z = sub.last();
        lemma_container_key(g, m, a, z as int);
        lemma_container_key(g, m, a, y);
        lemma_label_range(g, l);
        lemma_key_count(g, m);
        let kc = key_code(g, m, node_key(a[y]).unwrap());
        lemma_pair_range(kc, label_code(g, l), key_count(g, m), label_count(g));
        lemma_pair_range(
            pair_code(kc, label_code(g, l), label_count(g)),
            k as int,
            key_count(g, m) * label_count(g),
            m + 1,
        );
    }
}

/// A well-formed forest over positions `0..=m` whose labels are those of
/// `g` has no more nodes than the forest bound.
pub proof fn lemma_forest_bound(g: GrammarView, a: Seq<NodeView>, m: usize)
    requires
        forest_wf(a, m),
        labels_ok(g, a),
        a.len() <= usize::MAX,
    ensures
        a.len() <= forest_bound(g, m),
{
    let code = |i: int| node_code(g, m, a, i);
    lemma_key_count(g, m);
    lemma_label_count(g);
    lemma_product(key_count(g, m), label_count(g));
    lemma_product(key_count(g, m) * label_count(g), m + 1);
    assert forall|i: int| 0 <= i < a.len() implies 0 <= #[trigger] code(i) < forest_bound(g, m) by {
        lemma_code_range(g, m, a, i);
    }
    assert forall|i: int, j: int| 0 <= i < j < a.len() implies #[trigger] code(i) != #[trigger] code(
        j,
    ) by {
        lemma_code_injective(g, m, a, i, j);
    }
    lemma_pigeonhole(code, a.len() as int, forest_bound(g, m));
}

/// Every node is numbered below the forest bound: the dummy node is 0,
/// containers come next, packed nodes last.
proof fn lemma_code_range(g: GrammarView, m: usize, a: Seq<NodeView>, i: int)
    requires
        forest_wf(a, m),
        labels_ok(g, a),
        0 <= i < a.len(),
        a.len() <= usize::MAX,
    ensures
        0 <= node_code(g, m, a, i) < forest_bound(g, m),
        a[i] is Dummy <==> node_code(g, m, a, i) == 0,
        a[i].is_container() <==> 1 <= node_code(g, m, a, i) <= key_count(g, m),
{
    lemma_key_count(g, m);
    lemma_label_count(g);
    lemma_product(key_count(g, m), label_count(g));
    lemma_product(key_count(g, m) * label_count(g), m + 1);
    if a[i].is_container() {
        lemma_container_key(g, m, a, i);
    } else if a[i] is Packed {
        lemma_packed_parent(g, m, a, i);
        if let NodeView::Packed(l, k, sub) = a[i] {
            let y = parent_of(a, i);
            lemma_container_key(g, m, a, y);
            lemma_label_range(g, l);
            let kc = key_code(g, m, node_key(a[y]).unwrap());
            lemma_pair_range(kc, label_code(g, l), key_count(g, m), label_count(g));
            lemma_pair_range(
                pair_code(kc, label_code(g, l), label_count(g)),
                k as int,
                key_count(g, m) * label_count(g),
                m + 1,
            );
        }
    }
}

/// Different nodes have different numbers.
proof fn lemma_code_injective(g: GrammarView, m: usize, a: Seq<NodeView>, i: int, j: int)
    requires
        forest_wf(a, m),
        labels_ok(g, a),
        0 <= i < j < a.len(),
        a.len() <= usize::MAX,
    ensures
        node_code(g, m, a, i) != node_code(g, m, a, j),
{
    lemma_code_range(g, m, a, i);
    lemma_code_range(g, m, a, j);
    if a[i].is_container() && a[j].is_container() {
        lemma_container_key(g, m, a, i);
        lemma_container_key(g, m, a, j);
        if key_code(g, m, node_key(a[i]).unwrap()) == key_code(g, m, node_key(a[j]).unwrap()) {
            lemma_key_injective(g, m, node_key(a[i]).unwrap(), node_key(a[j]).unwrap());
        }
    } else if a[i] is Packed && a[j] is Packed {
        if node_code(g, m, a, i) == node_code(g, m, a, j) {
            lemma_packed_parent(g, m, a, i);
            lemma_packed_parent(g, m, a, j);
            let y1 = parent_of(a, i);
            let y2 = parent_of(a, j);
            lemma_container_key(g, m, a, y1);
            lemma_container_key(g, m, a, y2);
            if let NodeView::Packed(l1, k1, _) = a[i] {
                if let NodeView::Packed(l2, k2, _) = a[j] {
                    let kc1 = key_code(g, m, node_key(a[y1]).unwrap());
                    let kc2 = key_code(g, m, node_key(a[y2]).unwrap());
                    lemma_label_range(g, l1);
                    lemma_label_range(g, l2);
                    lemma_pair_injective(
                        pair_code(kc1, label_code(g, l1), label_count(g)),
                        k1 as int,
                        pair_code(kc2, label_code(g, l2), label_count(g)),
                        k2 as int,
                        m + 1,
                    );
                    lemma_pair_injective(
                        kc1,
                        label_code(g, l1),
                        kc2,
                        label_code(g, l2),
                        label_count(g),
                    );
                    lemma_key_injective(g, m, node_key(a[y1]).unwrap(), node_key(a[y2]).unwrap());
                    lemma_label_injective(g, l1, l2);
                    assert(y1 == y2) by {
                        if y1 < y2 {
                            assert(node_key(a[y1]) != node_key(a[y2]));
                        }
                        if y2 < y1 {
                            assert(node_key(a[y2]) != node_key(a[y1]));
                        }
                    }
                    let kids = a[y1].children();
                    let j1 = choose|t: int| 0 <= t < kids.len() && kids[t] == i as usize;
                    let j2 = choose|t: int| 0 <= t < kids.len() && kids[t] == j as usize;
                    if j1 < j2 {
                        let _ = a[y1].children()[j1];
                        let _ = a[y1].children()[j2];
                        assert(false);
                    } else {
                        let _ = a[y1].children()[j2];
                        let _ = a[y1].children()[j1];
                        assert(false);
                    }
                }
            }
        }
    }
}

/// A bound on the number of stack frames over positions `0..=m`: the
/// initial frame, and one per dot position and input position.
pub open spec fn frame_bound(g: GrammarView, m: usize) -> int {
    1 + label_count(g) * (m + 1)
}

/// The number of frame `v`.
pub open spec fn frame_code(g: GrammarView, m: usize, nodes: Seq<(Label, usize)>, v: int) -> int {
    if v == 0 {
        0
    } else {
        1 + pair_code(label_code(g, nodes[v].0), nodes[v].1 as int, m + 1)
    }
}

/// A sound stack over positions `0..=m` has no more frames than the frame
/// bound.
pub proof fn lemma_frame_bound(g: GrammarView, nodes: Seq<(Label, usize)>, m: usize)
    requires
        frames_ok(g, nodes, m),
    ensures
        nodes.len() <= frame_bound(g, m),
        0 <= frame_bound(g, m),
{
    let code = |v: int| frame_code(g, m, nodes, v);
    lemma_label_count(g);
    lemma_product(label_count(g), m + 1);
    assert forall|v: int| 0 <= v < nodes.len() implies 0 <= #[trigger] code(v) < frame_bound(
        g,
        m,
    ) by {
        if v > 0 {
            let _ = nodes[v];
            lemma_label_range(g, nodes[v].0);
            lemma_pair_range(label_code(g, nodes[v].0), nodes[v].1 as int, label_count(g), m + 1);
        }
    }
    assert forall|i: int, j: int| 0 <= i < j < nodes.len() implies #[trigger] code(i)
        != #[trigger] code(j) by {
        let _ = nodes[j];
        lemma_label_range(g, nodes[j].0);
        lemma_pair_range(label_code(g, nodes[j].0), nodes[j].1 as int, label_count(g), m + 1);
        if i > 0 && code(i) == code(j) {
            let _ = nodes[i];
            lemma_pair_injective(
                label_code(g, nodes[i].0),
                nodes[i].1 as int,
                label_code(g, nodes[j].0),
                nodes[j].1 as int,
                m + 1,
            );
            lemma_label_injective(g, nodes[i].0, nodes[j].0);
            assert(nodes[i] == nodes[j]);
        }
    }
    lemma_pigeonhole(code, nodes.len() as int, frame_bound(g, m));
}

/// A bound on the number of descriptors recorded at one position: one per
/// dot position, frame and forest node.
pub open spec fn record_bound(g: GrammarView, m: usize) -> int {
    (label_count(g) * frame_bound(g, m)) * forest_bound(g, m)
}

/// The number of a recorded descriptor.
pub open spec fn record_code(g: GrammarView, m: usize, e: (Label, usize, usize)) -> int {
    pair_code(
        pair_code(label_code(g, e.0), e.1 as int, frame_bound(g, m)),
        e.2 as int,
        forest_bound(g, m),
    )
}

/// The record of one position of a sound state is no longer than the
/// record bound.
pub proof fn lemma_record_bound(g: GrammarView, s: StateView, m: usize, j: int)
    requires
        sound(g, s, m),
        s.sppf.len() <= usize::MAX,
        0 <= j < s.visited.len(),
    ensures
        s.visited[j].len() <= record_bound(g, m),
        0 <= record_bound(g, m),
{
    let rec = s.visited[j];
    let code = |t: int| record_code(g, m, rec[t]);
    lemma_label_count(g);
    lemma_frame_bound(g, s.nodes, m);
    lemma_forest_bound(g, s.sppf, m);
    lemma_product(label_count(g), frame_bound(g, m));
    lemma_product(label_count(g) * frame_bound(g, m), forest_bound(g, m));
    assert forall|t: int| 0 <= t < rec.len() implies {
        &&& g.is_slot((#[trigger] rec[t]).0)
        &&& rec[t].1 < frame_bound(g, m)
        &&& rec[t].2 < forest_bound(g, m)
    } by {
        let _ = s.visited[j][t];
    }
    assert forall|t: int| 0 <= t < rec.len() implies 0 <= #[trigger] code(t) < record_bound(
        g,
        m,
    ) by {
        let e = rec[t];
        lemma_label_range(g, e.0);
        lemma_pair_range(label_code(g, e.0), e.1 as int, label_count(g), frame_bound(g, m));
        lemma_pair_range(
            pair_code(label_code(g, e.0), e.1 as int, frame_bound(g, m)),
            e.2 as int,
            label_count(g) * frame_bound(g, m),
            forest_bound(g, m),
        );
    }
    assert forall|t1: int, t2: int| 0 <= t1 < t2 < rec.len() implies #[trigger] code(t1)
        != #[trigger] code(t2) by {
        let e1 = rec[t1];
        let e2 = rec[t2];
        assert(s.visited[j][t1] != s.visited[j][t2]);
        if code(t1) == code(t2) {
            lemma_pair_injective(
                pair_code(label_code(g, e1.0), e1.1 as int, frame_bound(g, m)),
                e1.2 as int,
                pair_code(label_code(g, e2.0), e2.1 as int, frame_bound(g, m)),
                e2.2 as int,
                forest_bound(g, m),
            );
            lemma_pair_injective(
                label_code(g, e1.0),
                e1.1 as int,
                label_code(g, e2.0),
                e2.1 as int,
                frame_bound(g, m),
            );
            lemma_label_injective(g, e1.0, e2.0);
        }
    }
    lemma_pigeonhole(code, rec.len() as int, record_bound(g, m));
}

/// A bound on the number of descriptors that a parse over positions
/// `0..=m` can schedule.
pub open spec fn descriptor_bound(g: GrammarView, m: usize) -> int {
    (m + 1) * record_bound(g, m)
}

/// The records of the first `n` positions of a sound state hold no more
/// than `n` times the record bound.
proof fn lemma_upto_bound(g: GrammarView, s: StateView, m: usize, n: int)
    requires
        sound(g, s, m),
        s.sppf.len() <= usize::MAX,
        0 <= n <= s.visited.len(),
    ensures
        recorded_upto(s.visited, n) <= n * record_bound(g, m),
    decreases n,
{
    if n > 0 {
        lemma_upto_bound(g, s, m, n - 1);
        lemma_record_bound(g, s, m, n - 1);
        assert((n - 1) * record_bound(g, m) + record_bound(g, m) == n * record_bound(g, m))
            by (nonlinear_arith);
    } else {
        assert(0 * record_bound(g, m) == 0);
    }
}

/// The credit of a sound state is at most twice the descriptor bound.
pub proof fn lemma_credit_bound(g: GrammarView, s: StateView, m: usize)
    requires
        sound(g, s, m),
        s.sppf.len() <= usize::MAX,
    ensures
        credit(s) <= 2 * descriptor_bound(g, m),
{
    lemma_upto_bound(g, s, m, s.visited.len() as int);
}

} // verus!
