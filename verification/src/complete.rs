//! Nothing is missed: once the dispatcher is at rest, every derivation of
//! the text has left its trace, so every sentence is accepted.

use crate::grammar::GrammarView;
use crate::grammar::Label;
use crate::grammar::SENTINEL;
use crate::grammar::Symbol;
use crate::history::at;
use crate::history::history;
use crate::history::lemma_at_next;
use crate::history::lemma_create_tracks;
use crate::history::lemma_enter_records;
use crate::history::lemma_enter_tracks;
use crate::history::lemma_history_grows;
use crate::history::lemma_pop_tracks;
use crate::history::lemma_recorded_seen;
use crate::history::sane;
use crate::history::seen;
use crate::history::seen_at;
use crate::language::cut;
use crate::language::derives;
use crate::language::derives_prefix;
use crate::language::is_sentence;
use crate::language::prefix_derivable;
use crate::model::StateView;
use crate::model::admits;
use crate::model::call;
use crate::model::halted;
use crate::model::root_key;
use crate::soundness::closed;
use crate::soundness::inv;
use crate::soundness::lemma_recorded_stays;
use crate::soundness::recorded;
use crate::sppf::find_node;
use crate::sppf::holds_packed;
use crate::sppf::node_key;
use vstd::prelude::*;

verus! {

/// The lookahead sets of the grammar prune nothing that the input needs:
/// the set at a dot inside a production holds every byte of the input, and
/// the first set of a production holds the byte at every position from
/// which the right-hand side derives a stretch of the text.
pub open spec fn conservative(g: GrammarView, input: Seq<u8>) -> bool {
    &&& forall|p: int, d: int, i: int|
        0 <= p < g.productions.len() && 1 <= d < g.rhs(p).len() && g.rhs(p)[d] is Nonterminal && 0
            <= i < input.len() ==> #[trigger] g.productions[p].lookahead[d].contains(input[i])
    &&& forall|q: int, i: int, j: int|
        0 <= q < g.productions.len() && g.rhs(q).len() > 0 && 0 <= i < input.len()
            && #[trigger] prefix_derivable(
            g,
            input.drop_last(),
            q,
            g.rhs(q).len() as int,
            i,
            j,
        ) ==> g.productions[q].lookahead[0].contains(input[i])
}

/// After `n` turns on `input`, whose last position is `m`, the dispatcher
/// is at rest, and every turn was sane.
pub open spec fn rested(g: GrammarView, input: Seq<u8>, m: usize, n: nat) -> bool {
    &&& g.wf()
    &&& g.productions.len() <= usize::MAX
    &&& input.len() == m + 1
    &&& input[m as int] == SENTINEL
    &&& history(g, input, m, n)
    &&& inv(g, at(g, input, n), m)
    &&& halted(at(g, input, n))
    &&& at(g, input, n).sppf.len() <= usize::MAX
}

/// A turn at which the dispatcher is not at rest is not the last one.
proof fn lemma_not_last(g: GrammarView, input: Seq<u8>, m: usize, n: nat, k: nat)
    requires
        rested(g, input, m, n),
        k <= n,
        !halted(at(g, input, k)),
    ensures
        k < n,
        sane(g, input, m, k),
        at(g, input, k + 1) == crate::model::step(g, input, at(g, input, k)),
        crate::soundness::grows(at(g, input, k), at(g, input, n)),
        crate::soundness::grows(at(g, input, k + 1), at(g, input, n)),
        inv(g, at(g, input, k + 1), m),
        at(g, input, k + 1).sppf.len() <= usize::MAX,
{
    lemma_at_next(g, input, k);
    lemma_history_grows(g, input, m, n, k);
    lemma_history_grows(g, input, m, n, k + 1);
    if k + 1 < n {
        assert(sane(g, input, m, k + 1));
    }
}

/// Within the first `n` turns the dispatcher has stood at label `l` with
/// frame `u` and position `i`, and the forest node it held there has, after
/// `n` turns, a packed child with label `l` and pivot `k`, unless `l` is a
/// first-child marker.
pub open spec fn seen_split(
    g: GrammarView,
    input: Seq<u8>,
    n: nat,
    l: Label,
    u: usize,
    i: usize,
    k: usize,
) -> bool {
    exists|t: nat, w: usize|
        t <= n && #[trigger] seen_at(g, input, t, l, u, i, w) && (g.first(l) || holds_packed(
            at(g, input, n).sppf,
            w,
            l,
            k,
        ))
}

/// What a call leaves behind: the entry of the called nonterminal is next,
/// at the same position; the current frame is the return frame, which is
/// not the initial one; and an edge leads from it to the caller.
pub proof fn lemma_call_effects(
    g: GrammarView,
    s: StateView,
    m: usize,
    p: usize,
    d: usize,
    x: usize,
)
    requires
        g.wf(),
        inv(g, s, m),
        s.label == Label::Slot(p, d),
        d < g.rhs(p as int).len(),
        g.rhs(p as int)[d as int] == Symbol::Nonterminal(x),
        s.nodes.len() <= usize::MAX,
    ensures
        call(g, s, p, d, x).label == Label::Entry(x),
        call(g, s, p, d, x).position == s.position,
        0 < call(g, s, p, d, x).node < call(g, s, p, d, x).nodes.len(),
        call(g, s, p, d, x).nodes[call(g, s, p, d, x).node as int] == (
            Label::Slot(p, (d + 1) as usize),
            s.position,
        ),
        crate::gss::has_edge(call(g, s, p, d, x).edges, call(g, s, p, d, x).node, s.node),
{
    let l = Label::Slot(p, (d + 1) as usize);
    assert(g.productions[p as int].wf(g.nonterminals));
    let (nodes, v) = match crate::model::find_frame(s.nodes, l, s.position) {
        Some(v) => (s.nodes, v),
        None => (s.nodes.push((l, s.position)), s.nodes.len() as usize),
    };
    let t1 = StateView { nodes, ..s };
    crate::soundness::lemma_create_frame(g, s, t1, m, l, s.position, v);
    lemma_create_tracks(g, s, l, s.node, s.position, s.sppf_node);
    if !crate::gss::has_edge(s.edges, v, s.node) {
        let t2 = StateView { edges: s.edges.push((v, s.node, s.sppf_node)), ..t1 };
        crate::history::lemma_redeliver_tracks(g, t2, l, s.node, s.sppf_node, v, s.popped);
    }
}

/// If a dot position before a terminal has been seen where the text holds
/// the terminal, the next dot position has been seen one byte on, with a
/// forest node that has a packed child for this step.
proof fn lemma_shifted(
    g: GrammarView,
    input: Seq<u8>,
    m: usize,
    n: nat,
    k: nat,
    p: usize,
    d: usize,
    u: usize,
    i: usize,
    w: usize,
    b: u8,
)
    requires
        rested(g, input, m, n),
        k <= n,
        seen_at(g, input, k, Label::Slot(p, d), u, i, w),
        d < g.rhs(p as int).len(),
        g.rhs(p as int)[d as int] == Symbol::Terminal(b),
        i < m,
        input[i as int] == b,
    ensures
        seen(g, input, n, Label::Slot(p, (d + 1) as usize), u, (i + 1) as usize),
        seen_split(g, input, n, Label::Slot(p, (d + 1) as usize), u, (i + 1) as usize, i),
{
    let f = at(g, input, n);
    let s = at(g, input, k);
    lemma_not_last(g, input, m, n, k);
    let t = at(g, input, k + 1);
    assert(g.productions[p as int].wf(g.nonterminals));
    let next = Label::Slot(p, (d + 1) as usize);
    assert(t == crate::model::shift(g, s, p, d, b));
    assert(seen_at(g, input, k + 1, next, u, (i + 1) as usize, t.sppf_node));
    let x = Symbol::Terminal(b);
    let (a1, r) = crate::sppf::node_t(s.sppf, x, i);
    crate::sppf::lemma_node_t_len(s.sppf, x, i);
    crate::sppf::lemma_node_p_len(g, a1, next, s.sppf_node, r);
    crate::sppf::lemma_node_t(s.sppf, x, i, m);
    crate::soundness::lemma_shift_joinable(g, s, m, p, d, b);
    crate::sppf::lemma_node_p(g, a1, next, s.sppf_node, r, m);
    let y = t.sppf_node;
    if !g.first(next) {
        crate::sppf::lemma_holds_packed(t.sppf, m, y, next, i);
        crate::sppf::lemma_holds_packed_grows(t.sppf, f.sppf, y, next, i);
    }
}

/// If a dot position before a nonterminal has been seen, the return frame
/// of the call exists at rest with an edge to the caller, and every
/// admitted alternative of the nonterminal has been started at that frame.
proof fn lemma_called(
    g: GrammarView,
    input: Seq<u8>,
    m: usize,
    n: nat,
    k: nat,
    p: usize,
    d: usize,
    u: usize,
    i: usize,
    w: usize,
    x: usize,
    q: int,
) -> (v: usize)
    requires
        rested(g, input, m, n),
        conservative(g, input),
        k <= n,
        seen_at(g, input, k, Label::Slot(p, d), u, i, w),
        d < g.rhs(p as int).len(),
        g.rhs(p as int)[d as int] == Symbol::Nonterminal(x),
        0 <= q < g.productions.len(),
        g.productions[q].lhs == x,
        admits(g, q, input[i as int]),
    ensures
        0 < v < at(g, input, n).nodes.len(),
        at(g, input, n).nodes[v as int] == (Label::Slot(p, (d + 1) as usize), i),
        crate::gss::has_edge(at(g, input, n).edges, v, u),
        seen(g, input, n, Label::Slot(q as usize, 0), v, i),
{
    let f = at(g, input, n);
    let s = at(g, input, k);
    lemma_not_last(g, input, m, n, k);
    let t = at(g, input, k + 1);
    assert(g.productions[p as int].wf(g.nonterminals));
    let b = input[i as int];
    assert(d == 0 || g.productions[p as int].lookahead[d as int].contains(input[i as int]));
    assert(t == call(g, s, p, d, x));
    lemma_call_effects(g, s, m, p, d, x);
    let v = t.node;
    lemma_not_last(g, input, m, n, k + 1);
    let r = at(g, input, k + 2);
    lemma_enter_records(g, t, x, b, 0, q);
    lemma_enter_tracks(g, t, x, b, 0);
    let start = Label::Slot(q as usize, 0);
    assert(recorded(r.visited, start, v, i, 0));
    lemma_recorded_stays(r, f, start, v, i, 0);
    lemma_recorded_seen(g, input, n, start, v, i, 0);
    let k1 = choose|k1: nat| k1 <= n && #[trigger] seen_at(g, input, k1, start, v, i, 0);
    assert(seen_at(g, input, k1, start, v, i, 0));
    assert(f.nodes[v as int] == t.nodes[v as int]);
    let ke = choose|ke: int|
        0 <= ke < t.edges.len() && (#[trigger] t.edges[ke]).0 == v && t.edges[ke].1 == u;
    assert(f.edges[ke] == t.edges[ke]);
    v
}

/// If the end of a production has been seen at a return frame, the dot
/// behind the called nonterminal has been seen for every caller of the
/// frame, with a forest node that has a packed child for this step.
proof fn lemma_handed_back(
    g: GrammarView,
    input: Seq<u8>,
    m: usize,
    n: nat,
    q: usize,
    v: usize,
    u: usize,
    j: usize,
)
    requires
        rested(g, input, m, n),
        q < g.productions.len(),
        0 < v < at(g, input, n).nodes.len(),
        crate::gss::has_edge(at(g, input, n).edges, v, u),
        seen(g, input, n, Label::Slot(q, g.rhs(q as int).len() as usize), v, j),
    ensures
        seen(g, input, n, at(g, input, n).nodes[v as int].0, u, j),
        seen_split(
            g,
            input,
            n,
            at(g, input, n).nodes[v as int].0,
            u,
            j,
            at(g, input, n).nodes[v as int].1,
        ),
{
    let f = at(g, input, n);
    let next = f.nodes[v as int].0;
    lemma_returns(g, input, m, n, q, v, j);
    let z = choose|z: usize|
        f.popped.contains((v, z)) && z < f.sppf.len() && f.sppf[z as int].right() == j;
    let ke = choose|ke: int|
        0 <= ke < f.edges.len() && (#[trigger] f.edges[ke]).0 == v && f.edges[ke].1 == u;
    let ip = choose|ip: int| 0 <= ip < f.popped.len() && f.popped[ip] == (v, z);
    assert(closed(g, f.sppf, f.nodes, f.visited, f.popped[ip], f.edges[ke]));
    let y = crate::soundness::joined(g, f.sppf, next, f.edges[ke].2, z).unwrap();
    assert(recorded(f.visited, next, u, j, y));
    lemma_recorded_seen(g, input, n, next, u, j, y);
    let k3 = choose|k3: nat| k3 <= n && #[trigger] seen_at(g, input, k3, next, u, j, y);
    assert(seen_at(g, input, k3, next, u, j, y));
    let _ = f.popped[ip];
    assert(f.sppf[z as int].left() == f.nodes[v as int].1);
}

/// If a dot position has been seen and the symbol behind the dot derives
/// the text from there to `j`, the next dot position has been seen at `j`,
/// with a forest node that has a packed child for this step.
pub proof fn lemma_complete_symbol(
    g: GrammarView,
    input: Seq<u8>,
    m: usize,
    n: nat,
    h: nat,
    p: usize,
    d: usize,
    u: usize,
    i: usize,
    j: int,
)
    requires
        rested(g, input, m, n),
        conservative(g, input),
        seen(g, input, n, Label::Slot(p, d), u, i),
        d < g.rhs(p as int).len(),
        derives(g, input.drop_last(), g.rhs(p as int)[d as int], i as int, j, h),
    ensures
        0 <= j <= m,
        seen(g, input, n, Label::Slot(p, (d + 1) as usize), u, j as usize),
        seen_split(g, input, n, Label::Slot(p, (d + 1) as usize), u, j as usize, i),
    decreases h, 0int, 0int,
{
    let text = input.drop_last();
    let (k, w) = choose|k: nat, w: usize|
        k <= n && #[trigger] seen_at(g, input, k, Label::Slot(p, d), u, i, w);
    lemma_not_last(g, input, m, n, k);
    assert(g.productions[p as int].wf(g.nonterminals));
    match g.rhs(p as int)[d as int] {
        Symbol::Terminal(b) => {
            assert(text[i as int] == input[i as int]);
            lemma_shifted(g, input, m, n, k, p, d, u, i, w, b);
        },
        Symbol::Eps => {},
        Symbol::Nonterminal(x) => {
            let q = choose|q: int|
                #![trigger g.productions[q]]
                0 <= q < g.productions.len() && g.productions[q].lhs == x && derives_prefix(
                    g,
                    text,
                    q,
                    g.rhs(q).len() as int,
                    i as int,
                    j,
                    (h - 1) as nat,
                );
            assert(admits(g, q, input[i as int])) by {
                if g.rhs(q).len() > 0 {
                    assert(prefix_derivable(g, text, q, g.rhs(q).len() as int, i as int, j));
                }
            }
            let v = lemma_called(g, input, m, n, k, p, d, u, i, w, x, q);
            lemma_complete_prefix(
                g,
                input,
                m,
                n,
                (h - 1) as nat,
                q as usize,
                v,
                g.rhs(q).len() as int,
                j,
            );
            assert(g.productions[q].wf(g.nonterminals));
            lemma_handed_back(g, input, m, n, q as usize, v, u, j as usize);
        },
    }
}

/// If the start of a production has been seen at a frame and the first `d`
/// symbols of the production derive the text from the frame's position to
/// `j`, the dot behind those symbols has been seen at `j`.
pub proof fn lemma_complete_prefix(
    g: GrammarView,
    input: Seq<u8>,
    m: usize,
    n: nat,
    h: nat,
    q: usize,
    v: usize,
    d: int,
    j: int,
)
    requires
        rested(g, input, m, n),
        conservative(g, input),
        q < g.productions.len(),
        v < at(g, input, n).nodes.len(),
        seen(g, input, n, Label::Slot(q, 0), v, at(g, input, n).nodes[v as int].1),
        0 <= d <= g.rhs(q as int).len(),
        derives_prefix(
            g,
            input.drop_last(),
            q as int,
            d,
            at(g, input, n).nodes[v as int].1 as int,
            j,
            h,
        ),
    ensures
        0 <= j <= m,
        seen(g, input, n, Label::Slot(q, d as usize), v, j as usize),
    decreases h, 1int, d,
{
    let text = input.drop_last();
    let pos = at(g, input, n).nodes[v as int].1;
    assert(g.productions[q as int].wf(g.nonterminals));
    if d == 0 {
        let (k, w) = choose|k: nat, w: usize|
            k <= n && #[trigger] seen_at(g, input, k, Label::Slot(q, 0), v, pos, w);
        lemma_not_last(g, input, m, n, k);
    } else {
        let j1 = choose|j1: int|
            #![trigger cut(j1)]
            cut(j1) && pos <= j1 <= j && derives_prefix(g, text, q as int, d - 1, pos as int, j1, h)
                && derives(g, text, g.rhs(q as int)[d - 1], j1, j, h);
        lemma_complete_prefix(g, input, m, n, h, q, v, d - 1, j1);
        lemma_complete_symbol(g, input, m, n, h, q, (d - 1) as usize, v, j1 as usize, j);
    }
}

/// If the end of a production has been seen at a frame other than the
/// initial one, the frame has been popped with a node that ends there.
pub proof fn lemma_returns(
    g: GrammarView,
    input: Seq<u8>,
    m: usize,
    n: nat,
    q: usize,
    v: usize,
    j: usize,
)
    requires
        rested(g, input, m, n),
        q < g.productions.len(),
        v != 0,
        seen(g, input, n, Label::Slot(q, g.rhs(q as int).len() as usize), v, j),
    ensures
        exists|z: usize|
            at(g, input, n).popped.contains((v, z)) && z < at(g, input, n).sppf.len() && at(
                g,
                input,
                n,
            ).sppf[z as int].right() == j,
{
    let f = at(g, input, n);
    let end = Label::Slot(q, g.rhs(q as int).len() as usize);
    let (k, w) = choose|k: nat, w: usize| k <= n && #[trigger] seen_at(g, input, k, end, v, j, w);
    let s = at(g, input, k);
    assert(g.productions[q as int].wf(g.nonterminals));
    lemma_not_last(g, input, m, n, k);
    let t = at(g, input, k + 1);
    assert(t.label == Label::Ret && t.node == v && t.position == j) by {
        if g.rhs(q as int).len() == 0 {
            assert(t == crate::model::reduce_empty(g, s, q));
        }
    }
    lemma_not_last(g, input, m, n, k + 1);
    let r = at(g, input, k + 2);
    let z = t.sppf_node;
    lemma_pop_tracks(g, t, v, j, z);
    assert(r.popped.contains((v, z)));
    let ip = choose|ip: int| 0 <= ip < r.popped.len() && r.popped[ip] == (v, z);
    assert(f.popped[ip] == (v, z));
    let _ = t.sppf[z as int];
    assert(f.sppf[z as int].right() == j);
}

/// At rest every sentence has its root in the forest: if the text before
/// the sentinel is a sentence and no lookahead set prunes what it needs,
/// the forest holds the node of the start symbol over the whole text.
pub proof fn lemma_complete(g: GrammarView, input: Seq<u8>, m: usize, n: nat)
    requires
        rested(g, input, m, n),
        conservative(g, input),
        is_sentence(g, input.drop_last()),
    ensures
        find_node(at(g, input, n).sppf, root_key(g, input)) is Some,
{
    let text = input.drop_last();
    let f = at(g, input, n);
    let x = Symbol::Nonterminal(g.start);
    let h = choose|h: nat| derives(g, text, x, 0, text.len() as int, h);
    let q = choose|q: int|
        #![trigger g.productions[q]]
        0 <= q < g.productions.len() && g.productions[q].lhs == g.start && derives_prefix(
            g,
            text,
            q,
            g.rhs(q).len() as int,
            0,
            text.len() as int,
            (h - 1) as nat,
        );
    assert(g.productions[q].wf(g.nonterminals));
    let s = at(g, input, 0);
    lemma_not_last(g, input, m, n, 0);
    let t = at(g, input, 1);
    let b = input[0];
    assert(admits(g, q, b)) by {
        if g.rhs(q).len() > 0 {
            assert(prefix_derivable(g, text, q, g.rhs(q).len() as int, 0, text.len() as int));
        }
    }
    lemma_enter_records(g, s, g.start, b, 0, q);
    let start = Label::Slot(q as usize, 0);
    assert(recorded(t.visited, start, 0, 0, 0));
    lemma_recorded_stays(t, f, start, 0, 0, 0);
    lemma_recorded_seen(g, input, n, start, 0, 0, 0);
    let k1 = choose|k1: nat| k1 <= n && #[trigger] seen_at(g, input, k1, start, 0, 0, 0);
    assert(seen_at(g, input, k1, start, 0, 0, 0));
    assert(f.nodes[0] == s.nodes[0]);
    lemma_complete_prefix(g, input, m, n, (h - 1) as nat, q as usize, 0, g.rhs(q).len() as int, m as int);
    let end = Label::Slot(q as usize, g.rhs(q).len() as usize);
    let (k, w) = choose|k: nat, w: usize| k <= n && #[trigger] seen_at(g, input, k, end, 0, m, w);
    let s2 = at(g, input, k);
    lemma_not_last(g, input, m, n, k);
    let key = root_key(g, input);
    if g.rhs(q).len() > 0 {
        assert(node_key(s2.sppf[w as int]) == Some(key));
        let _ = s2.sppf[w as int];
        crate::soundness::lemma_find_unique(f.sppf, m, key, w);
    } else {
        let t2 = at(g, input, k + 1);
        assert(t2 == crate::model::reduce_empty(g, s2, q as usize));
        lemma_not_last(g, input, m, n, k + 1);
        let (a1, r) = crate::sppf::node_t(s2.sppf, Symbol::Eps, s2.position);
        let l = Label::Slot(q as usize, 0);
        crate::sppf::lemma_node_t_len(s2.sppf, Symbol::Eps, s2.position);
        crate::sppf::lemma_node_p_len(g, a1, l, s2.sppf_node, r);
        crate::sppf::lemma_node_t(s2.sppf, Symbol::Eps, s2.position, m);
        crate::soundness::lemma_reduce_joinable(g, s2, m, q as usize);
        crate::sppf::lemma_node_p(g, a1, l, s2.sppf_node, r, m);
        let y = t2.sppf_node;
        assert(node_key(t2.sppf[y as int]) == Some(key));
        let _ = t2.sppf[y as int];
        crate::soundness::lemma_find_unique(f.sppf, m, key, y);
    }
}

/// One way to derive the whole text from the start symbol at the top:
/// production `q` of the start symbol, with its last symbol deriving the
/// text from `j` on and the symbols before it the text up to `j`; for an
/// empty production the text is empty and `j` is 0.
pub open spec fn top_split(g: GrammarView, text: Seq<u8>, q: int, j: int) -> bool {
    &&& 0 <= q < g.productions.len()
    &&& g.productions[q].lhs == g.start
    &&& if g.rhs(q).len() == 0 {
        text.len() == 0 && j == 0
    } else {
        &&& prefix_derivable(g, text, q, g.rhs(q).len() - 1, 0, j)
        &&& crate::language::derivable(g, text, g.rhs(q)[g.rhs(q).len() - 1], j, text.len() as int)
    }
}

/// At rest the root shows every way to derive the text at the top: for each
/// of them the forest holds the root, and the root has a packed child with
/// the end label of the production and the split position as its pivot.
pub proof fn lemma_root_split(g: GrammarView, input: Seq<u8>, m: usize, n: nat, q: int, j: int)
    requires
        rested(g, input, m, n),
        conservative(g, input),
        top_split(g, input.drop_last(), q, j),
    ensures
        0 <= j <= m,
        find_node(at(g, input, n).sppf, root_key(g, input)) is Some,
        holds_packed(
            at(g, input, n).sppf,
            find_node(at(g, input, n).sppf, root_key(g, input)).unwrap(),
            Label::Slot(q as usize, g.rhs(q).len() as usize),
            j as usize,
        ),
{
    let text = input.drop_last();
    let f = at(g, input, n);
    let len = g.rhs(q).len() as int;
    let key = root_key(g, input);
    assert(g.productions[q].wf(g.nonterminals));
    let s = at(g, input, 0);
    lemma_not_last(g, input, m, n, 0);
    let t = at(g, input, 1);
    let b = input[0];
    if len > 0 {
        let before = len - 1;
        let h1 = choose|h: nat| derives_prefix(g, text, q, before, 0, j, h);
        crate::language::lemma_prefix_within(g, text, q, before, 0, j, h1);
        let last = g.rhs(q)[before];
        let h2 = choose|h: nat| derives(g, text, last, j, text.len() as int, h);
        crate::language::lemma_derives_within(g, text, last, j, text.len() as int, h2);
        crate::language::lemma_prefix_extend(g, text, q, before, 0, j, text.len() as int);
        assert(prefix_derivable(g, text, q, len, 0, text.len() as int));
    }
    assert(admits(g, q, b));
    lemma_enter_records(g, s, g.start, b, 0, q);
    let start = Label::Slot(q as usize, 0);
    assert(recorded(t.visited, start, 0, 0, 0));
    lemma_recorded_stays(t, f, start, 0, 0, 0);
    lemma_recorded_seen(g, input, n, start, 0, 0, 0);
    let k1 = choose|k1: nat| k1 <= n && #[trigger] seen_at(g, input, k1, start, 0, 0, 0);
    assert(seen_at(g, input, k1, start, 0, 0, 0));
    assert(f.nodes[0] == s.nodes[0]);
    let end = Label::Slot(q as usize, len as usize);
    if len > 0 {
        let before = len - 1;
        let h1 = choose|h: nat| derives_prefix(g, text, q, before, 0, j, h);
        let h2 = choose|h: nat| derives(g, text, g.rhs(q)[before], j, text.len() as int, h);
        lemma_complete_prefix(g, input, m, n, h1, q as usize, 0, before, j);
        lemma_complete_symbol(
            g,
            input,
            m,
            n,
            h2,
            q as usize,
            before as usize,
            0,
            j as usize,
            m as int,
        );
        let (k, w) = choose|k: nat, w: usize|
            k <= n && #[trigger] seen_at(g, input, k, end, 0, m, w) && (g.first(end)
                || holds_packed(f.sppf, w, end, j as usize));
        let s2 = at(g, input, k);
        lemma_not_last(g, input, m, n, k);
        assert(node_key(s2.sppf[w as int]) == Some(key));
        let _ = s2.sppf[w as int];
        crate::soundness::lemma_find_unique(f.sppf, m, key, w);
    } else {
        let (k, w) = choose|k: nat, w: usize| k <= n && #[trigger] seen_at(g, input, k, end, 0, 0, w);
        let s2 = at(g, input, k);
        lemma_not_last(g, input, m, n, k);
        let t2 = at(g, input, k + 1);
        assert(t2 == crate::model::reduce_empty(g, s2, q as usize));
        let (a1, r) = crate::sppf::node_t(s2.sppf, Symbol::Eps, s2.position);
        crate::sppf::lemma_node_t_len(s2.sppf, Symbol::Eps, s2.position);
        crate::sppf::lemma_node_p_len(g, a1, end, s2.sppf_node, r);
        crate::sppf::lemma_node_t(s2.sppf, Symbol::Eps, s2.position, m);
        crate::soundness::lemma_reduce_joinable(g, s2, m, q as usize);
        crate::sppf::lemma_node_p(g, a1, end, s2.sppf_node, r, m);
        let y = t2.sppf_node;
        assert(node_key(t2.sppf[y as int]) == Some(key));
        let _ = t2.sppf[y as int];
        crate::soundness::lemma_find_unique(f.sppf, m, key, y);
        crate::sppf::lemma_holds_packed(t2.sppf, m, y, end, 0);
        crate::sppf::lemma_holds_packed_grows(t2.sppf, f.sppf, y, end, 0);
    }
}

/// Forest `a` shows the way `(q, j)` to derive the text at the top: it
/// holds the root, and the root has a packed child with the end label of
/// production `q` and pivot `j`.
pub open spec fn shows_split(
    g: GrammarView,
    input: Seq<u8>,
    a: Seq<crate::sppf::NodeView>,
    q: int,
    j: int,
) -> bool {
    &&& find_node(a, root_key(g, input)) is Some
    &&& 0 <= j <= usize::MAX
    &&& holds_packed(
        a,
        find_node(a, root_key(g, input)).unwrap(),
        Label::Slot(q as usize, g.rhs(q).len() as usize),
        j as usize,
    )
}

/// Forest `a` shows every way to derive the text at the top.
pub open spec fn shows_all(g: GrammarView, input: Seq<u8>, a: Seq<crate::sppf::NodeView>) -> bool {
    forall|q: int, j: int| #[trigger]
        top_split(g, input.drop_last(), q, j) ==> shows_split(g, input, a, q, j)
}

/// At rest the forest shows every way to derive the text at the top.
pub proof fn lemma_shows_all(g: GrammarView, input: Seq<u8>, m: usize, n: nat)
    requires
        rested(g, input, m, n),
        conservative(g, input),
    ensures
        shows_all(g, input, at(g, input, n).sppf),
{
    assert forall|q: int, j: int| #[trigger] top_split(g, input.drop_last(), q, j) implies shows_split(
        g,
        input,
        at(g, input, n).sppf,
        q,
        j,
    ) by {
        lemma_root_split(g, input, m, n, q, j);
    }
}

/// A text that can be derived at the top in some way is a sentence.
pub proof fn lemma_split_sentence(g: GrammarView, text: Seq<u8>, q: int, j: int)
    requires
        top_split(g, text, q, j),
    ensures
        is_sentence(g, text),
{
    let len = g.rhs(q).len() as int;
    if len > 0 {
        let before = len - 1;
        let h1 = choose|h: nat| derives_prefix(g, text, q, before, 0, j, h);
        crate::language::lemma_prefix_within(g, text, q, before, 0, j, h1);
        let last = g.rhs(q)[before];
        let h2 = choose|h: nat| derives(g, text, last, j, text.len() as int, h);
        crate::language::lemma_derives_within(g, text, last, j, text.len() as int, h2);
        crate::language::lemma_prefix_extend(g, text, q, before, 0, j, text.len() as int);
    } else {
        crate::language::lemma_prefix_empty(g, text, q, 0);
    }
    crate::language::lemma_production(g, text, q, 0, text.len() as int);
}

/// Every packed child of the root is a way to derive the text at the top:
/// in a well-formed forest whose nodes stand for derivations, a packed
/// child of the node of the start symbol over the whole text has the end
/// label of a production of the start symbol, and with its pivot it splits
/// the text as that production derives it.
pub proof fn lemma_root_child(
    g: GrammarView,
    text: Seq<u8>,
    a: Seq<crate::sppf::NodeView>,
    m: usize,
    root: int,
    j: int,
)
    requires
        crate::sppf::forest_wf(a, m),
        crate::meaning::forest_means(g, text, a),
        0 <= root < a.len(),
        text.len() == m,
        node_key(a[root]) == Some(
            crate::sppf::Key::Symbol(Symbol::Nonterminal(g.start), 0, m),
        ),
        0 <= j < a[root].children().len(),
    ensures
        a[a[root].children()[j] as int] matches crate::sppf::NodeView::Packed(l, k, _) ==> (l
            matches Label::Slot(q, d) && d == g.rhs(q as int).len() && top_split(
            g,
            text,
            q as int,
            k as int,
        )),
        a[a[root].children()[j] as int] is Packed,
{
    let c = a[root].children()[j];
    assert(crate::sppf::packed_ok(a, root, c));
    assert(crate::meaning::packed_means(g, text, a, root, c));
}

/// One step of a derivation of the text `k..i` from nonterminal `x`:
/// production `q` of `x`, with its last symbol deriving the text from `j`
/// on and the symbols before it the text up to `j`; for an empty
/// production the stretch is empty and `j` is `k`.
pub open spec fn node_split(
    g: GrammarView,
    text: Seq<u8>,
    x: usize,
    k: int,
    i: int,
    q: int,
    j: int,
) -> bool {
    &&& 0 <= q < g.productions.len()
    &&& g.productions[q].lhs == x
    &&& if g.rhs(q).len() == 0 {
        k == i && j == k
    } else {
        &&& prefix_derivable(g, text, q, g.rhs(q).len() - 1, k, j)
        &&& crate::language::derivable(g, text, g.rhs(q)[g.rhs(q).len() - 1], j, i)
    }
}

/// Node `y` of forest `a` has a packed child with the end label of
/// production `q` and pivot `j`.
pub open spec fn step_shown(
    g: GrammarView,
    a: Seq<crate::sppf::NodeView>,
    y: int,
    q: int,
    j: int,
) -> bool {
    &&& 0 <= y <= usize::MAX
    &&& 0 <= j <= usize::MAX
    &&& holds_packed(a, y as usize, Label::Slot(q as usize, g.rhs(q).len() as usize), j as usize)
}

/// Forest `a` shows every step: each symbol node of a nonterminal has a
/// packed child for each step by which the nonterminal derives the span of
/// the node.
pub open spec fn shows_every_step(
    g: GrammarView,
    text: Seq<u8>,
    a: Seq<crate::sppf::NodeView>,
) -> bool {
    forall|y: int, q: int, j: int|
        0 <= y < a.len() && (a[y] matches crate::sppf::NodeView::Symbol(
            Symbol::Nonterminal(x),
            k,
            i,
            _,
        ) && node_split(g, text, x, k as int, i as int, q, j)) ==> #[trigger] step_shown(g, a, y, q, j)
}

/// At rest every admitted alternative of the nonterminal of a frame has
/// been seen at its start at that frame.
proof fn lemma_alternative_seen(
    g: GrammarView,
    input: Seq<u8>,
    m: usize,
    n: nat,
    u: usize,
    q: int,
)
    requires
        rested(g, input, m, n),
        crate::history::started(g, input, at(g, input, n)),
        u < at(g, input, n).nodes.len(),
        0 <= q < g.productions.len(),
        g.productions[q].lhs == crate::meaning::callee(g, at(g, input, n).nodes, u),
        admits(g, q, input[at(g, input, n).nodes[u as int].1 as int]),
    ensures
        seen(g, input, n, Label::Slot(q as usize, 0), u, at(g, input, n).nodes[u as int].1),
{
    let f = at(g, input, n);
    let start = Label::Slot(q as usize, 0);
    let k = f.nodes[u as int].1;
    if u == 0 {
        let s = at(g, input, 0);
        lemma_not_last(g, input, m, n, 0);
        let t = at(g, input, 1);
        assert(f.nodes[0] == s.nodes[0]);
        lemma_enter_records(g, s, g.start, input[0], 0, q);
        assert(recorded(t.visited, start, 0, 0, 0));
        lemma_recorded_stays(t, f, start, 0, 0, 0);
    }
    assert(recorded(f.visited, start, u, k, 0));
    lemma_recorded_seen(g, input, n, start, u, k, 0);
    let k1 = choose|k1: nat| k1 <= n && #[trigger] seen_at(g, input, k1, start, u, k, 0);
    assert(seen_at(g, input, k1, start, u, k, 0));
}

/// At rest a symbol node shows every step by which its nonterminal derives
/// its span.
#[verifier::rlimit(40)]
pub proof fn lemma_node_split(
    g: GrammarView,
    input: Seq<u8>,
    m: usize,
    n: nat,
    y: int,
    q: int,
    j: int,
)
    requires
        rested(g, input, m, n),
        conservative(g, input),
        crate::meaning::meaning(g, input.drop_last(), at(g, input, n)),
        crate::history::started(g, input, at(g, input, n)),
        0 <= y < at(g, input, n).sppf.len(),
        at(g, input, n).sppf[y] matches crate::sppf::NodeView::Symbol(
            Symbol::Nonterminal(x),
            k,
            i,
            _,
        ) && node_split(g, input.drop_last(), x, k as int, i as int, q, j),
    ensures
        step_shown(g, at(g, input, n).sppf, y, q, j),
{
    let text = input.drop_last();
    let f = at(g, input, n);
    if let crate::sppf::NodeView::Symbol(Symbol::Nonterminal(x), k, i, _) = f.sppf[y] {
        let len = g.rhs(q).len() as int;
        let end = Label::Slot(q as usize, len as usize);
        let key = crate::sppf::Key::Symbol(Symbol::Nonterminal(x), k, i);
        assert(g.productions[q].wf(g.nonterminals));
        let u = choose|u: usize|
            u < f.nodes.len() && #[trigger] crate::meaning::callee(g, f.nodes, u) == x
                && f.nodes[u as int].1 == k;
        if len > 0 {
            let before = len - 1;
            let h1 = choose|h: nat| derives_prefix(g, text, q, before, k as int, j, h);
            crate::language::lemma_prefix_within(g, text, q, before, k as int, j, h1);
            let last = g.rhs(q)[before];
            let h2 = choose|h: nat| derives(g, text, last, j, i as int, h);
            crate::language::lemma_derives_within(g, text, last, j, i as int, h2);
            crate::language::lemma_prefix_extend(g, text, q, before, k as int, j, i as int);
            assert(prefix_derivable(g, text, q, len, k as int, i as int));
            assert(admits(g, q, input[k as int]));
            lemma_alternative_seen(g, input, m, n, u, q);
            lemma_complete_prefix(g, input, m, n, h1, q as usize, u, before, j);
            lemma_complete_symbol(
                g,
                input,
                m,
                n,
                h2,
                q as usize,
                before as usize,
                u,
                j as usize,
                i as int,
            );
            let (t, w) = choose|t: nat, w: usize|
                t <= n && #[trigger] seen_at(g, input, t, end, u, i, w) && (g.first(end)
                    || holds_packed(f.sppf, w, end, j as usize));
            let s2 = at(g, input, t);
            lemma_not_last(g, input, m, n, t);
            assert(s2.nodes[u as int] == f.nodes[u as int]);
            assert(node_key(s2.sppf[w as int]) == Some(key));
            let _ = s2.sppf[w as int];
            assert(node_key(f.sppf[w as int]) == Some(key));
            if w != y {
                crate::sppf::lemma_containers_unique(f.sppf, m, w as int, y);
            }
        } else {
            assert(admits(g, q, input[k as int]));
            lemma_alternative_seen(g, input, m, n, u, q);
            let (t, w) = choose|t: nat, w: usize| t <= n && #[trigger] seen_at(g, input, t, end, u, k, w);
            let s2 = at(g, input, t);
            lemma_not_last(g, input, m, n, t);
            assert(s2.nodes[u as int] == f.nodes[u as int]);
            let t2 = at(g, input, t + 1);
            assert(t2 == crate::model::reduce_empty(g, s2, q as usize));
            let (a1, r) = crate::sppf::node_t(s2.sppf, Symbol::Eps, s2.position);
            crate::sppf::lemma_node_t_len(s2.sppf, Symbol::Eps, s2.position);
            crate::sppf::lemma_node_p_len(g, a1, end, s2.sppf_node, r);
            crate::sppf::lemma_node_t(s2.sppf, Symbol::Eps, s2.position, m);
            crate::soundness::lemma_reduce_joinable(g, s2, m, q as usize);
            crate::sppf::lemma_node_p(g, a1, end, s2.sppf_node, r, m);
            let y2 = t2.sppf_node;
            assert(node_key(t2.sppf[y2 as int]) == Some(key));
            let _ = t2.sppf[y2 as int];
            assert(node_key(f.sppf[y2 as int]) == Some(key));
            crate::sppf::lemma_holds_packed(t2.sppf, m, y2, end, k);
            crate::sppf::lemma_holds_packed_grows(t2.sppf, f.sppf, y2, end, k);
            if y2 != y {
                crate::sppf::lemma_containers_unique(f.sppf, m, y2 as int, y);
            }
        }
    }
}

/// At rest the forest shows every step.
pub proof fn lemma_shows_every_step(g: GrammarView, input: Seq<u8>, m: usize, n: nat)
    requires
        rested(g, input, m, n),
        conservative(g, input),
        crate::meaning::meaning(g, input.drop_last(), at(g, input, n)),
        crate::history::started(g, input, at(g, input, n)),
    ensures
        shows_every_step(g, input.drop_last(), at(g, input, n).sppf),
{
    let a = at(g, input, n).sppf;
    let text = input.drop_last();
    assert forall|y: int, q: int, j: int|
        0 <= y < a.len() && (a[y] matches crate::sppf::NodeView::Symbol(
            Symbol::Nonterminal(x),
            k,
            i,
            _,
        ) && node_split(g, text, x, k as int, i as int, q, j)) implies #[trigger] step_shown(
        g,
        a,
        y,
        q,
        j,
    ) by {
        lemma_node_split(g, input, m, n, y, q, j);
    }
}

/// Every packed child of a symbol node is a step of a derivation: in a
/// well-formed forest whose nodes stand for derivations, a packed child of
/// a symbol node of a nonterminal has the end label of a production of the
/// nonterminal, and with its pivot it splits the span of the node as that
/// production derives it.
pub proof fn lemma_child_is_step(
    g: GrammarView,
    text: Seq<u8>,
    a: Seq<crate::sppf::NodeView>,
    m: usize,
    y: int,
    c: int,
)
    requires
        crate::sppf::forest_wf(a, m),
        crate::meaning::forest_means(g, text, a),
        0 <= y < a.len(),
        a[y] matches crate::sppf::NodeView::Symbol(Symbol::Nonterminal(_), _, _, _),
        0 <= c < a[y].children().len(),
    ensures
        a[a[y].children()[c] as int] is Packed,
        a[y] matches crate::sppf::NodeView::Symbol(Symbol::Nonterminal(x), k, i, _) ==> (a[a[y].children()[c] as int] matches crate::sppf::NodeView::Packed(
            l,
            j,
            _,
        ) ==> (l matches Label::Slot(q, d) && d == g.rhs(q as int).len() && node_split(
            g,
            text,
            x,
            k as int,
            i as int,
            q as int,
            j as int,
        ))),
{
    let p = a[y].children()[c];
    assert(crate::sppf::packed_ok(a, y, p));
    assert(crate::meaning::packed_means(g, text, a, y, p));
}

/// One step of a derivation of the text `k..i` from the first `d` symbols
/// of production `q`: the last of them derives the text from `j` on, the
/// symbols before it the text up to `j`.
pub open spec fn prefix_split(
    g: GrammarView,
    text: Seq<u8>,
    q: int,
    d: int,
    k: int,
    i: int,
    j: int,
) -> bool {
    &&& d >= 1
    &&& prefix_derivable(g, text, q, d - 1, k, j)
    &&& crate::language::derivable(g, text, g.rhs(q)[d - 1], j, i)
}

/// Intermediate node `y` of forest `a` has a packed child with its own
/// label and pivot `j`.
pub open spec fn prefix_shown(a: Seq<crate::sppf::NodeView>, y: int, j: int) -> bool {
    &&& 0 <= y <= usize::MAX
    &&& 0 <= j <= usize::MAX
    &&& a[y] matches crate::sppf::NodeView::Intermediate(l, _, _, _) && holds_packed(
        a,
        y as usize,
        l,
        j as usize,
    )
}

/// Forest `a` shows every step inside a production: each intermediate node
/// has a packed child for each step by which the symbols before its dot
/// derive the span of the node.
pub open spec fn shows_every_prefix(
    g: GrammarView,
    text: Seq<u8>,
    a: Seq<crate::sppf::NodeView>,
) -> bool {
    forall|y: int, j: int|
        0 <= y < a.len() && (a[y] matches crate::sppf::NodeView::Intermediate(
            Label::Slot(q, d),
            k,
            i,
            _,
        ) && prefix_split(g, text, q as int, d as int, k as int, i as int, j)) ==> #[trigger] prefix_shown(
            a,
            y,
            j,
        )
}

/// At rest an intermediate node shows every step by which the symbols
/// before its dot derive its span.
#[verifier::rlimit(40)]
pub proof fn lemma_prefix_split(g: GrammarView, input: Seq<u8>, m: usize, n: nat, y: int, j: int)
    requires
        rested(g, input, m, n),
        conservative(g, input),
        crate::meaning::meaning(g, input.drop_last(), at(g, input, n)),
        crate::history::started(g, input, at(g, input, n)),
        0 <= y < at(g, input, n).sppf.len(),
        at(g, input, n).sppf[y] matches crate::sppf::NodeView::Intermediate(
            Label::Slot(q, d),
            k,
            i,
            _,
        ) && prefix_split(g, input.drop_last(), q as int, d as int, k as int, i as int, j),
    ensures
        prefix_shown(at(g, input, n).sppf, y, j),
{
    let text = input.drop_last();
    let f = at(g, input, n);
    if let crate::sppf::NodeView::Intermediate(Label::Slot(q, d), k, i, _) = f.sppf[y] {
        let l = Label::Slot(q, d);
        let key = crate::sppf::Key::Intermediate(l, k, i);
        assert(crate::meaning::node_means(g, text, f.sppf[y]));
        assert(g.productions[q as int].wf(g.nonterminals));
        assert(crate::meaning::frame_of(g, f.sppf[y]) == Some((g.productions[q as int].lhs, k)));
        let u = choose|u: usize|
            u < f.nodes.len() && #[trigger] crate::meaning::callee(g, f.nodes, u)
                == g.productions[q as int].lhs && f.nodes[u as int].1 == k;
        let before = d - 1;
        let qi = q as int;
        let h1 = choose|h: nat| derives_prefix(g, text, qi, before, k as int, j, h);
        let last = g.rhs(qi)[before];
        let h2 = choose|h: nat| derives(g, text, last, j, i as int, h);
        assert(crate::meaning::byte_at(text, k) == input[k as int]);
        assert(admits(g, qi, input[k as int]));
        lemma_alternative_seen(g, input, m, n, u, qi);
        lemma_complete_prefix(g, input, m, n, h1, q, u, before, j);
        lemma_complete_symbol(g, input, m, n, h2, q, before as usize, u, j as usize, i as int);
        let (t, w) = choose|t: nat, w: usize|
            t <= n && #[trigger] seen_at(g, input, t, l, u, i, w) && (g.first(l) || holds_packed(
                f.sppf,
                w,
                l,
                j as usize,
            ));
        let s2 = at(g, input, t);
        lemma_not_last(g, input, m, n, t);
        assert(s2.nodes[u as int] == f.nodes[u as int]);
        assert(crate::meaning::registers_kind(g, s2));
        assert(crate::meaning::prefix_key(g, qi, d as int, k, i) == Some(key));
        assert(node_key(s2.sppf[w as int]) == Some(key));
        let _ = s2.sppf[w as int];
        assert(node_key(f.sppf[w as int]) == Some(key));
        if w != y {
            crate::sppf::lemma_containers_unique(f.sppf, m, w as int, y);
        }
    }
}

/// At rest the forest shows every step inside a production.
pub proof fn lemma_shows_every_prefix(g: GrammarView, input: Seq<u8>, m: usize, n: nat)
    requires
        rested(g, input, m, n),
        conservative(g, input),
        crate::meaning::meaning(g, input.drop_last(), at(g, input, n)),
        crate::history::started(g, input, at(g, input, n)),
    ensures
        shows_every_prefix(g, input.drop_last(), at(g, input, n).sppf),
{
    let a = at(g, input, n).sppf;
    let text = input.drop_last();
    assert forall|y: int, j: int|
        0 <= y < a.len() && (a[y] matches crate::sppf::NodeView::Intermediate(
            Label::Slot(q, d),
            k,
            i,
            _,
        ) && prefix_split(g, text, q as int, d as int, k as int, i as int, j)) implies #[trigger] prefix_shown(
        a,
        y,
        j,
    ) by {
        lemma_prefix_split(g, input, m, n, y, j);
    }
}

} // verus!
