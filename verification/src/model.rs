//! The parser as a mathematical state machine.
//!
//! A state holds the forest, the stack graph, the three worklist
//! collections and the four registers. Every operation of the executable
//! parser is specified as a function on such states; [`step`] is one turn of
//! the dispatcher, and [`outcome`] is the state in which it comes to rest.

use crate::grammar::GrammarView;
use crate::grammar::Label;
use crate::grammar::SENTINEL;
use crate::grammar::Symbol;
use crate::gss::has_edge;
use crate::gss::out_edges;
use crate::sppf::Key;
use crate::sppf::NodeView;
use crate::sppf::find_node;
use crate::sppf::node_p;
use crate::sppf::node_t;
use vstd::prelude::*;

verus! {

/// The value of a parser state.
pub struct StateView {
    /// The forest.
    pub sppf: Seq<NodeView>,
    /// The stack frames `(label, position)`; frame 0 is the initial one.
    pub nodes: Seq<(Label, usize)>,
    /// The stack edges `(frame, caller, forest node)`, oldest first.
    pub edges: Seq<(usize, usize, usize)>,
    /// Per input position, the descriptors `(label, frame, forest node)`
    /// scheduled so far.
    pub visited: Seq<Seq<(Label, usize, usize)>>,
    /// The pending descriptors `(label, frame, position, forest node)`; the
    /// last one is taken first.
    pub todo: Seq<(Label, usize, usize, usize)>,
    /// The pairs `(frame, forest node)` that have been popped.
    pub popped: Seq<(usize, usize)>,
    /// The current label.
    pub label: Label,
    /// The current frame.
    pub node: usize,
    /// The current input position.
    pub position: usize,
    /// The current forest node.
    pub sppf_node: usize,
}

/// The state before the first step on an input of `n` bytes: the forest
/// holds the dummy node, the stack the initial frame, nothing is scheduled,
/// and the registers stand at the entry of the start symbol.
pub open spec fn initial(g: GrammarView, n: nat) -> StateView {
    StateView {
        sppf: seq![NodeView::Dummy],
        nodes: seq![(Label::L0, 0usize)],
        edges: Seq::empty(),
        visited: Seq::new(n, |j: int| Seq::empty()),
        todo: Seq::empty(),
        popped: Seq::empty(),
        label: Label::Entry(g.start),
        node: 0,
        position: 0,
        sppf_node: 0,
    }
}

/// Scheduling: descriptor `(l, u, i, w)` is recorded at position `i` and
/// made pending, unless it was recorded there before.
pub open spec fn schedule(s: StateView, l: Label, u: usize, i: usize, w: usize) -> StateView {
    if i < s.visited.len() && !s.visited[i as int].contains((l, u, w)) {
        StateView {
            visited: s.visited.update(i as int, s.visited[i as int].push((l, u, w))),
            todo: s.todo.push((l, u, i, w)),
            ..s
        }
    } else {
        s
    }
}

/// The state after forest node `z` has been handed, under label `l` and at
/// position `i`, along each of the given `(caller, forest node)` edges in
/// turn: each caller gets the joined node scheduled.
pub open spec fn deliver(
    g: GrammarView,
    s: StateView,
    l: Label,
    i: usize,
    z: usize,
    out: Seq<(usize, usize)>,
) -> StateView
    decreases out.len(),
{
    if out.len() == 0 {
        s
    } else {
        let (a, y) = node_p(g, s.sppf, l, out[0].1, z);
        deliver(
            g,
            schedule(StateView { sppf: a, ..s }, l, out[0].0, i, y),
            l,
            i,
            z,
            out.drop_first(),
        )
    }
}

/// Popping frame `u` at position `i` with result `z`: nothing at the
/// initial frame; otherwise the pair is remembered and `z` is delivered
/// along every edge that leaves `u`, newest first, under the label of `u`.
pub open spec fn pop_frame(
    g: GrammarView,
    s: StateView,
    u: usize,
    i: usize,
    z: usize,
) -> StateView {
    if u == 0 {
        s
    } else {
        let popped = if s.popped.contains((u, z)) {
            s.popped
        } else {
            s.popped.push((u, z))
        };
        deliver(
            g,
            StateView { popped, ..s },
            s.nodes[u as int].0,
            i,
            z,
            out_edges(s.edges, u),
        )
    }
}

/// `v` is the least index of frame `(l, j)`.
pub open spec fn is_first_frame(nodes: Seq<(Label, usize)>, l: Label, j: usize, v: int) -> bool {
    &&& 0 <= v < nodes.len()
    &&& nodes[v] == (l, j)
    &&& forall|t: int| 0 <= t < v ==> #[trigger] nodes[t] != (l, j)
}

/// The least index of frame `(l, j)`, if it exists.
pub open spec fn find_frame(nodes: Seq<(Label, usize)>, l: Label, j: usize) -> Option<usize> {
    if exists|v: int| is_first_frame(nodes, l, j, v) {
        Some((choose|v: int| is_first_frame(nodes, l, j, v)) as usize)
    } else {
        None
    }
}

/// The state after the results already popped at frame `v`, among the given
/// popped pairs in turn, have been handed along a new edge from `v` to
/// caller `u` with forest node `w`.
pub open spec fn redeliver(
    g: GrammarView,
    s: StateView,
    l: Label,
    u: usize,
    w: usize,
    v: usize,
    popped: Seq<(usize, usize)>,
) -> StateView
    decreases popped.len(),
{
    if popped.len() == 0 {
        s
    } else {
        let z = popped[0].1;
        let s1 = if popped[0].0 == v {
            let (a, y) = node_p(g, s.sppf, l, w, z);
            schedule(StateView { sppf: a, ..s }, l, u, a[z as int].right(), y)
        } else {
            s
        };
        redeliver(g, s1, l, u, w, v, popped.drop_first())
    }
}

/// Creating the return frame `(l, j)` under caller `u` with forest node
/// `w`: the frame is reused if it exists; if no edge led from it to `u`,
/// one is added and what the frame has popped so far is redelivered along
/// it. The result is the new state and the frame's index.
pub open spec fn create_frame(
    g: GrammarView,
    s: StateView,
    l: Label,
    u: usize,
    j: usize,
    w: usize,
) -> (
    StateView,
    usize,
) {
    let (nodes, v) = match find_frame(s.nodes, l, j) {
        Some(v) => (s.nodes, v),
        None => (s.nodes.push((l, j)), s.nodes.len() as usize),
    };
    if has_edge(s.edges, v, u) {
        (StateView { nodes, ..s }, v)
    } else {
        (
            redeliver(
                g,
                StateView { nodes, edges: s.edges.push((v, u, w)), ..s },
                l,
                u,
                w,
                v,
                s.popped,
            ),
            v,
        )
    }
}

/// Whether production `p` is scheduled at the entry of its left-hand side
/// when the next byte is `b`: an epsilon production always, another one
/// when its first lookahead set holds `b`.
pub open spec fn admits(g: GrammarView, p: int, b: u8) -> bool {
    g.rhs(p).len() == 0 || g.productions[p].lookahead[0].contains(b)
}

/// The state after the alternatives of nonterminal `x` among productions
/// `from..` have been scheduled at the current frame and position, each if
/// it is admitted by byte `b`.
pub open spec fn enter(g: GrammarView, s: StateView, x: usize, b: u8, from: int) -> StateView
    decreases g.productions.len() - from,
{
    if from < 0 || from >= g.productions.len() {
        s
    } else {
        let s1 = if g.productions[from].lhs == x && admits(g, from, b) {
            schedule(s, Label::Slot(from as usize, 0), s.node, s.position, 0)
        } else {
            s
        };
        enter(g, s1, x, b, from + 1)
    }
}

/// The state after the dot of production `p` has moved from before its
/// `d`-th symbol, the terminal at the current position, to behind it.
pub open spec fn shift(g: GrammarView, s: StateView, p: usize, d: usize, b: u8) -> StateView {
    let (a, r) = node_t(s.sppf, Symbol::Terminal(b), s.position);
    let next = Label::Slot(p, (d + 1) as usize);
    let (a2, y) = node_p(g, a, next, s.sppf_node, r);
    StateView { sppf: a2, position: (s.position + 1) as usize, sppf_node: y, label: next, ..s }
}

/// The state after the empty production `p` has been recognised at the
/// current position.
pub open spec fn reduce_empty(g: GrammarView, s: StateView, p: usize) -> StateView {
    let (a, r) = node_t(s.sppf, Symbol::Eps, s.position);
    let (a2, y) = node_p(g, a, Label::Slot(p, 0), s.sppf_node, r);
    StateView { sppf: a2, sppf_node: y, label: Label::Ret, ..s }
}

/// The state after nonterminal `x`, the `d`-th symbol of production `p`, has
/// been called from the current frame.
pub open spec fn call(g: GrammarView, s: StateView, p: usize, d: usize, x: usize) -> StateView {
    let (s1, v) = create_frame(
        g,
        s,
        Label::Slot(p, (d + 1) as usize),
        s.node,
        s.position,
        s.sppf_node,
    );
    StateView { node: v, label: Label::Entry(x), ..s1 }
}

/// One turn of the dispatcher on input `input`.
///
/// * At the scheduler the newest pending descriptor is loaded into the
///   registers; with none pending the state is at rest.
/// * At the entry of a nonterminal its admitted alternatives are scheduled.
/// * At a dot before a nonterminal the nonterminal is called: always at the
///   start of a production, elsewhere if the lookahead set of the dot holds
///   the next byte.
/// * At a dot before a terminal the dot moves on if the terminal is the next
///   byte.
/// * At the end of a production control returns; an empty production first
///   records its epsilon node.
/// * On return the current frame is popped.
///
/// Wherever a test fails, control goes back to the scheduler.
pub open spec fn step(g: GrammarView, input: Seq<u8>, s: StateView) -> StateView {
    let b = input[s.position as int];
    match s.label {
        Label::L0 => if s.todo.len() > 0 {
            let d = s.todo.last();
            StateView {
                todo: s.todo.drop_last(),
                label: d.0,
                node: d.1,
                position: d.2,
                sppf_node: d.3,
                ..s
            }
        } else {
            s
        },
        Label::Ret => StateView {
            label: Label::L0,
            ..pop_frame(g, s, s.node, s.position, s.sppf_node)
        },
        Label::Entry(x) => StateView { label: Label::L0, ..enter(g, s, x, b, 0) },
        Label::Slot(p, d) => if !g.is_slot(s.label) {
            StateView { label: Label::L0, ..s }
        } else if d == g.rhs(p as int).len() {
            if d == 0 {
                reduce_empty(g, s, p)
            } else {
                StateView { label: Label::Ret, ..s }
            }
        } else {
            match g.rhs(p as int)[d as int] {
                Symbol::Nonterminal(x) => if d == 0 || g.productions[p as int].lookahead[d as int].contains(
                    b,
                ) {
                    call(g, s, p, d, x)
                } else {
                    StateView { label: Label::L0, ..s }
                },
                Symbol::Terminal(t) => if t == b {
                    shift(g, s, p, d, b)
                } else {
                    StateView { label: Label::L0, ..s }
                },
                Symbol::Eps => StateView { label: Label::L0, ..s },
            }
        },
    }
}

/// A state at rest: the scheduler has nothing pending.
pub open spec fn halted(s: StateView) -> bool {
    s.label == Label::L0 && s.todo.len() == 0
}

/// The state after `n` turns of the dispatcher.
pub open spec fn run(g: GrammarView, input: Seq<u8>, s: StateView, n: nat) -> StateView
    decreases n,
{
    if n == 0 {
        s
    } else {
        run(g, input, step(g, input, s), (n - 1) as nat)
    }
}

/// A state at rest stays as it is.
pub proof fn lemma_halted_stays(g: GrammarView, input: Seq<u8>, s: StateView, n: nat)
    requires
        halted(s),
    ensures
        run(g, input, s, n) == s,
    decreases n,
{
    if n > 0 {
        lemma_halted_stays(g, input, s, (n - 1) as nat);
    }
}

/// Running `a` turns and then `b` more is running `a + b` turns.
pub proof fn lemma_run_split(g: GrammarView, input: Seq<u8>, s: StateView, a: nat, b: nat)
    ensures
        run(g, input, run(g, input, s, a), b) == run(g, input, s, a + b),
    decreases a,
{
    if a > 0 {
        lemma_run_split(g, input, step(g, input, s), (a - 1) as nat, b);
    }
}

/// The state at rest is unique: whenever two runs from one state have both
/// come to rest, they are in the same state.
pub proof fn lemma_rest_unique(g: GrammarView, input: Seq<u8>, s: StateView, a: nat, b: nat)
    requires
        halted(run(g, input, s, a)),
        halted(run(g, input, s, b)),
    ensures
        run(g, input, s, a) == run(g, input, s, b),
{
    if a <= b {
        lemma_run_split(g, input, s, a, (b - a) as nat);
        lemma_halted_stays(g, input, run(g, input, s, a), (b - a) as nat);
    } else {
        lemma_run_split(g, input, s, b, (a - b) as nat);
        lemma_halted_stays(g, input, run(g, input, s, b), (a - b) as nat);
    }
}

/// Whether the dispatcher comes to rest on `input`.
pub open spec fn terminates(g: GrammarView, input: Seq<u8>) -> bool {
    exists|n: nat| halted(#[trigger] run(g, input, initial(g, input.len()), n))
}

/// The state in which the dispatcher comes to rest on `input`.
pub open spec fn outcome(g: GrammarView, input: Seq<u8>) -> StateView {
    run(
        g,
        input,
        initial(g, input.len()),
        choose|n: nat| halted(#[trigger] run(g, input, initial(g, input.len()), n)),
    )
}

/// The key of the node that stands for a sentence: the start symbol over
/// the whole input but for the sentinel.
pub open spec fn root_key(g: GrammarView, input: Seq<u8>) -> Key {
    Key::Symbol(Symbol::Nonterminal(g.start), 0, (input.len() - 1) as usize)
}

/// The root of the forest at rest, if the input is a sentence.
pub open spec fn root(g: GrammarView, input: Seq<u8>) -> Option<usize> {
    find_node(outcome(g, input).sppf, root_key(g, input))
}

/// A least index of a frame is what `find_frame` returns.
pub proof fn lemma_find_frame_some(nodes: Seq<(Label, usize)>, l: Label, j: usize, v: int)
    requires
        is_first_frame(nodes, l, j, v),
        nodes.len() <= usize::MAX,
    ensures
        find_frame(nodes, l, j) == Some(v as usize),
{
    let c = choose|c: int| is_first_frame(nodes, l, j, c);
    assert(is_first_frame(nodes, l, j, c));
    if c < v {
        assert(nodes[c] != (l, j));
    }
    if v < c {
        assert(nodes[v] != (l, j));
    }
}

/// Without the frame `find_frame` returns nothing.
pub proof fn lemma_find_frame_none(nodes: Seq<(Label, usize)>, l: Label, j: usize)
    requires
        forall|t: int| 0 <= t < nodes.len() ==> #[trigger] nodes[t] != (l, j),
    ensures
        find_frame(nodes, l, j) is None,
{
    if exists|v: int| is_first_frame(nodes, l, j, v) {
        let c = choose|c: int| is_first_frame(nodes, l, j, c);
        assert(nodes[c] != (l, j));
    }
}

/// An input that the dispatcher is run on: it is not empty, it ends with
/// the sentinel, and its first byte may begin a sentence.
pub open spec fn admissible(g: GrammarView, input: Seq<u8>) -> bool {
    &&& input.len() >= 1
    &&& input.last() == SENTINEL
    &&& g.start_lookahead.contains(input[0])
}

/// What a parse yields.
pub struct Verdict {
    /// Whether the input is accepted.
    pub accepted: bool,
    /// The forest.
    pub sppf: Seq<NodeView>,
    /// The node of the start symbol over the whole input, if accepted.
    pub root: Option<usize>,
}

/// The verdict on `input`: an inadmissible input is rejected with a forest
/// that holds the dummy node alone; an admissible one is accepted if and
/// only if the forest of the dispatcher at rest holds the root node.
pub open spec fn verdict(g: GrammarView, input: Seq<u8>) -> Verdict {
    if admissible(g, input) {
        Verdict {
            accepted: root(g, input) is Some,
            sppf: outcome(g, input).sppf,
            root: root(g, input),
        }
    } else {
        Verdict { accepted: false, sppf: seq![NodeView::Dummy], root: None }
    }
}

/// One more turn after `n` turns.
pub proof fn lemma_run_next(g: GrammarView, input: Seq<u8>, s: StateView, n: nat)
    ensures
        run(g, input, s, n + 1) == step(g, input, run(g, input, s, n)),
{
    lemma_run_split(g, input, s, n, 1);
    let t = run(g, input, s, n);
    assert(run(g, input, t, 1) == step(g, input, t)) by {
        assert(run(g, input, step(g, input, t), 0) == step(g, input, t));
    }
}

/// A run that has come to rest is the outcome.
pub proof fn lemma_outcome(g: GrammarView, input: Seq<u8>, n: nat)
    requires
        halted(run(g, input, initial(g, input.len()), n)),
    ensures
        terminates(g, input),
        outcome(g, input) == run(g, input, initial(g, input.len()), n),
{
    let c = choose|c: nat| halted(#[trigger] run(g, input, initial(g, input.len()), c));
    lemma_rest_unique(g, input, initial(g, input.len()), n, c);
}

/// A parse is repeatable: two verdicts on one input under one grammar
/// agree in acceptance, in the root and in every node of the forest.
pub proof fn lemma_verdict_repeatable(g: GrammarView, input: Seq<u8>, a: Verdict, b: Verdict)
    requires
        a == verdict(g, input),
        b == verdict(g, input),
    ensures
        a.accepted == b.accepted,
        a.root == b.root,
        a.sppf == b.sppf,
{
}

/// Acceptance is decided by the root alone: an input is accepted exactly
/// when it is admissible and the forest at rest holds the node of the
/// start symbol over all of the input before the sentinel.
pub proof fn lemma_accepted_iff_root(g: GrammarView, input: Seq<u8>)
    ensures
        verdict(g, input).accepted <==> admissible(g, input) && find_node(
            outcome(g, input).sppf,
            root_key(g, input),
        ) is Some,
        verdict(g, input).accepted <==> verdict(g, input).root is Some,
{
}

} // verus!
