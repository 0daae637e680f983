//! The run of the dispatcher, turn by turn, and what each turn leaves
//! behind.

use crate::grammar::GrammarView;
use crate::grammar::Label;
use crate::grammar::Symbol;
use crate::model::StateView;
use crate::model::admits;
use crate::model::create_frame;
use crate::model::deliver;
use crate::model::enter;
use crate::model::initial;
use crate::model::lemma_run_next;
use crate::model::pop_frame;
use crate::model::redeliver;
use crate::model::run;
use crate::model::schedule;
use crate::model::step;
use crate::soundness::grows;
use crate::soundness::inv;
use crate::soundness::recorded;
use crate::sppf::node_p;
use vstd::prelude::*;

verus! {

/// The state after `k` turns on `input`.
pub open spec fn at(g: GrammarView, input: Seq<u8>, k: nat) -> StateView {
    run(g, input, initial(g, input.len()), k)
}

/// After `k` turns the registers hold descriptor `(l, u, i, w)` and the
/// label is `l`.
pub open spec fn seen_at(
    g: GrammarView,
    input: Seq<u8>,
    k: nat,
    l: Label,
    u: usize,
    i: usize,
    w: usize,
) -> bool {
    &&& at(g, input, k).label == l
    &&& at(g, input, k).node == u
    &&& at(g, input, k).position == i
    &&& at(g, input, k).sppf_node == w
}

/// Within the first `n` turns the dispatcher has stood at label `l` with
/// frame `u` and position `i`, whatever the forest node.
pub open spec fn seen(
    g: GrammarView,
    input: Seq<u8>,
    n: nat,
    l: Label,
    u: usize,
    i: usize,
) -> bool {
    exists|k: nat, w: usize| k <= n && #[trigger] seen_at(g, input, k, l, u, i, w)
}

/// Turn `k` starts from a state that satisfies the invariant, has its
/// meaning and fits the index type, and it grows the state.
pub open spec fn sane(g: GrammarView, input: Seq<u8>, m: usize, k: nat) -> bool {
    &&& inv(g, at(g, input, k), m)
    &&& crate::meaning::meaning(g, input.drop_last(), at(g, input, k))
    &&& grows(at(g, input, k), at(g, input, k + 1))
    &&& at(g, input, k).sppf.len() <= usize::MAX
    &&& at(g, input, k).nodes.len() <= usize::MAX
}

/// Each of the first `n` turns is sane.
pub open spec fn history(g: GrammarView, input: Seq<u8>, m: usize, n: nat) -> bool {
    forall|k: nat| k < n ==> #[trigger] sane(g, input, m, k)
}

/// The state after one more turn is a turn away.
pub proof fn lemma_at_next(g: GrammarView, input: Seq<u8>, k: nat)
    ensures
        at(g, input, k + 1) == step(g, input, at(g, input, k)),
{
    lemma_run_next(g, input, initial(g, input.len()), k);
}

/// Over a sane history the state only grows.
pub proof fn lemma_history_grows(g: GrammarView, input: Seq<u8>, m: usize, n: nat, k: nat)
    requires
        history(g, input, m, n),
        k <= n,
    ensures
        grows(at(g, input, k), at(g, input, n)),
    decreases n - k,
{
    if k == n {
        crate::soundness::lemma_grows_refl(at(g, input, k));
    } else {
        assert(sane(g, input, m, k));
        lemma_history_grows(g, input, m, n, k + 1);
        crate::soundness::lemma_grows_trans(at(g, input, k), at(g, input, k + 1), at(g, input, n));
    }
}

/// What a turn away from the scheduler does to the worklist: pending
/// descriptors stay pending, and whatever is newly recorded is pending.
pub open spec fn tracks(s: StateView, t: StateView) -> bool {
    &&& s.todo.is_prefix_of(t.todo)
    &&& s.visited.len() == t.visited.len()
    &&& forall|l: Label, u: usize, i: usize, w: usize| #[trigger]
        recorded(t.visited, l, u, i, w) ==> recorded(s.visited, l, u, i, w) || t.todo.contains(
            (l, u, i, w),
        )
}

/// A state tracks itself.
pub proof fn lemma_tracks_same(s: StateView, t: StateView)
    requires
        t.todo == s.todo,
        t.visited == s.visited,
    ensures
        tracks(s, t),
{
}

/// Tracking composes.
pub proof fn lemma_tracks_trans(s: StateView, t: StateView, r: StateView)
    requires
        tracks(s, t),
        tracks(t, r),
    ensures
        tracks(s, r),
{
    assert forall|l: Label, u: usize, i: usize, w: usize| #[trigger]
        recorded(r.visited, l, u, i, w) implies recorded(s.visited, l, u, i, w) || r.todo.contains(
        (l, u, i, w),
    ) by {
        if !r.todo.contains((l, u, i, w)) {
            assert(recorded(t.visited, l, u, i, w));
            if t.todo.contains((l, u, i, w)) {
                let k = choose|k: int| 0 <= k < t.todo.len() && t.todo[k] == (l, u, i, w);
                assert(r.todo[k] == (l, u, i, w));
            }
        }
    }
    assert forall|k: int| 0 <= k < s.todo.len() implies s.todo[k] == r.todo[k] by {
        assert(s.todo[k] == t.todo[k]);
    }
}

/// Scheduling tracks.
pub proof fn lemma_schedule_tracks(s: StateView, l: Label, u: usize, i: usize, w: usize)
    ensures
        tracks(s, schedule(s, l, u, i, w)),
{
    let t = schedule(s, l, u, i, w);
    if i < s.visited.len() && !s.visited[i as int].contains((l, u, w)) {
        assert(t.todo[s.todo.len() as int] == (l, u, i, w));
        assert forall|l2: Label, u2: usize, i2: usize, w2: usize| #[trigger]
            recorded(t.visited, l2, u2, i2, w2) implies recorded(s.visited, l2, u2, i2, w2)
            || t.todo.contains((l2, u2, i2, w2)) by {
            let rec = t.visited[i2 as int];
            let k = choose|k: int| 0 <= k < rec.len() && rec[k] == (l2, u2, w2);
            if i2 == i && k == s.visited[i as int].len() {
            } else {
                assert(s.visited[i2 as int][k] == (l2, u2, w2));
            }
        }
    }
}

/// Deliveries track, and leave frames, edges, popped pairs and registers
/// as they are.
pub proof fn lemma_deliver_tracks(
    g: GrammarView,
    s: StateView,
    l: Label,
    i: usize,
    z: usize,
    out: Seq<(usize, usize)>,
)
    ensures
        tracks(s, deliver(g, s, l, i, z, out)),
        deliver(g, s, l, i, z, out).nodes == s.nodes,
        deliver(g, s, l, i, z, out).edges == s.edges,
        deliver(g, s, l, i, z, out).popped == s.popped,
        deliver(g, s, l, i, z, out).position == s.position,
        deliver(g, s, l, i, z, out).node == s.node,
    decreases out.len(),
{
    if out.len() == 0 {
        lemma_tracks_same(s, s);
    } else {
        let (a, y) = node_p(g, s.sppf, l, out[0].1, z);
        let s0 = StateView { sppf: a, ..s };
        let s1 = schedule(s0, l, out[0].0, i, y);
        lemma_tracks_same(s, s0);
        lemma_schedule_tracks(s0, l, out[0].0, i, y);
        lemma_tracks_trans(s, s0, s1);
        lemma_deliver_tracks(g, s1, l, i, z, out.drop_first());
        lemma_tracks_trans(s, s1, deliver(g, s, l, i, z, out));
    }
}

/// Redeliveries track, and leave frames, edges, popped pairs and registers
/// as they are.
pub proof fn lemma_redeliver_tracks(
    g: GrammarView,
    s: StateView,
    l: Label,
    u: usize,
    w: usize,
    v: usize,
    popped: Seq<(usize, usize)>,
)
    ensures
        tracks(s, redeliver(g, s, l, u, w, v, popped)),
        redeliver(g, s, l, u, w, v, popped).nodes == s.nodes,
        redeliver(g, s, l, u, w, v, popped).edges == s.edges,
        redeliver(g, s, l, u, w, v, popped).popped == s.popped,
        redeliver(g, s, l, u, w, v, popped).position == s.position,
        redeliver(g, s, l, u, w, v, popped).node == s.node,
    decreases popped.len(),
{
    if popped.len() == 0 {
        lemma_tracks_same(s, s);
    } else {
        let z = popped[0].1;
        let s1 = if popped[0].0 == v {
            let (a, y) = node_p(g, s.sppf, l, w, z);
            let s0 = StateView { sppf: a, ..s };
            lemma_tracks_same(s, s0);
            lemma_schedule_tracks(s0, l, u, a[z as int].right(), y);
            lemma_tracks_trans(s, s0, schedule(s0, l, u, a[z as int].right(), y));
            schedule(s0, l, u, a[z as int].right(), y)
        } else {
            lemma_tracks_same(s, s);
            s
        };
        lemma_redeliver_tracks(g, s1, l, u, w, v, popped.drop_first());
        lemma_tracks_trans(s, s1, redeliver(g, s, l, u, w, v, popped));
    }
}

/// Scheduling the alternatives of a nonterminal tracks, leaves the
/// registers as they are, and keeps what was recorded.
pub proof fn lemma_enter_tracks(g: GrammarView, s: StateView, x: usize, b: u8, from: int)
    ensures
        tracks(s, enter(g, s, x, b, from)),
        enter(g, s, x, b, from).position == s.position,
        enter(g, s, x, b, from).node == s.node,
        forall|j: int|
            0 <= j < s.visited.len() ==> (#[trigger] s.visited[j]).is_prefix_of(
                enter(g, s, x, b, from).visited[j],
            ),
    decreases g.productions.len() - from,
{
    if from < 0 || from >= g.productions.len() {
        lemma_tracks_same(s, s);
    } else {
        let s1 = if g.productions[from].lhs == x && admits(g, from, b) {
            schedule(s, Label::Slot(from as usize, 0), s.node, s.position, 0)
        } else {
            s
        };
        if g.productions[from].lhs == x && admits(g, from, b) {
            lemma_schedule_tracks(s, Label::Slot(from as usize, 0), s.node, s.position, 0);
        } else {
            lemma_tracks_same(s, s);
        }
        lemma_enter_tracks(g, s1, x, b, from + 1);
        let r = enter(g, s, x, b, from);
        lemma_tracks_trans(s, s1, r);
        assert forall|j: int| 0 <= j < s.visited.len() implies (#[trigger] s.visited[j]).is_prefix_of(
            r.visited[j],
        ) by {
            let p = s.visited[j];
            let q = s1.visited[j];
            assert(p.is_prefix_of(q));
            assert(q.is_prefix_of(r.visited[j]));
            assert forall|k: int| 0 <= k < p.len() implies p[k] == r.visited[j][k] by {
                assert(p[k] == q[k]);
            }
        }
    }
}

/// Every admitted alternative of the nonterminal is recorded once its
/// alternatives have been scheduled.
pub proof fn lemma_enter_records(g: GrammarView, s: StateView, x: usize, b: u8, from: int, q: int)
    requires
        0 <= from <= q < g.productions.len(),
        q <= usize::MAX,
        g.productions[q].lhs == x,
        admits(g, q, b),
        s.position < s.visited.len(),
    ensures
        recorded(enter(g, s, x, b, from).visited, Label::Slot(q as usize, 0), s.node, s.position, 0),
    decreases g.productions.len() - from,
{
    let s1 = if g.productions[from].lhs == x && admits(g, from, b) {
        schedule(s, Label::Slot(from as usize, 0), s.node, s.position, 0)
    } else {
        s
    };
    if from == q {
        let l = Label::Slot(q as usize, 0);
        if !s.visited[s.position as int].contains((l, s.node, 0usize)) {
            assert(s1.visited[s.position as int][s.visited[s.position as int].len() as int] == (
                l,
                s.node,
                0usize,
            ));
        }
        assert(recorded(s1.visited, l, s.node, s.position, 0));
        lemma_enter_tracks(g, s1, x, b, from + 1);
        let r = enter(g, s1, x, b, from + 1);
        let rec = s1.visited[s.position as int];
        let k = choose|k: int| 0 <= k < rec.len() && rec[k] == (l, s.node, 0usize);
        assert(r.visited[s.position as int][k] == (l, s.node, 0usize));
    } else {
        lemma_enter_records(g, s1, x, b, from + 1, q);
    }
}

/// Popping a frame tracks; it leaves frames and edges as they are and
/// remembers the popped pair, unless the frame is the initial one.
pub proof fn lemma_pop_tracks(g: GrammarView, s: StateView, u: usize, i: usize, z: usize)
    ensures
        tracks(s, pop_frame(g, s, u, i, z)),
        pop_frame(g, s, u, i, z).nodes == s.nodes,
        pop_frame(g, s, u, i, z).edges == s.edges,
        u != 0 ==> pop_frame(g, s, u, i, z).popped.contains((u, z)),
{
    if u == 0 {
        lemma_tracks_same(s, s);
    } else {
        let popped = if s.popped.contains((u, z)) {
            s.popped
        } else {
            s.popped.push((u, z))
        };
        let s1 = StateView { popped, ..s };
        if !s.popped.contains((u, z)) {
            assert(popped[s.popped.len() as int] == (u, z));
        }
        lemma_tracks_same(s, s1);
        lemma_deliver_tracks(g, s1, s.nodes[u as int].0, i, z, crate::gss::out_edges(s.edges, u));
        lemma_tracks_trans(s, s1, pop_frame(g, s, u, i, z));
    }
}

/// Creating a frame tracks; afterwards an edge leads from the frame to the
/// caller, and the position is as it was.
pub proof fn lemma_create_tracks(
    g: GrammarView,
    s: StateView,
    l: Label,
    u: usize,
    j: usize,
    w: usize,
)
    ensures
        tracks(s, create_frame(g, s, l, u, j, w).0),
        crate::gss::has_edge(
            create_frame(g, s, l, u, j, w).0.edges,
            create_frame(g, s, l, u, j, w).1,
            u,
        ),
        create_frame(g, s, l, u, j, w).0.position == s.position,
{
    let (nodes, v) = match crate::model::find_frame(s.nodes, l, j) {
        Some(v) => (s.nodes, v),
        None => (s.nodes.push((l, j)), s.nodes.len() as usize),
    };
    let t1 = StateView { nodes, ..s };
    lemma_tracks_same(s, t1);
    if !crate::gss::has_edge(s.edges, v, u) {
        let t2 = StateView { edges: s.edges.push((v, u, w)), ..t1 };
        lemma_tracks_same(s, t2);
        lemma_redeliver_tracks(g, t2, l, u, w, v, s.popped);
        lemma_tracks_trans(s, t2, create_frame(g, s, l, u, j, w).0);
        assert(t2.edges[s.edges.len() as int] == (v, u, w));
    }
}

/// A turn away from the scheduler tracks.
pub proof fn lemma_step_tracks(g: GrammarView, input: Seq<u8>, s: StateView)
    requires
        s.label != Label::L0,
    ensures
        tracks(s, step(g, input, s)),
{
    let b = input[s.position as int];
    let t = step(g, input, s);
    match s.label {
        Label::L0 => {},
        Label::Ret => {
            lemma_pop_tracks(g, s, s.node, s.position, s.sppf_node);
            let r = pop_frame(g, s, s.node, s.position, s.sppf_node);
            lemma_tracks_same(r, t);
            lemma_tracks_trans(s, r, t);
        },
        Label::Entry(x) => {
            lemma_enter_tracks(g, s, x, b, 0);
            let r = enter(g, s, x, b, 0);
            lemma_tracks_same(r, t);
            lemma_tracks_trans(s, r, t);
        },
        Label::Slot(p, d) => {
            if g.is_slot(s.label) && d != g.rhs(p as int).len() {
                match g.rhs(p as int)[d as int] {
                    Symbol::Nonterminal(x) => {
                        if d == 0 || g.productions[p as int].lookahead[d as int].contains(b) {
                            let l = Label::Slot(p, (d + 1) as usize);
                            lemma_create_tracks(g, s, l, s.node, s.position, s.sppf_node);
                            let r = create_frame(g, s, l, s.node, s.position, s.sppf_node).0;
                            lemma_tracks_same(r, t);
                            lemma_tracks_trans(s, r, t);
                        } else {
                            lemma_tracks_same(s, t);
                        }
                    },
                    _ => {
                        lemma_tracks_same(s, t);
                    },
                }
            } else {
                lemma_tracks_same(s, t);
            }
        },
    }
}

/// Whatever is recorded after `n` turns is still pending or has been taken
/// up by the dispatcher within those turns.
pub proof fn lemma_recorded_seen(
    g: GrammarView,
    input: Seq<u8>,
    n: nat,
    l: Label,
    u: usize,
    i: usize,
    w: usize,
)
    requires
        recorded(at(g, input, n).visited, l, u, i, w),
    ensures
        at(g, input, n).todo.contains((l, u, i, w)) || exists|k: nat|
            k <= n && #[trigger] seen_at(g, input, k, l, u, i, w),
    decreases n,
{
    if n == 0 {
        assert(false);
    } else {
        let k0 = (n - 1) as nat;
        let s = at(g, input, k0);
        let t = at(g, input, n);
        lemma_at_next(g, input, k0);
        if s.label == Label::L0 {
            lemma_recorded_seen(g, input, k0, l, u, i, w);
            if s.todo.contains((l, u, i, w)) {
                let idx = choose|idx: int| 0 <= idx < s.todo.len() && s.todo[idx] == (l, u, i, w);
                if idx == s.todo.len() - 1 {
                    assert(seen_at(g, input, n, l, u, i, w));
                } else {
                    assert(t.todo[idx] == (l, u, i, w));
                }
            } else {
                let k = choose|k: nat| k <= k0 && #[trigger] seen_at(g, input, k, l, u, i, w);
                assert(k <= n && seen_at(g, input, k, l, u, i, w));
            }
        } else {
            lemma_step_tracks(g, input, s);
            if !t.todo.contains((l, u, i, w)) {
                assert(recorded(s.visited, l, u, i, w));
                lemma_recorded_seen(g, input, k0, l, u, i, w);
                if s.todo.contains((l, u, i, w)) {
                    let idx = choose|idx: int|
                        0 <= idx < s.todo.len() && s.todo[idx] == (l, u, i, w);
                    assert(t.todo[idx] == (l, u, i, w));
                } else {
                    let k = choose|k: nat| k <= k0 && #[trigger] seen_at(g, input, k, l, u, i, w);
                    assert(k <= n && seen_at(g, input, k, l, u, i, w));
                }
            }
        }
    }
}

/// Every frame but the initial one, unless it is just being entered, has
/// had its alternatives started: each production of the frame's nonterminal
/// that the byte at the frame's position admits is recorded there.
pub open spec fn started(g: GrammarView, input: Seq<u8>, s: StateView) -> bool {
    forall|v: usize, q: int|
        0 < v < s.nodes.len() && !(s.label is Entry && s.node == v) && 0 <= q
            < g.productions.len() && g.productions[q].lhs == crate::meaning::callee(g, s.nodes, v)
            && admits(g, q, input[s.nodes[v as int].1 as int]) ==> #[trigger] recorded(
            s.visited,
            Label::Slot(q as usize, 0),
            v,
            s.nodes[v as int].1,
            0,
        )
}

/// A turn keeps the frames started: a call starts none but leaves the frame
/// to be entered, and the entry that follows starts it.
pub proof fn lemma_step_started(
    g: GrammarView,
    input: Seq<u8>,
    text: Seq<u8>,
    s: StateView,
    m: usize,
)
    requires
        g.wf(),
        g.productions.len() <= usize::MAX,
        inv(g, s, m),
        crate::meaning::meaning(g, text, s),
        started(g, input, s),
        grows(s, step(g, input, s)),
        s.nodes.len() <= usize::MAX,
    ensures
        started(g, input, step(g, input, s)),
{
    let t = step(g, input, s);
    lemma_step_frames(g, input, s, m);
    assert forall|v: usize, q: int|
        0 < v < t.nodes.len() && !(t.label is Entry && t.node == v) && 0 <= q < g.productions.len()
            && g.productions[q].lhs == crate::meaning::callee(g, t.nodes, v) && admits(
            g,
            q,
            input[t.nodes[v as int].1 as int],
        ) implies #[trigger] recorded(
        t.visited,
        Label::Slot(q as usize, 0),
        v,
        t.nodes[v as int].1,
        0,
    ) by {
        assert(v < s.nodes.len());
        assert(t.nodes[v as int] == s.nodes[v as int]);
        crate::meaning::lemma_callee_grows(g, s.nodes, t.nodes, v);
        let l = Label::Slot(q as usize, 0);
        let pos = s.nodes[v as int].1;
        if s.label is Entry && s.node == v {
            if let Label::Entry(x) = s.label {
                let b = input[s.position as int];
                lemma_enter_records(g, s, x, b, 0, q);
            }
        } else {
            assert(recorded(s.visited, l, v, pos, 0));
            crate::soundness::lemma_recorded_stays(s, t, l, v, pos, 0);
        }
    }
}

/// A turn adds a frame only by a call, and then the new frame is the one
/// that is entered next.
pub proof fn lemma_step_frames(g: GrammarView, input: Seq<u8>, s: StateView, m: usize)
    requires
        g.wf(),
        inv(g, s, m),
        s.nodes.len() <= usize::MAX,
    ensures
        s.nodes.len() <= step(g, input, s).nodes.len() <= s.nodes.len() + 1,
        step(g, input, s).nodes.len() > s.nodes.len() ==> step(g, input, s).label is Entry && step(
            g,
            input,
            s,
        ).node == s.nodes.len(),
{
    let b = input[s.position as int];
    let t = step(g, input, s);
    match s.label {
        Label::L0 => {},
        Label::Ret => {
            lemma_pop_tracks(g, s, s.node, s.position, s.sppf_node);
        },
        Label::Entry(x) => {
            lemma_enter_frames(g, s, x, b, 0);
        },
        Label::Slot(p, d) => {
            assert(g.productions[p as int].wf(g.nonterminals));
            if d != g.rhs(p as int).len() {
                match g.rhs(p as int)[d as int] {
                    Symbol::Nonterminal(x) => {
                        if d == 0 || g.productions[p as int].lookahead[d as int].contains(b) {
                            let l = Label::Slot(p, (d + 1) as usize);
                            let (nodes, v) = match crate::model::find_frame(
                                s.nodes,
                                l,
                                s.position,
                            ) {
                                Some(v) => (s.nodes, v),
                                None => (s.nodes.push((l, s.position)), s.nodes.len() as usize),
                            };
                            let t1 = StateView { nodes, ..s };
                            if !crate::gss::has_edge(s.edges, v, s.node) {
                                let t2 = StateView {
                                    edges: s.edges.push((v, s.node, s.sppf_node)),
                                    ..t1
                                };
                                lemma_redeliver_tracks(g, t2, l, s.node, s.sppf_node, v, s.popped);
                            }
                            if crate::model::find_frame(s.nodes, l, s.position) is Some {
                                crate::soundness::lemma_find_frame_found(s.nodes, l, s.position);
                            }
                        }
                    },
                    _ => {},
                }
            }
        },
    }
}

/// Scheduling the alternatives of a nonterminal leaves the frames as they
/// are.
pub proof fn lemma_enter_frames(g: GrammarView, s: StateView, x: usize, b: u8, from: int)
    ensures
        enter(g, s, x, b, from).nodes == s.nodes,
    decreases g.productions.len() - from,
{
    if 0 <= from < g.productions.len() {
        let s1 = if g.productions[from].lhs == x && admits(g, from, b) {
            schedule(s, Label::Slot(from as usize, 0), s.node, s.position, 0)
        } else {
            s
        };
        lemma_enter_frames(g, s1, x, b, from + 1);
    }
}

} // verus!
