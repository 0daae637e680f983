//! The parser state and its three primitives: scheduling a descriptor,
//! creating a return frame, and popping a frame.

use crate::grammar::Grammar;
use crate::grammar::GrammarView;
use crate::grammar::Label;
use crate::gss::graph_add_edge;
use crate::gss::graph_add_node;
use crate::gss::graph_edges;
use crate::gss::graph_find_edge;
use crate::gss::graph_new;
use crate::gss::graph_node_count;
use crate::gss::graph_node_weight;
use crate::gss::graph_nodes;
use crate::gss::graph_out_edges;
use crate::gss::lemma_out_edges_complete;
use crate::gss::lemma_out_edges_sound;
use crate::gss::out_edges;
use crate::model::StateView;
use crate::model::create_frame;
use crate::model::deliver;
use crate::model::find_frame;
use crate::model::initial;
use crate::model::lemma_find_frame_none;
use crate::model::lemma_find_frame_some;
use crate::model::pop_frame;
use crate::model::redeliver;
use crate::model::schedule;
use crate::progress::credit;
use crate::soundness::call_ok;
use crate::soundness::closed;
use crate::soundness::delivered;
use crate::soundness::edge_ok;
use crate::soundness::grows;
use crate::soundness::inv;
use crate::soundness::lemma_create_edge;
use crate::soundness::lemma_create_frame;
use crate::soundness::lemma_deliver_joinable;
use crate::soundness::lemma_delivery;
use crate::soundness::lemma_find_frame_found;
use crate::soundness::lemma_find_frame_missing;
use crate::soundness::lemma_grows_refl;
use crate::soundness::lemma_grows_trans;
use crate::soundness::lemma_pop_closed_grows;
use crate::soundness::lemma_schedule_grows;
use crate::soundness::pair_ok;
use crate::soundness::pop_closed;
use crate::soundness::recorded;
use crate::soundness::sound;
use crate::soundness::spans;
use crate::sppf::Sppf;
use crate::sppf::lemma_initial_forest;
use petgraph::Directed;
use petgraph::graph::Graph;
use vstd::prelude::*;

verus! {

/// The state of one parse.
pub struct GSSState {
    /// The graph-structured stack.
    pub graph: Graph<(Label, usize), usize, Directed, usize>,
    /// The parse forest.
    pub sppf: Sppf,
    /// Per input position, the descriptors scheduled so far.
    pub visited: Vec<Vec<(Label, usize, usize)>>,
    /// The pending descriptors; the last one is taken first.
    pub todo: Vec<(Label, usize, usize, usize)>,
    /// The popped pairs `(frame, forest node)`.
    pub popped: Vec<(usize, usize)>,
    /// The current label.
    pub current_label: Label,
    /// The current frame.
    pub current_node_index: usize,
    /// The current input position.
    pub current_position: usize,
    /// The current forest node.
    pub current_sppf_node: usize,
}

impl View for GSSState {
    type V = StateView;

    open spec fn view(&self) -> StateView {
        StateView {
            sppf: self.sppf@,
            nodes: graph_nodes(self.graph),
            edges: graph_edges(self.graph),
            visited: Seq::new(self.visited@.len(), |j: int| self.visited@[j]@),
            todo: self.todo@,
            popped: self.popped@,
            label: self.current_label,
            node: self.current_node_index,
            position: self.current_position,
            sppf_node: self.current_sppf_node,
        }
    }
}

/// Whether the record `rec` holds descriptor `(l, u, w)`.
fn is_recorded(rec: &Vec<(Label, usize, usize)>, l: Label, u: usize, w: usize) -> (found: bool)
    ensures
        found == rec@.contains((l, u, w)),
{
    let mut t: usize = 0;
    while t < rec.len()
        invariant
            t <= rec.len(),
            forall|k: int| 0 <= k < t ==> rec@[k] != (l, u, w),
        decreases rec.len() - t,
    {
        let e = rec[t];
        if e.0 == l && e.1 == u && e.2 == w {
            return true;
        }
        t = t + 1;
    }
    false
}

impl GSSState {
    /// The largest input position.
    pub open spec fn limit(&self) -> usize {
        self.sppf.limit
    }

    /// The invariant of the dispatcher, on this state.
    pub open spec fn inv(&self, g: GrammarView) -> bool {
        inv(g, self@, self.limit())
    }

    /// The forest of an executable state fits the index type.
    pub proof fn lemma_fits(&self)
        ensures
            self@.sppf.len() <= usize::MAX,
    {
        assert(self.sppf@.len() == self.sppf.nodes.len());
    }

    /// The state before the first step on an input of `n` bytes.
    pub fn new(g: &Grammar, n: usize) -> (s: GSSState)
        requires
            n >= 1,
        ensures
            s@ == initial(g@, n as nat),
            s.limit() == n - 1,
            g@.wf() ==> s.inv(g@),
    {
        let mut graph = graph_new();
        let initial_node_index = graph_add_node(&mut graph, (Label::L0, 0));
        let mut visited: Vec<Vec<(Label, usize, usize)>> = Vec::new();
        let mut j: usize = 0;
        while j < n
            invariant
                j <= n,
                visited@.len() == j,
                forall|t: int| 0 <= t < j ==> (#[trigger] visited@[t])@ == Seq::<
                    (Label, usize, usize),
                >::empty(),
            decreases n - j,
        {
            visited.push(Vec::new());
            j = j + 1;
        }
        let s = GSSState {
            graph,
            sppf: Sppf::new(n - 1),
            visited,
            todo: Vec::new(),
            popped: Vec::new(),
            current_label: Label::Entry(g.start),
            current_node_index: initial_node_index,
            current_position: 0,
            current_sppf_node: 0,
        };
        proof {
            lemma_initial_forest(g@, (n - 1) as usize);
            assert(s@.visited =~= initial(g@, n as nat).visited);
            assert(s@.nodes =~= initial(g@, n as nat).nodes);
            assert(s@.edges =~= initial(g@, n as nat).edges);
            assert(s@.todo =~= initial(g@, n as nat).todo);
            assert(s@.popped =~= initial(g@, n as nat).popped);
        }
        s
    }

    /// Schedules descriptor `(l, u, i, w)`: it is recorded at position `i`
    /// and made pending, unless it was recorded there before.
    pub fn add(&mut self, l: Label, u: usize, i: usize, w: usize)
        requires
            i < old(self)@.visited.len(),
        ensures
            final(self)@ == schedule(old(self)@, l, u, i, w),
            final(self).limit() == old(self).limit(),
            grows(old(self)@, final(self)@),
            recorded(final(self)@.visited, l, u, i, w),
    {
        proof {
            lemma_schedule_grows(old(self)@, l, u, i, w);
        }
        if !is_recorded(&self.visited[i], l, u, w) {
            self.visited[i].push((l, u, w));
            self.todo.push((l, u, i, w));
            proof {
                assert(self@.visited =~= old(self)@.visited.update(
                    i as int,
                    old(self)@.visited[i as int].push((l, u, w)),
                ));
                assert(self@.visited[i as int][old(self)@.visited[i as int].len() as int] == (
                    l,
                    u,
                    w,
                ));
            }
        }
    }

    /// The number of stack frames.
    pub fn frame_count(&self) -> (n: usize)
        ensures
            n == self@.nodes.len(),
    {
        graph_node_count(&self.graph)
    }

    /// The index of frame `(l, j)`, if the stack holds it.
    pub fn find_frame(&self, l: Label, j: usize) -> (found: Option<usize>)
        ensures
            found == find_frame(self@.nodes, l, j),
            self@.nodes.len() <= usize::MAX,
    {
        let n = graph_node_count(&self.graph);
        let mut v: usize = 0;
        while v < n
            invariant
                v <= n,
                n == self@.nodes.len(),
                forall|t: int| 0 <= t < v ==> #[trigger] self@.nodes[t] != (l, j),
            decreases n - v,
        {
            let (node_l, node_j) = graph_node_weight(&self.graph, v);
            if node_l == l && node_j == j {
                proof {
                    lemma_find_frame_some(self@.nodes, l, j, v as int);
                }
                return Some(v);
            }
            v = v + 1;
        }
        proof {
            lemma_find_frame_none(self@.nodes, l, j);
        }
        None
    }

    /// Makes sure that the return frame `(l, j)` exists and that an edge
    /// leads from it to caller `u`; a new edge carries forest node `w`.
    /// When the edge is new, every result that the frame has popped so far
    /// is joined with `w` under `l` and scheduled for `u` at the position
    /// where the result ends. Returns the frame's index.
    pub fn create(&mut self, g: &Grammar, l: Label, u: usize, j: usize, w: usize) -> (v: usize)
        requires
            g@.wf(),
            sound(g@, old(self)@, old(self).limit()),
            pop_closed(
                g@,
                old(self)@.sppf,
                old(self)@.nodes,
                old(self)@.edges,
                old(self)@.visited,
                old(self)@.popped,
            ),
            call_ok(g@, old(self)@, old(self).limit(), l, u, j, w),
        ensures
            (final(self)@, v) == create_frame(g@, old(self)@, l, u, j, w),
            final(self).limit() == old(self).limit(),
            sound(g@, final(self)@, final(self).limit()),
            pop_closed(
                g@,
                final(self)@.sppf,
                final(self)@.nodes,
                final(self)@.edges,
                final(self)@.visited,
                final(self)@.popped,
            ),
            grows(old(self)@, final(self)@),
            v < final(self)@.nodes.len(),
            final(self)@.nodes[v as int] == (l, j),
            final(self)@.popped == old(self)@.popped,
            final(self)@.label == old(self)@.label,
            final(self)@.node == old(self)@.node,
            final(self)@.position == old(self)@.position,
            final(self)@.sppf_node == old(self)@.sppf_node,
            credit(final(self)@) >= credit(old(self)@),
    {
        let ghost s0 = self@;
        let ghost m = self.limit();
        let v = match self.find_frame(l, j) {
            Some(index) => {
                proof {
                    lemma_find_frame_found(s0.nodes, l, j);
                }
                index
            },
            None => {
                proof {
                    lemma_find_frame_missing(s0.nodes, l, j, s0.nodes.len() as int);
                }
                graph_add_node(&mut self.graph, (l, j))
            },
        };
        let ghost s1 = self@;
        proof {
            assert(self.sppf@.len() == self.sppf.nodes.len());
            assert(s1 == StateView { nodes: s1.nodes, ..s0 });
            lemma_create_frame(g@, s0, s1, m, l, j, v);
            lemma_pop_closed_grows(g@, s0, s1, s0.edges, s0.popped);
        }
        if graph_find_edge(&self.graph, v, u).is_none() {
            graph_add_edge(&mut self.graph, v, u, w);
            let ghost s2 = self@;
            let ghost e = (v, u, w);
            proof {
                assert(s2 == StateView { edges: s1.edges.push(e), ..s1 });
                lemma_create_edge(g@, s1, s2, m, e, j);
                lemma_grows_trans(s0, s1, s2);
                lemma_pop_closed_grows(g@, s1, s2, s0.edges, s0.popped);
                assert(s0.popped.subrange(0, s0.popped.len() as int) =~= s0.popped);
            }
            let mut k: usize = 0;
            while k < self.popped.len()
                invariant
                    g@.wf(),
                    k <= self.popped.len(),
                    self.limit() == m,
                    self@.edges == s2.edges,
                    self@.nodes == s2.nodes,
                    self@.popped == s0.popped,
                    self@.label == s2.label,
                    self@.node == s2.node,
                    self@.position == s2.position,
                    self@.sppf_node == s2.sppf_node,
                    e == (v, u, w),
                    s2.edges == s0.edges.push(e),
                    s2.nodes[v as int].0 == l,
                    sound(g@, self@, m),
                    grows(s2, self@),
                    pop_closed(g@, self@.sppf, self@.nodes, s0.edges, self@.visited, s0.popped),
                    forall|t: int|
                        0 <= t < k ==> closed(
                            g@,
                            self@.sppf,
                            self@.nodes,
                            self@.visited,
                            #[trigger] s0.popped[t],
                            e,
                        ),
                    redeliver(
                        g@,
                        self@,
                        l,
                        u,
                        w,
                        v,
                        s0.popped.subrange(k as int, s0.popped.len() as int),
                    ) == redeliver(g@, s2, l, u, w, v, s0.popped),
                    credit(self@) >= credit(s2),
                decreases self.popped.len() - k,
            {
                let (index, z) = self.popped[k];
                let ghost sk = self@;
                proof {
                    assert(sk.edges[s0.edges.len() as int] == e);
                    let _ = sk.popped[k as int];
                    let rest = s0.popped.subrange(k as int, s0.popped.len() as int);
                    assert(rest[0] == s0.popped[k as int]);
                    assert(rest.drop_first() =~= s0.popped.subrange(
                        k + 1,
                        s0.popped.len() as int,
                    ));
                }
                if index == v {
                    proof {
                        lemma_deliver_joinable(g@, sk, m, e, z);
                    }
                    let y = self.sppf.get_node_p(g, l, w, z);
                    assert(self.sppf@[z as int] == self.sppf.nodes@[z as int]@);
                    let h = self.sppf.nodes[z].right_extent();
                    self.add(l, u, h, y);
                    proof {
                        assert(self.sppf@.len() == self.sppf.nodes.len());
                        let _ = sk.sppf[z as int];
                        assert(self@ == delivered(g@, sk, e, z));
                        lemma_delivery(g@, sk, m, e, z, s0.edges, s0.popped);
                        lemma_grows_trans(s2, sk, self@);
                        assert forall|t: int| 0 <= t < k + 1 implies closed(
                            g@,
                            self@.sppf,
                            self@.nodes,
                            self@.visited,
                            #[trigger] s0.popped[t],
                            e,
                        ) by {
                            assert(s0.popped[t] == sk.popped[t]);
                        }
                    }
                }
                k = k + 1;
            }
            proof {
                assert(s0.popped.subrange(k as int, s0.popped.len() as int) =~= Seq::empty());
                lemma_grows_trans(s0, s2, self@);
                assert forall|t: int, ke: int|
                    0 <= t < self@.popped.len() && 0 <= ke < self@.edges.len() implies closed(
                    g@,
                    self@.sppf,
                    self@.nodes,
                    self@.visited,
                    #[trigger] self@.popped[t],
                    #[trigger] self@.edges[ke],
                ) by {
                    if ke < s0.edges.len() {
                        assert(self@.edges[ke] == s0.edges[ke]);
                    }
                }
            }
        }
        v
    }

    /// Pops frame `u` at position `i` with result `z`. At the initial frame
    /// nothing happens. Otherwise the pair `(u, z)` is remembered, and for
    /// every edge that leaves `u`, newest first, `z` is joined with the
    /// forest node of the edge under the label of `u`, and the result is
    /// scheduled for the caller at position `i`.
    pub fn pop(&mut self, g: &Grammar, u: usize, i: usize, z: usize)
        requires
            g@.wf(),
            sound(g@, old(self)@, old(self).limit()),
            pop_closed(
                g@,
                old(self)@.sppf,
                old(self)@.nodes,
                old(self)@.edges,
                old(self)@.visited,
                old(self)@.popped,
            ),
            u < old(self)@.nodes.len(),
            u != 0 ==> spans(old(self)@.sppf, z, old(self)@.nodes[u as int].1, i),
        ensures
            final(self)@ == pop_frame(g@, old(self)@, u, i, z),
            final(self).limit() == old(self).limit(),
            sound(g@, final(self)@, final(self).limit()),
            pop_closed(
                g@,
                final(self)@.sppf,
                final(self)@.nodes,
                final(self)@.edges,
                final(self)@.visited,
                final(self)@.popped,
            ),
            grows(old(self)@, final(self)@),
            final(self)@.nodes == old(self)@.nodes,
            final(self)@.edges == old(self)@.edges,
            final(self)@.label == old(self)@.label,
            final(self)@.node == old(self)@.node,
            final(self)@.position == old(self)@.position,
            final(self)@.sppf_node == old(self)@.sppf_node,
            credit(final(self)@) >= credit(old(self)@),
    {
        let ghost s0 = self@;
        let ghost m = self.limit();
        if u == 0 {
            proof {
                lemma_grows_refl(s0);
            }
            return ;
        }
        let (l, _k) = graph_node_weight(&self.graph, u);
        if !is_popped(&self.popped, u, z) {
            self.popped.push((u, z));
        }
        let ghost s1 = self@;
        assert(self.sppf@.len() == self.sppf.nodes.len());
        assert(s1.popped.contains((u, z))) by {
            if !s0.popped.contains((u, z)) {
                assert(s1.popped[s0.popped.len() as int] == (u, z));
            }
        }
        let ghost ip = choose|ip: int| 0 <= ip < s1.popped.len() && s1.popped[ip] == (u, z);
        proof {
            if !s0.popped.contains((u, z)) {
                assert(s1.popped[s0.popped.len() as int] == (u, z));
                assert forall|t: int| 0 <= t < s1.popped.len() implies pair_ok(
                    s1.sppf,
                    s1.nodes,
                    #[trigger] s1.popped[t],
                ) by {
                    if t < s0.popped.len() {
                        let _ = s0.popped[t];
                    }
                }
                assert forall|t1: int, t2: int|
                    0 <= t1 < t2 < s1.popped.len() implies #[trigger] s1.popped[t1]
                    != #[trigger] s1.popped[t2] by {
                    if t2 == s0.popped.len() {
                        assert(s0.popped[t1] == s1.popped[t1]);
                        assert(s0.popped.contains(s0.popped[t1]));
                    } else {
                        let _ = s0.popped[t1];
                        let _ = s0.popped[t2];
                    }
                }
            }
            assert(s1 == StateView { popped: s1.popped, ..s0 });
            assert(sound(g@, s1, m));
            lemma_grows_refl(s0);
            assert(grows(s0, s1));
            assert(pop_closed(g@, s1.sppf, s1.nodes, s1.edges, s1.visited, s0.popped));
        }
        let edge_data = graph_out_edges(&self.graph, u);
        assert(edge_data@.subrange(0, edge_data@.len() as int) =~= edge_data@);
        let mut k: usize = 0;
        while k < edge_data.len()
            invariant
                g@.wf(),
                k <= edge_data.len(),
                edge_data@ == out_edges(s1.edges, u),
                0 < u < s1.nodes.len(),
                s1.nodes[u as int].0 == l,
                self.limit() == m,
                self@.edges == s1.edges,
                self@.nodes == s1.nodes,
                self@.popped == s1.popped,
                self@.label == s1.label,
                self@.node == s1.node,
                self@.position == s1.position,
                self@.sppf_node == s1.sppf_node,
                0 <= ip < s1.popped.len() && s1.popped[ip] == (u, z),
                s0.popped.is_prefix_of(s1.popped),
                sound(g@, self@, m),
                grows(s1, self@),
                self@.sppf[z as int].right() == i,
                pop_closed(g@, self@.sppf, self@.nodes, self@.edges, self@.visited, s0.popped),
                forall|t: int|
                    0 <= t < k ==> {
                        &&& edge_ok(
                            self@.sppf,
                            self@.nodes,
                            (u, (#[trigger] edge_data@[t]).0, edge_data@[t].1),
                        )
                        &&& closed(
                            g@,
                            self@.sppf,
                            self@.nodes,
                            self@.visited,
                            (u, z),
                            (u, edge_data@[t].0, edge_data@[t].1),
                        )
                    },
                deliver(g@, self@, l, i, z, edge_data@.subrange(k as int, edge_data@.len() as int))
                    == deliver(g@, s1, l, i, z, edge_data@),
                credit(self@) >= credit(s1),
            decreases edge_data.len() - k,
        {
            let (v, w) = edge_data[k];
            let ghost e = (u, v, w);
            let ghost sk = self@;
            proof {
                lemma_out_edges_sound(s1.edges, u, k as int);
                let _ = sk.popped[ip];
                lemma_deliver_joinable(g@, sk, m, e, z);
                let rest = edge_data@.subrange(k as int, edge_data@.len() as int);
                assert(rest[0] == edge_data@[k as int]);
                assert(rest.drop_first() =~= edge_data@.subrange(
                    k + 1,
                    edge_data@.len() as int,
                ));
            }
            let y = self.sppf.get_node_p(g, l, w, z);
            self.add(l, v, i, y);
            proof {
                assert(self.sppf@.len() == self.sppf.nodes.len());
                assert(self@ == delivered(g@, sk, e, z));
                lemma_delivery(g@, sk, m, e, z, sk.edges, s0.popped);
                lemma_grows_trans(s1, sk, self@);
            }
            k = k + 1;
        }
        proof {
            assert(edge_data@.subrange(k as int, edge_data@.len() as int) =~= Seq::empty());
            lemma_grows_trans(s0, s1, self@);
            assert forall|t: int, ke: int|
                0 <= t < self@.popped.len() && 0 <= ke < self@.edges.len() implies closed(
                g@,
                self@.sppf,
                self@.nodes,
                self@.visited,
                #[trigger] self@.popped[t],
                #[trigger] self@.edges[ke],
            ) by {
                if t < s0.popped.len() {
                    assert(self@.popped[t] == s0.popped[t]);
                } else if self@.edges[ke].0 == u {
                    assert(self@.popped[t] == (u, z));
                    lemma_out_edges_complete(s1.edges, u, ke);
                }
            }
        }
    }
}

/// Whether the popped pairs hold `(u, z)`.
fn is_popped(popped: &Vec<(usize, usize)>, u: usize, z: usize) -> (found: bool)
    ensures
        found == popped@.contains((u, z)),
{
    let mut t: usize = 0;
    while t < popped.len()
        invariant
            t <= popped.len(),
            forall|k: int| 0 <= k < t ==> popped@[k] != (u, z),
        decreases popped.len() - t,
    {
        let e = popped[t];
        if e.0 == u && e.1 == z {
            return true;
        }
        t = t + 1;
    }
    false
}

} // verus!
