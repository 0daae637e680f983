//! The dispatcher: one turn at a time, and a whole parse.

use crate::bound::descriptor_bound;
use crate::bound::forest_bound;
use crate::bound::lemma_credit_bound;
use crate::bound::lemma_forest_bound;
use crate::complete::conservative;
use crate::complete::lemma_complete;
use crate::complete::lemma_shows_all;
use crate::complete::lemma_shows_every_prefix;
use crate::complete::lemma_shows_every_step;
use crate::complete::shows_every_prefix;
use crate::complete::shows_every_step;
use crate::history::lemma_step_started;
use crate::history::started;
use crate::sample::alphabetic;
use crate::sample::lemma_sample_bytes;
use crate::complete::lemma_split_sentence;
use crate::complete::shows_all;
use crate::complete::shows_split;
use crate::complete::top_split;
use crate::grammar::Grammar;
use crate::grammar::GrammarView;
use crate::grammar::Label;
use crate::grammar::SENTINEL;
use crate::grammar::Symbol;
use crate::grammar::contains_byte;
use crate::history::history;
use crate::history::sane;
use crate::language::is_sentence;
use crate::meaning::forest_means;
use crate::meaning::lemma_initial_means;
use crate::meaning::lemma_root_means;
use crate::meaning::lemma_step_means;
use crate::meaning::meaning;
use crate::model::StateView;
use crate::model::Verdict;
use crate::model::admissible;
use crate::model::admits;
use crate::model::call;
use crate::model::enter;
use crate::model::halted;
use crate::model::initial;
use crate::model::lemma_outcome;
use crate::model::lemma_run_next;
use crate::model::outcome;
use crate::model::pop_frame;
use crate::model::reduce_empty;
use crate::model::root_key;
use crate::model::run;
use crate::model::shift;
use crate::model::step;
use crate::model::terminates;
use crate::model::verdict;
use crate::progress::credit;
use crate::progress::lemma_credit_schedule;
use crate::progress::lemma_phase;
use crate::progress::phase;
use crate::progress::progressed;
use crate::sample::lemma_sample_conservative;
use crate::sample::sample_grammar;
use crate::soundness::grows;
use crate::soundness::inv;
use crate::soundness::lemma_grows_refl;
use crate::soundness::lemma_grows_trans;
use crate::soundness::lemma_pop_closed_grows;
use crate::soundness::lemma_reduce_empty;
use crate::soundness::lemma_reduce_joinable;
use crate::soundness::lemma_schedule;
use crate::soundness::lemma_shift;
use crate::soundness::lemma_shift_joinable;
use crate::sppf::Sppf;
use crate::sppf::find_node;
use crate::sppf::labels_ok;
use crate::sppf::lemma_find_node_found;
use crate::sppf::lemma_initial_forest;
use crate::state::GSSState;
use vstd::prelude::*;

verus! {

impl GSSState {
    /// Schedules the alternatives of nonterminal `x` that byte `b` admits,
    /// in the order of the productions, at the current frame and position.
    pub fn enter(&mut self, g: &Grammar, x: usize, b: u8)
        requires
            g@.wf(),
            old(self).inv(g@),
            old(self)@.label == Label::Entry(x),
        ensures
            final(self)@ == enter(g@, old(self)@, x, b, 0),
            final(self).limit() == old(self).limit(),
            final(self).inv(g@),
            grows(old(self)@, final(self)@),
            credit(final(self)@) >= credit(old(self)@),
    {
        let ghost s0 = self@;
        let ghost m = self.limit();
        let u = self.current_node_index;
        let i = self.current_position;
        proof {
            lemma_grows_refl(s0);
        }
        let mut p: usize = 0;
        while p < g.productions.len()
            invariant
                g@.wf(),
                p <= g.productions.len(),
                self.limit() == m,
                self.inv(g@),
                self@.label == Label::Entry(x),
                self@.node == u,
                self@.position == i,
                self@.sppf_node == s0.sppf_node,
                self@.nodes == s0.nodes,
                grows(s0, self@),
                enter(g@, self@, x, b, p as int) == enter(g@, s0, x, b, 0),
                credit(self@) >= credit(s0),
            decreases g.productions.len() - p,
        {
            let ghost sk = self@;
            let production = &g.productions[p];
            assert(g@.productions[p as int].wf(g@.nonterminals));
            assert(g@.productions[p as int] == production@);
            if production.lhs == x && (production.rhs.len() == 0 || contains_byte(
                &production.lookahead[0],
                b,
            )) {
                assert(admits(g@, p as int, b));
                self.add(Label::Slot(p, 0), u, i, 0);
                proof {
                    self.lemma_fits();
                    lemma_schedule(g@, sk, m, Label::Slot(p, 0), u, i, 0);
                    lemma_pop_closed_grows(g@, sk, self@, sk.edges, sk.popped);
                    lemma_credit_schedule(sk, Label::Slot(p, 0), u, i, 0);
                    lemma_grows_trans(s0, sk, self@);
                }
            }
            p = p + 1;
        }
    }

    /// Takes up the newest pending descriptor: its parts become the
    /// registers.
    pub fn take(&mut self, g: &Grammar)
        requires
            old(self).inv(g@),
            old(self)@.label == Label::L0,
            old(self)@.todo.len() > 0,
        ensures
            final(self)@ == taken(old(self)@),
            final(self).limit() == old(self).limit(),
            final(self).inv(g@),
            grows(old(self)@, final(self)@),
            credit(final(self)@) == credit(old(self)@) + 1,
    {
        let ghost s0 = self@;
        match self.todo.pop() {
            Some((l, u, i, w)) => {
                self.current_label = l;
                self.current_node_index = u;
                self.current_position = i;
                self.current_sppf_node = w;
            },
            None => {},
        }
        proof {
            assert(self@.todo =~= s0.todo.drop_last());
            let _ = s0.todo[s0.todo.len() - 1];
            assert forall|k: int| 0 <= k < self@.todo.len() implies crate::soundness::desc_ok(
                g@,
                self@.sppf,
                self@.nodes,
                self.limit(),
                #[trigger] self@.todo[k],
            ) by {
                let _ = s0.todo[k];
            }
            lemma_grows_refl(s0);
        }
    }

    /// Moves the dot of production `p` from before its `d`-th symbol, the
    /// terminal `b` found at the current position, to behind it: the
    /// terminal's node is joined to the current forest node, and the
    /// position advances.
    pub fn shift(&mut self, g: &Grammar, p: usize, d: usize, b: u8)
        requires
            g@.wf(),
            old(self).inv(g@),
            old(self)@.label == Label::Slot(p, d),
            d < g@.rhs(p as int).len(),
            g@.rhs(p as int)[d as int] == Symbol::Terminal(b),
            old(self)@.position < old(self).limit(),
        ensures
            final(self)@ == shift(g@, old(self)@, p, d, b),
            final(self).limit() == old(self).limit(),
            final(self).inv(g@),
            grows(old(self)@, final(self)@),
            credit(final(self)@) == credit(old(self)@),
    {
        let ghost s0 = self@;
        assert(g@.productions[p as int].wf(g@.nonterminals));
        let right = self.sppf.get_node_t(Symbol::Terminal(b), self.current_position);
        proof {
            self.lemma_fits();
            lemma_shift_joinable(g@, s0, self.limit(), p, d, b);
        }
        self.current_position = self.current_position + 1;
        self.current_sppf_node = self.sppf.get_node_p(
            g,
            Label::Slot(p, d + 1),
            self.current_sppf_node,
            right,
        );
        self.current_label = Label::Slot(p, d + 1);
        proof {
            self.lemma_fits();
            lemma_shift(g@, s0, self.limit(), p, d, b);
        }
    }
}

impl GSSState {
    /// Recognises the empty production `p` at the current position: the
    /// epsilon node there is joined to the current forest node under the
    /// production's only label, and control returns.
    pub fn reduce_empty(&mut self, g: &Grammar, p: usize)
        requires
            g@.wf(),
            old(self).inv(g@),
            old(self)@.label == Label::Slot(p, 0),
            g@.rhs(p as int).len() == 0,
        ensures
            final(self)@ == reduce_empty(g@, old(self)@, p),
            final(self).limit() == old(self).limit(),
            final(self).inv(g@),
            grows(old(self)@, final(self)@),
            credit(final(self)@) == credit(old(self)@),
    {
        let ghost s0 = self@;
        let right = self.sppf.get_node_t(Symbol::Eps, self.current_position);
        proof {
            self.lemma_fits();
            lemma_reduce_joinable(g@, s0, self.limit(), p);
        }
        self.current_sppf_node = self.sppf.get_node_p(
            g,
            Label::Slot(p, 0),
            self.current_sppf_node,
            right,
        );
        self.current_label = Label::Ret;
        proof {
            self.lemma_fits();
            lemma_reduce_empty(g@, s0, self.limit(), p);
        }
    }

    /// Calls nonterminal `x`, the `d`-th symbol of production `p`: the
    /// return frame for the dot behind it is created under the current
    /// frame and becomes the current frame, and control goes to the entry
    /// of `x`.
    pub fn call(&mut self, g: &Grammar, p: usize, d: usize, x: usize)
        requires
            g@.wf(),
            old(self).inv(g@),
            old(self)@.label == Label::Slot(p, d),
            d < g@.rhs(p as int).len(),
            g@.rhs(p as int)[d as int] == Symbol::Nonterminal(x),
        ensures
            final(self)@ == call(g@, old(self)@, p, d, x),
            final(self).limit() == old(self).limit(),
            final(self).inv(g@),
            grows(old(self)@, final(self)@),
            credit(final(self)@) >= credit(old(self)@),
    {
        assert(g@.productions[p as int].wf(g@.nonterminals));
        assert(g@.productions[p as int].wf(g@.nonterminals));
        let v = self.create(
            g,
            Label::Slot(p, d + 1),
            self.current_node_index,
            self.current_position,
            self.current_sppf_node,
        );
        self.current_node_index = v;
        self.current_label = Label::Entry(x);
    }

    /// Returns from the current production: the current frame is popped at
    /// the current position with the current forest node, and control goes
    /// to the scheduler.
    pub fn ret(&mut self, g: &Grammar)
        requires
            g@.wf(),
            old(self).inv(g@),
            old(self)@.label == Label::Ret,
        ensures
            final(self)@ == returned(g@, old(self)@),
            final(self).limit() == old(self).limit(),
            final(self).inv(g@),
            grows(old(self)@, final(self)@),
            credit(final(self)@) >= credit(old(self)@),
    {
        self.pop(g, self.current_node_index, self.current_position, self.current_sppf_node);
        self.current_label = Label::L0;
    }

    /// One turn of the dispatcher on `input`.
    pub fn step(&mut self, g: &Grammar, input: &[u8])
        requires
            g@.wf(),
            old(self).inv(g@),
            input@.len() == old(self).limit() + 1,
            input@[old(self).limit() as int] == SENTINEL,
        ensures
            final(self)@ == step(g@, input@, old(self)@),
            final(self).limit() == old(self).limit(),
            final(self).inv(g@),
            grows(old(self)@, final(self)@),
            !halted(old(self)@) ==> progressed(g@, old(self)@, final(self)@),
    {
        let ghost s0 = self@;
        proof {
            lemma_grows_refl(s0);
        }
        match self.current_label {
            Label::L0 => {
                if self.todo.len() > 0 {
                    self.take(g);
                }
            },
            Label::Ret => {
                self.ret(g);
            },
            Label::Entry(x) => {
                let b = input[self.current_position];
                self.enter(g, x, b);
                self.current_label = Label::L0;
            },
            Label::Slot(p, d) => {
                let b = input[self.current_position];
                let production = &g.productions[p];
                assert(g@.productions[p as int].wf(g@.nonterminals));
                assert(g@.productions[p as int] == production@);
                if d == production.rhs.len() {
                    if d == 0 {
                        self.reduce_empty(g, p);
                    } else {
                        self.current_label = Label::Ret;
                    }
                } else {
                    match production.rhs[d] {
                        Symbol::Nonterminal(x) => {
                            if d == 0 || contains_byte(&production.lookahead[d], b) {
                                self.call(g, p, d, x);
                            } else {
                                self.current_label = Label::L0;
                            }
                        },
                        Symbol::Terminal(t) => {
                            if t == b {
                                self.shift(g, p, d, b);
                            } else {
                                self.current_label = Label::L0;
                            }
                        },
                        Symbol::Eps => {
                            self.current_label = Label::L0;
                        },
                    }
                }
            },
        }
    }
}

/// The state after a return: the current frame is popped, and the
/// scheduler is next.
pub open spec fn returned(g: GrammarView, s: StateView) -> StateView {
    StateView { label: Label::L0, ..pop_frame(g, s, s.node, s.position, s.sppf_node) }
}

/// The state after the newest pending descriptor has been taken up.
pub open spec fn taken(s: StateView) -> StateView {
    StateView {
        todo: s.todo.drop_last(),
        label: s.todo.last().0,
        node: s.todo.last().1,
        position: s.todo.last().2,
        sppf_node: s.todo.last().3,
        ..s
    }
}

/// The result of a parse.
#[derive(Debug)]
pub struct ParseResult {
    /// Whether the input is a sentence of the grammar.
    pub accepted: bool,
    /// The forest of all derivations found.
    pub sppf: Sppf,
    /// The node of the start symbol over the whole input, if accepted.
    pub root: Option<usize>,
}

impl View for ParseResult {
    type V = Verdict;

    open spec fn view(&self) -> Verdict {
        Verdict { accepted: self.accepted, sppf: self.sppf@, root: self.root }
    }
}

impl GSSState {
    /// Whether the dispatcher is at rest.
    pub fn is_halted(&self) -> (b: bool)
        ensures
            b == halted(self@),
    {
        match self.current_label {
            Label::L0 => self.todo.len() == 0,
            _ => false,
        }
    }
}

/// Whether the dispatcher is run on `input`: the input is not empty, ends
/// with the sentinel, and begins with a byte of the start lookahead.
pub fn is_admissible(g: &Grammar, input: &[u8]) -> (b: bool)
    ensures
        b == admissible(g@, input@),
{
    input.len() >= 1 && input[input.len() - 1] == SENTINEL && contains_byte(
        &g.start_lookahead,
        input[0],
    )
}

/// Runs the dispatcher on an admissible input until it is at rest, and
/// returns the state it has reached.
#[verifier::rlimit(40)]
pub fn drive(g: &Grammar, input: &[u8]) -> (state: GSSState)
    requires
        g@.wf(),
        admissible(g@, input@),
    ensures
        terminates(g@, input@),
        state@ == outcome(g@, input@),
        state.limit() == input@.len() - 1,
        state.inv(g@),
        meaning(g@, input@.drop_last(), state@),
        conservative(g@, input@) && is_sentence(g@, input@.drop_last()) ==> find_node(
            state@.sppf,
            root_key(g@, input@),
        ) is Some,
        conservative(g@, input@) ==> shows_all(g@, input@, state@.sppf),
        conservative(g@, input@) ==> shows_every_step(g@, input@.drop_last(), state@.sppf),
        conservative(g@, input@) ==> shows_every_prefix(g@, input@.drop_last(), state@.sppf),
{
    let mut state = GSSState::new(g, input.len());
    let ghost start = state@;
    let ghost m = state.limit();
    let ghost text = input@.drop_last();
    let ghost mut turns: nat = 0;
    proof {
        state.lemma_fits();
        lemma_credit_bound(g@, state@, m);
        lemma_initial_means(g@, text, input@.len());
        assert(g@.productions.len() == g.productions.len());
    }
    while !state.is_halted()
        invariant
            g@.wf(),
            g@.productions.len() <= usize::MAX,
            state.inv(g@),
            state.limit() == m,
            input@.len() == m + 1,
            input@[m as int] == SENTINEL,
            text == input@.subrange(0, m as int),
            start == initial(g@, input@.len()),
            state@ == run(g@, input@, start, turns),
            meaning(g@, text, state@),
            history(g@, input@, m, turns),
            started(g@, input@, state@),
            credit(state@) <= 2 * descriptor_bound(g@, m),
            0 <= phase(g@, state@.label),
        decreases 2 * descriptor_bound(g@, m) - credit(state@), phase(g@, state@.label),
    {
        let ghost before = state@;
        let _frames = state.frame_count();
        state.step(g, input);
        proof {
            state.lemma_fits();
            lemma_credit_bound(g@, state@, m);
            lemma_run_next(g@, input@, start, turns);
            turns = turns + 1;
            lemma_phase(g@, state@, m);
            lemma_step_means(g@, input@, text, before, m);
            lemma_step_started(g@, input@, text, before, m);
            assert(sane(g@, input@, m, (turns - 1) as nat));
        }
    }
    proof {
        lemma_outcome(g@, input@, turns);
        state.lemma_fits();
        if conservative(g@, input@) && is_sentence(g@, text) {
            lemma_complete(g@, input@, m, turns);
        }
        if conservative(g@, input@) {
            lemma_shows_all(g@, input@, m, turns);
            lemma_shows_every_step(g@, input@, m, turns);
            lemma_shows_every_prefix(g@, input@, m, turns);
        }
    }
    state
}

/// Parses `input` with grammar `g`.
///
/// An input that is empty, does not end with the sentinel, or begins with
/// a byte outside the start lookahead is rejected at once, with a forest
/// that holds the dummy node alone. Any other input is accepted if and only
/// if, when the dispatcher has come to rest, the forest holds the node of
/// the start symbol over the whole input but for the sentinel; that node is
/// the root.
///
/// What is accepted is a sentence, and every node of the forest stands for
/// a derivation. Where the lookahead sets of the grammar are conservative
/// for the input, every sentence is accepted, and every container of the
/// forest has a packed child for every step by which its span is derived.
pub fn parse_with(g: &Grammar, input: &[u8]) -> (result: ParseResult)
    requires
        g@.wf(),
    ensures
        result@ == verdict(g@, input@),
        admissible(g@, input@) ==> terminates(g@, input@),
        result.accepted ==> is_sentence(g@, input@.drop_last()),
        admissible(g@, input@) && conservative(g@, input@) && is_sentence(g@, input@.drop_last())
            ==> result.accepted,
        admissible(g@, input@) && conservative(g@, input@) ==> shows_all(
            g@,
            input@,
            result.sppf@,
        ),
        conservative(g@, input@) ==> shows_every_step(g@, input@.drop_last(), result.sppf@),
        conservative(g@, input@) ==> shows_every_prefix(g@, input@.drop_last(), result.sppf@),
        result.sppf.wf(),
        labels_ok(g@, result.sppf@),
        forest_means(g@, input@.drop_last(), result.sppf@),
        result.sppf@.len() <= forest_bound(g@, result.sppf.limit),
        result.sppf.limit == if input@.len() >= 1 {
            input@.len() - 1
        } else {
            0
        },
{
    if !is_admissible(g, input) {
        let limit = if input.len() >= 1 {
            input.len() - 1
        } else {
            0
        };
        proof {
            lemma_initial_forest(g@, limit);
            lemma_forest_bound(g@, seq![crate::sppf::NodeView::Dummy], limit);
        }
        return ParseResult { accepted: false, sppf: Sppf::new(limit), root: None };
    }
    let state = drive(g, input);
    let root = state.sppf.find_symbol(Symbol::Nonterminal(g.start), 0, input.len() - 1);
    proof {
        state.lemma_fits();
        lemma_forest_bound(g@, state@.sppf, state.limit());
        if root is Some {
            lemma_find_node_found(state@.sppf, root_key(g@, input@));
            lemma_root_means(g@, input@.drop_last(), state@.sppf, root.unwrap());
        }
    }
    ParseResult { accepted: root.is_some(), sppf: state.sppf, root }
}

/// Parses `input` with the sample grammar: the input is accepted if and
/// only if it ends with the sentinel and what stands before the sentinel
/// is a sentence.
pub fn parse(input: &[u8]) -> (result: ParseResult)
    ensures
        result.accepted <==> input@.len() >= 1 && input@.last() == SENTINEL && is_sentence(
            sample_grammar(),
            input@.drop_last(),
        ),
        result@ == verdict(sample_grammar(), input@),
        admissible(sample_grammar(), input@) ==> terminates(sample_grammar(), input@),
        input@.len() >= 1 && input@.last() == SENTINEL ==> shows_all(
            sample_grammar(),
            input@,
            result.sppf@,
        ),
        alphabetic(input@) ==> shows_every_step(sample_grammar(), input@.drop_last(), result.sppf@),
        alphabetic(input@) ==> shows_every_prefix(
            sample_grammar(),
            input@.drop_last(),
            result.sppf@,
        ),
        result.sppf.wf(),
        labels_ok(sample_grammar(), result.sppf@),
        forest_means(sample_grammar(), input@.drop_last(), result.sppf@),
        result.sppf@.len() <= forest_bound(sample_grammar(), result.sppf.limit),
{
    let g = Grammar::sample();
    proof {
        if input@.len() >= 1 && input@.last() == SENTINEL && is_sentence(
            sample_grammar(),
            input@.drop_last(),
        ) {
            lemma_sample_bytes(input@);
        }
        if input@.len() >= 1 && alphabetic(input@) {
            lemma_sample_conservative(input@);
        }
    }
    let result = parse_with(&g, input);
    proof {
        if input@.len() >= 1 && input@.last() == SENTINEL {
            assert forall|q: int, j: int| #[trigger]
                top_split(sample_grammar(), input@.drop_last(), q, j) implies shows_split(
                sample_grammar(),
                input@,
                result.sppf@,
                q,
                j,
            ) by {
                lemma_split_sentence(sample_grammar(), input@.drop_last(), q, j);
            }
        }
    }
    result
}

} // verus!
