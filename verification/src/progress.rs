//! Why the dispatcher comes to rest.
//!
//! Every descriptor is scheduled at most once, and the descriptors that can
//! ever be scheduled are bounded by the grammar and the length of the
//! input. The credit of a state counts two for each descriptor recorded
//! and takes one off for each that is pending: no operation lowers it,
//! taking a descriptor up raises it, and it cannot exceed twice the bound.

use crate::grammar::GrammarView;
use crate::grammar::Label;
use crate::model::StateView;
use crate::model::schedule;
use vstd::prelude::*;

verus! {

/// The number of descriptors recorded at positions `0..n`.
pub open spec fn recorded_upto(visited: Seq<Seq<(Label, usize, usize)>>, n: int) -> int
    decreases n,
{
    if n <= 0 {
        0
    } else {
        recorded_upto(visited, n - 1) + visited[n - 1].len()
    }
}

/// The number of descriptors recorded at all positions.
pub open spec fn recorded_total(visited: Seq<Seq<(Label, usize, usize)>>) -> int {
    recorded_upto(visited, visited.len() as int)
}

/// Twice the descriptors recorded, less those still pending.
pub open spec fn credit(s: StateView) -> int {
    2 * recorded_total(s.visited) - s.todo.len()
}

/// Two records that agree below `n` hold the same number there.
proof fn lemma_upto_same(
    x: Seq<Seq<(Label, usize, usize)>>,
    y: Seq<Seq<(Label, usize, usize)>>,
    n: int,
)
    requires
        n <= x.len(),
        n <= y.len(),
        forall|j: int| 0 <= j < n ==> x[j] == y[j],
    ensures
        recorded_upto(x, n) == recorded_upto(y, n),
    decreases n,
{
    if n > 0 {
        lemma_upto_same(x, y, n - 1);
    }
}

/// One more descriptor at position `i` is one more below any `n` beyond `i`.
proof fn lemma_upto_push(
    x: Seq<Seq<(Label, usize, usize)>>,
    i: int,
    d: (Label, usize, usize),
    n: int,
)
    requires
        0 <= i < n <= x.len(),
    ensures
        recorded_upto(x.update(i, x[i].push(d)), n) == recorded_upto(x, n) + 1,
    decreases n,
{
    let y = x.update(i, x[i].push(d));
    if n - 1 == i {
        lemma_upto_same(x, y, n - 1);
    } else {
        lemma_upto_push(x, i, d, n - 1);
    }
}

/// Scheduling raises the credit by one, or leaves the state as it is.
pub proof fn lemma_credit_schedule(s: StateView, l: Label, u: usize, i: usize, w: usize)
    ensures
        credit(schedule(s, l, u, i, w)) >= credit(s),
{
    if i < s.visited.len() && !s.visited[i as int].contains((l, u, w)) {
        lemma_upto_push(s.visited, i as int, (l, u, w), s.visited.len() as int);
    }
}

/// How many turns a label is away from the scheduler at most, while
/// nothing is taken up: a dot position counts the symbols behind the dot.
pub open spec fn phase(g: GrammarView, l: Label) -> int {
    match l {
        Label::L0 => 0,
        Label::Ret => 1,
        Label::Entry(_) => 1,
        Label::Slot(p, d) => 2 + g.rhs(p as int).len() - d,
    }
}

/// A turn has made progress: the credit has risen, or it has stayed and
/// the label has come closer to the scheduler.
pub open spec fn progressed(g: GrammarView, s: StateView, t: StateView) -> bool {
    credit(t) > credit(s) || (credit(t) == credit(s) && 0 <= phase(g, t.label) < phase(
        g,
        s.label,
    ))
}

/// The phase of the label of a state that satisfies the invariant is not
/// negative.
pub proof fn lemma_phase(g: GrammarView, s: StateView, m: usize)
    requires
        crate::soundness::inv(g, s, m),
    ensures
        0 <= phase(g, s.label),
{
}

} // verus!
