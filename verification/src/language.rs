//! The language of a grammar: which stretches of a text a symbol derives.

use crate::grammar::GrammarView;
use crate::grammar::Symbol;
use vstd::prelude::*;

verus! {

/// Symbol `x` derives the bytes `k..i` of `text` by a derivation of height
/// `n` at most: a terminal derives itself, epsilon derives nothing, and a
/// nonterminal derives what the right-hand side of one of its productions
/// derives.
pub open spec fn derives(g: GrammarView, text: Seq<u8>, x: Symbol, k: int, i: int, n: nat) -> bool
    decreases n, 0int, 0int,
{
    match x {
        Symbol::Terminal(b) => 0 <= k < text.len() && i == k + 1 && text[k] == b,
        Symbol::Eps => i == k,
        Symbol::Nonterminal(y) => n > 0 && exists|p: int|
            #![trigger g.productions[p]]
            0 <= p < g.productions.len() && g.productions[p].lhs == y && derives_prefix(
                g,
                text,
                p,
                g.rhs(p).len() as int,
                k,
                i,
                (n - 1) as nat,
            ),
    }
}

/// The first `d` symbols of the right-hand side of production `p` derive
/// the bytes `k..i` of `text`, one after the other, each by a derivation
/// of height `n` at most.
pub open spec fn derives_prefix(
    g: GrammarView,
    text: Seq<u8>,
    p: int,
    d: int,
    k: int,
    i: int,
    n: nat,
) -> bool
    decreases n, 1int, d,
{
    if d <= 0 {
        k == i
    } else {
        exists|j: int|
            #![trigger cut(j)]
            cut(j) && k <= j <= i && derives_prefix(g, text, p, d - 1, k, j, n) && derives(
                g,
                text,
                g.rhs(p)[d - 1],
                j,
                i,
                n,
            )
    }
}

/// Marks a position at which a stretch of text is cut in two.
pub open spec fn cut(j: int) -> bool {
    true
}

/// Symbol `x` derives the bytes `k..i` of `text`.
pub open spec fn derivable(g: GrammarView, text: Seq<u8>, x: Symbol, k: int, i: int) -> bool {
    exists|n: nat| derives(g, text, x, k, i, n)
}

/// The first `d` symbols of production `p` derive the bytes `k..i` of
/// `text`.
pub open spec fn prefix_derivable(
    g: GrammarView,
    text: Seq<u8>,
    p: int,
    d: int,
    k: int,
    i: int,
) -> bool {
    exists|n: nat| derives_prefix(g, text, p, d, k, i, n)
}

/// `text` is a sentence of the grammar: the start symbol derives all of it.
pub open spec fn is_sentence(g: GrammarView, text: Seq<u8>) -> bool {
    derivable(g, text, Symbol::Nonterminal(g.start), 0, text.len() as int)
}

/// A derivation of some height is one of any greater height.
pub proof fn lemma_derives_higher(
    g: GrammarView,
    text: Seq<u8>,
    x: Symbol,
    k: int,
    i: int,
    n: nat,
    n2: nat,
)
    requires
        derives(g, text, x, k, i, n),
        n <= n2,
    ensures
        derives(g, text, x, k, i, n2),
    decreases n, 0int, 0int,
{
    if let Symbol::Nonterminal(y) = x {
        let p = choose|p: int|
            #![trigger g.productions[p]]
            0 <= p < g.productions.len() && g.productions[p].lhs == y && derives_prefix(
                g,
                text,
                p,
                g.rhs(p).len() as int,
                k,
                i,
                (n - 1) as nat,
            );
        lemma_prefix_higher(
            g,
            text,
            p,
            g.rhs(p).len() as int,
            k,
            i,
            (n - 1) as nat,
            (n2 - 1) as nat,
        );
    }
}

/// A derivation of a prefix of some height is one of any greater height.
pub proof fn lemma_prefix_higher(
    g: GrammarView,
    text: Seq<u8>,
    p: int,
    d: int,
    k: int,
    i: int,
    n: nat,
    n2: nat,
)
    requires
        derives_prefix(g, text, p, d, k, i, n),
        n <= n2,
    ensures
        derives_prefix(g, text, p, d, k, i, n2),
    decreases n, 1int, d,
{
    if d > 0 {
        let j = choose|j: int|
            #![trigger cut(j)]
            cut(j) && k <= j <= i && derives_prefix(g, text, p, d - 1, k, j, n) && derives(
                g,
                text,
                g.rhs(p)[d - 1],
                j,
                i,
                n,
            );
        lemma_prefix_higher(g, text, p, d - 1, k, j, n, n2);
        lemma_derives_higher(g, text, g.rhs(p)[d - 1], j, i, n, n2);
        assert(cut(j));
    }
}

/// No symbols derive exactly nothing.
pub proof fn lemma_prefix_empty(g: GrammarView, text: Seq<u8>, p: int, k: int)
    ensures
        prefix_derivable(g, text, p, 0, k, k),
{
    assert(derives_prefix(g, text, p, 0, k, k, 0));
}

/// A derived prefix followed by a derivation of the next symbol is a
/// derivation of the longer prefix.
pub proof fn lemma_prefix_extend(
    g: GrammarView,
    text: Seq<u8>,
    p: int,
    d: int,
    k: int,
    j: int,
    i: int,
)
    requires
        0 <= d,
        k <= j <= i,
        prefix_derivable(g, text, p, d, k, j),
        derivable(g, text, g.rhs(p)[d], j, i),
    ensures
        prefix_derivable(g, text, p, d + 1, k, i),
{
    let n1 = choose|n: nat| derives_prefix(g, text, p, d, k, j, n);
    let n2 = choose|n: nat| derives(g, text, g.rhs(p)[d], j, i, n);
    let n = if n1 <= n2 {
        n2
    } else {
        n1
    };
    lemma_prefix_higher(g, text, p, d, k, j, n1, n);
    lemma_derives_higher(g, text, g.rhs(p)[d], j, i, n2, n);
    assert(cut(j));
    assert(derives_prefix(g, text, p, d + 1, k, i, n));
}

/// What the whole right-hand side of a production derives, its left-hand
/// side derives.
pub proof fn lemma_production(g: GrammarView, text: Seq<u8>, p: int, k: int, i: int)
    requires
        0 <= p < g.productions.len(),
        prefix_derivable(g, text, p, g.rhs(p).len() as int, k, i),
    ensures
        derivable(g, text, Symbol::Nonterminal(g.productions[p].lhs), k, i),
{
    let n = choose|n: nat| derives_prefix(g, text, p, g.rhs(p).len() as int, k, i, n);
    let _ = g.productions[p];
    assert(derives(g, text, Symbol::Nonterminal(g.productions[p].lhs), k, i, n + 1));
}

/// A terminal derives the byte that it is.
pub proof fn lemma_terminal(g: GrammarView, text: Seq<u8>, k: int)
    requires
        0 <= k < text.len(),
    ensures
        derivable(g, text, Symbol::Terminal(text[k]), k, k + 1),
{
    assert(derives(g, text, Symbol::Terminal(text[k]), k, k + 1, 0));
}

/// Epsilon derives nothing, anywhere.
pub proof fn lemma_epsilon(g: GrammarView, text: Seq<u8>, k: int)
    ensures
        derivable(g, text, Symbol::Eps, k, k),
{
    assert(derives(g, text, Symbol::Eps, k, k, 0));
}

/// What is derived is a stretch of the text.
pub proof fn lemma_derives_within(g: GrammarView, text: Seq<u8>, x: Symbol, k: int, i: int, n: nat)
    requires
        derives(g, text, x, k, i, n),
    ensures
        k <= i,
    decreases n, 0int, 0int,
{
    if let Symbol::Nonterminal(y) = x {
        let p = choose|p: int|
            #![trigger g.productions[p]]
            0 <= p < g.productions.len() && g.productions[p].lhs == y && derives_prefix(
                g,
                text,
                p,
                g.rhs(p).len() as int,
                k,
                i,
                (n - 1) as nat,
            );
        lemma_prefix_within(g, text, p, g.rhs(p).len() as int, k, i, (n - 1) as nat);
    }
}

/// What a prefix derives is a stretch of the text.
pub proof fn lemma_prefix_within(
    g: GrammarView,
    text: Seq<u8>,
    p: int,
    d: int,
    k: int,
    i: int,
    n: nat,
)
    requires
        derives_prefix(g, text, p, d, k, i, n),
    ensures
        k <= i,
{
}

/// A prefix that is not empty begins with what its first symbol derives.
pub proof fn lemma_first_symbol(
    g: GrammarView,
    text: Seq<u8>,
    p: int,
    d: int,
    k: int,
    i: int,
    n: nat,
)
    requires
        d >= 1,
        derives_prefix(g, text, p, d, k, i, n),
    ensures
        exists|j: int| #![trigger cut(j)] cut(j) && k <= j <= i && derives(g, text, g.rhs(p)[0], k, j, n),
    decreases d,
{
    let j = choose|j: int|
        #![trigger cut(j)]
        cut(j) && k <= j <= i && derives_prefix(g, text, p, d - 1, k, j, n) && derives(
            g,
            text,
            g.rhs(p)[d - 1],
            j,
            i,
            n,
        );
    if d == 1 {
        assert(cut(i));
    } else {
        lemma_first_symbol(g, text, p, d - 1, k, j, n);
        let j1 = choose|j1: int|
            #![trigger cut(j1)]
            cut(j1) && k <= j1 <= j && derives(g, text, g.rhs(p)[0], k, j1, n);
        assert(cut(j1));
    }
}

/// Byte `b` occurs as a terminal in some production.
pub open spec fn is_terminal(g: GrammarView, b: u8) -> bool {
    exists|p: int, d: int|
        0 <= p < g.productions.len() && 0 <= d < g.rhs(p).len() && #[trigger] g.rhs(p)[d]
            == Symbol::Terminal(b)
}

/// Every byte of what a nonterminal derives is a terminal of the grammar.
pub proof fn lemma_derived_bytes(
    g: GrammarView,
    text: Seq<u8>,
    y: usize,
    k: int,
    i: int,
    n: nat,
    t: int,
)
    requires
        derives(g, text, Symbol::Nonterminal(y), k, i, n),
        k <= t < i,
    ensures
        0 <= t < text.len(),
        is_terminal(g, text[t]),
    decreases n, 0int, 0int,
{
    let p = choose|p: int|
        #![trigger g.productions[p]]
        0 <= p < g.productions.len() && g.productions[p].lhs == y && derives_prefix(
            g,
            text,
            p,
            g.rhs(p).len() as int,
            k,
            i,
            (n - 1) as nat,
        );
    lemma_prefix_bytes(g, text, p, g.rhs(p).len() as int, k, i, (n - 1) as nat, t);
}

/// Every byte of what a prefix of a production derives is a terminal of
/// the grammar.
pub proof fn lemma_prefix_bytes(
    g: GrammarView,
    text: Seq<u8>,
    p: int,
    d: int,
    k: int,
    i: int,
    n: nat,
    t: int,
)
    requires
        0 <= p < g.productions.len(),
        0 <= d <= g.rhs(p).len(),
        derives_prefix(g, text, p, d, k, i, n),
        k <= t < i,
    ensures
        0 <= t < text.len(),
        is_terminal(g, text[t]),
    decreases n, 1int, d,
{
    let j = choose|j: int|
        #![trigger cut(j)]
        cut(j) && k <= j <= i && derives_prefix(g, text, p, d - 1, k, j, n) && derives(
            g,
            text,
            g.rhs(p)[d - 1],
            j,
            i,
            n,
        );
    if t < j {
        lemma_prefix_bytes(g, text, p, d - 1, k, j, n, t);
    } else {
        match g.rhs(p)[d - 1] {
            Symbol::Terminal(b) => {
                assert(g.rhs(p)[d - 1] == Symbol::Terminal(text[t]));
            },
            Symbol::Eps => {},
            Symbol::Nonterminal(y) => {
                lemma_derived_bytes(g, text, y, j, i, n, t);
            },
        }
    }
}

} // verus!
