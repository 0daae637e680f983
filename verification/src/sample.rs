//! The sample grammar
//!
//! ```text
//! S -> A S d | B S | (empty)
//! A -> a | c
//! B -> a | b
//! ```
//!
//! with `S` numbered 0, `A` 1 and `B` 2.

use crate::grammar::Grammar;
use crate::grammar::GrammarView;
use crate::grammar::Production;
use crate::grammar::ProductionView;
use crate::grammar::SENTINEL;
use crate::grammar::Symbol;
use vstd::prelude::*;

verus! {

/// The bytes that may follow where an `S` may begin or end.
pub open spec fn any_byte() -> Seq<u8> {
    seq![97u8, 98u8, 99u8, 100u8, 36u8]
}

/// A production that consists of the single terminal `b`.
pub open spec fn unit_production(lhs: usize, b: u8) -> ProductionView {
    ProductionView { lhs, rhs: seq![Symbol::Terminal(b)], lookahead: seq![seq![b]] }
}

/// The sample grammar. Its seven productions are, in this order,
/// `S -> A S d`, `S -> B S`, `S -> (empty)`, `A -> a`, `A -> c`, `B -> a`
/// and `B -> b`.
pub open spec fn sample_grammar() -> GrammarView {
    GrammarView {
        productions: seq![
            ProductionView {
                lhs: 0,
                rhs: seq![Symbol::Nonterminal(1), Symbol::Nonterminal(0), Symbol::Terminal(100)],
                lookahead: seq![seq![97u8, 99u8], any_byte(), Seq::empty()],
            },
            ProductionView {
                lhs: 0,
                rhs: seq![Symbol::Nonterminal(2), Symbol::Nonterminal(0)],
                lookahead: seq![seq![97u8, 98u8], any_byte()],
            },
            ProductionView { lhs: 0, rhs: Seq::empty(), lookahead: Seq::empty() },
            unit_production(1, 97),
            unit_production(1, 99),
            unit_production(2, 97),
            unit_production(2, 98),
        ],
        nonterminals: 3,
        start: 0,
        start_lookahead: any_byte(),
    }
}

/// The sample grammar is well-formed.
pub proof fn lemma_sample_wf()
    ensures
        sample_grammar().wf(),
{
    let g = sample_grammar();
    assert forall|p: int| 0 <= p < g.productions.len() implies (#[trigger] g.productions[p]).wf(
        g.nonterminals,
    ) by {
        let q = g.productions[p];
        assert forall|d: int| 0 <= d < q.rhs.len() implies match #[trigger] q.rhs[d] {
            Symbol::Terminal(b) => b != crate::grammar::SENTINEL,
            Symbol::Nonterminal(y) => y < g.nonterminals,
            Symbol::Eps => false,
        } by {}
    }
}

/// The set of bytes `a b c d $`.
fn any_byte_set() -> (v: Vec<u8>)
    ensures
        v@ == any_byte(),
{
    let mut v: Vec<u8> = Vec::new();
    v.push(97);
    v.push(98);
    v.push(99);
    v.push(100);
    v.push(36);
    assert(v@ =~= any_byte());
    v
}

/// The set of the two bytes `x` and `y`.
fn two_bytes(x: u8, y: u8) -> (v: Vec<u8>)
    ensures
        v@ == seq![x, y],
{
    let mut v: Vec<u8> = Vec::new();
    v.push(x);
    v.push(y);
    assert(v@ =~= seq![x, y]);
    v
}

/// The production `lhs -> b` for a terminal `b`.
fn unit(lhs: usize, b: u8) -> (p: Production)
    ensures
        p@ == unit_production(lhs, b),
{
    let mut rhs: Vec<Symbol> = Vec::new();
    rhs.push(Symbol::Terminal(b));
    let mut set: Vec<u8> = Vec::new();
    set.push(b);
    let mut lookahead: Vec<Vec<u8>> = Vec::new();
    lookahead.push(set);
    let p = Production { lhs, rhs, lookahead };
    assert(p@.rhs =~= seq![Symbol::Terminal(b)]);
    assert(p@.lookahead[0] =~= seq![b]);
    assert(p@.lookahead =~= seq![seq![b]]);
    p
}

/// The production `S -> A S d`.
fn long_production() -> (p: Production)
    ensures
        p@ == sample_grammar().productions[0],
{
    let mut rhs: Vec<Symbol> = Vec::new();
    rhs.push(Symbol::Nonterminal(1));
    rhs.push(Symbol::Nonterminal(0));
    rhs.push(Symbol::Terminal(100));
    let mut lookahead: Vec<Vec<u8>> = Vec::new();
    lookahead.push(two_bytes(97, 99));
    lookahead.push(any_byte_set());
    lookahead.push(Vec::new());
    let p = Production { lhs: 0, rhs, lookahead };
    assert(p@.rhs =~= sample_grammar().productions[0].rhs);
    assert(p@.lookahead[2] =~= Seq::empty());
    assert(p@.lookahead =~= sample_grammar().productions[0].lookahead);
    p
}

/// The production `S -> B S`.
fn short_production() -> (p: Production)
    ensures
        p@ == sample_grammar().productions[1],
{
    let mut rhs: Vec<Symbol> = Vec::new();
    rhs.push(Symbol::Nonterminal(2));
    rhs.push(Symbol::Nonterminal(0));
    let mut lookahead: Vec<Vec<u8>> = Vec::new();
    lookahead.push(two_bytes(97, 98));
    lookahead.push(any_byte_set());
    let p = Production { lhs: 0, rhs, lookahead };
    assert(p@.rhs =~= sample_grammar().productions[1].rhs);
    assert(p@.lookahead =~= sample_grammar().productions[1].lookahead);
    p
}

/// The production `S -> (empty)`.
fn empty_production() -> (p: Production)
    ensures
        p@ == sample_grammar().productions[2],
{
    let p = Production { lhs: 0, rhs: Vec::new(), lookahead: Vec::new() };
    assert(p@.rhs =~= sample_grammar().productions[2].rhs);
    assert(p@.lookahead =~= sample_grammar().productions[2].lookahead);
    p
}

impl Grammar {
    /// Builds the sample grammar.
    pub fn sample() -> (g: Grammar)
        ensures
            g@ == sample_grammar(),
            g@.wf(),
    {
        let mut productions: Vec<Production> = Vec::new();
        productions.push(long_production());
        productions.push(short_production());
        productions.push(empty_production());
        productions.push(unit(1, 97));
        productions.push(unit(1, 99));
        productions.push(unit(2, 97));
        productions.push(unit(2, 98));
        let g = Grammar { productions, nonterminals: 3, start: 0, start_lookahead: any_byte_set() };
        proof {
            assert(g@.productions =~= sample_grammar().productions);
            lemma_sample_wf();
        }
        g
    }
}

/// The terminals of the sample grammar are `a`, `b`, `c` and `d`.
pub proof fn lemma_sample_terminals(b: u8)
    requires
        crate::language::is_terminal(sample_grammar(), b),
    ensures
        b == 97 || b == 98 || b == 99 || b == 100,
{
    let g = sample_grammar();
    let (p, d) = choose|p: int, d: int|
        0 <= p < g.productions.len() && 0 <= d < g.rhs(p).len() && #[trigger] g.rhs(p)[d]
            == Symbol::Terminal(b);
    assert(g.rhs(p)[d] == Symbol::Terminal(b));
}

/// What `A` or `B` derives is one byte: `a` or `c` for `A`, `a` or `b` for
/// `B`.
pub proof fn lemma_sample_letter(text: Seq<u8>, y: usize, k: int, i: int, n: nat)
    requires
        y == 1 || y == 2,
        crate::language::derives(sample_grammar(), text, Symbol::Nonterminal(y), k, i, n),
    ensures
        0 <= k < text.len(),
        i == k + 1,
        y == 1 ==> text[k] == 97 || text[k] == 99,
        y == 2 ==> text[k] == 97 || text[k] == 98,
{
    let g = sample_grammar();
    let p = choose|p: int|
        #![trigger g.productions[p]]
        0 <= p < g.productions.len() && g.productions[p].lhs == y
            && crate::language::derives_prefix(
            g,
            text,
            p,
            g.rhs(p).len() as int,
            k,
            i,
            (n - 1) as nat,
        );
    assert(3 <= p <= 6);
    crate::language::lemma_first_symbol(g, text, p, 1, k, i, (n - 1) as nat);
    let h = (n - 1) as nat;
    let j = choose|j: int|
        #![trigger crate::language::cut(j)]
        crate::language::cut(j) && k <= j <= i && crate::language::derives_prefix(
            g,
            text,
            p,
            0,
            k,
            j,
            h,
        ) && crate::language::derives(g, text, g.rhs(p)[0], j, i, h);
    assert(j == k);
}

/// Where a production of the sample grammar that is not empty derives a
/// stretch of the text, the text has a byte of the production's first
/// lookahead set.
pub proof fn lemma_sample_first(text: Seq<u8>, q: int, i: int, j: int)
    requires
        0 <= q < 7,
        q != 2,
        crate::language::prefix_derivable(
            sample_grammar(),
            text,
            q,
            sample_grammar().rhs(q).len() as int,
            i,
            j,
        ),
    ensures
        0 <= i < text.len(),
        sample_grammar().productions[q].lookahead[0].contains(text[i]),
{
    let g = sample_grammar();
    let n = choose|n: nat|
        crate::language::derives_prefix(g, text, q, g.rhs(q).len() as int, i, j, n);
    crate::language::lemma_first_symbol(g, text, q, g.rhs(q).len() as int, i, j, n);
    let j1 = choose|j1: int|
        #![trigger crate::language::cut(j1)]
        crate::language::cut(j1) && i <= j1 <= j && crate::language::derives(
            g,
            text,
            g.rhs(q)[0],
            i,
            j1,
            n,
        );
    let set = g.productions[q].lookahead[0];
    if q == 0 {
        lemma_sample_letter(text, 1, i, j1, n);
        assert(set[0] == 97 && set[1] == 99);
    } else if q == 1 {
        lemma_sample_letter(text, 2, i, j1, n);
        assert(set[0] == 97 && set[1] == 98);
    } else {
        assert(set[0] == text[i]);
    }
}

/// Every byte of the input is one of `a b c d $`.
pub open spec fn alphabetic(input: Seq<u8>) -> bool {
    forall|i: int| 0 <= i < input.len() ==> any_byte().contains(#[trigger] input[i])
}

/// An input that ends with the sentinel and whose text is a sentence of
/// the sample grammar is alphabetic.
pub proof fn lemma_sample_bytes(input: Seq<u8>)
    requires
        input.len() >= 1,
        input.last() == SENTINEL,
        crate::language::is_sentence(sample_grammar(), input.drop_last()),
    ensures
        alphabetic(input),
{
    let g = sample_grammar();
    let text = input.drop_last();
    let n = choose|n: nat|
        crate::language::derives(g, text, Symbol::Nonterminal(g.start), 0, text.len() as int, n);
    assert forall|i: int| 0 <= i < input.len() implies any_byte().contains(#[trigger] input[i]) by {
        let b = input[i];
        if i < text.len() {
            assert(text[i] == input[i]);
            crate::language::lemma_derived_bytes(g, text, g.start, 0, text.len() as int, n, i);
            lemma_sample_terminals(b);
        }
        assert(any_byte()[0] == 97 && any_byte()[1] == 98 && any_byte()[2] == 99 && any_byte()[3]
            == 100 && any_byte()[4] == 36);
    }
}

/// For an alphabetic input the lookahead sets of the sample grammar prune
/// nothing: the input is admissible if it ends with the sentinel, and the
/// grammar is conservative for it.
pub proof fn lemma_sample_conservative(input: Seq<u8>)
    requires
        input.len() >= 1,
        alphabetic(input),
    ensures
        input.last() == SENTINEL ==> crate::model::admissible(sample_grammar(), input),
        crate::complete::conservative(sample_grammar(), input),
{
    let g = sample_grammar();
    let text = input.drop_last();
    assert forall|p: int, d: int, i: int|
        0 <= p < g.productions.len() && 1 <= d < g.rhs(p).len() && g.rhs(p)[d] is Nonterminal && 0
            <= i < input.len() implies #[trigger] g.productions[p].lookahead[d].contains(
        input[i],
    ) by {
        assert(any_byte().contains(input[i]));
        assert(g.productions[p].lookahead[d] == any_byte());
    }
    assert forall|q: int, i: int, j: int|
        0 <= q < g.productions.len() && g.rhs(q).len() > 0 && 0 <= i < input.len()
            && #[trigger] crate::language::prefix_derivable(
            g,
            text,
            q,
            g.rhs(q).len() as int,
            i,
            j,
        ) implies g.productions[q].lookahead[0].contains(input[i]) by {
        lemma_sample_first(text, q, i, j);
        assert(text[i] == input[i]);
    }
    assert(any_byte().contains(input[0]));
}

} // verus!
