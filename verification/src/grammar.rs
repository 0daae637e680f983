//! Grammar descriptions: symbols, labels, productions and the label
//! predicates that steer the parser.

use vstd::prelude::*;

verus! {

/// The byte that terminates every input (`$`).
pub const SENTINEL: u8 = 36;

/// A grammar symbol as it appears in the parse forest.
#[derive(Clone, Copy, Debug, PartialEq, Eq, Structural)]
pub enum Symbol {
    /// A single input byte.
    Terminal(u8),
    /// A nonterminal, by its number.
    Nonterminal(usize),
    /// The empty string.
    Eps,
}

impl Symbol {
    /// Whether this symbol is the empty string.
    pub fn is_eps(&self) -> (b: bool)
        ensures
            b == (*self == Symbol::Eps),
    {
        match self {
            Symbol::Eps => true,
            _ => false,
        }
    }
}

/// A position in the parser's control flow.
#[derive(Clone, Copy, Debug, PartialEq, Eq, Structural)]
pub enum Label {
    /// Return to the caller recorded in the current stack node.
    Ret,
    /// The scheduler: take the next pending descriptor, or finish.
    L0,
    /// Entry of a nonterminal: choose among its alternatives.
    Entry(usize),
    /// Production `p` with the dot before its `d`-th right-hand symbol
    /// (`d` equal to the length of the right-hand side marks its end).
    Slot(usize, usize),
}

/// One production `lhs -> rhs`, with the lookahead sets that prune it.
#[derive(Debug)]
pub struct Production {
    /// The nonterminal being defined.
    pub lhs: usize,
    /// The right-hand side; empty for an epsilon production.
    pub rhs: Vec<Symbol>,
    /// One byte set per right-hand symbol. The first is tested at the entry
    /// of `lhs` before this alternative is scheduled; a later one is tested
    /// before the nonterminal at that position is called.
    pub lookahead: Vec<Vec<u8>>,
}

/// The mathematical value of a production.
pub struct ProductionView {
    pub lhs: usize,
    pub rhs: Seq<Symbol>,
    pub lookahead: Seq<Seq<u8>>,
}

impl ProductionView {
    /// Well-formedness of a production in a grammar with `nonterminals`
    /// nonterminals: its symbols exist, none is the sentinel or epsilon, and
    /// there is one lookahead set per symbol.
    pub open spec fn wf(self, nonterminals: usize) -> bool {
        &&& self.lhs < nonterminals
        &&& self.lookahead.len() == self.rhs.len()
        &&& self.rhs.len() <= usize::MAX
        &&& forall|d: int|
            0 <= d < self.rhs.len() ==> match #[trigger] self.rhs[d] {
                Symbol::Terminal(b) => b != SENTINEL,
                Symbol::Nonterminal(y) => y < nonterminals,
                Symbol::Eps => false,
            }
    }
}

impl View for Production {
    type V = ProductionView;

    open spec fn view(&self) -> ProductionView {
        ProductionView {
            lhs: self.lhs,
            rhs: self.rhs@,
            lookahead: Seq::new(self.lookahead@.len(), |d: int| self.lookahead@[d]@),
        }
    }
}

/// A context-free grammar with its start symbol.
#[derive(Debug)]
pub struct Grammar {
    /// The productions, in the order in which alternatives are tried.
    pub productions: Vec<Production>,
    /// The number of nonterminals; they are numbered from zero.
    pub nonterminals: usize,
    /// The start nonterminal.
    pub start: usize,
    /// The bytes that may begin a sentence followed by the sentinel.
    pub start_lookahead: Vec<u8>,
}

/// The mathematical value of a grammar.
pub struct GrammarView {
    pub productions: Seq<ProductionView>,
    pub nonterminals: usize,
    pub start: usize,
    pub start_lookahead: Seq<u8>,
}

impl View for Grammar {
    type V = GrammarView;

    open spec fn view(&self) -> GrammarView {
        GrammarView {
            productions: Seq::new(self.productions@.len(), |p: int| self.productions@[p]@),
            nonterminals: self.nonterminals,
            start: self.start,
            start_lookahead: self.start_lookahead@,
        }
    }
}

impl GrammarView {
    /// Well-formedness: the start symbol and every production are in range.
    pub open spec fn wf(self) -> bool {
        &&& self.start < self.nonterminals
        &&& forall|p: int|
            0 <= p < self.productions.len() ==> (#[trigger] self.productions[p]).wf(
                self.nonterminals,
            )
    }

    /// The right-hand side of production `p`.
    pub open spec fn rhs(self, p: int) -> Seq<Symbol> {
        self.productions[p].rhs
    }

    /// Whether `l` is a dot position of one of this grammar's productions.
    pub open spec fn is_slot(self, l: Label) -> bool {
        match l {
            Label::Slot(p, d) => p < self.productions.len() && d <= self.rhs(p as int).len(),
            _ => false,
        }
    }

    /// Whether `l` is a return label: a dot right after a nonterminal.
    pub open spec fn is_return(self, l: Label) -> bool {
        match l {
            Label::Slot(p, d) => self.is_slot(l) && d >= 1 && self.rhs(p as int)[d - 1] is Nonterminal,
            _ => false,
        }
    }

    /// The first-child marker: the dot stands right after the first symbol,
    /// a nonterminal, of a production with more than one symbol.
    pub open spec fn first(self, l: Label) -> bool {
        match l {
            Label::Slot(p, d) => {
                &&& p < self.productions.len()
                &&& d == 1
                &&& self.rhs(p as int).len() > 1
                &&& self.rhs(p as int)[0] is Nonterminal
            },
            _ => false,
        }
    }

    /// The nonterminal whose production ends at `l`, if `l` is the end of one.
    pub open spec fn end(self, l: Label) -> Option<Symbol> {
        match l {
            Label::Slot(p, d) => if p < self.productions.len() && d == self.rhs(p as int).len() {
                Some(Symbol::Nonterminal(self.productions[p as int].lhs))
            } else {
                None
            },
            _ => None,
        }
    }
}

impl Production {
    /// Checks that the production is well-formed in a grammar with
    /// `nonterminals` nonterminals.
    pub fn check(&self, nonterminals: usize) -> (ok: bool)
        ensures
            ok == self@.wf(nonterminals),
    {
        if self.lhs >= nonterminals || self.lookahead.len() != self.rhs.len() {
            return false;
        }
        let mut d: usize = 0;
        while d < self.rhs.len()
            invariant
                d <= self.rhs.len(),
                forall|t: int|
                    0 <= t < d ==> match #[trigger] self@.rhs[t] {
                        Symbol::Terminal(b) => b != SENTINEL,
                        Symbol::Nonterminal(y) => y < nonterminals,
                        Symbol::Eps => false,
                    },
            decreases self.rhs.len() - d,
        {
            let ok = match self.rhs[d] {
                Symbol::Terminal(b) => b != SENTINEL,
                Symbol::Nonterminal(y) => y < nonterminals,
                Symbol::Eps => false,
            };
            if !ok {
                assert(!self@.wf(nonterminals)) by {
                    let _ = self@.rhs[d as int];
                }
                return false;
            }
            d = d + 1;
        }
        true
    }
}

impl Grammar {
    /// Checks that the grammar is well-formed.
    pub fn check(&self) -> (ok: bool)
        ensures
            ok == self@.wf(),
    {
        if self.start >= self.nonterminals {
            return false;
        }
        let mut p: usize = 0;
        while p < self.productions.len()
            invariant
                p <= self.productions.len(),
                forall|t: int| 0 <= t < p ==> (#[trigger] self@.productions[t]).wf(self.nonterminals),
            decreases self.productions.len() - p,
        {
            if !self.productions[p].check(self.nonterminals) {
                assert(!self@.wf()) by {
                    let _ = self@.productions[p as int];
                }
                return false;
            }
            p = p + 1;
        }
        true
    }

    /// Computes the first-child marker of `l`.
    pub fn first(&self, l: Label) -> (b: bool)
        ensures
            b == self@.first(l),
    {
        match l {
            Label::Slot(p, d) => {
                if p < self.productions.len() && d == 1 {
                    let rhs = &self.productions[p].rhs;
                    if rhs.len() > 1 {
                        match rhs[0] {
                            Symbol::Nonterminal(_) => true,
                            _ => false,
                        }
                    } else {
                        false
                    }
                } else {
                    false
                }
            },
            _ => false,
        }
    }

    /// Computes the left-hand side of the production that ends at `l`.
    pub fn end(&self, l: Label) -> (x: Option<Symbol>)
        ensures
            x == self@.end(l),
    {
        match l {
            Label::Slot(p, d) => {
                if p < self.productions.len() && d == self.productions[p].rhs.len() {
                    Some(Symbol::Nonterminal(self.productions[p].lhs))
                } else {
                    None
                }
            },
            _ => None,
        }
    }
}

/// Whether the byte set `set` holds `b`.
pub fn contains_byte(set: &Vec<u8>, b: u8) -> (r: bool)
    ensures
        r == set@.contains(b),
{
    let mut i: usize = 0;
    while i < set.len()
        invariant
            i <= set.len(),
            forall|j: int| 0 <= j < i ==> set@[j] != b,
        decreases set.len() - i,
    {
        if set[i] == b {
            return true;
        }
        i = i + 1;
    }
    false
}

} // verus!
