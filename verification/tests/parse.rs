use gll_parser::grammar::Grammar;
use gll_parser::grammar::Label;
use gll_parser::grammar::Production;
use gll_parser::grammar::Symbol;
use gll_parser::graph::parse;
use gll_parser::graph::parse_with;
use gll_parser::graph::ParseResult;
use gll_parser::sppf::SPPFNode;

const S: usize = 0;

fn root_node(result: &ParseResult) -> &SPPFNode {
    &result.sppf.nodes[result.root.expect("accepted input has a root")]
}

fn packed_children(result: &ParseResult) -> Vec<usize> {
    root_node(result).children().expect("root has children").clone()
}

/// Follows the only packed child of every container and collects the
/// terminals at the leaves, left to right.
fn yield_of(result: &ParseResult, index: usize, out: &mut Vec<u8>) {
    match &result.sppf.nodes[index] {
        SPPFNode::Dummy => panic!("dummy node inside a tree"),
        SPPFNode::Symbol(Symbol::Terminal(b), _, _, _) => out.push(*b),
        SPPFNode::Symbol(Symbol::Eps, _, _, _) => {}
        SPPFNode::Symbol(Symbol::Nonterminal(_), _, _, children)
        | SPPFNode::Intermediate(_, _, _, children) => {
            assert_eq!(children.len(), 1);
            yield_of(result, children[0], out);
        }
        SPPFNode::Packed(_, _, children) => {
            for child in children {
                yield_of(result, *child, out);
            }
        }
    }
}

/// `S -> A S d | (empty)`, `A -> a | c`.
fn restricted_grammar() -> Grammar {
    Grammar {
        productions: vec![
            Production {
                lhs: 0,
                rhs: vec![Symbol::Nonterminal(1), Symbol::Nonterminal(0), Symbol::Terminal(b'd')],
                lookahead: vec![vec![b'a', b'c'], vec![b'a', b'c', b'd', b'$'], vec![]],
            },
            Production { lhs: 0, rhs: vec![], lookahead: vec![] },
            Production { lhs: 1, rhs: vec![Symbol::Terminal(b'a')], lookahead: vec![vec![b'a']] },
            Production { lhs: 1, rhs: vec![Symbol::Terminal(b'c')], lookahead: vec![vec![b'c']] },
        ],
        nonterminals: 2,
        start: 0,
        start_lookahead: vec![b'a', b'c', b'd', b'$'],
    }
}

#[test]
fn empty_body_is_accepted() {
    let result = parse(b"$");
    assert!(result.accepted);
    assert_eq!(result.root, Some(2));
    assert_eq!(
        result.sppf.nodes,
        vec![
            SPPFNode::Dummy,
            SPPFNode::Symbol(Symbol::Eps, 0, 0, vec![]),
            SPPFNode::Symbol(Symbol::Nonterminal(S), 0, 0, vec![3]),
            SPPFNode::Packed(Label::Slot(2, 0), 0, vec![1]),
        ]
    );
}

#[test]
fn empty_body_root_has_one_packed_child_over_epsilon() {
    let result = parse(b"$");
    assert_eq!(root_node(&result).left_extent(), 0);
    assert_eq!(root_node(&result).right_extent(), 0);
    let packed = packed_children(&result);
    assert_eq!(packed.len(), 1);
    match &result.sppf.nodes[packed[0]] {
        SPPFNode::Packed(label, pivot, children) => {
            assert_eq!(*label, Label::Slot(2, 0));
            assert_eq!(*pivot, 0);
            assert_eq!(children.len(), 1);
            assert_eq!(
                result.sppf.nodes[children[0]],
                SPPFNode::Symbol(Symbol::Eps, 0, 0, vec![])
            );
        }
        other => panic!("not a packed node: {:?}", other),
    }
}

#[test]
fn single_a_is_accepted_without_ambiguity() {
    let result = parse(b"a$");
    assert!(result.accepted);
    assert!(matches!(
        root_node(&result),
        SPPFNode::Symbol(Symbol::Nonterminal(S), 0, 1, _)
    ));
    let packed = packed_children(&result);
    assert_eq!(packed.len(), 1);
    assert!(matches!(
        &result.sppf.nodes[packed[0]],
        SPPFNode::Packed(Label::Slot(1, 2), 1, _)
    ));
}

#[test]
fn single_b_is_accepted() {
    let result = parse(b"b$");
    assert!(result.accepted);
    assert!(matches!(
        root_node(&result),
        SPPFNode::Symbol(Symbol::Nonterminal(S), 0, 1, _)
    ));
    assert_eq!(packed_children(&result).len(), 1);
}

#[test]
fn ad_has_one_derivation() {
    let result = parse(b"ad$");
    assert!(result.accepted);
    assert!(matches!(
        root_node(&result),
        SPPFNode::Symbol(Symbol::Nonterminal(S), 0, 2, _)
    ));
    let packed = packed_children(&result);
    assert_eq!(packed.len(), 1);
    assert!(matches!(
        &result.sppf.nodes[packed[0]],
        SPPFNode::Packed(Label::Slot(0, 3), 1, _)
    ));
}

#[test]
fn aad_has_two_derivations() {
    let result = parse(b"aad$");
    assert!(result.accepted);
    assert!(matches!(
        root_node(&result),
        SPPFNode::Symbol(Symbol::Nonterminal(S), 0, 3, _)
    ));
    let packed = packed_children(&result);
    assert_eq!(packed.len(), 2);
    let mut labels: Vec<(Label, usize)> = Vec::new();
    for index in packed {
        match &result.sppf.nodes[index] {
            SPPFNode::Packed(label, pivot, _) => labels.push((*label, *pivot)),
            other => panic!("not a packed node: {:?}", other),
        }
    }
    assert!(labels.contains(&(Label::Slot(0, 3), 2)));
    assert!(labels.contains(&(Label::Slot(1, 2), 1)));
}

#[test]
fn aad_count_is_stable_across_runs() {
    let first = packed_children(&parse(b"aad$")).len();
    for _ in 0..5 {
        assert_eq!(packed_children(&parse(b"aad$")).len(), first);
    }
}

#[test]
fn ab_is_unambiguous() {
    let result = parse(b"ab$");
    assert!(result.accepted);
    assert!(matches!(
        root_node(&result),
        SPPFNode::Symbol(Symbol::Nonterminal(S), 0, 2, _)
    ));
    assert_eq!(packed_children(&result).len(), 1);
    let mut out = Vec::new();
    yield_of(&result, result.root.unwrap(), &mut out);
    assert_eq!(out, b"ab".to_vec());
}

#[test]
fn cd_is_unambiguous() {
    let result = parse(b"cd$");
    assert!(result.accepted);
    assert!(matches!(
        root_node(&result),
        SPPFNode::Symbol(Symbol::Nonterminal(S), 0, 2, _)
    ));
    assert_eq!(packed_children(&result).len(), 1);
    let mut out = Vec::new();
    yield_of(&result, result.root.unwrap(), &mut out);
    assert_eq!(out, b"cd".to_vec());
}

#[test]
fn unambiguous_inputs_yield_themselves() {
    let inputs: Vec<&[u8]> = vec![b"$", b"a$", b"b$", b"ad$", b"cd$", b"ab$", b"bb$", b"cbd$", b"ccdd$"];
    for input in inputs {
        let result = parse(input);
        assert!(result.accepted);
        let mut out = Vec::new();
        yield_of(&result, result.root.unwrap(), &mut out);
        assert_eq!(out, input[..input.len() - 1].to_vec());
    }
}

#[test]
fn d_alone_is_rejected() {
    let result = parse(b"d$");
    assert!(!result.accepted);
    assert_eq!(result.root, None);
}

#[test]
fn empty_input_is_rejected() {
    let result = parse(b"");
    assert!(!result.accepted);
    assert_eq!(result.root, None);
    assert_eq!(result.sppf.nodes, vec![SPPFNode::Dummy]);
}

#[test]
fn missing_sentinel_is_rejected() {
    for input in [&b"a"[..], &b"ad"[..], &b"aad"[..]] {
        let result = parse(input);
        assert!(!result.accepted);
        assert_eq!(result.root, None);
        assert_eq!(result.sppf.nodes, vec![SPPFNode::Dummy]);
    }
}

#[test]
fn byte_outside_the_alphabet_is_rejected() {
    let result = parse(b"x$");
    assert!(!result.accepted);
    assert_eq!(result.sppf.nodes, vec![SPPFNode::Dummy]);
    assert!(!parse(b"ax$").accepted);
    assert!(!parse(b"a$$").accepted);
}

#[test]
fn unbalanced_inputs_are_rejected() {
    assert!(!parse(b"c$").accepted);
    assert!(!parse(b"da$").accepted);
    assert!(!parse(b"add$").accepted);
    assert!(!parse(b"ba d$").accepted);
}

#[test]
fn longer_sentences_are_accepted() {
    assert!(parse(b"bbbb$").accepted);
    assert!(parse(b"acdd$").accepted);
    assert!(parse(b"cabd$").accepted);
    assert!(parse(b"aaaddd$").accepted);
    assert!(parse(b"abacddd$").accepted);
}

#[test]
fn restricted_grammar_is_well_formed() {
    assert!(restricted_grammar().check());
    assert!(Grammar::sample().check());
}

#[test]
fn restricted_grammar_rejects_a_alone() {
    let g = restricted_grammar();
    assert!(!parse_with(&g, b"a$").accepted);
    assert!(!parse_with(&g, b"d$").accepted);
    assert!(!parse_with(&g, b"").accepted);
    assert!(!parse_with(&g, b"b$").accepted);
}

#[test]
fn restricted_grammar_accepts_nested_pairs() {
    let g = restricted_grammar();
    assert!(parse_with(&g, b"$").accepted);
    assert!(parse_with(&g, b"ad$").accepted);
    assert!(parse_with(&g, b"cd$").accepted);
    assert!(parse_with(&g, b"acdd$").accepted);
    let result = parse_with(&g, b"aadd$");
    assert_eq!(packed_children(&result).len(), 1);
}

#[test]
fn parsing_twice_gives_the_same_forest() {
    let inputs: Vec<&[u8]> = vec![b"$", b"a$", b"ad$", b"aad$", b"ab$", b"cd$", b"d$", b""];
    for input in inputs {
        let first = parse(input);
        let second = parse(input);
        assert_eq!(first.accepted, second.accepted);
        assert_eq!(first.root, second.root);
        assert_eq!(first.sppf.nodes, second.sppf.nodes);
    }
}

#[test]
fn ill_formed_grammars_are_detected() {
    let mut g = Grammar::sample();
    g.start = 3;
    assert!(!g.check());
    let mut g = Grammar::sample();
    g.productions[0].rhs[2] = Symbol::Terminal(b'$');
    assert!(!g.check());
    let mut g = Grammar::sample();
    g.productions[1].rhs[0] = Symbol::Nonterminal(7);
    assert!(!g.check());
    let mut g = Grammar::sample();
    g.productions[1].lookahead.pop();
    assert!(!g.check());
    let mut g = Grammar::sample();
    g.productions[3].rhs[0] = Symbol::Eps;
    assert!(!g.check());
    let mut g = Grammar::sample();
    g.productions[3].lhs = 3;
    assert!(!g.check());
}

#[test]
fn left_recursive_grammar_terminates() {
    // E -> E + a | a, with E numbered 0.
    let g = Grammar {
        productions: vec![
            Production {
                lhs: 0,
                rhs: vec![Symbol::Nonterminal(0), Symbol::Terminal(b'+'), Symbol::Terminal(b'a')],
                lookahead: vec![vec![b'a'], vec![], vec![]],
            },
            Production { lhs: 0, rhs: vec![Symbol::Terminal(b'a')], lookahead: vec![vec![b'a']] },
        ],
        nonterminals: 1,
        start: 0,
        start_lookahead: vec![b'a'],
    };
    assert!(g.check());
    assert!(parse_with(&g, b"a$").accepted);
    assert!(parse_with(&g, b"a+a$").accepted);
    assert!(parse_with(&g, b"a+a+a$").accepted);
    assert!(!parse_with(&g, b"a+$").accepted);
    assert!(!parse_with(&g, b"+a$").accepted);
    let result = parse_with(&g, b"a+a+a$");
    let mut out = Vec::new();
    yield_of(&result, result.root.unwrap(), &mut out);
    assert_eq!(out, b"a+a+a".to_vec());
}

#[test]
fn highly_ambiguous_grammar_counts_every_split() {
    // S -> S S | a, with S numbered 0.
    let g = Grammar {
        productions: vec![
            Production {
                lhs: 0,
                rhs: vec![Symbol::Nonterminal(0), Symbol::Nonterminal(0)],
                lookahead: vec![vec![b'a'], vec![b'a']],
            },
            Production { lhs: 0, rhs: vec![Symbol::Terminal(b'a')], lookahead: vec![vec![b'a']] },
        ],
        nonterminals: 1,
        start: 0,
        start_lookahead: vec![b'a'],
    };
    assert!(g.check());
    let result = parse_with(&g, b"aaaa$");
    assert!(result.accepted);
    // "aaaa" splits into two sentences at positions 1, 2 and 3.
    assert_eq!(packed_children(&result).len(), 3);
    assert!(!parse_with(&g, b"$").accepted);
}

/// Whether `s` is a sentence of the sample grammar, by trying every split.
fn is_sentence(s: &[u8]) -> bool {
    if s.is_empty() {
        return true;
    }
    if (s[0] == b'a' || s[0] == b'b') && is_sentence(&s[1..]) {
        return true;
    }
    s.len() >= 2
        && (s[0] == b'a' || s[0] == b'c')
        && s[s.len() - 1] == b'd'
        && is_sentence(&s[1..s.len() - 1])
}

/// Every text over `a b c d x` of the given length.
fn texts(length: usize) -> Vec<Vec<u8>> {
    let mut all: Vec<Vec<u8>> = vec![vec![]];
    for _ in 0..length {
        let mut longer = Vec::new();
        for text in &all {
            for byte in [b'a', b'b', b'c', b'd', b'x'] {
                let mut next = text.clone();
                next.push(byte);
                longer.push(next);
            }
        }
        all = longer;
    }
    all
}

#[test]
fn acceptance_agrees_with_exhaustive_search() {
    for length in 0..=6 {
        for text in texts(length) {
            let mut input = text.clone();
            input.push(b'$');
            assert_eq!(parse(&input).accepted, is_sentence(&text), "{:?}", text);
        }
    }
}

#[test]
fn root_has_one_packed_child_per_way_to_split() {
    for length in 0..=5 {
        for text in texts(length) {
            if !is_sentence(&text) {
                continue;
            }
            let mut input = text.clone();
            input.push(b'$');
            let result = parse(&input);
            let n = text.len();
            let mut ways = 0;
            if n == 0 {
                ways += 1;
            }
            if n >= 1 && (text[0] == b'a' || text[0] == b'b') && is_sentence(&text[1..]) {
                ways += 1;
            }
            if n >= 2
                && (text[0] == b'a' || text[0] == b'c')
                && text[n - 1] == b'd'
                && is_sentence(&text[1..n - 1])
            {
                ways += 1;
            }
            assert_eq!(packed_children(&result).len(), ways, "{:?}", text);
        }
    }
}

#[test]
fn every_symbol_node_derives_its_span() {
    for length in 0..=5 {
        for text in texts(length) {
            let mut input = text.clone();
            input.push(b'$');
            let result = parse(&input);
            for node in &result.sppf.nodes {
                if let SPPFNode::Symbol(symbol, left, right, _) = node {
                    let span = &text[*left..*right];
                    match symbol {
                        Symbol::Terminal(b) => assert_eq!(span.to_vec(), vec![*b]),
                        Symbol::Eps => assert!(span.is_empty()),
                        Symbol::Nonterminal(0) => assert!(is_sentence(span)),
                        Symbol::Nonterminal(1) => {
                            assert!(span.to_vec() == vec![b'a'] || span.to_vec() == vec![b'c'])
                        }
                        Symbol::Nonterminal(2) => {
                            assert!(span.to_vec() == vec![b'a'] || span.to_vec() == vec![b'b'])
                        }
                        other => panic!("unknown symbol {:?}", other),
                    }
                }
            }
        }
    }
}

#[test]
fn admissible_inputs_end_with_the_sentinel_and_start_in_the_lookahead() {
    let g = Grammar::sample();
    assert!(gll_parser::graph::is_admissible(&g, b"$"));
    assert!(gll_parser::graph::is_admissible(&g, b"ad$"));
    assert!(gll_parser::graph::is_admissible(&g, b"d$"));
    assert!(!gll_parser::graph::is_admissible(&g, b""));
    assert!(!gll_parser::graph::is_admissible(&g, b"ad"));
    assert!(!gll_parser::graph::is_admissible(&g, b"x$"));
    assert!(!gll_parser::graph::is_admissible(&restricted_grammar(), b"b$"));
}
