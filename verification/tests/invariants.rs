use gll_parser::grammar::Grammar;
use gll_parser::grammar::Label;
use gll_parser::grammar::Production;
use gll_parser::grammar::Symbol;
use gll_parser::graph::drive;
use gll_parser::sppf::SPPFNode;
use gll_parser::sppf::Sppf;
use gll_parser::state::GSSState;

fn is_container(node: &SPPFNode) -> bool {
    matches!(node, SPPFNode::Symbol(..) | SPPFNode::Intermediate(..))
}

fn containers_are_unique(sppf: &Sppf) {
    for (i, a) in sppf.nodes.iter().enumerate() {
        for b in sppf.nodes.iter().skip(i + 1) {
            match (a, b) {
                (SPPFNode::Symbol(x, l, r, _), SPPFNode::Symbol(x2, l2, r2, _)) => {
                    assert_ne!((x, l, r), (x2, l2, r2))
                }
                (SPPFNode::Intermediate(x, l, r, _), SPPFNode::Intermediate(x2, l2, r2, _)) => {
                    assert_ne!((x, l, r), (x2, l2, r2))
                }
                (SPPFNode::Dummy, SPPFNode::Dummy) => panic!("two dummy nodes"),
                _ => {}
            }
        }
    }
    assert_eq!(sppf.nodes[0], SPPFNode::Dummy);
}

fn packed_children_are_unique(sppf: &Sppf) {
    for node in sppf.nodes.iter().filter(|n| is_container(n)) {
        let children = node.children().unwrap();
        for (i, c1) in children.iter().enumerate() {
            for c2 in children.iter().skip(i + 1) {
                match (&sppf.nodes[*c1], &sppf.nodes[*c2]) {
                    (SPPFNode::Packed(l, k, _), SPPFNode::Packed(l2, k2, _)) => {
                        assert_ne!((l, k), (l2, k2))
                    }
                    other => panic!("child that is not packed: {:?}", other),
                }
            }
        }
    }
}

fn extents_cohere(sppf: &Sppf) {
    for (y, node) in sppf.nodes.iter().enumerate() {
        if !is_container(node) {
            continue;
        }
        assert!(node.left_extent() <= node.right_extent());
        assert!(node.right_extent() <= sppf.limit);
        for c in node.children().unwrap() {
            assert!(y < *c);
            match &sppf.nodes[*c] {
                SPPFNode::Packed(_, pivot, kids) => {
                    assert!(kids.len() == 1 || kids.len() == 2);
                    let z = &sppf.nodes[*kids.last().unwrap()];
                    assert_eq!(z.left_extent(), *pivot);
                    assert_eq!(z.right_extent(), node.right_extent());
                    if kids.len() == 2 {
                        let w = &sppf.nodes[kids[0]];
                        assert_eq!(w.right_extent(), *pivot);
                        assert_eq!(w.left_extent(), node.left_extent());
                    } else {
                        assert_eq!(*pivot, node.left_extent());
                    }
                    for kid in kids {
                        assert!(kid < c);
                    }
                }
                other => panic!("child that is not packed: {:?}", other),
            }
        }
    }
}

/// The node that a delivery under `label` joins from `w` and `z`.
fn joined(g: &Grammar, sppf: &Sppf, label: Label, w: usize, z: usize) -> Option<usize> {
    if g.first(label) {
        return Some(z);
    }
    let left = match &sppf.nodes[w] {
        SPPFNode::Dummy => sppf.nodes[z].left_extent(),
        node => node.left_extent(),
    };
    let right = sppf.nodes[z].right_extent();
    sppf.nodes.iter().position(|node| match (g.end(label), node) {
        (Some(x), SPPFNode::Symbol(x2, l, r, _)) => (x, left, right) == (*x2, *l, *r),
        (None, SPPFNode::Intermediate(l2, l, r, _)) => (label, left, right) == (*l2, *l, *r),
        _ => false,
    })
}

fn pops_are_closed(g: &Grammar, state: &GSSState) {
    for (v, z) in &state.popped {
        let label = state.graph.raw_nodes()[*v].weight.0;
        for edge in state.graph.raw_edges() {
            if edge.source().index() != *v {
                continue;
            }
            let y = joined(g, &state.sppf, label, edge.weight, *z).expect("joined node exists");
            let position = state.sppf.nodes[*z].right_extent();
            assert!(state.visited[position].contains(&(label, edge.target().index(), y)));
        }
    }
}

fn frames_are_unique(state: &GSSState) {
    let frames: Vec<(Label, usize)> = state.graph.raw_nodes().iter().map(|n| n.weight).collect();
    for (i, a) in frames.iter().enumerate() {
        for b in frames.iter().skip(i + 1) {
            assert_ne!(a, b);
        }
    }
    assert_eq!(frames[0], (Label::L0, 0));
}

fn records_are_unique(state: &GSSState) {
    for record in &state.visited {
        for (i, a) in record.iter().enumerate() {
            for b in record.iter().skip(i + 1) {
                assert_ne!(a, b);
            }
        }
    }
}

fn check_all(g: &Grammar, state: &GSSState) {
    containers_are_unique(&state.sppf);
    packed_children_are_unique(&state.sppf);
    extents_cohere(&state.sppf);
    pops_are_closed(g, state);
    frames_are_unique(state);
    records_are_unique(state);
}

fn edges(state: &GSSState) -> Vec<(usize, usize, usize)> {
    state
        .graph
        .raw_edges()
        .iter()
        .map(|e| (e.source().index(), e.target().index(), e.weight))
        .collect()
}

/// Runs the dispatcher turn by turn and checks after each turn that the
/// state is sound and that nothing recorded before has gone or changed.
fn check_every_turn(g: &Grammar, input: &[u8]) -> GSSState {
    let mut state = GSSState::new(g, input.len());
    let mut turns = 0;
    while !state.is_halted() {
        let visited = state.visited.clone();
        let old_edges = edges(&state);
        let popped = state.popped.clone();
        let nodes = state.sppf.nodes.len();
        state.step(g, input);
        turns += 1;
        assert!(turns < 100_000);
        for (j, record) in visited.iter().enumerate() {
            assert_eq!(&state.visited[j][..record.len()], &record[..]);
        }
        assert_eq!(&edges(&state)[..old_edges.len()], &old_edges[..]);
        assert_eq!(&state.popped[..popped.len()], &popped[..]);
        assert!(state.sppf.nodes.len() >= nodes);
        check_all(g, &state);
    }
    state
}

fn ambiguous_grammar() -> Grammar {
    // S -> S S | a | (empty), with S numbered 0.
    Grammar {
        productions: vec![
            Production {
                lhs: 0,
                rhs: vec![Symbol::Nonterminal(0), Symbol::Nonterminal(0)],
                lookahead: vec![vec![b'a', b'$'], vec![b'a', b'$']],
            },
            Production { lhs: 0, rhs: vec![Symbol::Terminal(b'a')], lookahead: vec![vec![b'a']] },
            Production { lhs: 0, rhs: vec![], lookahead: vec![] },
        ],
        nonterminals: 1,
        start: 0,
        start_lookahead: vec![b'a', b'$'],
    }
}

#[test]
fn invariants_hold_at_rest_on_the_sample_sentences() {
    let g = Grammar::sample();
    let inputs: Vec<&[u8]> = vec![b"$", b"a$", b"b$", b"ad$", b"aad$", b"ab$", b"cd$", b"aabacdd$"];
    for input in inputs {
        let state = drive(&g, input);
        assert!(state.is_halted());
        check_all(&g, &state);
        assert!(state
            .sppf
            .find_symbol(Symbol::Nonterminal(0), 0, input.len() - 1)
            .is_some());
    }
}

#[test]
fn invariants_hold_at_rest_on_rejected_inputs() {
    let g = Grammar::sample();
    let inputs: Vec<&[u8]> = vec![b"d$", b"c$", b"add$", b"da$", b"aaa$d$"];
    for input in inputs {
        let state = drive(&g, input);
        check_all(&g, &state);
        assert_eq!(
            state.sppf.find_symbol(Symbol::Nonterminal(0), 0, input.len() - 1),
            None
        );
    }
}

#[test]
fn invariants_hold_after_every_turn() {
    let g = Grammar::sample();
    let inputs: Vec<&[u8]> = vec![b"$", b"a$", b"ad$", b"aad$", b"ab$", b"cd$", b"d$", b"acabdd$"];
    for input in inputs {
        let by_turns = check_every_turn(&g, input);
        let at_once = drive(&g, input);
        assert_eq!(by_turns.sppf.nodes, at_once.sppf.nodes);
        assert_eq!(by_turns.visited, at_once.visited);
        assert_eq!(by_turns.popped, at_once.popped);
        assert_eq!(edges(&by_turns), edges(&at_once));
    }
}

#[test]
fn invariants_hold_for_a_cyclic_grammar() {
    let g = ambiguous_grammar();
    assert!(g.check());
    let inputs: Vec<&[u8]> = vec![b"$", b"a$", b"aa$", b"aaa$"];
    for input in inputs {
        let state = check_every_turn(&g, input);
        assert!(state
            .sppf
            .find_symbol(Symbol::Nonterminal(0), 0, input.len() - 1)
            .is_some());
    }
}

#[test]
fn descriptors_stay_recorded_after_they_are_taken_up() {
    let g = Grammar::sample();
    let mut state = GSSState::new(&g, 3);
    let input = b"ad$";
    state.step(&g, input);
    let scheduled = state.todo.clone();
    assert_eq!(scheduled.len(), 3);
    while !state.is_halted() {
        state.step(&g, input);
    }
    for (label, frame, position, node) in scheduled {
        assert!(state.visited[position].contains(&(label, frame, node)));
    }
}

#[test]
fn edges_keep_their_weights() {
    let g = Grammar::sample();
    let input = b"aad$";
    let mut state = GSSState::new(&g, input.len());
    let mut seen: Vec<(usize, usize, usize)> = Vec::new();
    while !state.is_halted() {
        state.step(&g, input);
        let now = edges(&state);
        assert!(now.len() >= seen.len());
        assert_eq!(&now[..seen.len()], &seen[..]);
        seen = now;
    }
    assert!(!seen.is_empty());
    // No pair of frames is joined by two edges.
    for (i, a) in seen.iter().enumerate() {
        for b in seen.iter().skip(i + 1) {
            assert_ne!((a.0, a.1), (b.0, b.1));
        }
    }
}

/// The key of the node that stands for the first `d` symbols of production
/// `p` over `left..right`.
fn prefix_node(g: &Grammar, p: usize, d: usize, left: usize, right: usize) -> SPPFNode {
    let production = &g.productions[p];
    if g.first(Label::Slot(p, d)) {
        SPPFNode::Symbol(production.rhs[0], left, right, vec![])
    } else if d == production.rhs.len() {
        SPPFNode::Symbol(Symbol::Nonterminal(production.lhs), left, right, vec![])
    } else {
        SPPFNode::Intermediate(Label::Slot(p, d), left, right, vec![])
    }
}

fn same_key(a: &SPPFNode, b: &SPPFNode) -> bool {
    match (a, b) {
        (SPPFNode::Symbol(x, l, r, _), SPPFNode::Symbol(x2, l2, r2, _)) => (x, l, r) == (x2, l2, r2),
        (SPPFNode::Intermediate(x, l, r, _), SPPFNode::Intermediate(x2, l2, r2, _)) => {
            (x, l, r) == (x2, l2, r2)
        }
        _ => false,
    }
}

fn children_are_what_they_stand_for(g: &Grammar, sppf: &Sppf) {
    for node in sppf.nodes.iter().filter(|n| is_container(n)) {
        let (left, right) = (node.left_extent(), node.right_extent());
        for c in node.children().unwrap() {
            let (p, d, pivot, kids) = match &sppf.nodes[*c] {
                SPPFNode::Packed(Label::Slot(p, d), pivot, kids) => (*p, *d, *pivot, kids),
                other => panic!("not a packed node under a dot position: {:?}", other),
            };
            let production = &g.productions[p];
            match node {
                SPPFNode::Symbol(x, _, _, _) => {
                    assert_eq!(*x, Symbol::Nonterminal(production.lhs));
                    assert_eq!(d, production.rhs.len());
                }
                SPPFNode::Intermediate(l, _, _, _) => {
                    assert_eq!(*l, Label::Slot(p, d));
                    assert!(1 <= d && d < production.rhs.len());
                }
                _ => unreachable!(),
            }
            let last = &sppf.nodes[*kids.last().unwrap()];
            if d == 0 {
                assert_eq!(kids.len(), 1);
                assert!(same_key(last, &SPPFNode::Symbol(Symbol::Eps, pivot, pivot, vec![])));
                continue;
            }
            assert!(same_key(last, &SPPFNode::Symbol(production.rhs[d - 1], pivot, right, vec![])));
            if d == 1 {
                assert_eq!(kids.len(), 1);
            } else {
                assert_eq!(kids.len(), 2);
                assert!(same_key(&sppf.nodes[kids[0]], &prefix_node(g, p, d - 1, left, pivot)));
            }
        }
    }
}

#[test]
fn packed_children_are_the_nodes_of_their_symbols() {
    let g = Grammar::sample();
    let inputs: Vec<&[u8]> = vec![b"$", b"a$", b"ad$", b"aad$", b"ab$", b"cd$", b"d$", b"aabacddd$"];
    for input in inputs {
        let state = drive(&g, input);
        children_are_what_they_stand_for(&g, &state.sppf);
    }
    let g = ambiguous_grammar();
    let inputs: Vec<&[u8]> = vec![b"$", b"a$", b"aa$", b"aaa$"];
    for input in inputs {
        let state = drive(&g, input);
        children_are_what_they_stand_for(&g, &state.sppf);
    }
}

/// Whether `s` is a sentence of the sample grammar.
fn derives_s(s: &[u8]) -> bool {
    if s.is_empty() {
        return true;
    }
    if (s[0] == b'a' || s[0] == b'b') && derives_s(&s[1..]) {
        return true;
    }
    s.len() >= 2
        && (s[0] == b'a' || s[0] == b'c')
        && s[s.len() - 1] == b'd'
        && derives_s(&s[1..s.len() - 1])
}

#[test]
fn every_symbol_node_shows_every_step() {
    let g = Grammar::sample();
    let inputs: Vec<&[u8]> = vec![b"$", b"a$", b"ad$", b"aad$", b"ab$", b"cd$", b"aabacddd$", b"aacdd$"];
    for input in inputs {
        let state = drive(&g, input);
        let text = &input[..input.len() - 1];
        for node in &state.sppf.nodes {
            if let SPPFNode::Symbol(Symbol::Nonterminal(0), left, right, children) = node {
                let span = &text[*left..*right];
                let mut ways = 0;
                if span.is_empty() {
                    ways += 1;
                }
                if !span.is_empty() && (span[0] == b'a' || span[0] == b'b') && derives_s(&span[1..]) {
                    ways += 1;
                }
                if span.len() >= 2
                    && (span[0] == b'a' || span[0] == b'c')
                    && span[span.len() - 1] == b'd'
                    && derives_s(&span[1..span.len() - 1])
                {
                    ways += 1;
                }
                assert_eq!(children.len(), ways, "{:?} over {}..{}", input, left, right);
            }
        }
    }
}
