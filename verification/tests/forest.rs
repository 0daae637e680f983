use gll_parser::grammar::Grammar;
use gll_parser::grammar::Label;
use gll_parser::grammar::Symbol;
use gll_parser::sppf::SPPFNode;
use gll_parser::sppf::Sppf;

const A: usize = 1;
const S: usize = 0;

#[test]
fn new_forest_holds_the_dummy_node() {
    let sppf = Sppf::new(4);
    assert_eq!(sppf.len(), 1);
    assert_eq!(sppf.limit, 4);
    assert_eq!(sppf.nodes, vec![SPPFNode::Dummy]);
}

#[test]
fn terminal_node_spans_one_byte() {
    let mut sppf = Sppf::new(4);
    let index = sppf.get_node_t(Symbol::Terminal(b'a'), 2);
    assert_eq!(index, 1);
    assert_eq!(sppf.nodes[index], SPPFNode::Symbol(Symbol::Terminal(b'a'), 2, 3, vec![]));
    assert_eq!(sppf.nodes[index].left_extent(), 2);
    assert_eq!(sppf.nodes[index].right_extent(), 3);
}

#[test]
fn epsilon_node_spans_nothing() {
    let mut sppf = Sppf::new(4);
    let index = sppf.get_node_t(Symbol::Eps, 4);
    assert_eq!(sppf.nodes[index], SPPFNode::Symbol(Symbol::Eps, 4, 4, vec![]));
    assert_eq!(sppf.nodes[index].left_extent(), 4);
    assert_eq!(sppf.nodes[index].right_extent(), 4);
}

#[test]
fn terminal_nodes_are_shared() {
    let mut sppf = Sppf::new(4);
    let first = sppf.get_node_t(Symbol::Terminal(b'a'), 0);
    let other = sppf.get_node_t(Symbol::Terminal(b'b'), 0);
    let later = sppf.get_node_t(Symbol::Terminal(b'a'), 1);
    let again = sppf.get_node_t(Symbol::Terminal(b'a'), 0);
    assert_eq!(first, again);
    assert_ne!(first, other);
    assert_ne!(first, later);
    assert_eq!(sppf.len(), 4);
}

#[test]
fn find_or_create_appends_once() {
    let mut sppf = Sppf::new(4);
    assert_eq!(sppf.find_symbol(Symbol::Nonterminal(S), 0, 2), None);
    let s = sppf.find_or_create_sppf_symbol(Symbol::Nonterminal(S), 0, 2);
    let i = sppf.find_or_create_sppf_intermediate(Label::Slot(0, 2), 0, 2);
    assert_eq!((s, i), (1, 2));
    assert_eq!(sppf.find_or_create_sppf_symbol(Symbol::Nonterminal(S), 0, 2), 1);
    assert_eq!(sppf.find_or_create_sppf_intermediate(Label::Slot(0, 2), 0, 2), 2);
    assert_eq!(sppf.find_symbol(Symbol::Nonterminal(S), 0, 2), Some(1));
    assert_eq!(sppf.len(), 3);
    assert_eq!(sppf.nodes[1], SPPFNode::Symbol(Symbol::Nonterminal(S), 0, 2, vec![]));
    assert_eq!(sppf.nodes[2], SPPFNode::Intermediate(Label::Slot(0, 2), 0, 2, vec![]));
}

#[test]
fn children_of_each_kind_of_node() {
    assert_eq!(SPPFNode::Dummy.children(), None);
    assert_eq!(
        SPPFNode::Symbol(Symbol::Eps, 0, 0, vec![3]).children(),
        Some(&vec![3])
    );
    assert_eq!(
        SPPFNode::Intermediate(Label::Slot(0, 2), 0, 1, vec![4, 5]).children(),
        Some(&vec![4, 5])
    );
    assert_eq!(
        SPPFNode::Packed(Label::Slot(0, 2), 1, vec![1, 2]).children(),
        Some(&vec![1, 2])
    );
}

#[test]
fn children_mut_changes_the_children_only() {
    let mut node = SPPFNode::Symbol(Symbol::Nonterminal(S), 1, 3, vec![7]);
    node.children_mut().unwrap().push(9);
    assert_eq!(node, SPPFNode::Symbol(Symbol::Nonterminal(S), 1, 3, vec![7, 9]));
    let mut node = SPPFNode::Intermediate(Label::Slot(0, 2), 0, 1, vec![]);
    node.children_mut().unwrap().push(2);
    assert_eq!(node, SPPFNode::Intermediate(Label::Slot(0, 2), 0, 1, vec![2]));
}

#[test]
fn extents_of_containers() {
    let node = SPPFNode::Intermediate(Label::Slot(0, 2), 3, 8, vec![]);
    assert_eq!(node.left_extent(), 3);
    assert_eq!(node.right_extent(), 8);
    let node = SPPFNode::Symbol(Symbol::Nonterminal(A), 5, 6, vec![]);
    assert_eq!(node.left_extent(), 5);
    assert_eq!(node.right_extent(), 6);
}

#[test]
fn join_at_the_end_of_a_production_makes_a_symbol_node() {
    let g = Grammar::sample();
    let mut sppf = Sppf::new(3);
    let a = sppf.get_node_t(Symbol::Terminal(b'a'), 0);
    let y = sppf.get_node_p(&g, Label::Slot(3, 1), 0, a);
    assert_eq!(y, 2);
    assert_eq!(
        sppf.nodes,
        vec![
            SPPFNode::Dummy,
            SPPFNode::Symbol(Symbol::Terminal(b'a'), 0, 1, vec![]),
            SPPFNode::Symbol(Symbol::Nonterminal(A), 0, 1, vec![3]),
            SPPFNode::Packed(Label::Slot(3, 1), 0, vec![1]),
        ]
    );
}

#[test]
fn join_past_a_first_child_returns_the_child() {
    let g = Grammar::sample();
    let mut sppf = Sppf::new(3);
    let a = sppf.get_node_t(Symbol::Terminal(b'a'), 0);
    let node_a = sppf.get_node_p(&g, Label::Slot(3, 1), 0, a);
    let before = sppf.nodes.clone();
    assert_eq!(sppf.get_node_p(&g, Label::Slot(0, 1), 0, node_a), node_a);
    assert_eq!(sppf.get_node_p(&g, Label::Slot(1, 1), 0, node_a), node_a);
    assert_eq!(sppf.nodes, before);
}

#[test]
fn join_in_the_middle_makes_an_intermediate_node() {
    let g = Grammar::sample();
    let mut sppf = Sppf::new(3);
    let a = sppf.get_node_t(Symbol::Terminal(b'a'), 0);
    let node_a = sppf.get_node_p(&g, Label::Slot(3, 1), 0, a);
    let eps = sppf.get_node_t(Symbol::Eps, 1);
    let node_s = sppf.get_node_p(&g, Label::Slot(2, 0), 0, eps);
    let y = sppf.get_node_p(&g, Label::Slot(0, 2), node_a, node_s);
    assert_eq!(sppf.nodes[y], SPPFNode::Intermediate(Label::Slot(0, 2), 0, 1, vec![y + 1]));
    assert_eq!(
        sppf.nodes[y + 1],
        SPPFNode::Packed(Label::Slot(0, 2), 1, vec![node_a, node_s])
    );
    let d = sppf.get_node_t(Symbol::Terminal(b'd'), 1);
    let root = sppf.get_node_p(&g, Label::Slot(0, 3), y, d);
    assert_eq!(sppf.nodes[root], SPPFNode::Symbol(Symbol::Nonterminal(S), 0, 2, vec![root + 1]));
    assert_eq!(sppf.nodes[root + 1], SPPFNode::Packed(Label::Slot(0, 3), 1, vec![y, d]));
    assert_eq!(sppf.find_symbol(Symbol::Nonterminal(S), 0, 2), Some(root));
}

#[test]
fn joining_twice_adds_no_second_packed_child() {
    let g = Grammar::sample();
    let mut sppf = Sppf::new(3);
    let a = sppf.get_node_t(Symbol::Terminal(b'a'), 0);
    let first = sppf.get_node_p(&g, Label::Slot(3, 1), 0, a);
    let before = sppf.nodes.clone();
    let second = sppf.get_node_p(&g, Label::Slot(3, 1), 0, a);
    assert_eq!(first, second);
    assert_eq!(sppf.nodes, before);
    assert!(sppf.has_packed(first, Label::Slot(3, 1), 0));
    assert!(!sppf.has_packed(first, Label::Slot(4, 1), 0));
    assert!(!sppf.has_packed(first, Label::Slot(3, 1), 1));
}

#[test]
fn two_derivations_share_one_container() {
    let g = Grammar::sample();
    let mut sppf = Sppf::new(3);
    let a = sppf.get_node_t(Symbol::Terminal(b'a'), 0);
    // `A -> a` and `B -> a` over the same byte are different symbols.
    let node_a = sppf.get_node_p(&g, Label::Slot(3, 1), 0, a);
    let node_b = sppf.get_node_p(&g, Label::Slot(5, 1), 0, a);
    assert_ne!(node_a, node_b);
    let eps = sppf.get_node_t(Symbol::Eps, 1);
    let tail = sppf.get_node_p(&g, Label::Slot(2, 0), 0, eps);
    // `S -> B S` over 0..1: a symbol node for `S` with one packed child.
    let s = sppf.get_node_p(&g, Label::Slot(1, 2), node_b, tail);
    assert_eq!(sppf.nodes[s].children().unwrap().len(), 1);
    // A second split under another label goes under the same node.
    let again = sppf.get_node_p(&g, Label::Slot(0, 3), node_a, tail);
    assert_eq!(s, again);
    assert_eq!(sppf.nodes[s].children().unwrap().len(), 2);
}

#[test]
fn first_and_end_of_the_sample_labels() {
    let g = Grammar::sample();
    assert!(g.first(Label::Slot(0, 1)));
    assert!(g.first(Label::Slot(1, 1)));
    assert!(!g.first(Label::Slot(0, 0)));
    assert!(!g.first(Label::Slot(0, 2)));
    assert!(!g.first(Label::Slot(3, 1)));
    assert!(!g.first(Label::Slot(9, 1)));
    assert!(!g.first(Label::L0));
    assert!(!g.first(Label::Ret));
    assert!(!g.first(Label::Entry(0)));
    assert_eq!(g.end(Label::Slot(0, 3)), Some(Symbol::Nonterminal(0)));
    assert_eq!(g.end(Label::Slot(1, 2)), Some(Symbol::Nonterminal(0)));
    assert_eq!(g.end(Label::Slot(2, 0)), Some(Symbol::Nonterminal(0)));
    assert_eq!(g.end(Label::Slot(3, 1)), Some(Symbol::Nonterminal(1)));
    assert_eq!(g.end(Label::Slot(4, 1)), Some(Symbol::Nonterminal(1)));
    assert_eq!(g.end(Label::Slot(5, 1)), Some(Symbol::Nonterminal(2)));
    assert_eq!(g.end(Label::Slot(6, 1)), Some(Symbol::Nonterminal(2)));
    assert_eq!(g.end(Label::Slot(0, 2)), None);
    assert_eq!(g.end(Label::Slot(1, 0)), None);
    assert_eq!(g.end(Label::Slot(7, 0)), None);
    assert_eq!(g.end(Label::L0), None);
    assert_eq!(g.end(Label::Entry(0)), None);
}

#[test]
fn epsilon_is_the_only_empty_symbol() {
    assert!(Symbol::Eps.is_eps());
    assert!(!Symbol::Terminal(b'a').is_eps());
    assert!(!Symbol::Nonterminal(0).is_eps());
}
