use gll_parser::grammar::Grammar;
use gll_parser::grammar::Label;
use gll_parser::grammar::Symbol;
use gll_parser::state::GSSState;

fn edges(state: &GSSState) -> Vec<(usize, usize, usize)> {
    state
        .graph
        .raw_edges()
        .iter()
        .map(|e| (e.source().index(), e.target().index(), e.weight))
        .collect()
}

fn frames(state: &GSSState) -> Vec<(Label, usize)> {
    state.graph.raw_nodes().iter().map(|n| n.weight).collect()
}

/// The node of `A -> a` over the first byte.
fn node_of_a(g: &Grammar, state: &mut GSSState) -> usize {
    let a = state.sppf.get_node_t(Symbol::Terminal(b'a'), 0);
    state.sppf.get_node_p(g, Label::Slot(3, 1), 0, a)
}

#[test]
fn new_state_is_the_initial_one() {
    let g = Grammar::sample();
    let state = GSSState::new(&g, 3);
    assert_eq!(frames(&state), vec![(Label::L0, 0)]);
    assert_eq!(edges(&state), vec![]);
    assert_eq!(state.visited, vec![vec![], vec![], vec![]]);
    assert!(state.todo.is_empty());
    assert!(state.popped.is_empty());
    assert_eq!(state.current_label, Label::Entry(0));
    assert_eq!(state.current_node_index, 0);
    assert_eq!(state.current_position, 0);
    assert_eq!(state.current_sppf_node, 0);
    assert_eq!(state.sppf.limit, 2);
    assert!(!state.is_halted());
}

#[test]
fn add_schedules_a_descriptor_once() {
    let g = Grammar::sample();
    let mut state = GSSState::new(&g, 3);
    state.add(Label::Slot(2, 0), 0, 1, 0);
    assert_eq!(state.visited, vec![vec![], vec![(Label::Slot(2, 0), 0, 0)], vec![]]);
    assert_eq!(state.todo, vec![(Label::Slot(2, 0), 0, 1, 0)]);
    state.add(Label::Slot(2, 0), 0, 1, 0);
    assert_eq!(state.visited, vec![vec![], vec![(Label::Slot(2, 0), 0, 0)], vec![]]);
    assert_eq!(state.todo, vec![(Label::Slot(2, 0), 0, 1, 0)]);
    state.add(Label::Slot(2, 0), 0, 2, 0);
    state.add(Label::Slot(1, 0), 0, 1, 0);
    assert_eq!(
        state.visited,
        vec![
            vec![],
            vec![(Label::Slot(2, 0), 0, 0), (Label::Slot(1, 0), 0, 0)],
            vec![(Label::Slot(2, 0), 0, 0)],
        ]
    );
    assert_eq!(
        state.todo,
        vec![
            (Label::Slot(2, 0), 0, 1, 0),
            (Label::Slot(2, 0), 0, 2, 0),
            (Label::Slot(1, 0), 0, 1, 0),
        ]
    );
}

#[test]
fn a_descriptor_taken_up_is_not_scheduled_again() {
    let g = Grammar::sample();
    let mut state = GSSState::new(&g, 1);
    state.step(&g, b"$");
    assert_eq!(state.todo, vec![(Label::Slot(2, 0), 0, 0, 0)]);
    state.step(&g, b"$");
    assert!(state.todo.is_empty());
    assert_eq!(state.current_label, Label::Slot(2, 0));
    state.add(Label::Slot(2, 0), 0, 0, 0);
    assert!(state.todo.is_empty());
    assert_eq!(state.visited, vec![vec![(Label::Slot(2, 0), 0, 0)]]);
}

#[test]
fn create_makes_a_frame_and_an_edge_once() {
    let g = Grammar::sample();
    let mut state = GSSState::new(&g, 3);
    assert_eq!(state.find_frame(Label::Slot(0, 1), 0), None);
    let v = state.create(&g, Label::Slot(0, 1), 0, 0, 0);
    assert_eq!(v, 1);
    assert_eq!(frames(&state), vec![(Label::L0, 0), (Label::Slot(0, 1), 0)]);
    assert_eq!(edges(&state), vec![(1, 0, 0)]);
    assert_eq!(state.find_frame(Label::Slot(0, 1), 0), Some(1));
    assert_eq!(state.find_frame(Label::L0, 0), Some(0));
    assert_eq!(state.find_frame(Label::Slot(0, 1), 1), None);
    let again = state.create(&g, Label::Slot(0, 1), 0, 0, 0);
    assert_eq!(again, 1);
    assert_eq!(frames(&state).len(), 2);
    assert_eq!(edges(&state), vec![(1, 0, 0)]);
    assert!(state.todo.is_empty());
}

#[test]
fn frames_differ_by_label_and_by_position() {
    let g = Grammar::sample();
    let mut state = GSSState::new(&g, 3);
    let first = state.create(&g, Label::Slot(0, 1), 0, 0, 0);
    let second = state.create(&g, Label::Slot(1, 1), 0, 0, 0);
    assert_eq!((first, second), (1, 2));
    assert_eq!(
        frames(&state),
        vec![(Label::L0, 0), (Label::Slot(0, 1), 0), (Label::Slot(1, 1), 0)]
    );
    assert_eq!(edges(&state), vec![(1, 0, 0), (2, 0, 0)]);
}

#[test]
fn pop_at_the_initial_frame_changes_nothing() {
    let g = Grammar::sample();
    let mut state = GSSState::new(&g, 3);
    let a = node_of_a(&g, &mut state);
    let nodes = state.sppf.nodes.clone();
    state.pop(&g, 0, 1, a);
    assert!(state.popped.is_empty());
    assert!(state.todo.is_empty());
    assert_eq!(state.visited, vec![vec![], vec![], vec![]]);
    assert_eq!(state.sppf.nodes, nodes);
}

#[test]
fn pop_delivers_to_the_caller() {
    let g = Grammar::sample();
    let mut state = GSSState::new(&g, 3);
    let v = state.create(&g, Label::Slot(0, 1), 0, 0, 0);
    let a = node_of_a(&g, &mut state);
    state.pop(&g, v, 1, a);
    assert_eq!(state.popped, vec![(v, a)]);
    assert_eq!(state.todo, vec![(Label::Slot(0, 1), 0, 1, a)]);
    assert_eq!(state.visited[1], vec![(Label::Slot(0, 1), 0, a)]);
    state.pop(&g, v, 1, a);
    assert_eq!(state.popped, vec![(v, a)]);
    assert_eq!(state.todo, vec![(Label::Slot(0, 1), 0, 1, a)]);
}

#[test]
fn pop_follows_the_newest_edge_first() {
    let g = Grammar::sample();
    let mut state = GSSState::new(&g, 3);
    let other = state.create(&g, Label::Slot(1, 1), 0, 0, 0);
    let v = state.create(&g, Label::Slot(0, 1), 0, 0, 0);
    assert_eq!(state.create(&g, Label::Slot(0, 1), other, 0, 0), v);
    assert_eq!(edges(&state), vec![(other, 0, 0), (v, 0, 0), (v, other, 0)]);
    let a = node_of_a(&g, &mut state);
    state.pop(&g, v, 1, a);
    assert_eq!(
        state.todo,
        vec![(Label::Slot(0, 1), other, 1, a), (Label::Slot(0, 1), 0, 1, a)]
    );
}

#[test]
fn a_new_edge_gets_what_was_popped_before() {
    let g = Grammar::sample();
    let mut state = GSSState::new(&g, 3);
    let v = state.create(&g, Label::Slot(0, 1), 0, 0, 0);
    let a = node_of_a(&g, &mut state);
    state.pop(&g, v, 1, a);
    let other = state.create(&g, Label::Slot(1, 1), 0, 0, 0);
    assert_eq!(state.todo.len(), 1);
    assert_eq!(state.create(&g, Label::Slot(0, 1), other, 0, 0), v);
    assert_eq!(
        state.todo,
        vec![(Label::Slot(0, 1), 0, 1, a), (Label::Slot(0, 1), other, 1, a)]
    );
    assert_eq!(
        state.visited[1],
        vec![(Label::Slot(0, 1), 0, a), (Label::Slot(0, 1), other, a)]
    );
    // The edge is there now: nothing is delivered a second time.
    assert_eq!(state.create(&g, Label::Slot(0, 1), other, 0, 0), v);
    assert_eq!(state.todo.len(), 2);
}

#[test]
fn delivery_past_the_second_symbol_joins_two_nodes() {
    let g = Grammar::sample();
    let mut state = GSSState::new(&g, 3);
    // `S -> A . S d` at position 1, called from the initial frame with the
    // node of `A` over 0..1.
    let a = node_of_a(&g, &mut state);
    let v = state.create(&g, Label::Slot(0, 2), 0, 1, a);
    assert_eq!(edges(&state), vec![(v, 0, a)]);
    let eps = state.sppf.get_node_t(Symbol::Eps, 1);
    let s = state.sppf.get_node_p(&g, Label::Slot(2, 0), 0, eps);
    state.pop(&g, v, 1, s);
    assert_eq!(state.todo.len(), 1);
    let (label, caller, position, joined) = state.todo[0];
    assert_eq!((label, caller, position), (Label::Slot(0, 2), 0, 1));
    assert_eq!(state.sppf.nodes[joined].left_extent(), 0);
    assert_eq!(state.sppf.nodes[joined].right_extent(), 1);
    let packed = state.sppf.nodes[joined].children().unwrap()[0];
    assert_eq!(state.sppf.nodes[packed].children(), Some(&vec![a, s]));
}

#[test]
fn the_dispatcher_takes_the_newest_descriptor() {
    let g = Grammar::sample();
    let mut state = GSSState::new(&g, 2);
    state.step(&g, b"a$");
    assert_eq!(state.current_label, Label::L0);
    assert_eq!(
        state.todo,
        vec![
            (Label::Slot(0, 0), 0, 0, 0),
            (Label::Slot(1, 0), 0, 0, 0),
            (Label::Slot(2, 0), 0, 0, 0),
        ]
    );
    state.step(&g, b"a$");
    assert_eq!(state.current_label, Label::Slot(2, 0));
    assert_eq!(state.todo.len(), 2);
}

#[test]
fn a_state_at_rest_stays_at_rest() {
    let g = Grammar::sample();
    let mut state = GSSState::new(&g, 1);
    let mut turns = 0;
    while !state.is_halted() {
        state.step(&g, b"$");
        turns += 1;
    }
    assert_eq!(turns, 4);
    let nodes = state.sppf.nodes.clone();
    let visited = state.visited.clone();
    state.step(&g, b"$");
    assert!(state.is_halted());
    assert_eq!(state.sppf.nodes, nodes);
    assert_eq!(state.visited, visited);
}

#[test]
fn frames_are_counted() {
    let g = Grammar::sample();
    let mut state = GSSState::new(&g, 3);
    assert_eq!(state.frame_count(), 1);
    state.create(&g, Label::Slot(0, 1), 0, 0, 0);
    assert_eq!(state.frame_count(), 2);
    state.create(&g, Label::Slot(0, 1), 0, 0, 0);
    assert_eq!(state.frame_count(), 2);
    state.create(&g, Label::Slot(1, 1), 0, 0, 0);
    assert_eq!(state.frame_count(), 3);
}
