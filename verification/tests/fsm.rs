use r_path_finder::fsm::{MenuSelectionState, MouseActionState};

#[test]
fn mouse_action_walks_forward_and_rests() {
    let mut state = MouseActionState::new();
    assert_eq!(state, MouseActionState::SetStartPoint);
    state = state.next();
    assert_eq!(state, MouseActionState::SetEndPoint);
    state = state.next();
    assert_eq!(state, MouseActionState::StartSimulation);
    state = state.next();
    assert_eq!(state, MouseActionState::EndSimulation);
    state = state.next();
    assert_eq!(state, MouseActionState::EndSimulation);
    assert_eq!(state.reset(), MouseActionState::SetStartPoint);
}

#[test]
fn menu_selection_cycles_both_ways() {
    let mut state = MenuSelectionState::new();
    assert_eq!(state, MenuSelectionState::Bfs);
    assert_eq!(state.selected_algorithm_id(), 0);
    state = state.next();
    assert_eq!(state, MenuSelectionState::Dijkstra);
    assert_eq!(state.selected_algorithm_id(), 1);
    state = state.next();
    assert_eq!(state, MenuSelectionState::GreedyBfs);
    assert_eq!(state.selected_algorithm_id(), 2);
    state = state.next();
    assert_eq!(state, MenuSelectionState::AStar);
    assert_eq!(state.selected_algorithm_id(), 3);
    state = state.next();
    assert_eq!(state, MenuSelectionState::Bfs);

    state = state.prev();
    assert_eq!(state, MenuSelectionState::AStar);
    state = state.prev();
    assert_eq!(state, MenuSelectionState::GreedyBfs);
    state = state.prev();
    assert_eq!(state, MenuSelectionState::Dijkstra);
    state = state.prev();
    assert_eq!(state, MenuSelectionState::Bfs);
    assert_eq!(state.reset(), MenuSelectionState::Bfs);
}

#[test]
fn menu_selection_from_index() {
    let state = MenuSelectionState::new();
    assert_eq!(state.from_index(0), Some(MenuSelectionState::Bfs));
    assert_eq!(state.from_index(1), Some(MenuSelectionState::Dijkstra));
    assert_eq!(state.from_index(2), Some(MenuSelectionState::GreedyBfs));
    assert_eq!(state.from_index(3), Some(MenuSelectionState::AStar));
    assert_eq!(state.from_index(4), None);
    assert_eq!(state.from_index(-1), None);
}
