use tako::arena::arena_get;
use tako::game::{Game, State};

const NONE: (u8, u8) = (200, 200);

fn empty_engine(rows: u8, cols: u8, deadline: u64) -> State {
    let g = Game::new(rows, cols, NONE);
    let top = vec![rows; cols as usize];
    let board = vec![0u8; rows as usize * cols as usize];
    let mut s = State::new(g, top, board).unwrap();
    s.deadline_millis = deadline;
    s.init();
    s
}

/// A board where column 3 already holds three of the mover's pieces, so
/// dropping a fourth there wins on the spot.
fn three_in_column_engine(deadline: u64) -> State {
    let g = Game::new(6, 7, NONE);
    let mut top = vec![6u8; 7];
    let mut board = vec![0u8; 42];
    for r in 3..6usize {
        board[r * 7 + 3] = 2;
    }
    top[3] = 3;
    let mut s = State::new(g, top, board).unwrap();
    s.deadline_millis = deadline;
    s.init();
    s
}

#[test]
fn engine_returns_legal_move_on_empty_board() {
    let mut s = empty_engine(6, 7, 200);
    let before = s.top.clone();
    let mv = s.get_move().expect("a legal move exists");
    assert!(mv.1 < 7);
    assert!(before[mv.1 as usize] > 0);
    // the decision itself leaves the board untouched
    assert_eq!(s.top, before);
}

#[test]
fn immediate_win_is_found_with_minimal_budget() {
    let mut s = three_in_column_engine(0);
    let mv = s.get_move().expect("a legal move exists");
    assert_eq!(mv, (2, 3));
}

#[test]
fn immediate_win_is_found_with_larger_budget() {
    let mut s = three_in_column_engine(100);
    let mv = s.get_move().expect("a legal move exists");
    assert_eq!(mv, (2, 3));
}

#[test]
fn pruning_keeps_single_terminal_child() {
    let mut s = three_in_column_engine(0);
    let root = s.root_node;
    for _ in 0..6 {
        let _ = s.augment(root, root);
        let n = arena_get(&s.nodes, root);
        assert_eq!(n.children.len(), 1, "children list never exceeds one");
        assert_eq!(n.tried as usize, n.actions.len(), "no further expansion");
        let ch = n.children[0];
        let child = arena_get(&s.nodes, ch);
        assert!(child.terminal);
        assert_eq!(child.action, (2, 3));
    }
}

#[test]
fn tree_reuse_preserves_child_statistics() {
    let mut s = empty_engine(6, 7, 100);
    let _ = s.get_move();
    let root = s.root_node;
    let (ch, action, visits, value_half) = {
        let n = arena_get(&s.nodes, root);
        assert!(!n.children.is_empty());
        let ch = n.children[0];
        let c = arena_get(&s.nodes, ch);
        (ch, c.action, c.visits, c.value_half)
    };
    assert!(visits >= 1);
    s.perform(action.0, action.1);
    assert_eq!(s.root_node, ch);
    let new_root = arena_get(&s.nodes, s.root_node);
    assert_eq!(new_root.visits, visits);
    assert_eq!(new_root.value_half, value_half);
}

#[test]
fn tree_rebuild_starts_with_zero_visits() {
    let mut s = empty_engine(6, 7, 0);
    // no search has run, so no child matches the played move
    s.perform(5, 0);
    let root = arena_get(&s.nodes, s.root_node);
    assert_eq!(root.visits, 0);
    assert_eq!(root.tried, 0);
    assert!(root.children.is_empty());
}

#[test]
fn perform_applies_the_move() {
    let mut s = empty_engine(6, 7, 0);
    s.perform(5, 0);
    assert_eq!(s.get(5, 0), 2);
    assert_eq!(s.top[0], 5);
    assert_eq!(s.who, 1);
}

#[test]
fn get_move_owes_the_single_open_column() {
    // one playable slot left: the engine must return exactly that placement
    let g = Game::new(2, 2, NONE);
    let top = vec![0u8, 1u8];
    let board = vec![1u8, 0, 2, 1];
    let mut s = State::new(g, top, board).unwrap();
    s.deadline_millis = 0;
    s.init();
    assert_eq!(s.get_move(), Some((0, 1)));
}

#[test]
fn get_move_none_only_on_full_board() {
    // a 2x2 board with every column full: no move is owed
    let g = Game::new(2, 2, NONE);
    let top = vec![0u8, 0u8];
    let board = vec![1u8, 2, 2, 1];
    let mut s = State::new(g, top, board).unwrap();
    s.deadline_millis = 0;
    s.init();
    assert_eq!(s.get_move(), None);
}

#[test]
fn engine_plays_a_short_game_against_itself() {
    let mut s = empty_engine(6, 7, 5);
    for _ in 0..6 {
        match s.get_move() {
            Some((r, c)) => {
                assert!(s.top[c as usize] > 0);
                s.perform(r, c);
            },
            None => break,
        }
    }
}
