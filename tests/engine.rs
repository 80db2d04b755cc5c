use connect_four::analysis::{board_key, Analysis, RootReport};
use connect_four::board::{Board, Player, TERMINAL};

fn play_all(moves: &[(i32, Player)]) -> Board {
    let mut b = Board::new();
    for &(col, p) in moves {
        b = b.play(col, p).unwrap();
    }
    b
}

/// Red to move, and column 3 completes the bottom row.
fn red_wins_at_three() -> Board {
    play_all(&[(0, Player::Red), (0, Player::Yellow), (1, Player::Red), (1, Player::Yellow),
        (2, Player::Red), (2, Player::Yellow)])
}

#[test]
fn keys_tell_boards_apart() {
    let a = Board::new();
    let b = a.play(0, Player::Red).unwrap();
    let c = a.play(1, Player::Red).unwrap();
    assert_eq!(board_key(&a), 0);
    assert_eq!(board_key(&b), 1);
    assert_eq!(board_key(&c), 4);
    let d = b.play(0, Player::Yellow).unwrap();
    assert_eq!(board_key(&d), 1 + 2 * 16384);
}

#[test]
fn first_step_evaluates_the_root() {
    let mut a = Analysis::new(Board::new());
    assert_eq!(a.root_report(), RootReport { score: None, column: -1 });
    assert_eq!(a.node_count(), 0);
    let r = a.step();
    assert_eq!(r, Some(RootReport { score: Some(0), column: -1 }));
    assert_eq!(a.node_count(), 1);
}

#[test]
fn recommends_the_lowest_winning_column() {
    let root = red_wins_at_three();
    let mut a = Analysis::new(root.clone());
    let mut last = None;
    for _ in 0..8 {
        if let Some(r) = a.step() {
            last = Some(r);
        }
    }
    assert_eq!(a.node_count(), 8);
    assert_eq!(last, Some(RootReport { score: Some(TERMINAL), column: 3 }));
    assert_eq!(a.root_report(), RootReport { score: Some(TERMINAL), column: 3 });
}

#[test]
fn recommendation_ties_go_to_the_lowest_column() {
    // Two ways for Red to win at once: columns 0 and 4 both complete four.
    let root = play_all(&[(1, Player::Red), (1, Player::Yellow), (2, Player::Red), (2, Player::Yellow),
        (3, Player::Red), (3, Player::Yellow)]);
    let mut a = Analysis::new(root.clone());
    for _ in 0..8 {
        a.step();
    }
    let r = a.root_report();
    assert_eq!(r.score, Some(TERMINAL));
    assert_eq!(r.column, 0);
}

#[test]
fn known_board_is_not_evaluated_again() {
    let root = Board::new();
    let mut a = Analysis::new(root.clone());
    a.step();
    let count = a.node_count();
    let before = a.root_report();
    a.set_root(root.clone());
    assert_eq!(a.step(), None);
    assert_eq!(a.node_count(), count);
    assert_eq!(a.root_report(), before);
}

#[test]
fn re_rooting_keeps_the_table() {
    let root = Board::new();
    let mut a = Analysis::new(root.clone());
    for _ in 0..200 {
        a.step();
    }
    let count = a.node_count();
    let before = a.root_report();
    let child = root.play(3, Player::Red).unwrap();
    let child_report = a.set_root(child.clone());
    assert!(child_report.score.is_some());
    assert_eq!(a.node_count(), count);
    assert_eq!(a.set_root(root.clone()), before);
    assert_eq!(a.node_count(), count);
}

#[test]
fn values_follow_the_known_children() {
    let root = play_all(&[(3, Player::Red), (3, Player::Yellow)]);
    let mut a = Analysis::new(root.clone());
    for _ in 0..8 {
        a.step();
    }
    let root_score = a.root_report().score.unwrap();
    let mut best = i32::MIN;
    for child in root.next_boards() {
        let s = a.set_root(child).score.unwrap();
        assert_eq!(s, child.get_score());
        best = best.max(s);
    }
    assert_eq!(root_score, best);
    // Yellow to move in each child: the child's value becomes the smallest
    // of its known children once they are evaluated.
    let child = root.play(0, Player::Red).unwrap();
    a.set_root(child.clone());
    for _ in 0..8 {
        a.step();
    }
    let child_score = a.root_report().score.unwrap();
    let mut least = i32::MAX;
    for grandchild in child.next_boards() {
        least = least.min(a.set_root(grandchild).score.unwrap());
    }
    assert_eq!(child_score, least);
}

#[test]
fn value_of_reads_the_table() {
    let root = Board::new();
    let mut a = Analysis::new(root.clone());
    assert_eq!(a.value_of(&root), None);
    a.step();
    assert_eq!(a.value_of(&root), Some(0));
    let first = root.play(0, Player::Red).unwrap();
    assert_eq!(a.value_of(&first), None);
    a.step();
    // The first child is evaluated and the root takes its value.
    assert_eq!(a.value_of(&first), Some(first.get_score()));
    assert_eq!(a.value_of(&root), Some(first.get_score()));
}

#[test]
fn re_rooting_to_an_unknown_board_reports_no_value() {
    let root = Board::new();
    let mut a = Analysis::new(root.clone());
    a.step();
    let far = play_all(&[(3, Player::Red), (3, Player::Yellow), (3, Player::Red)]);
    assert_eq!(a.set_root(far.clone()), RootReport { score: None, column: -1 });
    a.step();
    assert_eq!(a.root_report().score, Some(far.get_score()));
}
