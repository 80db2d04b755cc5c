use connect_four::board::{Board, MoveRejected, Player, Tile, TERMINAL};

fn play_all(moves: &[(i32, Player)]) -> Board {
    let mut b = Board::new();
    for &(col, p) in moves {
        b = b.play(col, p).unwrap();
    }
    b
}

fn grid(rows: [&str; 6]) -> Board {
    let mut b = Board::new();
    for (r, line) in rows.iter().enumerate() {
        for (c, ch) in line.chars().enumerate() {
            b.tiles[r][c] = match ch {
                'R' => Tile::Piece(Player::Red),
                'Y' => Tile::Piece(Player::Yellow),
                _ => Tile::Empty,
            };
        }
    }
    b
}

fn mirror(b: &Board) -> Board {
    let mut m = Board::new();
    for r in 0..6 {
        for c in 0..7 {
            m.tiles[r][c] = b.tiles[r][6 - c];
        }
    }
    m
}

fn counts(b: &Board) -> (i32, i32) {
    let mut red = 0;
    let mut yellow = 0;
    for row in b.tiles {
        for t in row {
            match t {
                Tile::Piece(Player::Red) => red += 1,
                Tile::Piece(Player::Yellow) => yellow += 1,
                Tile::Empty => {}
            }
        }
    }
    (red, yellow)
}

#[test]
fn empty_board_starts_with_red() {
    let b = Board::new();
    assert_eq!(b.next_to_move(), Some(Player::Red));
    assert_eq!(b.get_score(), 0);
    assert_eq!(b.winner(), None);
    assert_eq!(b.pieces_played(), 0);
}

#[test]
fn four_on_bottom_row_wins_for_red() {
    let b = play_all(&[
        (0, Player::Red), (0, Player::Yellow), (1, Player::Red), (1, Player::Yellow),
        (2, Player::Red), (2, Player::Yellow),
    ]);
    assert_eq!(b.winner(), None);
    let b = b.play(3, Player::Red).unwrap();
    assert_eq!(b.winner(), Some(Player::Red));
    assert_eq!(b.get_score(), TERMINAL);
    assert_eq!(b.next_to_move(), None);
    assert!(b.next_boards().is_empty());
}

#[test]
fn vertical_four_wins_for_yellow() {
    let b = play_all(&[
        (0, Player::Red), (6, Player::Yellow), (1, Player::Red), (6, Player::Yellow),
        (0, Player::Red), (6, Player::Yellow), (1, Player::Red), (6, Player::Yellow),
    ]);
    assert_eq!(b.winner(), Some(Player::Yellow));
    assert_eq!(b.get_score(), -TERMINAL);
}

#[test]
fn diagonal_four_is_found() {
    let b = grid(["RYYR...", ".RYY...", "..RY...", "...R...", ".......", "......."]);
    assert_eq!(b.winner(), Some(Player::Red));
    let b = grid(["RYRY...", "RRY....", "RY.....", "Y......", ".......", "......."]);
    assert_eq!(b.winner(), Some(Player::Yellow));
}

#[test]
fn full_column_is_refused() {
    let b = play_all(&[
        (0, Player::Red), (0, Player::Yellow), (0, Player::Red),
        (0, Player::Yellow), (0, Player::Red), (0, Player::Yellow),
    ]);
    assert_eq!(b.play(0, Player::Red), Err(MoveRejected::ColumnFull));
    assert!(b.play(1, Player::Red).is_ok());
}

#[test]
fn wrong_player_is_refused() {
    let b = Board::new();
    assert_eq!(b.play(0, Player::Yellow), Err(MoveRejected::WrongTurn));
    let b = b.play(3, Player::Red).unwrap();
    assert_eq!(b.play(3, Player::Red), Err(MoveRejected::WrongTurn));
}

#[test]
fn column_out_of_range_is_refused() {
    let b = Board::new();
    assert_eq!(b.play(7, Player::Red), Err(MoveRejected::ColumnOutOfRange));
    assert_eq!(b.play(-1, Player::Red), Err(MoveRejected::ColumnOutOfRange));
}

#[test]
fn full_grid_without_four_is_a_draw() {
    let b = grid(["YRRYYYR", "RYYRRRY", "YYYRYRY", "RRYRYYY", "RYRYRRR", "RRYYRYR"]);
    assert_eq!(b.pieces_played(), 42);
    assert_eq!(b.winner(), None);
    assert_eq!(b.next_to_move(), None);
    assert_eq!(b.get_score(), 0);
    assert!(b.next_boards().is_empty());
}

#[test]
fn play_leaves_its_board_alone_and_repeats() {
    let b = play_all(&[(3, Player::Red), (2, Player::Yellow)]);
    let copy = b.clone();
    let first = b.play(3, Player::Red).unwrap();
    let second = b.play(3, Player::Red).unwrap();
    assert!(b == copy);
    assert!(first == second);
    assert_eq!(first.tiles[1][3], Tile::Piece(Player::Red));
    assert_eq!(b.tiles[1][3], Tile::Empty);
}

#[test]
fn reachable_boards_keep_piece_parity() {
    let mut b = Board::new();
    let cols = [3, 3, 2, 4, 4, 1, 0, 6, 5, 5, 2, 1, 6, 0, 3, 2, 4, 6, 5, 1];
    for (i, &col) in cols.iter().enumerate() {
        let p = b.next_to_move().unwrap();
        b = b.play(col, p).unwrap();
        let (red, yellow) = counts(&b);
        assert!(red == yellow || red == yellow + 1, "move {}", i);
    }
}

#[test]
fn winner_survives_mirroring() {
    let boards = [
        grid(["RYYR...", ".RYY...", "..RY...", "...R...", ".......", "......."]),
        grid(["RRRR...", "YYY....", ".......", ".......", ".......", "......."]),
        grid(["YRRYYYR", "RYYRRRY", "YYYRYRY", "RRYRYYY", "RYRYRRR", "RRYYRYR"]),
        play_all(&[(0, Player::Red), (6, Player::Yellow), (1, Player::Red), (6, Player::Yellow),
            (0, Player::Red), (6, Player::Yellow), (1, Player::Red), (6, Player::Yellow)]),
    ];
    for b in boards.iter() {
        assert_eq!(b.winner(), mirror(b).winner());
    }
}

#[test]
fn heuristic_scores_windows() {
    // One Red piece in the bottom-left corner: the bottom row gives one
    // window of 5, the first column one, the rising diagonal one.
    let b = Board::new().play(0, Player::Red).unwrap();
    assert_eq!(b.get_score(), 15);
    // Red in the centre of the bottom row, Yellow on top of it.
    let b = Board::new().play(3, Player::Red).unwrap().play(3, Player::Yellow).unwrap();
    let r = Board::new().play(3, Player::Red).unwrap().get_score();
    assert_eq!(r, 5 * 4 + 5 + 5 + 5);
    assert!(b.get_score() < r);
}

#[test]
fn score_is_terminal_only_for_a_win() {
    let b = play_all(&[(0, Player::Red), (0, Player::Yellow), (1, Player::Red), (1, Player::Yellow),
        (2, Player::Red), (2, Player::Yellow)]);
    assert!(b.get_score().abs() < TERMINAL);
    assert_eq!(b.play(3, Player::Red).unwrap().get_score(), TERMINAL);
}

#[test]
fn next_boards_in_column_order() {
    let b = play_all(&[
        (0, Player::Red), (0, Player::Yellow), (0, Player::Red),
        (0, Player::Yellow), (0, Player::Red), (0, Player::Yellow),
    ]);
    let kids = b.next_boards();
    assert_eq!(kids.len(), 6);
    for (i, k) in kids.iter().enumerate() {
        assert!(*k == b.play(i as i32 + 1, Player::Red).unwrap());
    }
}

#[test]
fn prev_boards_undo_each_top_piece() {
    let b = play_all(&[(3, Player::Red), (3, Player::Yellow), (4, Player::Red), (0, Player::Yellow)]);
    let parents = b.prev_boards();
    // Yellow moved last: only Yellow's top pieces can be undone.
    assert_eq!(parents.len(), 2);
    for p in parents.iter() {
        assert!(p.next_boards().iter().any(|c| *c == b));
    }
    assert!(Board::new().prev_boards().is_empty());
}

#[test]
fn display_draws_the_grid() {
    let b = Board::new().play(0, Player::Red).unwrap().play(6, Player::Yellow).unwrap();
    let text = b.display();
    let lines: Vec<&str> = text.lines().collect();
    assert_eq!(lines.len(), 9);
    assert_eq!(lines[0], "+ -  -  -  -  -  -  - +");
    assert_eq!(lines[1], "| .  .  .  .  .  .  . |");
    assert_eq!(lines[6], "| R  .  .  .  .  .  Y |");
    assert_eq!(lines[7], "+ -  -  -  -  -  -  - +");
    assert_eq!(lines[8], "  1  2  3  4  5  6  7  ");
}
