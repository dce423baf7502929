use reversi::board::{Board, Cell, Stone};
use reversi::information::Information;
use reversi::player::Player;

#[test]
fn players_know_their_stone() {
    let human = Player::new_human(Stone::Black);
    let computer = Player::new_computer(Stone::White);
    assert_eq!(Stone::Black, human.stone());
    assert_eq!(Stone::White, computer.stone());
}

#[test]
fn human_plays_the_recorded_cell() {
    let mut board = Board::new();
    let mut player = Player::new_human(Stone::Black);
    player.record_input(4, 3);
    assert!(player.put_stone(&mut board));
    assert_eq!(4, board.black_n());
    assert_eq!(1, board.white_n());
    assert_eq!(Cell::Stone(Stone::Black), board.cell_at(4, 3));
}

#[test]
fn human_consumes_an_illegal_target() {
    let mut board = Board::new();
    let mut player = Player::new_human(Stone::Black);
    player.record_input(1, 1);
    assert!(!player.put_stone(&mut board));
    assert_eq!(2, board.black_n());
    assert_eq!(2, board.white_n());
    // The target is consumed even though the move was illegal.
    assert!(!player.put_stone(&mut board));
}

#[test]
fn human_rejects_a_target_off_the_playable_area() {
    let mut board = Board::new();
    let mut player = Player::new_human(Stone::Black);
    player.record_input(0, 5);
    assert!(!player.put_stone(&mut board));
    player.record_input(9, 9);
    assert!(!player.put_stone(&mut board));
    assert_eq!(2, board.black_n());
    assert_eq!(2, board.white_n());
}

#[test]
fn human_passes_without_a_recorded_cell() {
    let mut board = Board::new();
    let mut player = Player::new_human(Stone::Black);
    assert!(!player.put_stone(&mut board));
    assert_eq!(2, board.black_n());
    assert_eq!(2, board.white_n());
}

#[test]
fn computer_picks_the_first_greatest_count() {
    // On the initial board every legal black move flips one stone; the
    // greedy scan must settle the tie on the lowest row, then column: (3, 4).
    let mut board = Board::new();
    let mut player = Player::new_computer(Stone::Black);
    assert!(player.put_stone(&mut board));
    assert_eq!(Cell::Stone(Stone::Black), board.cell_at(3, 4));
    assert_eq!(Cell::Stone(Stone::Black), board.cell_at(4, 4));
    assert_eq!(4, board.black_n());
    assert_eq!(1, board.white_n());
}

#[test]
fn computer_selection_is_repeatable() {
    // Two computers on identical boards make the identical move.
    let mut board1 = Board::new();
    let mut board2 = Board::new();
    let mut player1 = Player::new_computer(Stone::White);
    let mut player2 = Player::new_computer(Stone::White);
    assert!(player1.put_stone(&mut board1));
    assert!(player2.put_stone(&mut board2));
    for i in 0..10 {
        for j in 0..10 {
            assert_eq!(board1.cell_at(i, j), board2.cell_at(i, j));
        }
    }
}

#[test]
fn computer_passes_when_no_move_is_legal() {
    let mut board = Board::new();
    // Black wipes every white stone off the board.
    assert!(board.place(Stone::Black, 4, 3));
    assert!(board.place(Stone::Black, 6, 6));
    assert_eq!(6, board.black_n());
    assert_eq!(0, board.white_n());
    // With no white stone on the board, white can close no run anywhere.
    let mut player = Player::new_computer(Stone::White);
    assert!(!player.put_stone(&mut board));
    assert_eq!(6, board.black_n());
    assert_eq!(0, board.white_n());
    assert_eq!(Cell::Empty, board.cell_at(3, 3));
}

#[test]
fn information_starts_at_black_with_no_counts() {
    let info = Information::default();
    assert_eq!(Stone::Black, info.tern_stone);
    assert_eq!(0, info.black_n);
    assert_eq!(0, info.white_n);
}
