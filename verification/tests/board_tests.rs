use reversi::board::{Board, Cell, Direction, Stone};

#[test]
fn create_board() {
    let board = Board::new();
    for i in 0..10 {
        for j in 0..10 {
            let cell = board.cell_at(i, j);
            match (i, j) {
                (0, _) | (9, _) | (_, 0) | (_, 9) => assert_eq!(Cell::Wall, cell),
                (4, 4) | (5, 5) => assert_eq!(Cell::Stone(Stone::White), cell),
                (4, 5) | (5, 4) => assert_eq!(Cell::Stone(Stone::Black), cell),
                _ => assert_eq!(Cell::Empty, cell),
            };
        }
    }
}

#[test]
fn moved_direction() {
    assert_eq!((2, 2), Direction::LeftUp.moved(3, 3));
    assert_eq!((2, 3), Direction::Up.moved(3, 3));
    assert_eq!((2, 4), Direction::RightUp.moved(3, 3));
    assert_eq!((3, 2), Direction::Left.moved(3, 3));
    assert_eq!((3, 4), Direction::Right.moved(3, 3));
    assert_eq!((4, 2), Direction::LeftDown.moved(3, 3));
    assert_eq!((4, 3), Direction::Down.moved(3, 3));
    assert_eq!((4, 4), Direction::RightDown.moved(3, 3));
}

#[test]
fn get_number_of_black_stones() {
    let board = Board::new();
    assert_eq!(2, board.black_n());
}

#[test]
fn get_number_of_white_stones() {
    let board = Board::new();
    assert_eq!(2, board.white_n());
}

#[test]
fn get_number_of_reversible_sub() {
    let board = Board::new();
    assert_eq!(
        0,
        board.reversible_n_sub(Stone::Black, 4, 3, Direction::Left)
    );
    assert_eq!(
        1,
        board.reversible_n_sub(Stone::Black, 4, 3, Direction::Right)
    );
}

#[test]
fn get_number_of_reversible() {
    let board = Board::new();
    assert_eq!(1, board.reversible_n(Stone::Black, 4, 3));
    assert_eq!(0, board.reversible_n(Stone::White, 4, 3));
}

#[test]
fn reversible_is_zero_on_occupied_cells() {
    let board = Board::new();
    for &(i, j) in &[(4usize, 4usize), (4, 5), (5, 4), (5, 5)] {
        assert_eq!(0, board.reversible_n(Stone::Black, i, j));
        assert_eq!(0, board.reversible_n(Stone::White, i, j));
    }
}

#[test]
fn place_flips_the_captured_run() {
    let mut board = Board::new();
    assert_eq!(1, board.reversible_n(Stone::Black, 4, 3));
    assert!(board.place(Stone::Black, 4, 3));
    // One stone flipped, one placed: black gains two, white loses one.
    assert_eq!(4, board.black_n());
    assert_eq!(1, board.white_n());
    assert_eq!(Cell::Stone(Stone::Black), board.cell_at(4, 3));
    assert_eq!(Cell::Stone(Stone::Black), board.cell_at(4, 4));
    assert_eq!(Cell::Stone(Stone::White), board.cell_at(5, 5));
}

#[test]
fn place_flips_runs_in_two_directions() {
    let mut board = Board::new();
    assert!(board.place(Stone::Black, 4, 3));
    assert!(board.place(Stone::White, 5, 3));
    assert_eq!(3, board.black_n());
    assert_eq!(3, board.white_n());
    // (6, 3) captures one stone upward and one up-right: two flips in all.
    assert_eq!(2, board.reversible_n(Stone::Black, 6, 3));
    assert!(board.place(Stone::Black, 6, 3));
    assert_eq!(6, board.black_n());
    assert_eq!(1, board.white_n());
    assert_eq!(Cell::Stone(Stone::Black), board.cell_at(5, 3));
    assert_eq!(Cell::Stone(Stone::Black), board.cell_at(5, 4));
    assert_eq!(Cell::Stone(Stone::White), board.cell_at(5, 5));
}

#[test]
fn place_rejects_an_illegal_cell() {
    let mut board = Board::new();
    // A cell that flips nothing, and an occupied cell.
    assert!(!board.place(Stone::Black, 1, 1));
    assert!(!board.place(Stone::Black, 4, 4));
    assert_eq!(2, board.black_n());
    assert_eq!(2, board.white_n());
    assert_eq!(Cell::Empty, board.cell_at(1, 1));
}

#[test]
fn walls_survive_placements() {
    let mut board = Board::new();
    assert!(board.place(Stone::Black, 4, 3));
    assert!(board.place(Stone::White, 3, 3));
    assert!(board.place(Stone::Black, 2, 3));
    for k in 0..10 {
        assert_eq!(Cell::Wall, board.cell_at(0, k));
        assert_eq!(Cell::Wall, board.cell_at(9, k));
        assert_eq!(Cell::Wall, board.cell_at(k, 0));
        assert_eq!(Cell::Wall, board.cell_at(k, 9));
    }
}
