use samegame::board::Board;

fn get_board(level: i32) -> Board {
    let board = match level {
        1 => [
            [1, 1, 1, 1, 1, 1, 1, 1, 1, 1, 1, 1, 1, 1, 1],
            [0, 0, 0, 0, 0, 0, 0, 0, 0, 0, 0, 0, 0, 0, 0],
            [1, 1, 1, 1, 1, 1, 1, 1, 1, 1, 1, 1, 1, 1, 1],
            [1, 1, 1, 1, 1, 1, 1, 1, 1, 1, 1, 1, 1, 1, 1],
            [2, 2, 2, 2, 2, 2, 2, 2, 2, 2, 2, 2, 2, 2, 2],
            [0, 0, 0, 0, 0, 0, 0, 0, 0, 0, 0, 0, 0, 0, 0],
            [2, 2, 2, 2, 2, 2, 2, 2, 2, 2, 2, 2, 2, 2, 2],
            [2, 2, 2, 2, 2, 2, 2, 2, 2, 2, 2, 2, 2, 2, 2],
            [1, 1, 1, 1, 1, 1, 1, 1, 1, 1, 1, 1, 1, 1, 1],
            [1, 1, 1, 1, 1, 1, 1, 1, 1, 1, 1, 1, 1, 1, 1],
            [2, 2, 2, 2, 2, 2, 2, 2, 2, 2, 2, 2, 2, 2, 2],
            [0, 0, 0, 0, 0, 0, 0, 0, 0, 0, 0, 0, 0, 0, 0],
            [3, 3, 3, 3, 3, 3, 3, 3, 3, 3, 3, 3, 3, 3, 3],
            [1, 1, 1, 1, 1, 1, 1, 1, 1, 1, 1, 1, 1, 1, 1],
            [4, 4, 4, 4, 4, 4, 4, 4, 4, 4, 4, 4, 4, 4, 4],
        ],
        2 => [
            [1, 2, 2, 0, 0, 1, 1, 4, 3, 3, 4, 1, 1, 2, 0],
            [1, 2, 2, 0, 0, 1, 1, 4, 3, 3, 4, 1, 1, 2, 0],
            [1, 2, 2, 0, 0, 1, 1, 4, 3, 3, 4, 1, 1, 2, 0],
            [1, 2, 2, 0, 0, 1, 1, 4, 3, 3, 4, 1, 1, 2, 0],
            [1, 2, 2, 0, 0, 1, 1, 4, 3, 3, 4, 1, 1, 2, 0],
            [1, 2, 2, 0, 0, 1, 1, 4, 3, 3, 4, 1, 1, 2, 0],
            [1, 2, 2, 0, 0, 1, 1, 4, 3, 3, 4, 1, 1, 2, 0],
            [1, 2, 2, 0, 0, 1, 1, 4, 3, 3, 4, 1, 1, 2, 0],
            [1, 2, 2, 0, 0, 1, 1, 4, 3, 3, 4, 1, 1, 2, 0],
            [1, 2, 2, 0, 0, 1, 1, 4, 3, 3, 4, 1, 1, 2, 0],
            [1, 2, 2, 0, 0, 1, 1, 4, 3, 3, 4, 1, 1, 2, 0],
            [1, 2, 2, 0, 0, 1, 1, 4, 3, 3, 4, 1, 1, 2, 0],
            [1, 2, 2, 0, 0, 1, 1, 4, 3, 3, 4, 1, 1, 2, 0],
            [1, 2, 2, 0, 0, 1, 1, 4, 3, 3, 4, 1, 1, 2, 0],
            [1, 2, 2, 0, 0, 1, 1, 4, 3, 3, 4, 1, 1, 2, 0],
        ],
        3 => [
            [2, 2, 2, 0, 0, 0, 0, 0, 0, 1, 1, 1, 2, 2, 2],
            [2, 2, 2, 0, 0, 0, 0, 0, 0, 1, 1, 1, 2, 2, 2],
            [2, 2, 2, 0, 0, 0, 0, 0, 0, 1, 1, 1, 2, 2, 2],
            [4, 4, 4, 1, 1, 1, 3, 3, 3, 2, 2, 2, 0, 0, 0],
            [4, 4, 4, 1, 1, 1, 3, 3, 3, 2, 2, 2, 0, 0, 0],
            [4, 4, 4, 1, 1, 1, 3, 3, 3, 2, 2, 2, 0, 0, 0],
            [0, 0, 0, 0, 0, 0, 4, 4, 4, 1, 1, 1, 4, 4, 4],
            [0, 0, 0, 0, 0, 0, 4, 4, 4, 1, 1, 1, 4, 4, 4],
            [0, 0, 0, 0, 0, 0, 4, 4, 4, 1, 1, 1, 4, 4, 4],
            [1, 1, 1, 3, 3, 3, 2, 2, 2, 3, 3, 3, 0, 0, 0],
            [1, 1, 1, 3, 3, 3, 2, 2, 2, 3, 3, 3, 0, 0, 0],
            [1, 1, 1, 3, 3, 3, 2, 2, 2, 3, 3, 3, 0, 0, 0],
            [4, 4, 4, 0, 0, 0, 3, 3, 3, 1, 1, 1, 2, 2, 2],
            [4, 4, 4, 0, 0, 0, 3, 3, 3, 1, 1, 1, 2, 2, 2],
            [4, 4, 4, 0, 0, 0, 3, 3, 3, 1, 1, 1, 2, 2, 2],
        ],
        _ => panic!("Invalid"),
    };

    Board::new(board)
}

#[test]
fn test_board_1() {
    let mut board = get_board(1);

    assert_eq!(board.get_score(), 0);
    assert_eq!(board.get_color_counts(), [45, 90, 60, 15, 15]);

    for _ in 0..12 {
        board.play(0, 0);
    }

    assert_eq!(board.get_score(), 4873);
    assert_eq!(board.get_color_counts(), [0, 0, 0, 0, 0]);
}

#[test]
fn test_board_2() {
    let mut board = get_board(1);
    assert_eq!(board.get_score(), 0);
    assert_eq!(board.get_color_counts(), [45, 90, 60, 15, 15]);

    board.play(0, 1);
    board.play(0, 4);
    board.play(0, 3);
    board.play(0, 5);
    board.play(0, 5);
    board.play(0, 5);
    board.play(0, 0);
    board.play(0, 0);

    assert_eq!(board.get_score(), 11607);
    assert_eq!(board.get_color_counts(), [0, 0, 0, 0, 0]);
}

#[test]
fn test_board_3() {
    let mut board = get_board(2);
    assert_eq!(board.get_score(), 0);
    assert_eq!(board.get_color_counts(), [45, 75, 45, 30, 30]);

    board.play(5, 0);
    board.play(1, 0);
    board.play(1, 0);
    board.play(2, 0);
    board.play(2, 0);
    board.play(0, 0);
    board.play(0, 0);
    board.play(0, 0);

    assert_eq!(board.get_score(), 7107);
    assert_eq!(board.get_color_counts(), [0, 0, 0, 0, 0]);
}

#[test]
fn test_board_4() {
    let mut board = get_board(3);
    assert_eq!(board.get_score(), 0);
    assert_eq!(board.get_color_counts(), [63, 45, 45, 36, 36]);

    board.play(0, 14);
    board.play(6, 11);
    board.play(6, 11);
    board.play(3, 5);
    board.play(0, 8);
    board.play(6, 5);
    board.play(6, 8);
    board.play(6, 5);
    board.play(0, 5);
    board.play(0, 5);
    board.play(6, 5);
    board.play(6, 5);
    board.play(0, 2);
    board.play(0, 2);

    assert_eq!(board.get_score(), 5421);
    assert_eq!(board.get_color_counts(), [0, 0, 0, 0, 0]);
}

#[test]
fn test_all_regions() {
    let board = get_board(3);

    assert_eq!(board.compute_all_regions().len(), 23);
}

#[test]
fn test_play() {
    let mut board = get_board(3);

    board.play(6, 11);

    assert_eq!(board.get(6, 0), 0);
    assert_eq!(board.get(6, 3), 3);
    assert_eq!(board.get(6, 6), 4);
    assert_eq!(board.get(6, 9), 3);
    assert_eq!(board.get(6, 12), -1);
}

#[test]
fn test_conversion() {
    for x in 0..16 {
        for y in 0..16 {
            let idx = Board::get_index(x, y);

            assert_eq!(idx, x + y * 16);

            let (x2, y2) = Board::to_coordinates(&idx);
            assert_eq!(x, x2);
            assert_eq!(y, y2);
        }
    }
}

#[test]
fn test_hash() {
    let board1 = get_board(1);
    let board2 = get_board(1);
    let board3 = get_board(3);

    let hash_value1 = board1.state_hash();
    let hash_value2 = board2.state_hash();
    let hash_value3 = board3.state_hash();

    assert_eq!(hash_value1, hash_value2);
    assert_ne!(hash_value1, hash_value3);
}
