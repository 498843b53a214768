use samegame::board::Board;
use samegame::region::Region;

/// A field that is empty but for the given columns, each listed from the
/// base row up.
fn field(columns: &[&[i8]]) -> Board {
    let mut rows = [[-1i8; 15]; 15];
    for (x, column) in columns.iter().enumerate() {
        for (y, tile) in column.iter().enumerate() {
            rows[y][x] = *tile;
        }
    }
    Board::new(rows)
}

/// The cells of a board, column by column, each from the base row up.
fn columns_of(board: &Board) -> Vec<Vec<i8>> {
    (0..15)
        .map(|x| (0..15).map(|y| board.get(x, y)).collect())
        .collect()
}

fn tiles_of(board: &Board) -> usize {
    board.get_color_counts().iter().map(|c| *c as usize).sum()
}

fn at_rest(board: &Board) -> bool {
    let columns = columns_of(board);
    let settled = columns
        .iter()
        .all(|column| (1..15).all(|y| column[y] < 0 || column[y - 1] >= 0));
    let closed = (1..15).all(|x| columns[x][0] < 0 || columns[x - 1][0] >= 0);
    settled && closed
}

fn striped() -> Board {
    let colours = [1, 0, 1, 1, 2, 0, 2, 2, 1, 1, 2, 0, 3, 1, 4];
    let mut rows = [[0i8; 15]; 15];
    for (y, colour) in colours.iter().enumerate() {
        rows[y] = [*colour; 15];
    }
    Board::new(rows)
}

fn blocks() -> Board {
    Board::new([
        [2, 2, 2, 0, 0, 0, 0, 0, 0, 1, 1, 1, 2, 2, 2],
        [2, 2, 2, 0, 0, 0, 0, 0, 0, 1, 1, 1, 2, 2, 2],
        [2, 2, 2, 0, 0, 0, 0, 0, 0, 1, 1, 1, 2, 2, 2],
        [4, 4, 4, 1, 1, 1, 3, 3, 3, 2, 2, 2, 0, 0, 0],
        [4, 4, 4, 1, 1, 1, 3, 3, 3, 2, 2, 2, 0, 0, 0],
        [4, 4, 4, 1, 1, 1, 3, 3, 3, 2, 2, 2, 0, 0, 0],
        [0, 0, 0, 0, 0, 0, 4, 4, 4, 1, 1, 1, 4, 4, 4],
        [0, 0, 0, 0, 0, 0, 4, 4, 4, 1, 1, 1, 4, 4, 4],
        [0, 0, 0, 0, 0, 0, 4, 4, 4, 1, 1, 1, 4, 4, 4],
        [1, 1, 1, 3, 3, 3, 2, 2, 2, 3, 3, 3, 0, 0, 0],
        [1, 1, 1, 3, 3, 3, 2, 2, 2, 3, 3, 3, 0, 0, 0],
        [1, 1, 1, 3, 3, 3, 2, 2, 2, 3, 3, 3, 0, 0, 0],
        [4, 4, 4, 0, 0, 0, 3, 3, 3, 1, 1, 1, 2, 2, 2],
        [4, 4, 4, 0, 0, 0, 3, 3, 3, 1, 1, 1, 2, 2, 2],
        [4, 4, 4, 0, 0, 0, 3, 3, 3, 1, 1, 1, 2, 2, 2],
    ])
}

#[test]
fn region_score_is_the_square_of_two_less() {
    let sized = |n: usize| Region {
        positions: (0..n).collect(),
        color: 0,
        first_position: 0,
    };
    let expected = [(0, 0), (1, 0), (2, 0), (3, 1), (4, 4), (12, 100), (225, 49729)];
    for (size, points) in expected {
        assert_eq!(sized(size).len(), size);
        assert_eq!(sized(size).score(), points);
    }
}

#[test]
fn region_copy_is_the_region() {
    let region = Region {
        positions: vec![17, 1, 33],
        color: 3,
        first_position: 17,
    };
    let copy = region.clone();
    assert_eq!(copy.positions, vec![17, 1, 33]);
    assert_eq!(copy.color, 3);
    assert_eq!(copy.first_position, 17);
}

#[test]
fn new_takes_negative_entries_as_empty() {
    let mut rows = [[-1i8; 15]; 15];
    rows[0][0] = 3;
    rows[0][1] = -5;
    rows[1][0] = -128;
    rows[14][14] = 4;
    let board = Board::new(rows);
    assert_eq!(board.get(0, 0), 3);
    assert_eq!(board.get(1, 0), -1);
    assert_eq!(board.get(0, 1), -1);
    assert_eq!(board.get(14, 14), 4);
    assert_eq!(board.get_color_counts(), [0, 0, 0, 1, 1]);
    assert_eq!(board.get_score(), 0);
    assert_eq!(board.get_actions_str(), "");
}

#[test]
fn cells_outside_the_field_are_empty() {
    let board = striped();
    assert_eq!(board.get(14, 14), 4);
    assert_eq!(board.get(15, 0), -1);
    assert_eq!(board.get(0, 15), -1);
    assert_eq!(board.get(16, 0), -1);
    assert_eq!(board.get(usize::MAX, usize::MAX), -1);
    assert_eq!(*board.get_color_of_index(&15), -1);
    assert_eq!(*board.get_color_of_index(&255), -1);
    assert_eq!(*board.get_color_of_index(&16), 0);
    assert_eq!(board.get_cells()[17], 0);
    assert_eq!(board.get_cells()[31], -1);
}

#[test]
fn region_is_the_whole_component() {
    let board = field(&[&[1, 1, 2], &[1, 2, 2], &[3]]);
    let ones = board.compute_region(0, 0);
    assert_eq!(ones.positions, vec![0, 1, 16]);
    assert_eq!(ones.color, 1);
    assert_eq!(ones.first_position, 0);

    let twos = board.compute_region(1, 2);
    assert_eq!(twos.first_position, 33);
    assert_eq!(twos.color, 2);
    let mut cells = twos.positions.clone();
    cells.sort();
    assert_eq!(cells, vec![17, 32, 33]);
    assert_eq!(twos.positions[0], 33);

    let same = board.compute_region_index(33);
    assert_eq!(same.positions, twos.positions);
}

#[test]
fn region_of_a_lonely_tile_is_the_tile() {
    let board = field(&[&[1, 1, 2], &[1, 2, 2], &[3]]);
    let lonely = board.compute_region(2, 0);
    assert_eq!(lonely.positions, vec![2]);
    assert_eq!(lonely.color, 3);
    assert_eq!(lonely.len(), 1);
    assert_eq!(lonely.score(), 0);
}

#[test]
fn region_of_an_empty_cell_is_the_empty_space() {
    let board = field(&[&[1]]);
    let space = board.compute_region(7, 7);
    assert_eq!(space.color, -1);
    assert_eq!(space.len(), 224);
    assert_eq!(space.first_position, 7 * 16 + 7);
    assert!(!space.positions.contains(&0));
    assert!(space.positions.iter().all(|i| i % 16 < 15 && i / 16 < 15));
}

#[test]
fn region_does_not_cross_the_edge_of_a_row() {
    // The last cell of a row and the first of the next are no neighbours.
    let mut rows = [[-1i8; 15]; 15];
    rows[0][14] = 1;
    rows[1][0] = 1;
    let board = Board::new(rows);
    assert_eq!(board.compute_region(14, 0).positions, vec![14]);
    assert_eq!(board.compute_region(0, 1).positions, vec![16]);
    assert!(board.compute_all_regions().is_empty());
}

#[test]
fn play_changes_nothing_without_a_move() {
    let start = field(&[&[1, 2, 1], &[3]]);
    let mut board = start.clone();
    board.play(0, 0); // a tile without a partner
    board.play(0, 1);
    board.play(1, 0);
    board.play(5, 5); // an empty cell
    board.play(15, 0); // outside the field
    board.play(0, 200);
    board.play_index(255);
    board.play_index(5000);
    board.play_index(16);
    assert!(board == start);
    assert_eq!(columns_of(&board), columns_of(&start));
    assert_eq!(board.get_score(), 0);
    assert_eq!(board.get_color_counts(), [0, 2, 1, 1, 0]);
    assert_eq!(board.get_actions_str(), "");
}

#[test]
fn play_removes_the_region_and_earns_its_points() {
    let mut board = field(&[&[1, 1, 1, 1, 1], &[2]]);
    board.play(0, 3);
    assert_eq!(board.get_score(), 9);
    assert_eq!(board.get_color_counts(), [0, 0, 1, 0, 0]);
    assert_eq!(tiles_of(&board), 1);
    assert_eq!(board.get_actions_str(), "0 3");
    // The column of the 2 has moved to the left.
    assert_eq!(board.get(0, 0), 2);
    assert_eq!(board.get(1, 0), -1);
}

#[test]
fn bonus_is_earned_with_the_last_tile_only() {
    let mut board = field(&[&[1, 1], &[2, 2, 2]]);
    board.play(0, 0);
    assert_eq!(board.get_score(), 0);
    assert_eq!(tiles_of(&board), 3);
    board.play(0, 0);
    assert_eq!(board.get_score(), 1001);
    assert_eq!(tiles_of(&board), 0);
    // Nothing is left to play, and nothing more is earned.
    board.play(0, 0);
    assert_eq!(board.get_score(), 1001);
    assert_eq!(board.get_actions_str(), "0 0;0 0");
}

#[test]
fn play_region_takes_any_tiles_of_one_colour() {
    let mut board = field(&[&[1, 1, 1], &[2, 1]]);
    let part = Region {
        positions: vec![32, 0],
        color: 1,
        first_position: 32,
    };
    board.play_region(&part);
    assert_eq!(columns_of(&board)[0][..3], [1, -1, -1]);
    assert_eq!(board.get_score(), 0);
    assert_eq!(board.get_color_counts(), [0, 2, 1, 0, 0]);
    assert_eq!(board.get_actions_str(), "0 2");
}

#[test]
fn tiles_fall_and_columns_close_up() {
    let mut board = field(&[&[1, 1, 2, 3], &[4, 4], &[0, 2], &[3, 3, 1]]);
    board.play(1, 0);
    let columns = columns_of(&board);
    assert_eq!(columns[0][..5], [1, 1, 2, 3, -1]);
    assert_eq!(columns[1][..3], [0, 2, -1]);
    assert_eq!(columns[2][..4], [3, 3, 1, -1]);
    assert_eq!(columns[3][..2], [-1, -1]);

    board.play(0, 1);
    let columns = columns_of(&board);
    assert_eq!(columns[0][..3], [2, 3, -1]);
    assert_eq!(columns[1][..3], [0, 2, -1]);
    assert!(at_rest(&board));
}

#[test]
fn falling_reaches_no_further_than_the_tiles_removed() {
    // Column 0 holds a tile that hangs above a gap.
    let mut rows = [[-1i8; 15]; 15];
    rows[0][0] = 1;
    rows[1][0] = 1;
    rows[3][0] = 2;
    rows[0][1] = 3;
    rows[1][1] = 3;
    rows[0][2] = 4;
    let mut board = Board::new(rows);
    board.play(1, 0);
    let columns = columns_of(&board);
    assert_eq!(columns[0][..5], [1, 1, -1, 2, -1]);
    assert_eq!(columns[1][..2], [4, -1]);
    assert_eq!(columns[2][..2], [-1, -1]);

    board.play(0, 1);
    let columns = columns_of(&board);
    assert_eq!(columns[0][..4], [2, -1, -1, -1]);
    assert_eq!(columns[1][..2], [4, -1]);
    assert_eq!(board.get_color_counts(), [0, 0, 1, 0, 1]);
}

#[test]
fn a_column_with_a_hanging_tile_is_not_closed_up() {
    let mut rows = [[-1i8; 15]; 15];
    rows[0][0] = 1;
    rows[1][0] = 1;
    rows[2][1] = 2;
    rows[0][2] = 3;
    let mut board = Board::new(rows);
    board.play(0, 0);
    let columns = columns_of(&board);
    assert_eq!(columns[0][..3], [-1, -1, 2]);
    assert_eq!(columns[1][..3], [3, -1, -1]);
    assert_eq!(columns[2][..3], [-1, -1, -1]);
    assert_eq!(board.get_color_counts(), [0, 0, 1, 1, 0]);
}

#[test]
fn a_field_at_rest_stays_at_rest() {
    for mut board in [striped(), blocks()] {
        assert!(at_rest(&board));
        let mut moves = 0;
        loop {
            let regions = board.compute_all_regions();
            if regions.is_empty() {
                break;
            }
            let before = tiles_of(&board);
            let score = board.get_score();
            let region = &regions[(moves * 7) % regions.len()];
            board.play_region(region);
            moves += 1;
            assert!(at_rest(&board));
            assert_eq!(tiles_of(&board), before - region.len());
            let bonus = if tiles_of(&board) == 0 { 1000 } else { 0 };
            assert_eq!(board.get_score(), score + region.score() + bonus);
        }
        assert!(moves > 0);
    }
}

#[test]
fn all_regions_share_no_cell_and_leave_out_lonely_tiles_only() {
    for board in [striped(), blocks(), field(&[&[1, 1, 2], &[1, 2, 2], &[3], &[3, 0, 3]])] {
        let regions = board.compute_all_regions();
        let mut owner = [usize::MAX; 256];
        for (k, region) in regions.iter().enumerate() {
            assert!(region.len() >= 2);
            assert!(region.color >= 0);
            assert_eq!(region.positions[0], region.first_position);
            for cell in region.positions.iter() {
                assert_eq!(owner[*cell], usize::MAX);
                owner[*cell] = k;
                assert_eq!(*board.get_color_of_index(cell), region.color);
            }
        }
        for x in 0..15usize {
            for y in 0..15usize {
                let colour = board.get(x, y);
                let paired = [(1i32, 0i32), (-1, 0), (0, 1), (0, -1)].iter().any(|(dx, dy)| {
                    let (nx, ny) = (x as i32 + dx, y as i32 + dy);
                    nx >= 0 && ny >= 0 && board.get(nx as usize, ny as usize) == colour
                });
                let listed = owner[16 * y + x] != usize::MAX;
                assert_eq!(listed, colour >= 0 && paired);
                if listed {
                    let whole = board.compute_region(x, y);
                    assert_eq!(whole.len(), regions[owner[16 * y + x]].len());
                }
            }
        }
    }
}

#[test]
fn all_regions_come_in_scan_order_and_the_same_each_time() {
    let board = blocks();
    let regions = board.compute_all_regions();
    let again = board.compute_all_regions();
    assert_eq!(regions.len(), again.len());
    let rank = |cell: usize| 15 * (cell % 16) + cell / 16;
    for (k, region) in regions.iter().enumerate() {
        assert_eq!(region.positions, again[k].positions);
        assert_eq!(region.color, again[k].color);
        assert_eq!(region.first_position, again[k].first_position);
        assert!(region.positions.iter().all(|cell| rank(*cell) >= rank(region.first_position)));
        if k > 0 {
            assert!(rank(regions[k - 1].first_position) < rank(region.first_position));
        }
    }
    assert_eq!(regions[0].first_position, 0);
    assert_eq!(regions[0].color, 2);
    assert_eq!(regions[0].len(), 9);
}

#[test]
fn boards_with_the_same_field_are_equal_and_hash_alike() {
    let mut first = field(&[&[3, 3], &[1, 1, 1]]);
    let mut second = field(&[&[3, 3], &[2, 2]]);
    assert!(first != second);
    assert_ne!(first.state_hash(), second.state_hash());
    first.play(1, 0);
    second.play(1, 1);
    assert_eq!(first.get_score(), 1);
    assert_eq!(second.get_score(), 0);
    assert_eq!(first.get_actions_str(), "1 0");
    assert_eq!(second.get_actions_str(), "1 1");

    assert!(first == second);
    assert!(first.same_cells(&second));
    assert_eq!(first.state_hash(), second.state_hash());
    assert_ne!(first.state_hash(), striped().state_hash());
    assert!(first != striped());
}

#[test]
fn a_copy_is_the_same_game() {
    let mut board = striped();
    board.play(0, 1);
    let copy = board.clone();
    assert!(copy == board);
    assert_eq!(copy.get_score(), board.get_score());
    assert_eq!(copy.get_score(), 169);
    assert_eq!(copy.get_actions_str(), "0 1");
    assert_eq!(copy.get_color_counts(), board.get_color_counts());
    board.play(0, 0);
    assert!(copy != board);
    assert_eq!(copy.get_actions_str(), "0 1");
}

#[test]
fn moves_are_written_with_column_and_row() {
    let mut board = field(&[
        &[0, 1, 0, 1, 0, 1, 0, 1, 0, 1, 2, 2],
        &[1],
        &[0],
        &[1],
        &[0],
        &[1],
        &[0],
        &[1],
        &[0],
        &[1],
        &[0],
        &[1],
        &[3, 3, 3],
    ]);
    board.play(12, 1);
    assert_eq!(board.get_actions_str(), "12 1");
    board.play(0, 11);
    assert_eq!(board.get_actions_str(), "12 1;0 11");
    board.play(0, 10);
    assert_eq!(board.get_actions_str(), "12 1;0 11");
    assert_eq!(board.get_score(), 1);
}

#[test]
fn index_and_coordinates_agree() {
    assert_eq!(Board::get_index(3, 2), 35);
    assert_eq!(Board::to_coordinates(&35), (3, 2));
    assert_eq!(Board::to_coordinates(&0), (0, 0));
    assert_eq!(Board::to_coordinates(&255), (15, 15));
    assert_eq!(Board::to_coordinates(&4099), (3, 256));
}

#[test]
fn striped_field_played_from_the_corner() {
    let mut board = striped();
    let mut scores = Vec::new();
    for _ in 0..12 {
        board.play(0, 0);
        scores.push(board.get_score());
    }
    assert_eq!(scores[0], 169);
    assert_eq!(scores[11], 4873);
    assert_eq!(board.get_color_counts(), [0, 0, 0, 0, 0]);
    assert_eq!(board.get_actions_str(), ["0 0"; 12].join(";"));
    assert!(board.compute_all_regions().is_empty());
}
