use rand::rngs::StdRng;
use rand::SeedableRng;

use samegame::board::Board;
use samegame::cache::empty_cache;
use samegame::solver::solve;
use samegame::solvers::bfs::bfs_solve;
use samegame::solvers::dfs::dfs_solve;
use samegame::solvers::mcrws;
use samegame::solvers::solution::Solution;
use samegame::solvers::tabucolor;
use samegame::solvers::tabucolor::{Node, Tree};

/// A field that is empty but for the given columns, each listed from the
/// base row up.
fn board_of(columns: &[&[i8]]) -> Board {
    let mut rows = [[-1i8; 15]; 15];
    for (x, column) in columns.iter().enumerate() {
        for (y, tile) in column.iter().enumerate() {
            rows[y][x] = *tile;
        }
    }
    Board::new(rows)
}

/// The score that the moves of `text` earn on `board`.
fn replay(board: &Board, text: &str) -> u32 {
    let mut copy = board.clone();
    if !text.is_empty() {
        for cell in text.split(';') {
            let mut parts = cell.split(' ');
            let x: usize = parts.next().unwrap().parse().unwrap();
            let y: usize = parts.next().unwrap().parse().unwrap();
            copy.play(x, y);
        }
    }
    assert!(copy.compute_all_regions().is_empty());
    copy.get_score()
}

fn first_colour(counts: [u8; 5], _drawn: u32) -> i8 {
    for (colour, count) in counts.iter().enumerate() {
        if *count > 0 {
            return colour as i8;
        }
    }
    4
}

fn first_child(_visited: u64, _stats: Vec<(u64, u128, u32)>) -> usize {
    0
}

fn most_visited_last(_visited: u64, stats: Vec<(u64, u128, u32)>) -> usize {
    let mut at = 0;
    for (k, stat) in stats.iter().enumerate() {
        if stat.0 <= stats[at].0 {
            at = k;
        }
    }
    at
}

#[test]
fn bfs_clears_two_columns() {
    let board = board_of(&[&[1, 1], &[2, 2]]);
    assert_eq!(bfs_solve(&board), "0 0;0 0");
}

#[test]
fn bfs_on_terminal_board_makes_no_move() {
    let board = board_of(&[&[1, 2], &[2, 1]]);
    assert_eq!(bfs_solve(&board), "");
}

#[test]
fn bfs_keeps_a_finished_game_without_points() {
    let board = board_of(&[&[1, 1], &[2]]);
    assert_eq!(bfs_solve(&board), "0 0");
}

#[test]
fn dfs_keeps_a_finished_game_without_points() {
    let board = board_of(&[&[1, 1], &[2]]);
    assert_eq!(dfs_solve(&board), "0 0");
}

#[test]
fn bfs_leaves_out_earlier_moves() {
    let mut board = board_of(&[&[1, 1], &[2, 2], &[3, 3]]);
    board.play(0, 0);
    assert_eq!(board.get_actions_str(), "0 0");
    assert_eq!(bfs_solve(&board), "0 0;0 0");
}

#[test]
fn bfs_finds_the_better_order_in_a_row() {
    // Playing the middle pair first lets the four 0s go at once.
    let board = board_of(&[&[0], &[0], &[1], &[1], &[0], &[0]]);
    let text = bfs_solve(&board);
    assert_eq!(text, "2 0;0 0");
    assert_eq!(replay(&board, &text), 1004);
    assert_eq!(board.get_score(), 0);
    assert_eq!(board.get_actions_str(), "");
}

#[test]
fn dfs_in_a_row_keeps_the_first_way() {
    let board = board_of(&[&[0], &[0], &[1], &[1], &[0], &[0]]);
    let text = dfs_solve(&board);
    assert_eq!(text, "0 0;0 0;0 0");
    assert_eq!(replay(&board, &text), 1000);
}

#[test]
fn mcrws_ends_with_a_lonely_tile() {
    let board = board_of(&[&[0], &[0], &[0], &[1]]);
    let mut rng = StdRng::seed_from_u64(3);
    for rollouts in [0, 1, 30] {
        assert_eq!(
            mcrws::_solve(&board, rollouts, &first_colour, &mut rng),
            (String::from("0 0"), 1)
        );
    }
}

#[test]
fn tabucolor_ends_with_a_lonely_tile() {
    let board = board_of(&[&[0], &[0], &[0], &[1]]);
    let mut rng = StdRng::seed_from_u64(3);
    assert_eq!(
        tabucolor::_solve(&board, 40, &first_child, &first_colour, &mut rng),
        (String::from("0 0"), 1)
    );
}

#[test]
fn a_seed_tells_the_whole_run() {
    let board = board_of(&[&[1, 1, 2, 2, 1, 1], &[0, 0, 3, 2, 2], &[3, 3, 3, 0, 0], &[1, 1, 0, 0]]);
    let by_draw = |counts: [u8; 5], drawn: u32| -> i8 {
        let active: Vec<usize> = (0..5).filter(|c| counts[*c] > 0).collect();
        active[drawn as usize % active.len()] as i8
    };
    let run = |seed: u64| {
        let mut rng = StdRng::seed_from_u64(seed);
        mcrws::_solve(&board, 5, &by_draw, &mut rng)
    };
    assert_eq!(run(21), run(21));
    let tree = |seed: u64| {
        let mut rng = StdRng::seed_from_u64(seed);
        tabucolor::_solve(&board, 200, &most_visited_last, &by_draw, &mut rng)
    };
    assert_eq!(tree(4), tree(4));
}

#[test]
fn log_from_a_move_on() {
    let mut board = board_of(&[&[1, 1], &[2, 2], &[3, 3]]);
    assert_eq!(board.get_actions_len(), 0);
    board.play(1, 0);
    board.play(1, 1);
    board.play(0, 0);
    assert_eq!(board.get_actions_len(), 3);
    assert_eq!(board.get_actions_str_from(0), "1 0;1 1;0 0");
    assert_eq!(board.get_actions_str_from(1), "1 1;0 0");
    assert_eq!(board.get_actions_str_from(2), "0 0");
    assert_eq!(board.get_actions_str_from(3), "");
    assert_eq!(board.get_actions_str_from(9), "");
}

#[test]
fn bfs_finds_the_better_order() {
    // Removing the pair of 2s first lets the four 1s go at once.
    let board = board_of(&[&[1, 1, 2, 2, 1, 1]]);
    let text = bfs_solve(&board);
    assert_eq!(text, "0 2;0 0");
    assert_eq!(replay(&board, &text), 1004);
}

#[test]
fn dfs_clears_two_columns() {
    let board = board_of(&[&[1, 1], &[2, 2]]);
    assert_eq!(dfs_solve(&board), "0 0;0 0");
}

#[test]
fn dfs_on_terminal_board_makes_no_move() {
    let board = board_of(&[&[1, 2], &[2, 1]]);
    assert_eq!(dfs_solve(&board), "");
}

#[test]
fn dfs_keeps_the_first_way_to_a_field() {
    // The empty field is first reached pair by pair; the better way to it,
    // on which the four 1s go at once, is not searched any more.
    let board = board_of(&[&[1, 1, 2, 2, 1, 1]]);
    let text = dfs_solve(&board);
    assert_eq!(text, "0 0;0 0;0 0");
    assert_eq!(replay(&board, &text), 1000);
}

#[test]
fn dfs_leaves_out_earlier_moves() {
    let mut board = board_of(&[&[1, 1], &[2, 2], &[3, 3]]);
    board.play(0, 0);
    assert_eq!(board.get_actions_str(), "0 0");
    assert_eq!(dfs_solve(&board), "0 0;0 0");
}

#[test]
fn solution_starts_without_moves() {
    let board = board_of(&[&[1, 1]]);
    let solution = Solution::new(board.clone());
    assert!(solution.actions.is_empty());
    assert!(solution.board == board);
    assert_eq!(solution.board.get_score(), 0);
}

#[test]
fn count_colors_sums_region_sizes() {
    let board = board_of(&[&[1, 1, 1], &[2, 2, 0], &[2, 1, 1]]);
    let regions = board.compute_all_regions();
    assert_eq!(regions.len(), 3);
    // The single 0 belongs to no move.
    assert_eq!(mcrws::count_colors(&board, &regions), [0, 5, 3, 0, 0]);
}

#[test]
fn pick_region_keeps_to_the_colour() {
    let board = board_of(&[&[1, 1, 1], &[2, 2, 0], &[2, 1, 1]]);
    let regions = board.compute_all_regions();
    let mut rng = StdRng::seed_from_u64(7);
    for _ in 0..50 {
        let picked = mcrws::pick_region(&regions, 2, &mut rng);
        assert_eq!(regions[picked].color, 2);
        let picked = mcrws::pick_region(&regions, 1, &mut rng);
        assert_eq!(regions[picked].color, 1);
        let picked = mcrws::pick_region(&regions, 4, &mut rng);
        assert!(picked < regions.len());
    }
}

#[test]
fn cached_regions_are_the_regions() {
    let board = board_of(&[&[1, 1, 1], &[2, 2, 0], &[2, 1, 1]]);
    let other = board_of(&[&[3, 3]]);
    let mut cache = empty_cache(2);
    for _ in 0..3 {
        for game in [&board, &other] {
            let fresh = game.compute_all_regions();
            let kept = mcrws::cached_regions(game, &mut cache);
            assert_eq!(kept.len(), fresh.len());
            for (a, b) in kept.iter().zip(fresh.iter()) {
                assert_eq!(a.positions, b.positions);
                assert_eq!(a.color, b.color);
                assert_eq!(a.first_position, b.first_position);
            }
        }
    }
    assert_eq!(cache.len(), 2);
}

#[test]
fn cache_of_no_capacity_holds_one_field() {
    let board = board_of(&[&[1, 1]]);
    let other = board_of(&[&[3, 3]]);
    let mut cache = empty_cache(0);
    assert_eq!(cache.len(), 0);
    mcrws::cached_regions(&board, &mut cache);
    mcrws::cached_regions(&other, &mut cache);
    assert_eq!(cache.len(), 1);
    assert_eq!(mcrws::cached_regions(&board, &mut cache).len(), 1);
}

#[test]
fn rollout_plays_to_the_end() {
    let board = board_of(&[&[1, 1, 2, 2, 1, 1], &[0, 0, 3], &[3, 3, 3]]);
    let mut cache = empty_cache(100);
    let mut rng = StdRng::seed_from_u64(1);
    for _ in 0..20 {
        let end = mcrws::rollout(&board, &mut cache, &first_colour, &mut rng);
        assert!(end.compute_all_regions().is_empty());
        assert_eq!(replay(&board, &end.get_actions_str()), end.get_score());
    }
}

#[test]
fn only_color_is_the_one_active_colour() {
    assert_eq!(mcrws::only_color(&[0, 0, 7, 0, 0]), Some(2));
    assert_eq!(mcrws::only_color(&[225, 0, 0, 0, 0]), Some(0));
    assert_eq!(mcrws::only_color(&[0, 0, 0, 0, 2]), Some(4));
    assert_eq!(mcrws::only_color(&[0, 0, 0, 0, 0]), None);
    assert_eq!(mcrws::only_color(&[3, 0, 0, 0, 2]), None);
    assert_eq!(mcrws::only_color(&[45, 45, 45, 45, 45]), None);
}

#[test]
fn rollout_asks_the_policy_between_colours_only() {
    let board = board_of(&[&[1, 1, 2, 2, 1, 1], &[0, 0, 3], &[3, 3, 3]]);
    let between = |counts: [u8; 5], drawn: u32| -> i8 {
        assert!(counts.iter().filter(|count| **count > 0).count() >= 2);
        first_colour(counts, drawn)
    };
    let mut cache = empty_cache(100);
    let mut rng = StdRng::seed_from_u64(11);
    for _ in 0..20 {
        let end = mcrws::rollout(&board, &mut cache, &between, &mut rng);
        assert!(end.compute_all_regions().is_empty());
    }
}

#[test]
fn mcrws_answers_with_a_finished_game() {
    let board = board_of(&[&[1, 1, 2, 2, 1, 1], &[0, 0, 3], &[3, 3, 3]]);
    let mut rng = StdRng::seed_from_u64(3);
    let (text, score) = mcrws::_solve(&board, 20, &first_colour, &mut rng);
    assert_eq!(replay(&board, &text), score);
}

#[test]
fn mcrws_plays_the_only_move() {
    let board = board_of(&[&[1, 1, 1]]);
    let mut rng = StdRng::seed_from_u64(3);
    assert_eq!(
        mcrws::_solve(&board, 0, &first_colour, &mut rng),
        (String::from("0 0"), 1001)
    );
}

#[test]
fn mcrws_without_rollouts_takes_the_first_move() {
    let board = board_of(&[&[1, 1], &[2, 2]]);
    let mut rng = StdRng::seed_from_u64(3);
    assert_eq!(
        mcrws::_solve(&board, 0, &first_colour, &mut rng),
        (String::from("0 0;0 0"), 1000)
    );
}

#[test]
fn node_starts_unvisited() {
    let board = board_of(&[&[1, 1]]);
    let mut node = Node::new(board.clone());
    assert!(*node.get_board() == board);
    assert_eq!(node.get_visited(), 0);
    assert_eq!(node.get_sum_score(), 0);
    assert_eq!(node.get_highest_score(), 0);
    assert!(!node.is_expanded());
    assert!(!node.is_leaf());
    node.add_child(3);
    assert!(node.is_expanded());
    node.set_leaf();
    assert!(node.is_leaf());
    node.set_parent(0);
    assert_eq!(node.get_visited(), 0);
}

#[test]
fn tree_takes_up_scores_along_the_way_up() {
    let board = board_of(&[&[1, 1], &[2, 2], &[3, 3]]);
    let mut tree = Tree::new(board);
    assert_eq!(tree.len(), 1);
    tree.expand(0);
    assert_eq!(tree.len(), 4);
    assert!(tree.get(0).is_expanded());
    assert_eq!(tree.get_child(0, &first_child), 1);
    assert_eq!(tree.get_child(0, &|_, _| 2), 3);
    assert_eq!(tree.get_child(0, &|_, _| 3), 1);
    tree.expand(2);
    assert_eq!(tree.len(), 6);

    tree.backpropagate(5, 40);
    tree.backpropagate(2, 10);
    tree.backpropagate(1, 70);
    let seen: Vec<(u64, u128, u32)> = (0..6)
        .map(|k| {
            let node = tree.get(k);
            (node.get_visited(), node.get_sum_score(), node.get_highest_score())
        })
        .collect();
    assert_eq!(
        seen,
        vec![(3, 120, 70), (1, 70, 70), (2, 50, 40), (0, 0, 0), (0, 0, 0), (1, 40, 40)]
    );
    assert_eq!(tree.get(5).get_board().get_actions_str(), "1 0;1 0");
}

#[test]
fn tree_marks_a_game_without_moves() {
    let board = board_of(&[&[1, 2], &[2, 1]]);
    let mut tree = Tree::new(board);
    tree.expand(0);
    assert_eq!(tree.len(), 1);
    assert!(tree.get(0).is_leaf());
    assert!(!tree.get(0).is_expanded());
}

#[test]
fn tabucolor_answers_with_a_finished_game() {
    let board = board_of(&[&[1, 1, 2, 2, 1, 1], &[0, 0, 3], &[3, 3, 3]]);
    let mut rng = StdRng::seed_from_u64(5);
    let (text, score) = tabucolor::_solve(&board, 400, &most_visited_last, &first_colour, &mut rng);
    assert_eq!(replay(&board, &text), score);
}

#[test]
fn tabucolor_without_games_answers_with_the_start() {
    let mut board = board_of(&[&[1, 1], &[2, 2, 2]]);
    board.play(1, 0);
    let mut rng = StdRng::seed_from_u64(5);
    assert_eq!(
        tabucolor::_solve(&board, 0, &first_child, &first_colour, &mut rng),
        (String::from("1 0"), 1)
    );
}

#[test]
fn solve_clears_a_small_board() {
    let board = board_of(&[&[1, 1, 1]]);
    let mut rng = StdRng::seed_from_u64(9);
    assert_eq!(
        solve(&board, &first_child, &first_colour, &mut rng),
        (String::from("0 0"), 1001)
    );
}
