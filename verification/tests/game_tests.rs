use a2048::game::Game;

/// Fills a 4x4 board with a checkerboard of 2s and 4s: no zero cell and no
/// two 4-adjacent equal cells.
fn checkerboard(game: &mut Game) {
    for r in 0..4 {
        for c in 0..4 {
            let value = if (r + c) % 2 == 0 { 2 } else { 4 };
            game.set_cell(r, c, value);
        }
    }
}

fn board_of(game: &Game) -> Vec<usize> {
    let mut cells = Vec::new();
    for r in 0..game.height() {
        for c in 0..game.width() {
            cells.push(game.get_cell(r, c));
        }
    }
    cells
}

#[test]
fn new_game_is_zeroed() {
    let game = Game::new(5, 3, Some(7));
    assert_eq!(game.width(), 5);
    assert_eq!(game.height(), 3);
    assert_eq!(game.points, 0);
    assert_eq!(game.new_points, 0);
    assert!(board_of(&game).iter().all(|&v| v == 0));
}

#[test]
fn zero_width_construction_is_rejected() {
    assert!(Game::try_new(0, 4, None).is_none());
    assert!(Game::try_new(4, 0, Some(1)).is_none());
    assert!(Game::try_new(4, 4, Some(1)).is_some());
}

#[test]
fn full_checkerboard_is_game_over() {
    let mut game = Game::from_seed(0);
    checkerboard(&mut game);
    assert!(game.is_game_over());
}

#[test]
fn one_empty_cell_means_not_over_and_spawn_fills_it() {
    let mut game = Game::from_seed(3);
    checkerboard(&mut game);
    game.set_cell(2, 1, 0);
    assert!(!game.is_game_over());

    let before = board_of(&game);
    game.add_random_tile();
    let after = board_of(&game);
    let spawned = after[2 * 4 + 1];
    assert!(spawned == 2 || spawned == 4);
    for (i, (&b, &a)) in before.iter().zip(after.iter()).enumerate() {
        if i != 2 * 4 + 1 {
            assert_eq!(b, a);
        }
    }
}

#[test]
fn spawn_on_full_board_changes_nothing() {
    let mut game = Game::from_seed(9);
    checkerboard(&mut game);
    let before = board_of(&game);
    game.add_random_tile();
    assert_eq!(before, board_of(&game));
}

#[test]
fn spawn_on_empty_board_adds_exactly_one_tile() {
    let mut game = Game::new(4, 4, Some(11));
    game.add_random_tile();
    let board = board_of(&game);
    let filled: Vec<usize> = board.iter().copied().filter(|&v| v != 0).collect();
    assert_eq!(filled.len(), 1);
    assert!(filled[0] == 2 || filled[0] == 4);
}

#[test]
fn shift_left_merges_each_row_toward_the_start() {
    let mut game = Game::from_seed(0);
    game.set_cell(0, 0, 2);
    game.set_cell(0, 1, 2);
    game.set_cell(0, 3, 2);
    game.set_cell(1, 1, 4);
    game.shift_left();
    assert_eq!(
        board_of(&game),
        vec![4, 2, 0, 0, 4, 0, 0, 0, 0, 0, 0, 0, 0, 0, 0, 0]
    );
    assert_eq!(game.points, 4);
    assert_eq!(game.new_points, 4);
}

#[test]
fn shift_right_merges_each_row_toward_the_end() {
    let mut game = Game::from_seed(0);
    game.set_cell(0, 0, 2);
    game.set_cell(0, 1, 2);
    game.set_cell(0, 3, 2);
    game.shift_right();
    assert_eq!(
        board_of(&game),
        vec![0, 0, 2, 4, 0, 0, 0, 0, 0, 0, 0, 0, 0, 0, 0, 0]
    );
    assert_eq!(game.points, 4);
}

#[test]
fn shift_top_merges_each_column_upward() {
    let mut game = Game::from_seed(0);
    game.set_cell(0, 2, 8);
    game.set_cell(1, 2, 8);
    game.set_cell(3, 2, 2);
    game.shift_top();
    assert_eq!(
        board_of(&game),
        vec![0, 0, 16, 0, 0, 0, 2, 0, 0, 0, 0, 0, 0, 0, 0, 0]
    );
    assert_eq!(game.points, 16);
}

#[test]
fn shift_bottom_merges_each_column_downward() {
    let mut game = Game::from_seed(0);
    game.set_cell(0, 2, 8);
    game.set_cell(1, 2, 8);
    game.set_cell(3, 2, 2);
    game.shift_bottom();
    assert_eq!(
        board_of(&game),
        vec![0, 0, 0, 0, 0, 0, 0, 0, 0, 0, 16, 0, 0, 0, 2, 0]
    );
    assert_eq!(game.points, 16);
}

#[test]
fn shifting_a_settled_board_twice_is_identical() {
    let mut game = Game::from_seed(0);
    game.set_cell(0, 0, 4);
    game.set_cell(0, 1, 2);
    game.set_cell(1, 0, 8);
    game.shift_left();
    let once = board_of(&game);
    let points_once = game.points;
    game.shift_left();
    assert_eq!(board_of(&game), once);
    assert_eq!(game.points, points_once);
    assert_eq!(game.new_points, 0);
}

#[test]
fn score_delta_resets_each_move() {
    let mut game = Game::from_seed(0);
    game.set_cell(0, 0, 2);
    game.set_cell(0, 1, 2);
    game.shift_left();
    assert_eq!(game.new_points, 4);
    game.shift_left();
    assert_eq!(game.new_points, 0);
    assert_eq!(game.points, 4);
}

#[test]
fn same_seed_gives_identical_games() {
    let mut a = Game::from_seed(42);
    let mut b = Game::from_seed(42);
    for _ in 0..3 {
        a.add_random_tile();
        b.add_random_tile();
        a.shift_left();
        b.shift_left();
        a.shift_bottom();
        b.shift_bottom();
    }
    assert_eq!(board_of(&a), board_of(&b));
    assert_eq!(a.points, b.points);
}

#[test]
fn set_cell_and_get_cell_round_trip() {
    let mut game = Game::new(3, 2, None);
    game.set_cell(1, 2, 32);
    assert_eq!(game.get_cell(1, 2), 32);
    assert_eq!(game.get_cell(0, 0), 0);
}

#[test]
fn non_square_boards_shift_correctly() {
    // One row of five cells: a left shift merges the leading pair only once.
    let mut game = Game::new(5, 1, Some(5));
    game.set_cell(0, 0, 2);
    game.set_cell(0, 2, 2);
    game.set_cell(0, 4, 4);
    game.shift_left();
    assert_eq!(board_of(&game), vec![4, 4, 0, 0, 0]);
    assert_eq!(game.points, 4);
}

#[test]
fn cells_stay_empty_or_powers_of_two() {
    let mut game = Game::from_seed(13);
    game.add_random_tile();
    game.add_random_tile();
    game.shift_left();
    game.add_random_tile();
    game.shift_bottom();
    game.add_random_tile();
    game.shift_right();
    game.shift_top();
    for v in board_of(&game) {
        assert!(v == 0 || (v >= 2 && v.is_power_of_two()));
    }
}
