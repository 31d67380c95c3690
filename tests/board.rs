use minesweeper::board::{chain_dig, check_win, dig_to_fixpoint, reset_checked};
use minesweeper::game::{handle_input, navigable, render_board, take_turn, Input};
use minesweeper::generator::{board_from_layout, new_game, place_mines, BoardError};
use minesweeper::geometry::get_neighbor_indexes;
use minesweeper::tile::{GameState, Glyph, GlyphClass, Kind, State, Tile, Visibility};

fn center_mine_board() -> Vec<Tile> {
    board_from_layout(&place_mines(3, 3, &vec![4]))
}

fn visibilities(game: &[Tile]) -> Vec<Visibility> {
    game.iter().map(|t| t.state.visibility).collect()
}

fn mine_count(game: &[Tile]) -> usize {
    game.iter().filter(|t| t.state.kind == Kind::Mine).count()
}

fn counts_consistent(game: &[Tile], h: usize, w: usize) -> bool {
    (0..game.len()).all(|i| match game[i].state.kind {
        Kind::Mine => true,
        Kind::Count(n) => {
            let around = get_neighbor_indexes(i, w, h)
                .iter()
                .filter(|&&j| game[j].state.kind == Kind::Mine)
                .count();
            n as usize == around
        }
    })
}

#[test]
fn neighbors_of_corner_and_center() {
    assert_eq!(get_neighbor_indexes(0, 3, 3), vec![3, 1, 4]);
    assert_eq!(get_neighbor_indexes(4, 3, 3), vec![1, 7, 3, 0, 6, 5, 2, 8]);
    assert_eq!(get_neighbor_indexes(8, 3, 3), vec![5, 7, 4]);
    assert_eq!(get_neighbor_indexes(5, 3, 3), vec![2, 8, 4, 1, 7]);
}

#[test]
fn neighbors_single_column_and_row() {
    assert_eq!(get_neighbor_indexes(1, 1, 3), vec![0, 2]);
    assert_eq!(get_neighbor_indexes(0, 1, 1), Vec::<usize>::new());
    assert_eq!(get_neighbor_indexes(2, 4, 1), vec![1, 3]);
}

#[test]
fn neighbors_are_symmetric() {
    let (w, h) = (5, 4);
    for i in 0..w * h {
        for j in get_neighbor_indexes(i, w, h) {
            assert!(j < w * h);
            assert!(get_neighbor_indexes(j, w, h).contains(&i));
        }
    }
}

#[test]
fn center_mine_counts() {
    let map = place_mines(3, 3, &vec![4]);
    assert_eq!(map[4], None);
    for i in [0, 1, 2, 3, 5, 6, 7, 8] {
        assert_eq!(map[i], Some(1));
    }
}

#[test]
fn two_mine_counts() {
    let map = place_mines(3, 4, &vec![0, 5]);
    assert_eq!(
        map,
        vec![None, Some(2), Some(1), Some(0), Some(2), None, Some(1), Some(0), Some(1), Some(1), Some(1), Some(0)]
    );
}

#[test]
fn new_game_counts_and_mines() {
    let game = new_game(15, 15, 45).unwrap();
    assert_eq!(game.len(), 225);
    assert_eq!(mine_count(&game), 45);
    assert!(counts_consistent(&game, 15, 15));
    assert!(game.iter().all(|t| t.state.visibility == Visibility::Hidden && !t.checked));
}

#[test]
fn new_game_without_mines() {
    let game = new_game(2, 3, 0).unwrap();
    assert!(game.iter().all(|t| t.state.kind == Kind::Count(0)));
}

#[test]
fn new_game_most_mines() {
    let game = new_game(3, 3, 8).unwrap();
    assert_eq!(mine_count(&game), 8);
    assert!(counts_consistent(&game, 3, 3));
}

#[test]
fn new_game_errors() {
    assert_eq!(new_game(0, 3, 0).unwrap_err(), BoardError::EmptyGrid);
    assert_eq!(new_game(3, 0, 0).unwrap_err(), BoardError::EmptyGrid);
    assert_eq!(new_game(3, 3, 9).unwrap_err(), BoardError::TooManyMines);
    assert_eq!(new_game(3, 3, 100).unwrap_err(), BoardError::TooManyMines);
    assert_eq!(new_game(usize::MAX, 2, 0).unwrap_err(), BoardError::GridTooLarge);
}

#[test]
fn click_corner_reveals_only_it() {
    let mut game = center_mine_board();
    let mut index = 0;
    let r = take_turn(&mut game, &mut index, 3, 3, Input::LeftClick);
    assert_eq!(r, GameState::Playing);
    let v = visibilities(&game);
    assert_eq!(v[0], Visibility::Revealed);
    assert!(v[1..].iter().all(|&x| x == Visibility::Hidden));
}

#[test]
fn click_on_empty_board_cascades_and_wins() {
    let mut game = board_from_layout(&place_mines(3, 3, &vec![]));
    let mut index = 0;
    let r = take_turn(&mut game, &mut index, 3, 3, Input::LeftClick);
    assert!(game.iter().all(|t| t.state.visibility == Visibility::Revealed));
    assert_eq!(r, GameState::Won);
}

#[test]
fn cascade_stops_at_numbered_border() {
    // One mine in the top-left corner of a 4x4 grid.
    let mut game = board_from_layout(&place_mines(4, 4, &vec![0]));
    let mut index = 15;
    let r = take_turn(&mut game, &mut index, 4, 4, Input::LeftClick);
    assert_eq!(r, GameState::Won);
    assert_eq!(game[0].state.visibility, Visibility::Hidden);
    assert!(game[1..].iter().all(|t| t.state.visibility == Visibility::Revealed));
}

#[test]
fn cascade_blocked_by_wall_of_mines() {
    // Column 1 of a 3x3 grid is all mines: the right column is unreachable.
    let mut game = board_from_layout(&place_mines(3, 3, &vec![1, 4, 7]));
    let mut index = 0;
    take_turn(&mut game, &mut index, 3, 3, Input::LeftClick);
    let v = visibilities(&game);
    assert_eq!(v[0], Visibility::Revealed);
    assert_eq!(v[3], Visibility::Hidden);
    assert_eq!(v[2], Visibility::Hidden);
}

#[test]
fn flood_reveals_zero_region_and_border() {
    // 1x5 strip with a mine at the right end: counts 0 0 0 1 M.
    let mut game = board_from_layout(&place_mines(1, 5, &vec![4]));
    let mut index = 0;
    let r = take_turn(&mut game, &mut index, 5, 1, Input::LeftClick);
    assert_eq!(r, GameState::Won);
    let v = visibilities(&game);
    assert_eq!(
        v,
        vec![Visibility::Revealed, Visibility::Revealed, Visibility::Revealed, Visibility::Revealed, Visibility::Hidden]
    );
}

#[test]
fn flag_mine_then_reveal_rest_wins() {
    let mut game = center_mine_board();
    let mut index = 4;
    assert_eq!(take_turn(&mut game, &mut index, 3, 3, Input::RightClick), GameState::Playing);
    assert_eq!(game[4].state.visibility, Visibility::Flagged);
    let mut last = GameState::Playing;
    for i in [0, 1, 2, 3, 5, 6, 7, 8] {
        index = i;
        last = take_turn(&mut game, &mut index, 3, 3, Input::LeftClick);
    }
    assert_eq!(last, GameState::Won);
    assert_eq!(check_win(&game), GameState::Won);
    // Unflagged and left covered, the mine still counts as won.
    game[4].state.right_click();
    assert_eq!(game[4].state.visibility, Visibility::Hidden);
    assert_eq!(check_win(&game), GameState::Won);
}

#[test]
fn left_click_on_flagged_mine_is_noop() {
    let mut game = center_mine_board();
    let mut index = 4;
    take_turn(&mut game, &mut index, 3, 3, Input::RightClick);
    let before = game.clone();
    let r = handle_input(&mut game, &mut index, 3, 3, Input::LeftClick);
    assert_eq!(r, GameState::Playing);
    assert_eq!(game, before);
}

#[test]
fn left_click_on_hidden_mine_loses() {
    let mut game = center_mine_board();
    let mut index = 4;
    let r = take_turn(&mut game, &mut index, 3, 3, Input::LeftClick);
    assert_eq!(r, GameState::Lost);
    assert_eq!(game[4].state.visibility, Visibility::Revealed);
}

#[test]
fn wrong_flag_blocks_win() {
    let mut game = center_mine_board();
    for i in [0, 1, 2, 3, 5, 6, 7] {
        game[i].state.visibility = Visibility::Revealed;
    }
    game[8].state.visibility = Visibility::Flagged;
    assert_eq!(check_win(&game), GameState::Playing);
    game[8].state.visibility = Visibility::Revealed;
    assert_eq!(check_win(&game), GameState::Won);
}

#[test]
fn zero_mine_board_without_clicks_is_not_won() {
    let game = board_from_layout(&place_mines(2, 2, &vec![]));
    assert_eq!(check_win(&game), GameState::Playing);
}

#[test]
fn chain_dig_fixpoint_is_stable() {
    let mut game = board_from_layout(&place_mines(3, 3, &vec![]));
    game[0].state.visibility = Visibility::Revealed;
    let mut passes = 0;
    while !chain_dig(&mut game, 3, 3) {
        passes += 1;
        assert!(passes <= 9);
    }
    let settled = game.clone();
    assert!(chain_dig(&mut game, 3, 3));
    assert_eq!(game, settled);
    assert!(game.iter().all(|t| t.state.visibility == Visibility::Revealed));
}

#[test]
fn chain_dig_marks_and_reset_clears() {
    let mut game = board_from_layout(&place_mines(1, 3, &vec![]));
    game[0].state.visibility = Visibility::Revealed;
    assert!(!chain_dig(&mut game, 1, 3));
    assert!(game[1].checked);
    assert_eq!(game[1].state.visibility, Visibility::Revealed);
    dig_to_fixpoint(&mut game, 1, 3);
    assert!(game.iter().all(|t| t.state.visibility == Visibility::Revealed));
    reset_checked(&mut game);
    assert!(game.iter().all(|t| !t.checked));
}

#[test]
fn chain_dig_skips_flags() {
    let mut game = board_from_layout(&place_mines(1, 3, &vec![]));
    game[0].state.visibility = Visibility::Revealed;
    game[1].state.visibility = Visibility::Flagged;
    dig_to_fixpoint(&mut game, 1, 3);
    assert_eq!(game[1].state.visibility, Visibility::Flagged);
    assert_eq!(game[2].state.visibility, Visibility::Hidden);
}

#[test]
fn moves_and_edges() {
    let mut game = center_mine_board();
    let mut index = 0;
    assert!(!navigable(0, 3, 3, Input::Up));
    assert!(!navigable(0, 3, 3, Input::Left));
    assert!(navigable(0, 3, 3, Input::Down));
    assert!(navigable(0, 3, 3, Input::Right));
    assert!(!navigable(8, 3, 3, Input::Down));
    assert!(!navigable(8, 3, 3, Input::Right));
    assert!(!navigable(5, 3, 3, Input::Right));
    handle_input(&mut game, &mut index, 3, 3, Input::Up);
    assert_eq!(index, 0);
    handle_input(&mut game, &mut index, 3, 3, Input::Right);
    assert_eq!(index, 1);
    handle_input(&mut game, &mut index, 3, 3, Input::Down);
    assert_eq!(index, 4);
    handle_input(&mut game, &mut index, 3, 3, Input::Left);
    assert_eq!(index, 3);
    handle_input(&mut game, &mut index, 3, 3, Input::Left);
    assert_eq!(index, 3);
    handle_input(&mut game, &mut index, 3, 3, Input::Down);
    handle_input(&mut game, &mut index, 3, 3, Input::Down);
    assert_eq!(index, 6);
}

#[test]
fn quit_is_not_a_loss() {
    let mut game = center_mine_board();
    let mut index = 2;
    assert_eq!(take_turn(&mut game, &mut index, 3, 3, Input::Quit), GameState::Quit);
    assert!(game.iter().all(|t| t.state.visibility == Visibility::Hidden));
}

#[test]
fn right_click_toggles() {
    let mut s = State::new(Kind::Count(2));
    s.right_click();
    assert_eq!(s.visibility, Visibility::Flagged);
    s.right_click();
    assert_eq!(s.visibility, Visibility::Hidden);
    assert_eq!(s.left_click(), GameState::Playing);
    s.right_click();
    assert_eq!(s.visibility, Visibility::Revealed);
    assert_eq!(s.kind, Kind::Count(2));
}

#[test]
fn render_classes() {
    let g = |kind, visibility, selected, forced| State { kind, visibility }.render(selected, forced);
    let c = |class| Glyph { class, selected: false };
    assert_eq!(g(Kind::Count(0), Visibility::Revealed, false, false), c(GlyphClass::Blank));
    assert_eq!(g(Kind::Count(3), Visibility::Revealed, false, false), c(GlyphClass::Digit(3)));
    assert_eq!(g(Kind::Mine, Visibility::Revealed, false, false), c(GlyphClass::FatalMine));
    assert_eq!(g(Kind::Count(2), Visibility::Flagged, false, true), c(GlyphClass::Digit(2)));
    assert_eq!(g(Kind::Count(0), Visibility::Flagged, false, true), c(GlyphClass::Blank));
    assert_eq!(g(Kind::Count(2), Visibility::Flagged, false, false), c(GlyphClass::Flag));
    assert_eq!(g(Kind::Mine, Visibility::Flagged, false, true), c(GlyphClass::Flag));
    assert_eq!(g(Kind::Mine, Visibility::Hidden, false, true), c(GlyphClass::Mine));
    assert_eq!(g(Kind::Count(0), Visibility::Hidden, false, true), c(GlyphClass::Blank));
    assert_eq!(g(Kind::Count(5), Visibility::Hidden, false, true), c(GlyphClass::Digit(5)));
    assert_eq!(g(Kind::Mine, Visibility::Hidden, false, false), c(GlyphClass::Covered));
    assert_eq!(g(Kind::Count(1), Visibility::Hidden, false, false), c(GlyphClass::Covered));
    assert_eq!(
        g(Kind::Count(1), Visibility::Hidden, true, false),
        Glyph { class: GlyphClass::Covered, selected: true }
    );
}

#[test]
fn render_board_marks_selection() {
    let game = center_mine_board();
    let glyphs = render_board(&game, 4, true);
    assert_eq!(glyphs.len(), 9);
    assert_eq!(glyphs[4], Glyph { class: GlyphClass::Mine, selected: true });
    assert_eq!(glyphs[0], Glyph { class: GlyphClass::Digit(1), selected: false });
}
