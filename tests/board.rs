use enimdnal::minefield::{Board, BoardError, Cover, Mark, Object, Params, Tile};
use nanorand::WyRand;

fn neighbors(board: &Board, x: usize, y: usize) -> Vec<(usize, usize)> {
    let (w, h) = board.dims();
    let mut r = Vec::new();
    for dx in [-1i64, 0, 1] {
        for dy in [-1i64, 0, 1] {
            if dx == 0 && dy == 0 {
                continue;
            }
            let nx = x as i64 + dx;
            let ny = y as i64 + dy;
            if nx >= 0 && ny >= 0 && (nx as usize) < w && (ny as usize) < h {
                r.push((nx as usize, ny as usize));
            }
        }
    }
    r
}

fn all_tiles(board: &Board) -> Vec<Tile> {
    let (w, h) = board.dims();
    let mut r = Vec::new();
    for y in 0..h {
        for x in 0..w {
            r.push(board.tile(x, y));
        }
    }
    r
}

fn mine_count(board: &Board) -> usize {
    all_tiles(board).iter().filter(|t| t.is_mine()).count()
}

fn up_count(board: &Board) -> usize {
    all_tiles(board).iter().filter(|t| matches!(t.cover(), Cover::Up(_))).count()
}

fn opened(seed: u64) -> Board {
    let mut board = Board::beginner();
    let mut rng = WyRand::new_seed(seed);
    board.handle_primary_action_with(4, 4, &mut rng);
    board
}

#[test]
fn new_board_is_pristine() {
    let board = Board::new(Params { width: 5, height: 4, mines: 3 }).unwrap();
    assert!(!board.is_initialized());
    assert!(!board.is_defeat());
    assert!(!board.is_victory());
    assert_eq!(board.dims(), (5, 4));
    assert_eq!(board.mines(), 3);
    assert_eq!(board.flags(), 0);
    assert_eq!(board.covered(), 20);
    for y in 0..4 {
        for x in 0..5 {
            let t = board.tile(x, y);
            assert_eq!(t.cover(), Cover::Up(Mark::Unmarked));
            assert_eq!(t.object(), Object::Blank);
            assert!(t.is_uncoverable());
            assert!(t.is_blank());
            assert!(!t.is_flag());
        }
    }
}

#[test]
fn new_rejects_invalid_params() {
    assert_eq!(Board::new(Params { width: 3, height: 3, mines: 9 }).unwrap_err(), BoardError::InvalidParams);
    assert_eq!(Board::new(Params { width: 3, height: 3, mines: 12 }).unwrap_err(), BoardError::InvalidParams);
    assert_eq!(Board::new(Params { width: 0, height: 3, mines: 0 }).unwrap_err(), BoardError::InvalidParams);
    assert_eq!(
        Board::new(Params { width: usize::MAX, height: 2, mines: 1 }).unwrap_err(),
        BoardError::InvalidParams
    );
    assert!(Board::new(Params { width: 3, height: 3, mines: 8 }).is_ok());
    assert!(Board::new(Params { width: 1, height: 1, mines: 0 }).is_ok());
}

#[test]
fn presets() {
    let b = Board::beginner();
    assert_eq!((b.dims(), b.mines()), ((8, 8), 10));
    let i = Board::intermediate();
    assert_eq!((i.dims(), i.mines()), ((16, 16), 40));
    let e = Board::expert();
    assert_eq!((e.dims(), e.mines()), ((30, 16), 99));
    assert_eq!(Params::expert(), Params { width: 30, height: 16, mines: 99 });
}

#[test]
fn first_click_places_mines_away_from_the_opening() {
    for seed in 0..20u64 {
        let board = opened(seed);
        assert!(board.is_initialized());
        assert_eq!(mine_count(&board), 10);
        for y in 3..=5 {
            for x in 3..=5 {
                assert!(!board.tile(x, y).is_mine());
            }
        }
    }
}

#[test]
fn hints_count_adjacent_mines() {
    for seed in 0..20u64 {
        let board = opened(seed);
        for y in 0..8 {
            for x in 0..8 {
                let t = board.tile(x, y);
                if t.is_mine() {
                    continue;
                }
                let n = neighbors(&board, x, y).iter().filter(|&&(a, b)| board.tile(a, b).is_mine()).count();
                if n == 0 {
                    assert_eq!(t.object(), Object::Blank);
                    assert!(!t.is_hint());
                } else {
                    assert_eq!(t.object(), Object::Hint(n as u8));
                    assert!(t.is_hint());
                }
            }
        }
    }
}

#[test]
fn seeded_placement_is_reproducible() {
    let a = opened(7);
    let b = opened(7);
    let ma: Vec<bool> = all_tiles(&a).iter().map(|t| t.is_mine()).collect();
    let mb: Vec<bool> = all_tiles(&b).iter().map(|t| t.is_mine()).collect();
    assert_eq!(ma, mb);
}

#[test]
fn beginner_first_click_at_center_scenario() {
    let board = opened(2024);
    let mut inside = 0;
    let mut outside = 0;
    for y in 0..8 {
        for x in 0..8 {
            if board.tile(x, y).is_mine() {
                if (3..=5).contains(&x) && (3..=5).contains(&y) {
                    inside += 1;
                } else {
                    outside += 1;
                }
            }
        }
    }
    assert_eq!(inside, 0);
    assert_eq!(outside, 10);
}

#[test]
fn flood_uncovers_the_blank_region_and_its_border() {
    for seed in 0..20u64 {
        let board = opened(seed);
        // the opening has no adjacent mine, so it is blank and floods
        assert_eq!(board.tile(4, 4).object(), Object::Blank);
        assert_eq!(board.tile(4, 4).cover(), Cover::Down);
        for y in 0..8 {
            for x in 0..8 {
                let t = board.tile(x, y);
                if t.cover() != Cover::Down {
                    continue;
                }
                assert!(!t.is_mine());
                if t.is_blank() {
                    for (a, b) in neighbors(&board, x, y) {
                        assert_eq!(board.tile(a, b).cover(), Cover::Down);
                    }
                }
                if (x, y) != (4, 4) {
                    let supported = neighbors(&board, x, y)
                        .iter()
                        .any(|&(a, b)| board.tile(a, b).cover() == Cover::Down && board.tile(a, b).is_blank());
                    assert!(supported);
                }
            }
        }
    }
}

#[test]
fn covered_count_tracks_uncovered_tiles() {
    let mut board = Board::beginner();
    let mut rng = WyRand::new_seed(3);
    let before = board.covered();
    assert_eq!(before, 64);
    board.handle_primary_action_with(4, 4, &mut rng);
    let up = up_count(&board);
    assert_eq!(board.covered(), up);
    assert!(board.covered() < before);
    assert_eq!(board.covered() + (64 - up), 64);
}

#[test]
fn victory_when_every_safe_tile_is_uncovered() {
    let mut board = opened(11);
    loop {
        let mut acted = false;
        for y in 0..8 {
            for x in 0..8 {
                let t = board.tile(x, y);
                if !t.is_mine() && t.cover() != Cover::Down {
                    board.handle_primary_action(x, y);
                    acted = true;
                }
            }
        }
        if !acted {
            break;
        }
    }
    assert!(board.is_victory());
    assert!(!board.is_defeat());
    assert_eq!(board.covered(), 10);
    assert!(board.covered() >= board.mines());
    assert_eq!(board.flags(), 0);
}

#[test]
fn uncovering_a_mine_loses_and_freezes_the_board() {
    let mut board = opened(5);
    let (mx, my) = (0..64).map(|i| (i % 8, i / 8)).find(|&(x, y)| board.tile(x, y).is_mine()).unwrap();
    let covered = board.covered();
    board.handle_primary_action(mx, my);
    assert!(board.is_defeat());
    assert_eq!(board.tile(mx, my).cover(), Cover::Down);
    assert_eq!(board.covered(), covered - 1);
    let snapshot = all_tiles(&board);
    let (sx, sy) = (0..64).map(|i| (i % 8, i / 8)).find(|&(x, y)| board.tile(x, y).is_uncoverable()).unwrap();
    board.handle_primary_action(sx, sy);
    board.handle_secondary_action(sx, sy);
    assert_eq!(all_tiles(&board), snapshot);
    assert_eq!(board.covered(), covered - 1);
    assert_eq!(board.flags(), 0);
}

#[test]
fn secondary_action_cycles_marks() {
    let mut board = Board::beginner();
    assert_eq!(board.tile(2, 3).cover(), Cover::Up(Mark::Unmarked));
    board.handle_secondary_action(2, 3);
    assert_eq!(board.tile(2, 3).cover(), Cover::Up(Mark::Flag));
    assert!(board.tile(2, 3).is_flag());
    assert!(!board.tile(2, 3).is_uncoverable());
    assert_eq!(board.flags(), 1);
    board.handle_secondary_action(2, 3);
    assert_eq!(board.tile(2, 3).cover(), Cover::Up(Mark::Unsure));
    assert_eq!(board.flags(), 0);
    board.handle_secondary_action(2, 3);
    assert_eq!(board.tile(2, 3).cover(), Cover::Up(Mark::Unmarked));
    assert_eq!(board.flags(), 0);
}

#[test]
fn mark_cycle_order() {
    let mut m = Mark::Unmarked;
    m.cycle();
    assert_eq!(m, Mark::Flag);
    m.cycle();
    assert_eq!(m, Mark::Unsure);
    m.cycle();
    assert_eq!(m, Mark::Unmarked);
}

#[test]
fn secondary_action_ignores_uncovered_tiles() {
    let mut board = opened(9);
    board.handle_secondary_action(4, 4);
    assert_eq!(board.tile(4, 4).cover(), Cover::Down);
    assert_eq!(board.flags(), 0);
}

#[test]
fn flag_protects_from_uncovering() {
    let mut board = Board::beginner();
    board.handle_secondary_action(4, 4);
    let mut rng = WyRand::new_seed(1);
    board.handle_primary_action_with(4, 4, &mut rng);
    assert!(board.is_initialized());
    assert_eq!(board.tile(4, 4).cover(), Cover::Up(Mark::Flag));
    assert_eq!(board.covered(), 64);
    assert_eq!(board.flags(), 1);
}

fn hint_with_mines(board: &Board) -> Option<(usize, usize, u8)> {
    for y in 0..8 {
        for x in 0..8 {
            let t = board.tile(x, y);
            if let (Cover::Down, Object::Hint(n)) = (t.cover(), t.object()) {
                let covered_safe = neighbors(board, x, y)
                    .iter()
                    .any(|&(a, b)| board.tile(a, b).cover() != Cover::Down && !board.tile(a, b).is_mine());
                if covered_safe {
                    return Some((x, y, n));
                }
            }
        }
    }
    None
}

#[test]
fn chord_with_matching_flags_uncovers_the_rest() {
    for seed in 0..50u64 {
        let mut board = opened(seed);
        let Some((x, y, n)) = hint_with_mines(&board) else {
            continue;
        };
        let nbs = neighbors(&board, x, y);
        for &(a, b) in &nbs {
            if board.tile(a, b).is_mine() {
                board.handle_secondary_action(a, b);
            }
        }
        assert_eq!(nbs.iter().filter(|&&(a, b)| board.tile(a, b).is_flag()).count(), n as usize);
        board.handle_primary_action(x, y);
        assert!(!board.is_defeat());
        for &(a, b) in &nbs {
            let t = board.tile(a, b);
            assert!(t.cover() == Cover::Down || t.is_flag());
        }
        return;
    }
    panic!("no seed gave a hint next to a covered safe tile");
}

#[test]
fn chord_with_other_flag_count_does_nothing() {
    for seed in 0..50u64 {
        let mut board = opened(seed);
        let Some((x, y, _)) = hint_with_mines(&board) else {
            continue;
        };
        let before = all_tiles(&board);
        board.handle_primary_action(x, y);
        assert_eq!(all_tiles(&board), before);
        return;
    }
    panic!("no seed gave a hint next to a covered safe tile");
}

#[test]
fn chord_with_misplaced_flag_loses() {
    for seed in 0..50u64 {
        let mut board = opened(seed);
        let Some((x, y, n)) = hint_with_mines(&board) else {
            continue;
        };
        let nbs = neighbors(&board, x, y);
        let safe: Vec<(usize, usize)> =
            nbs.iter().copied().filter(|&(a, b)| board.tile(a, b).cover() != Cover::Down && !board.tile(a, b).is_mine()).collect();
        if safe.len() < n as usize {
            continue;
        }
        for &(a, b) in safe.iter().take(n as usize) {
            board.handle_secondary_action(a, b);
        }
        board.handle_primary_action(x, y);
        assert!(board.is_defeat());
        return;
    }
    panic!("no seed gave a hint with enough safe covered neighbours");
}

#[test]
fn reset_restores_the_new_board() {
    let mut board = opened(13);
    board.handle_secondary_action(0, 0);
    board.reset();
    let fresh = Board::beginner();
    assert_eq!(all_tiles(&board), all_tiles(&fresh));
    assert_eq!(board.covered(), fresh.covered());
    assert_eq!(board.flags(), 0);
    assert!(!board.is_initialized());
    assert!(!board.is_defeat());
    assert_eq!(board.dims(), fresh.dims());
    assert_eq!(board.mines(), fresh.mines());
}

#[test]
fn room_for_mines_around_the_first_click() {
    let board = Board::new(Params { width: 3, height: 3, mines: 1 }).unwrap();
    assert!(!board.has_room_for_mines(1, 1));
    assert!(board.has_room_for_mines(0, 0));
    let board = Board::new(Params { width: 4, height: 4, mines: 12 }).unwrap();
    assert!(board.has_room_for_mines(0, 0));
    assert!(!board.has_room_for_mines(0, 1));
}

#[test]
fn smallest_board_can_be_won_at_once() {
    let mut board = Board::new(Params { width: 1, height: 1, mines: 0 }).unwrap();
    board.handle_primary_action(0, 0);
    assert!(board.is_victory());
    assert!(!board.is_defeat());
}
