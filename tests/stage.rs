use enimdnal::minefield::{Board, Cover, Params};
use enimdnal::random::{choose_multiple, sample_with_draws};
use enimdnal::state::defeat::{delay_for, distance, explosion_schedule, mine_positions, EXPLOSION_RING_DELAY};
use enimdnal::state::{transition_defeat, transition_victory, Input, Stage, State, TILE_SIZE};
use nanorand::WyRand;

fn idle() -> Input {
    Input {
        pointer_x: -1,
        pointer_y: -1,
        primary: false,
        secondary: false,
        pause: false,
        confirm: false,
        reset: false,
        delta_milisec: 16,
    }
}

fn click(x: usize, y: usize) -> Input {
    Input {
        pointer_x: x as i64 * TILE_SIZE + TILE_SIZE / 2,
        pointer_y: y as i64 * TILE_SIZE + TILE_SIZE / 2,
        primary: true,
        ..idle()
    }
}

#[test]
fn pointer_maps_to_tiles() {
    let state = State::new();
    assert_eq!(state.mouse_to_board_coords(0, 0), Some((0, 0)));
    assert_eq!(state.mouse_to_board_coords(39, 39), Some((0, 0)));
    assert_eq!(state.mouse_to_board_coords(40, 0), Some((1, 0)));
    assert_eq!(state.mouse_to_board_coords(1199, 639), Some((29, 15)));
    assert_eq!(state.mouse_to_board_coords(1200, 0), None);
    assert_eq!(state.mouse_to_board_coords(0, 640), None);
    assert_eq!(state.mouse_to_board_coords(-1, 5), None);
    assert_eq!(state.mouse_to_board_coords(5, -40), None);
}

#[test]
fn chebyshev_distance() {
    assert_eq!(distance((5, 5), (5, 5)), 0);
    assert_eq!(distance((5, 5), (4, 6)), 1);
    assert_eq!(distance((5, 5), (8, 4)), 3);
    assert_eq!(distance((0, 7), (2, 0)), 7);
}

#[test]
fn explosion_rings_around_a_chord_trigger() {
    // the trigger tile itself holds no mine: two mines at distance 1, one at 3
    let mines = vec![(8, 5), (4, 5), (6, 6)];
    let ex = explosion_schedule((5, 5), &mines);
    assert_eq!(ex.len(), 3);
    assert_eq!(distance((5, 5), ex[0].pos), 1);
    assert_eq!(distance((5, 5), ex[1].pos), 1);
    assert_eq!(ex[0].delay, 0);
    assert_eq!(ex[1].delay, 0);
    assert_eq!(ex[2].pos, (8, 5));
    assert_eq!(ex[2].delay, 2 * EXPLOSION_RING_DELAY);
    assert_eq!(ex[2].delay, 160);
}

#[test]
fn explosion_rings_around_a_mine_trigger() {
    let mines = vec![(8, 5), (5, 5), (6, 6), (4, 4)];
    let ex = explosion_schedule((5, 5), &mines);
    let delays: Vec<u32> = ex.iter().map(|e| e.delay).collect();
    assert_eq!(ex[0].pos, (5, 5));
    assert_eq!(delays, vec![0, 80, 80, 240]);
    assert_eq!(ex[3].pos, (8, 5));
}

#[test]
fn ring_delay_saturates() {
    assert_eq!(delay_for(0), 0);
    assert_eq!(delay_for(3), 240);
    assert_eq!(delay_for(usize::MAX), u32::MAX);
}

#[test]
fn explosion_schedule_of_no_mines_is_empty() {
    assert!(explosion_schedule((0, 0), &vec![]).is_empty());
}

#[test]
fn reservoir_keeps_all_when_too_few() {
    let mut rng = WyRand::new_seed(1);
    assert_eq!(choose_multiple(&vec![4, 7, 9], &mut rng, 5), vec![4, 7, 9]);
    assert_eq!(choose_multiple(&vec![4, 7, 9], &mut rng, 3), vec![4, 7, 9]);
}

#[test]
fn reservoir_follows_the_draws() {
    let candidates = vec![10, 11, 12, 13, 14];
    assert_eq!(sample_with_draws(&candidates, &vec![0, 3, 1], 2), vec![12, 14]);
    assert_eq!(sample_with_draws(&candidates, &vec![2, 3, 4], 2), vec![10, 11]);
    assert_eq!(sample_with_draws(&candidates, &vec![], 5), candidates);
    assert_eq!(sample_with_draws(&candidates, &vec![], 7), candidates);
    assert_eq!(sample_with_draws(&candidates, &vec![0, 0, 0, 0, 0], 0), Vec::<usize>::new());
}

#[test]
fn reservoir_with_exactly_n_candidates_keeps_them() {
    let mut rng = WyRand::new_seed(4);
    assert_eq!(choose_multiple(&vec![3, 1, 2], &mut rng, 3), vec![3, 1, 2]);
}

#[test]
fn reservoir_picks_distinct_candidates() {
    let candidates: Vec<usize> = (0..100).collect();
    let mut saw_late = false;
    for seed in 0..10u64 {
        let mut rng = WyRand::new_seed(seed);
        let mut r = choose_multiple(&candidates, &mut rng, 10);
        assert_eq!(r.len(), 10);
        saw_late |= r.iter().any(|&c| c >= 10);
        r.sort();
        r.dedup();
        assert_eq!(r.len(), 10);
        assert!(r.iter().all(|&c| c < 100));
    }
    assert!(saw_late);
}

#[test]
fn pause_and_resume() {
    let mut state = State::new();
    state.update(&Input { pause: true, ..idle() });
    assert!(matches!(state.stage(), Stage::Paused));
    state.update(&idle());
    assert!(matches!(state.stage(), Stage::Paused));
    state.update(&Input { confirm: true, ..idle() });
    assert!(matches!(state.stage(), Stage::Playing));
}

#[test]
fn timer_runs_only_after_the_first_click() {
    let mut state = State::new();
    state.update(&idle());
    assert_eq!(state.run_timer_milisec(), 0);
    state.update(&click(10, 8));
    assert!(state.board().is_initialized());
    assert_eq!(state.run_timer_milisec(), 0);
    state.update(&idle());
    assert_eq!(state.run_timer_milisec(), 16);
    assert_eq!(state.hover_index(), None);
    state.update(&Input { pointer_x: 45, pointer_y: 85, ..idle() });
    assert_eq!(state.hover_index(), Some((1, 2)));
    assert_eq!(state.run_timer_milisec(), 32);
}

#[test]
fn secondary_click_flags_through_the_stage() {
    let mut state = State::new();
    state.update(&Input { primary: false, secondary: true, ..click(3, 3) });
    assert!(state.board().tile(3, 3).is_flag());
    assert_eq!(state.board().flags(), 1);
}

fn find_mine(board: &Board) -> (usize, usize) {
    let (w, h) = board.dims();
    for y in 0..h {
        for x in 0..w {
            if board.tile(x, y).is_mine() {
                return (x, y);
            }
        }
    }
    panic!("no mine");
}

#[test]
fn defeat_schedules_every_mine_and_reset_restarts() {
    let mut state = State::with_board(Board::beginner());
    state.update(&click(4, 4));
    let (mx, my) = find_mine(state.board());
    state.update(&click(mx, my));
    assert!(state.board().is_defeat());
    let Stage::Defeat(ds) = state.stage() else {
        panic!("not defeated");
    };
    assert_eq!(ds.elapsed_milisec, 0);
    assert_eq!(ds.explosions.len(), 10);
    assert_eq!(ds.explosions[0].pos, (mx, my));
    assert_eq!(ds.explosions[0].delay, 0);
    for w in ds.explosions.windows(2) {
        assert!(distance((mx, my), w[0].pos) <= distance((mx, my), w[1].pos));
    }
    for e in &ds.explosions {
        assert_eq!(e.delay as usize, distance((mx, my), e.pos) * 80);
    }
    for e in &ds.explosions {
        assert!(state.board().tile(e.pos.0, e.pos.1).is_mine());
    }
    state.update(&idle());
    let Stage::Defeat(ds) = state.stage() else {
        panic!("not defeated");
    };
    assert_eq!(ds.elapsed_milisec, 16);
    assert_eq!(state.hover_index(), None);
    state.update(&Input { reset: true, ..idle() });
    assert!(matches!(state.stage(), Stage::Playing));
    assert!(!state.board().is_initialized());
    assert!(!state.board().is_defeat());
    assert_eq!(state.run_timer_milisec(), 0);
    assert_eq!(state.board().covered(), 64);
}

#[test]
fn victory_lists_the_mines() {
    let mut state = State::with_board(Board::beginner());
    state.update(&click(4, 4));
    while !matches!(state.stage(), Stage::Victory(_)) {
        let board = state.board();
        let (x, y) = (0..64)
            .map(|i| (i % 8, i / 8))
            .find(|&(x, y)| !board.tile(x, y).is_mine() && board.tile(x, y).cover() != Cover::Down)
            .unwrap();
        state.update(&click(x, y));
    }
    let Stage::Victory(vs) = state.stage() else {
        panic!("not won");
    };
    assert_eq!(vs.mines.len(), 10);
    assert_eq!(vs.mines, mine_positions(state.board()));
    assert!(state.board().is_victory());
    state.update(&Input { reset: true, ..idle() });
    assert!(matches!(state.stage(), Stage::Playing));
}

#[test]
fn defeat_and_victory_records_from_a_board() {
    let mut board = Board::new(Params { width: 4, height: 4, mines: 2 }).unwrap();
    let mut rng = WyRand::new_seed(21);
    board.handle_primary_action_with(0, 0, &mut rng);
    let mines = mine_positions(&board);
    assert_eq!(mines.len(), 2);
    assert!(mines[0].1 < mines[1].1 || (mines[0].1 == mines[1].1 && mines[0].0 < mines[1].0));
    let ds = transition_defeat(&board, (0, 0));
    assert_eq!(ds.explosions.len(), 2);
    assert_eq!(ds.elapsed_milisec, 0);
    let vs = transition_victory(&board);
    assert_eq!(vs.mines, mines);
}
