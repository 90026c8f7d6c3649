use game2048::{Direction, GameState};

fn board_of(cells: [u32; 16]) -> GameState {
    GameState::from_cells(cells.to_vec())
}

fn cells_of(g: &GameState) -> [u32; 16] {
    let mut out = [0u32; 16];
    for r in 0..4 {
        for c in 0..4 {
            out[4 * r + c] = g.cell(r, c);
        }
    }
    out
}

fn is_tile_or_empty(v: u32) -> bool {
    v == 0 || (v >= 2 && v & (v - 1) == 0)
}

#[test]
fn scenario_left_merges_pair() {
    // row [2,2,0,0], move Left: row becomes [4,0,0,0], score +4, moved.
    let mut g = board_of([2, 2, 0, 0, 0, 0, 0, 0, 0, 0, 0, 0, 0, 0, 0, 0]);
    let moved = g.apply_move(Direction::Left);
    assert!(moved);
    assert_eq!(cells_of(&g)[..4], [4, 0, 0, 0]);
    assert_eq!(g.score(), 4);
}

#[test]
fn scenario_right_no_op() {
    // row [0,0,0,2], move Right: unchanged, apply_move returns false.
    let mut g = board_of([0, 0, 0, 2, 0, 0, 0, 0, 0, 0, 0, 0, 0, 0, 0, 0]);
    let before = cells_of(&g);
    let moved = g.apply_move(Direction::Right);
    assert!(!moved);
    assert_eq!(cells_of(&g), before);
    assert_eq!(g.score(), 0);
}

#[test]
fn scenario_left_slides_then_merges() {
    // row [4,0,4,0], move Left: [8,0,0,0], score +8.
    let mut g = board_of([4, 0, 4, 0, 0, 0, 0, 0, 0, 0, 0, 0, 0, 0, 0, 0]);
    let moved = g.apply_move(Direction::Left);
    assert!(moved);
    assert_eq!(cells_of(&g)[..4], [8, 0, 0, 0]);
    assert_eq!(g.score(), 8);
}

#[test]
fn merge_once_per_pair_right() {
    // [2,2,2,2] toward Right merges as two pairs: [0,0,4,4], never [0,0,0,8].
    let mut g = board_of([2, 2, 2, 2, 0, 0, 0, 0, 0, 0, 0, 0, 0, 0, 0, 0]);
    let moved = g.apply_move(Direction::Right);
    assert!(moved);
    assert_eq!(cells_of(&g)[..4], [0, 0, 4, 4]);
    assert_eq!(g.score(), 8);
}

#[test]
fn merge_once_per_pair_left() {
    let mut g = board_of([2, 2, 2, 2, 0, 0, 0, 0, 0, 0, 0, 0, 0, 0, 0, 0]);
    let moved = g.apply_move(Direction::Left);
    assert!(moved);
    assert_eq!(cells_of(&g)[..4], [4, 4, 0, 0]);
    assert_eq!(g.score(), 8);
}

#[test]
fn merged_tile_does_not_merge_again() {
    // A tile made by a merge absorbs nothing more this move: the 2s merge
    // to 4, and the incoming 4 settles beside it instead of cascading.
    let mut g = board_of([2, 2, 4, 0, 0, 0, 0, 0, 0, 0, 0, 0, 0, 0, 0, 0]);
    let moved = g.apply_move(Direction::Left);
    assert!(moved);
    assert_eq!(cells_of(&g)[..4], [4, 4, 0, 0]);
    assert_eq!(g.score(), 4);

    // Likewise with a longer row: [2,2,4,8] packs to [4,4,8,0], one merge.
    let mut g = board_of([2, 2, 4, 8, 0, 0, 0, 0, 0, 0, 0, 0, 0, 0, 0, 0]);
    let moved = g.apply_move(Direction::Left);
    assert!(moved);
    assert_eq!(cells_of(&g)[..4], [4, 4, 8, 0]);
    assert_eq!(g.score(), 4);
}

#[test]
fn three_equal_tiles_merge_one_pair() {
    // [4,4,4,0] toward Left: one merged pair and one survivor, [8,4,0,0].
    let mut g = board_of([4, 4, 4, 0, 0, 0, 0, 0, 0, 0, 0, 0, 0, 0, 0, 0]);
    let moved = g.apply_move(Direction::Left);
    assert!(moved);
    assert_eq!(cells_of(&g)[..4], [8, 4, 0, 0]);
    assert_eq!(g.score(), 8);
}

#[test]
fn moves_work_on_columns() {
    // Column 1 holds [2,0,2,8] top to bottom; Up merges the 2s and the 8
    // settles below the merged 4.
    let mut g = board_of([0, 2, 0, 0, 0, 0, 0, 0, 0, 2, 0, 0, 0, 8, 0, 0]);
    let moved = g.apply_move(Direction::Up);
    assert!(moved);
    assert_eq!(cells_of(&g), [0, 4, 0, 0, 0, 8, 0, 0, 0, 0, 0, 0, 0, 0, 0, 0]);
    assert_eq!(g.score(), 4);

    // Down slides both to the bottom; nothing merges.
    let moved = g.apply_move(Direction::Down);
    assert!(moved);
    assert_eq!(cells_of(&g), [0, 0, 0, 0, 0, 0, 0, 0, 0, 4, 0, 0, 0, 8, 0, 0]);
    assert_eq!(g.score(), 4);
}

#[test]
fn no_op_keeps_board_identical() {
    // A packed checkerboard with no equal neighbours: every move is a no-op.
    let start = [2, 4, 2, 4, 4, 2, 4, 2, 2, 4, 2, 4, 4, 2, 4, 2];
    for dir in [Direction::Left, Direction::Right, Direction::Up, Direction::Down] {
        let mut g = board_of(start);
        let moved = g.apply_move(dir);
        assert!(!moved);
        assert_eq!(cells_of(&g), start);
        assert_eq!(g.score(), 0);
    }
}

#[test]
fn spawn_on_full_board_changes_nothing() {
    let start = [2, 4, 2, 4, 4, 2, 4, 2, 2, 4, 2, 4, 4, 2, 4, 2];
    let mut g = board_of(start);
    g.spawn_tile();
    assert_eq!(cells_of(&g), start);
    assert_eq!(g.score(), 0);
}

#[test]
fn spawn_on_empty_board_fills_one_cell() {
    let mut g = board_of([0; 16]);
    g.spawn_tile();
    let cells = cells_of(&g);
    let filled: Vec<u32> = cells.iter().copied().filter(|&v| v != 0).collect();
    assert_eq!(filled.len(), 1);
    assert!(filled[0] == 2 || filled[0] == 4);
    assert_eq!(g.score(), 0);
}

#[test]
fn spawn_value_frequency_near_one_in_ten() {
    // Over 1000 spawns on fresh empty boards, the 4 should appear with
    // frequency near 10%.
    let mut fours = 0;
    for _ in 0..1000 {
        let mut g = board_of([0; 16]);
        g.spawn_tile();
        let v: u32 = cells_of(&g).iter().sum();
        assert!(v == 2 || v == 4);
        if v == 4 {
            fours += 1;
        }
    }
    assert!((40..=200).contains(&fours), "fours = {}", fours);
}

#[test]
fn spawn_reaches_the_single_empty_cell() {
    // With one empty cell the spawn has no choice where to land.
    let mut start = [2, 4, 2, 4, 4, 2, 4, 2, 2, 4, 2, 4, 4, 2, 4, 2];
    start[9] = 0;
    let mut g = board_of(start);
    g.spawn_tile();
    let cells = cells_of(&g);
    assert!(cells[9] == 2 || cells[9] == 4);
    for i in 0..16 {
        if i != 9 {
            assert_eq!(cells[i], start[i]);
        }
    }
}

#[test]
fn place_tile_is_deterministic() {
    let mut g = board_of([0; 16]);
    g.place_tile(5, false);
    let cells = cells_of(&g);
    assert_eq!(cells[5], 2);
    assert_eq!(cells.iter().filter(|&&v| v != 0).count(), 1);

    // The sixth remaining empty cell is now index 6.
    g.place_tile(5, true);
    let cells = cells_of(&g);
    assert_eq!(cells[6], 4);
}

#[test]
fn new_game_has_two_tiles_and_no_score() {
    let g = GameState::new();
    let cells = cells_of(&g);
    assert_eq!(cells.iter().filter(|&&v| v != 0).count(), 2);
    assert!(cells.iter().all(|&v| v == 0 || v == 2 || v == 4));
    assert_eq!(g.score(), 0);
    assert!(g.move_ready());
}

#[test]
fn invariant_and_score_hold_over_many_steps() {
    // After any sequence of moves and spawns: every cell stays 0 or a power
    // of two at least 2, and the score never decreases.
    let mut g = GameState::new();
    let mut last_score = 0u64;
    let dirs = [Direction::Left, Direction::Up, Direction::Right, Direction::Down];
    for k in 0..400 {
        assert!(g.move_ready());
        g.step(dirs[k % 4]);
        assert!(cells_of(&g).iter().all(|&v| is_tile_or_empty(v)));
        assert!(g.score() >= last_score);
        last_score = g.score();
    }
}

#[test]
fn step_spawns_only_after_a_change() {
    // A no-op step leaves everything alone.
    let start = [2, 4, 2, 4, 4, 2, 4, 2, 2, 4, 2, 4, 4, 2, 4, 2];
    let mut g = board_of(start);
    let moved = g.step(Direction::Left);
    assert!(!moved);
    assert_eq!(cells_of(&g), start);

    // A real move is followed by exactly one spawned tile.
    let mut g = board_of([2, 2, 0, 0, 0, 0, 0, 0, 0, 0, 0, 0, 0, 0, 0, 0]);
    let moved = g.step(Direction::Left);
    assert!(moved);
    let cells = cells_of(&g);
    assert_eq!(cells[0], 4);
    let spawned: Vec<u32> =
        cells.iter().copied().enumerate().filter(|&(i, v)| i != 0 && v != 0).map(|(_, v)| v).collect();
    assert_eq!(spawned.len(), 1);
    assert!(spawned[0] == 2 || spawned[0] == 4);
}

#[test]
fn render_matches_fixed_format() {
    let g = board_of([2, 0, 16, 2048, 0, 0, 0, 0, 128, 4, 0, 0, 0, 0, 0, 65536]);
    let top = "┌──────┐ ┌──────┐ ┌──────┐ ┌──────┐ \n";
    let bot = "└──────┘ └──────┘ └──────┘ └──────┘ \n";
    let mut expected = String::new();
    expected.push_str(top);
    expected.push_str("│  2   │ │      │ │  16  │ │ 2048 │ \n");
    expected.push_str(bot);
    expected.push_str(top);
    expected.push_str("│      │ │      │ │      │ │      │ \n");
    expected.push_str(bot);
    expected.push_str(top);
    expected.push_str("│ 128  │ │  4   │ │      │ │      │ \n");
    expected.push_str(bot);
    expected.push_str(top);
    expected.push_str("│      │ │      │ │      │ │ 65536 │ \n");
    expected.push_str(bot);
    assert_eq!(g.render(), expected);
}

#[test]
fn score_accumulates_across_moves() {
    // [2,2,4,4] moved Left: the 2s merge to a fresh 4 that absorbs nothing
    // more, and the trailing 4s merge as their own pair: [4,8,0,0].
    let mut g = board_of([2, 2, 4, 4, 0, 0, 0, 0, 0, 0, 0, 0, 0, 0, 0, 0]);
    let moved = g.apply_move(Direction::Left);
    assert!(moved);
    assert_eq!(cells_of(&g)[..4], [4, 8, 0, 0]);
    assert_eq!(g.score(), 4 + 8);
    // [4,8,0,0] has nothing to slide or merge toward Left.
    let moved = g.apply_move(Direction::Left);
    assert!(!moved);
    assert_eq!(g.score(), 4 + 8);
}
