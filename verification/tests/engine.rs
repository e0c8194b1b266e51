use std::collections::VecDeque;

use kirako::board::Board;
use kirako::game::{Game, GameState, MouseEvent};
use kirako::geometry::{Direction, Point};
use kirako::shuffle::{shuffle_seeded, ShiftAction};

fn pt(x: i64, y: i64) -> Point {
    Point { x, y }
}

fn grid_of(board: &Board) -> Vec<(i64, i64, Option<u32>)> {
    board
        .tiles
        .iter()
        .map(|t| (t.grid_position.x, t.grid_position.y, t.label))
        .collect()
}

fn label_at(board: &Board, x: i64, y: i64) -> Option<u32> {
    for t in &board.tiles {
        if t.grid_position.x == x && t.grid_position.y == y {
            return t.label;
        }
    }
    panic!("no tile at ({}, {})", x, y);
}

fn has_tile(board: &Board, x: i64, y: i64) -> bool {
    board
        .tiles
        .iter()
        .any(|t| t.grid_position.x == x && t.grid_position.y == y)
}

fn render_at(board: &Board, x: i64, y: i64) -> (i64, i64) {
    for t in &board.tiles {
        if t.grid_position.x == x && t.grid_position.y == y {
            return (t.render_position.x, t.render_position.y);
        }
    }
    panic!("no tile at ({}, {})", x, y);
}

#[test]
fn direction_classification_basics() {
    assert_eq!(Direction::from_vector(10, 0), Direction::East);
    assert_eq!(Direction::from_vector(-10, 0), Direction::West);
    assert_eq!(Direction::from_vector(0, 10), Direction::South);
    assert_eq!(Direction::from_vector(0, -10), Direction::North);
    assert_eq!(Direction::from_vector(10, -3), Direction::East);
    assert_eq!(Direction::from_vector(-2, -9), Direction::North);
}

#[test]
fn direction_classification_tie_is_vertical() {
    assert_eq!(Direction::from_vector(5, 5), Direction::South);
    assert_eq!(Direction::from_vector(5, -5), Direction::North);
    assert_eq!(Direction::from_vector(-7, 7), Direction::South);
    assert_eq!(Direction::from_vector(0, 0), Direction::North);
}

#[test]
fn direction_classification_scale_invariant() {
    for &(dx, dy) in &[(3i64, 2i64), (-3, 2), (1, -4), (6, 6), (0, 1)] {
        let base = Direction::from_vector(dx, dy);
        for k in 1..50i64 {
            assert_eq!(Direction::from_vector(k * dx, k * dy), base);
        }
    }
}

#[test]
fn point_arithmetic() {
    let p = pt(10, 20);
    let q = p.add(&pt(5, -3));
    assert_eq!((q.x, q.y), (15, 17));
    let d = q.sub(&p);
    assert_eq!((d.x, d.y), (5, -3));
    let n = p.add_direction(&Direction::North, 5);
    assert_eq!((n.x, n.y), (10, 15));
    let s = p.add_direction(&Direction::South, 5);
    assert_eq!((s.x, s.y), (10, 25));
    let w = p.add_direction(&Direction::West, 5);
    assert_eq!((w.x, w.y), (5, 20));
    let e = p.add_direction(&Direction::East, -5);
    assert_eq!((e.x, e.y), (5, 20));
    let h = pt(-7, 9).div(4);
    assert_eq!((h.x, h.y), (-1, 2));
}

#[test]
fn new_board_contents() {
    let b = Board::new(3);
    assert_eq!(b.size, 3);
    assert_eq!(b.tiles.len(), 15);
    // Labels are row-major over the playable region.
    for y in 1..=3i64 {
        for x in 1..=3i64 {
            assert_eq!(label_at(&b, x, y), Some((x + 3 * (y - 1)) as u32));
        }
    }
    // One empty buffer tile tops each column, one starts each row.
    for i in 1..=3i64 {
        assert_eq!(label_at(&b, i, 0), None);
        assert_eq!(label_at(&b, 0, i), None);
    }
    let labeled = b.tiles.iter().filter(|t| t.label.is_some()).count();
    assert_eq!(labeled, 9);
    assert_eq!(b.tiles.len() - labeled, 6);
}

#[test]
fn new_board_render_positions_on_cells() {
    let b = Board::new(3);
    for t in &b.tiles {
        assert_eq!(t.render_position.x, t.grid_position.x * 200);
        assert_eq!(t.render_position.y, t.grid_position.y * 200);
    }
}

#[test]
fn tile_size_derivation() {
    assert_eq!(Board::new(3).tile_size(), 200);
    assert_eq!(Board::new(1).tile_size(), 333);
    assert_eq!(Board::new(11).tile_size(), 76);
}

#[test]
fn shift_row_east_commits_full_step() {
    let mut b = Board::new(3);
    // A drag in row 2 (y in [400, 600)), one full tile to the east.
    b.shift(&pt(300, 500), &pt(500, 500), true);
    // Every tile of row 2 moved one cell east: labels 4, 5, 6 and the buffer.
    assert_eq!(label_at(&b, 2, 2), Some(4));
    assert_eq!(label_at(&b, 3, 2), Some(5));
    assert_eq!(label_at(&b, 4, 2), Some(6));
    assert_eq!(label_at(&b, 1, 2), None);
    assert!(!has_tile(&b, 0, 2));
    // Other rows untouched.
    assert_eq!(label_at(&b, 1, 1), Some(1));
    assert_eq!(label_at(&b, 1, 3), Some(7));
    // Moved tiles land exactly on their new cells.
    assert_eq!(render_at(&b, 2, 2), (400, 400));
    assert_eq!(render_at(&b, 4, 2), (800, 400));
}

#[test]
fn shift_row_east_twice_is_blocked() {
    let mut b = Board::new(3);
    b.shift(&pt(300, 500), &pt(500, 500), true);
    let before = grid_of(&b);
    // The buffer now sits at the east end; another eastward drag resolves to
    // a no-op.
    b.shift(&pt(300, 500), &pt(500, 500), true);
    assert_eq!(grid_of(&b), before);
    // Westward is what the row permits now.
    b.shift(&pt(500, 500), &pt(300, 500), true);
    assert_eq!(label_at(&b, 1, 2), Some(4));
    assert_eq!(label_at(&b, 0, 2), None);
}

#[test]
fn shift_west_from_fresh_board_is_blocked() {
    let mut b = Board::new(3);
    let before = grid_of(&b);
    b.shift(&pt(500, 500), &pt(300, 500), true);
    assert_eq!(grid_of(&b), before);
}

#[test]
fn commit_exactly_at_half_tile_threshold_is_no_step() {
    // Tile size 200, threshold 100: a drag of exactly 100 resolves to no
    // step, one unit past it to a full step.
    let mut b = Board::new(3);
    b.shift(&pt(300, 500), &pt(400, 500), true);
    assert_eq!(label_at(&b, 1, 2), Some(4));
    assert_eq!(label_at(&b, 0, 2), None);

    let mut b2 = Board::new(3);
    b2.shift(&pt(300, 500), &pt(401, 500), true);
    assert_eq!(label_at(&b2, 2, 2), Some(4));
    assert_eq!(label_at(&b2, 1, 2), None);
}

#[test]
fn preview_offsets_row_without_grid_change() {
    let mut b = Board::new(3);
    b.shift(&pt(300, 500), &pt(450, 500), false);
    // Grid untouched.
    assert_eq!(label_at(&b, 1, 2), Some(4));
    // Render positions of row 2 carry the 150-unit offset.
    assert_eq!(render_at(&b, 1, 2), (350, 400));
    assert_eq!(render_at(&b, 0, 2), (150, 400));
    // Other rows stay put.
    assert_eq!(render_at(&b, 1, 1), (200, 200));
}

#[test]
fn preview_offset_clamped_to_one_tile() {
    let mut b = Board::new(3);
    b.shift(&pt(300, 500), &pt(999_999, 500), false);
    assert_eq!(render_at(&b, 1, 2), (400, 400));
    assert_eq!(label_at(&b, 1, 2), Some(4));
}

#[test]
fn shift_column_south_commits_full_step() {
    let mut b = Board::new(3);
    // A drag in column 1 (x in [200, 400)), one full tile south.
    b.shift(&pt(300, 300), &pt(300, 500), true);
    assert_eq!(label_at(&b, 1, 2), Some(1));
    assert_eq!(label_at(&b, 1, 3), Some(4));
    assert_eq!(label_at(&b, 1, 4), Some(7));
    assert_eq!(label_at(&b, 1, 1), None);
    assert!(!has_tile(&b, 1, 0));
}

#[test]
fn drag_from_border_row_cannot_move_horizontally() {
    let mut b = Board::new(3);
    let before = grid_of(&b);
    // From the top border row, a mostly-horizontal drag: the horizontal
    // component is forced to zero, the vertical one survives and dominates.
    b.shift(&pt(300, 100), &pt(800, 100), true);
    assert_eq!(grid_of(&b), before);
}

#[test]
fn diagonal_drag_applies_single_axis() {
    let mut b = Board::new(3);
    // Both axes are unblocked to the southeast, but the larger (horizontal)
    // one wins and the vertical render positions of the column snap back.
    b.shift(&pt(300, 500), &pt(500, 640), true);
    assert_eq!(label_at(&b, 2, 2), Some(4));
    // No vertical grid movement anywhere.
    for y in 1..=3i64 {
        for x in 1..=3i64 {
            if y != 2 {
                assert_eq!(label_at(&b, x, y), Some((x + 3 * (y - 1)) as u32));
            }
        }
    }
}

#[test]
fn shuffle_seeded_empty_steps_gives_empty_queue() {
    let q = shuffle_seeded(3, &vec![], &vec![]);
    assert_eq!(q.len(), 0);
}

#[test]
fn shuffle_seeded_single_row_step_and_cleanup() {
    let q: Vec<ShiftAction> = shuffle_seeded(3, &vec![true], &vec![0]).into_iter().collect();
    // Draw 0 with no previous pick lands on index 2, eastward; the cleanup
    // pass returns that row west.
    assert_eq!(q.len(), 2);
    assert_eq!((q[0].idx, q[0].direction), (2, Direction::East));
    assert_eq!((q[1].idx, q[1].direction), (2, Direction::West));
    assert_eq!(q[0].current_offset, 0);
    assert_eq!(q[0].remaining_time, 500);
}

#[test]
fn shuffle_seeded_two_steps_exact_queue() {
    let q: Vec<ShiftAction> =
        shuffle_seeded(3, &vec![true, false], &vec![0, 0]).into_iter().collect();
    assert_eq!(q.len(), 4);
    assert_eq!((q[0].idx, q[0].direction), (2, Direction::East));
    assert_eq!((q[1].idx, q[1].direction), (1, Direction::South));
    assert_eq!((q[2].idx, q[2].direction), (2, Direction::West));
    assert_eq!((q[3].idx, q[3].direction), (1, Direction::North));
}

#[test]
fn shuffle_seeded_adjacent_indices_differ() {
    let axes = vec![true, true, false, true, false, false, true, true];
    let draws = vec![0, 0, 1, 1, 0, 1, 0, 0];
    let q: Vec<ShiftAction> = shuffle_seeded(3, &axes, &draws).into_iter().collect();
    for w in 0..axes.len() - 1 {
        assert_ne!(q[w].idx, q[w + 1].idx);
    }
}

#[test]
fn shuffle_seeded_cleanup_leaves_toggles_neutral() {
    let axes = vec![true, true, false, true, false, false, true, true, false, true];
    let draws = vec![0, 1, 1, 0, 0, 1, 1, 0, 1, 0];
    let q = shuffle_seeded(4, &axes, &draws);
    // Replay the toggle semantics: East/South set a line's toggle,
    // West/North clear it. Every toggle must end neutral.
    let mut h = [false; 4];
    let mut v = [false; 4];
    for a in &q {
        let k = (a.idx - 1) as usize;
        match a.direction {
            Direction::East => h[k] = true,
            Direction::West => h[k] = false,
            Direction::South => v[k] = true,
            Direction::North => v[k] = false,
        }
    }
    assert_eq!(h, [false; 4]);
    assert_eq!(v, [false; 4]);
    // And every action addresses a line of the board with a full budget.
    for a in &q {
        assert!(a.idx >= 1 && a.idx <= 4);
        assert_eq!(a.current_offset, 0);
        assert_eq!(a.remaining_time, 500);
    }
}

#[test]
fn expired_action_commits_immediately_and_pops() {
    // An action with 500 time units left, hit with a 600-unit frame: the
    // shift commits at once rather than leaving a fractional offset behind.
    let action = ShiftAction::create(2, Direction::East);
    let mut game = Game::from_actions(3, VecDeque::from(vec![action]));
    game.update(600, VecDeque::new());
    assert_eq!(game.actions.len(), 0);
    assert_eq!(game.game_state, GameState::Idle);
    assert_eq!(label_at(&game.board, 2, 2), Some(4));
    assert_eq!(label_at(&game.board, 4, 2), Some(6));
}

#[test]
fn live_action_previews_and_keeps_counting() {
    let action = ShiftAction::create(2, Direction::East);
    let mut game = Game::from_actions(3, VecDeque::from(vec![action]));
    game.update(100, VecDeque::new());
    assert_eq!(game.game_state, GameState::Processing);
    assert_eq!(game.actions.len(), 1);
    let head = game.actions[0];
    assert_eq!(head.remaining_time, 400);
    // dt/remaining of the full tile distance: 100/500 of 200 units.
    assert_eq!(head.current_offset, 40);
    // Grid untouched, render of row 2 offset by the accumulated 40 units.
    assert_eq!(label_at(&game.board, 1, 2), Some(4));
    assert_eq!(render_at(&game.board, 1, 2), (240, 400));
}

#[test]
fn zero_dt_frame_changes_nothing_but_state() {
    let action = ShiftAction::create(2, Direction::East);
    let mut game = Game::from_actions(3, VecDeque::from(vec![action]));
    game.update(0, VecDeque::new());
    assert_eq!(game.game_state, GameState::Processing);
    let head = game.actions[0];
    assert_eq!(head.remaining_time, 500);
    assert_eq!(head.current_offset, 0);
}

#[test]
fn drag_gesture_previews_then_commits() {
    let mut game = Game::from_actions(3, VecDeque::new());
    game.update(0, VecDeque::from(vec![MouseEvent::Down(pt(300, 500))]));
    assert_eq!(game.game_state, GameState::Dragging(pt(300, 500)));

    game.update(0, VecDeque::from(vec![MouseEvent::Move(pt(390, 500))]));
    assert_eq!(game.game_state, GameState::Dragging(pt(300, 500)));
    assert_eq!(label_at(&game.board, 1, 2), Some(4));
    assert_eq!(render_at(&game.board, 1, 2), (290, 400));

    game.update(0, VecDeque::from(vec![MouseEvent::Up(pt(510, 500))]));
    assert_eq!(game.game_state, GameState::Idle);
    assert_eq!(label_at(&game.board, 2, 2), Some(4));
}

#[test]
fn second_down_ends_drag_like_up() {
    let mut game = Game::from_actions(3, VecDeque::new());
    game.update(
        0,
        VecDeque::from(vec![MouseEvent::Down(pt(300, 500)), MouseEvent::Down(pt(510, 500))]),
    );
    assert_eq!(game.game_state, GameState::Idle);
    assert_eq!(label_at(&game.board, 2, 2), Some(4));
}

#[test]
fn processing_ignores_live_input() {
    let action = ShiftAction::create(2, Direction::East);
    let mut game = Game::from_actions(3, VecDeque::from(vec![action]));
    game.update(100, VecDeque::from(vec![MouseEvent::Down(pt(300, 300))]));
    // The queue takes priority: the down event neither starts a drag nor
    // disturbs the processing state.
    assert_eq!(game.game_state, GameState::Processing);
    assert_eq!(game.actions.len(), 1);
}

#[test]
fn queue_plays_out_in_order() {
    let a1 = ShiftAction::create(2, Direction::East);
    let a2 = ShiftAction::create(2, Direction::West);
    let mut game = Game::from_actions(3, VecDeque::from(vec![a1, a2]));
    game.update(600, VecDeque::new());
    assert_eq!(game.actions.len(), 1);
    assert_eq!(game.game_state, GameState::Processing);
    assert_eq!(label_at(&game.board, 2, 2), Some(4));
    game.update(600, VecDeque::new());
    assert_eq!(game.actions.len(), 0);
    assert_eq!(game.game_state, GameState::Idle);
    assert_eq!(label_at(&game.board, 1, 2), Some(4));
}

#[test]
fn boards_of_other_sizes() {
    let b = Board::new(1);
    assert_eq!(b.tiles.len(), 3);
    assert_eq!(label_at(&b, 1, 1), Some(1));
    assert_eq!(label_at(&b, 1, 0), None);
    assert_eq!(label_at(&b, 0, 1), None);
    let b = Board::new(11);
    assert_eq!(b.tiles.len(), 11 * 11 + 22);
    assert_eq!(label_at(&b, 11, 11), Some(121));
}

#[test]
fn vertical_preview_offsets_column() {
    let mut b = Board::new(3);
    b.shift(&pt(300, 300), &pt(300, 390), false);
    assert_eq!(label_at(&b, 1, 1), Some(1));
    assert_eq!(render_at(&b, 1, 1), (200, 290));
    assert_eq!(render_at(&b, 1, 0), (200, 90));
}

#[test]
fn played_out_shuffle_returns_buffers_to_initial_edges() {
    // Play a whole generated queue to the end: the cleanup pass guarantees
    // every buffer tile ends back on the left and top edges, as on a fresh
    // board, whatever the picks were.
    let axes = vec![true, false, true, true, false, false, true, false];
    let draws = vec![0, 1, 0, 1, 1, 0, 1, 0];
    let q = shuffle_seeded(3, &axes, &draws);
    let n = q.len();
    let mut game = Game::from_actions(3, q);
    for _ in 0..n {
        game.update(600, VecDeque::new());
    }
    assert_eq!(game.game_state, GameState::Idle);
    assert_eq!(game.actions.len(), 0);
    for i in 1..=3i64 {
        assert!(has_tile(&game.board, 0, i));
        assert!(!has_tile(&game.board, 4, i));
        assert!(has_tile(&game.board, i, 0));
        assert!(!has_tile(&game.board, i, 4));
    }
}

#[test]
fn huge_dt_commits_only_one_grid_step() {
    let action = ShiftAction::create(2, Direction::East);
    let mut game = Game::from_actions(3, VecDeque::from(vec![action]));
    game.update(i32::MAX, VecDeque::new());
    assert_eq!(game.actions.len(), 0);
    // One full step east, not several.
    assert_eq!(label_at(&game.board, 2, 2), Some(4));
    assert!(!game.board.tiles.iter().any(|t| t.grid_position.x > 4));
}
