use tetris_gui::constants::{Movement, Rotation};
use tetris_gui::game::{new_game, new_game_sized, read_u8, Game, StepKind};
use tetris_gui::pieces::{
    get_next_piece_display, spawn_piece_above, Color, Piece, PieceShape, Point,
};
use tetris_gui::rows::ColoredPoint;

const ALL_SHAPES: [PieceShape; 7] = [
    PieceShape::L,
    PieceShape::I,
    PieceShape::Z,
    PieceShape::Square,
    PieceShape::T,
    PieceShape::InvertedZ,
    PieceShape::InvertedL,
];

fn pt(x: i32, y: i32) -> Point {
    Point { x, y }
}

fn frozen_coords(g: &Game) -> Vec<Point> {
    g.frozen_squares.iter().map(|cp| cp.0).collect()
}

fn gray() -> Color {
    Color { r: 100, g: 100, b: 100 }
}

fn soft_drop(g: &mut Game) -> Result<(), tetris_gui::game::EndOfGame> {
    g.step(StepKind::Move(Some(Movement::DOWN)))
}

#[test]
fn new_game_starts_clean() {
    let g = new_game();
    assert_eq!(g.width, 10);
    assert_eq!(g.height, 22);
    assert_eq!(g.score, 0);
    assert!(g.frozen_squares.is_empty());
    assert!(!g.game_over);
    assert_eq!(g.piece_queue.len(), 21);
    assert_eq!(g.player_piece.coords.len(), 4);
}

#[test]
fn new_game_sized_small_board_spawn_in_bounds() {
    let g = new_game_sized(4, 4);
    for c in &g.player_piece.coords {
        assert!(0 <= c.x && c.x < 4);
        assert!(0 <= c.y && c.y < 4);
    }
}

#[test]
fn spawn_i_piece_layout() {
    let p = spawn_piece_above(PieceShape::I, 10);
    assert_eq!(p.coords, vec![pt(4, 0), pt(4, 1), pt(4, 2), pt(4, 3)]);
    assert_eq!(p.center, pt(4, 2));
    assert!(matches!(p.piece_shape, PieceShape::I));
    assert_eq!(p.color, Color { r: 173, g: 216, b: 230 });
}

#[test]
fn spawn_t_piece_layout() {
    let p = spawn_piece_above(PieceShape::T, 10);
    assert_eq!(p.coords, vec![pt(3, 0), pt(4, 0), pt(5, 0), pt(4, 1)]);
    assert_eq!(p.center, pt(4, 0));
}

#[test]
fn square_kick_table_is_identity_only() {
    let kicks = PieceShape::Square.get_kicks();
    assert_eq!(kicks, vec![pt(0, 0)]);
}

#[test]
fn t_kick_table_order() {
    let kicks = PieceShape::T.get_kicks();
    assert_eq!(
        kicks,
        vec![pt(0, 0), pt(1, 0), pt(-1, 0), pt(0, -1), pt(-1, -1), pt(1, -1)]
    );
}

#[test]
fn i_kick_table_has_eleven_offsets() {
    let kicks = PieceShape::I.get_kicks();
    assert_eq!(kicks.len(), 11);
    assert_eq!(kicks[0], pt(0, 0));
    assert_eq!(kicks[3], pt(2, 0));
}

#[test]
fn shape_from_index_round_trip() {
    for i in 0..7usize {
        assert!(PieceShape::from(i).is_some());
    }
    assert!(PieceShape::from(7).is_none());
    assert!(matches!(PieceShape::from(0), Some(PieceShape::L)));
    assert!(matches!(PieceShape::from(6), Some(PieceShape::InvertedL)));
}

#[test]
fn fair_collection_every_window_holds_each_shape_once() {
    let v = PieceShape::generate_fair_collection(3);
    assert_eq!(v.len(), 21);
    for w in 0..3 {
        let window = &v[7 * w..7 * w + 7];
        for shape in ALL_SHAPES {
            let count = window.iter().filter(|s| **s == shape).count();
            assert_eq!(count, 1, "shape must appear exactly once per window");
        }
    }
}

#[test]
fn fair_collection_empty() {
    let v = PieceShape::generate_fair_collection(0);
    assert!(v.is_empty());
}

#[test]
fn piece_translation_and_noops() {
    let p = spawn_piece_above(PieceShape::I, 10);
    let down = p.make_move(Some(Movement::DOWN));
    assert_eq!(down.coords, vec![pt(4, 1), pt(4, 2), pt(4, 3), pt(4, 4)]);
    assert_eq!(down.center, pt(4, 3));
    let left = p.make_move(Some(Movement::LEFT));
    assert_eq!(left.coords, vec![pt(3, 0), pt(3, 1), pt(3, 2), pt(3, 3)]);
    let up = p.make_move(Some(Movement::UP));
    assert_eq!(up.coords, p.coords);
    let none = p.make_move(None);
    assert_eq!(none.coords, p.coords);
    let stepped = p.step_down();
    assert_eq!(stepped.coords, down.coords);
}

#[test]
fn square_rotation_is_identity() {
    let p = spawn_piece_above(PieceShape::Square, 10);
    let cw = p.rotate_cw();
    assert_eq!(cw.coords, p.coords);
    let ccw = p.rotate_ccw();
    assert_eq!(ccw.coords, p.coords);
}

#[test]
fn rotation_round_trip_restores_coordinates() {
    let p = spawn_piece_above(PieceShape::T, 10);
    let back = p.rotate_cw().rotate_ccw();
    assert_eq!(back.coords, p.coords);
    assert_eq!(back.center, p.center);
}

#[test]
fn intersect_and_boundary_predicates() {
    let p = spawn_piece_above(PieceShape::I, 10);
    assert!(p.intersect(&vec![pt(4, 2)]));
    assert!(!p.intersect(&vec![pt(5, 2), pt(4, 4)]));
    assert!(!p.hits_bottom(8));
    assert!(p.hits_bottom(3));
    assert!(!p.hits_sides(10));
    assert!(p.hits_sides(4));
    assert!(!p.hits_top());
    let kicked = p.kick(pt(0, -1));
    assert!(kicked.hits_top());
}

#[test]
fn kick_displaces_cells_and_center() {
    let p = spawn_piece_above(PieceShape::T, 10);
    let k = p.kick(pt(-1, 2));
    assert_eq!(k.coords, vec![pt(2, 2), pt(3, 2), pt(4, 2), pt(3, 3)]);
    assert_eq!(k.center, pt(3, 2));
}

#[test]
fn read_u8_always_ends() {
    assert!(read_u8().is_err());
}

#[test]
fn list_squares_holds_frozen_then_piece() {
    let mut g = new_game_sized(10, 8);
    g.frozen_squares = vec![ColoredPoint(pt(0, 7), gray())];
    let all = g.list_squares();
    assert_eq!(all.len(), 1 + g.player_piece.coords.len());
    assert_eq!(all[0].0, pt(0, 7));
    for (i, c) in g.player_piece.coords.iter().enumerate() {
        assert_eq!(all[1 + i].0, *c);
        assert_eq!(all[1 + i].1, g.player_piece.color);
    }
}

#[test]
fn next_piece_preview_matches_queue_front() {
    let g = new_game();
    let front = g.piece_queue[0];
    let shown = g.get_next_piece();
    let expected = get_next_piece_display(front, 10);
    assert_eq!(shown.coords, expected.coords);
    assert!(shown.coords.iter().all(|c| c.x >= 10), "preview sits beside the board");
}

#[test]
fn lateral_move_commits_and_wall_blocks() {
    let mut g = new_game_sized(10, 22);
    g.player_piece = spawn_piece_above(PieceShape::T, 10);
    // Three steps to the wall, then a fourth changes nothing.
    for _ in 0..3 {
        g.step(StepKind::Move(Some(Movement::LEFT))).unwrap();
    }
    assert_eq!(g.player_piece.coords, vec![pt(0, 0), pt(1, 0), pt(2, 0), pt(1, 1)]);
    g.step(StepKind::Move(Some(Movement::LEFT))).unwrap();
    assert_eq!(g.player_piece.coords, vec![pt(0, 0), pt(1, 0), pt(2, 0), pt(1, 1)]);
    assert_eq!(g.score, 0);
    assert!(g.frozen_squares.is_empty());
}

#[test]
fn up_and_empty_movement_commands_change_nothing() {
    let mut g = new_game_sized(10, 8);
    g.player_piece = spawn_piece_above(PieceShape::Z, 10);
    let before = g.player_piece.coords.clone();
    g.step(StepKind::Move(Some(Movement::UP))).unwrap();
    assert_eq!(g.player_piece.coords, before);
    g.step(StepKind::Move(None)).unwrap();
    assert_eq!(g.player_piece.coords, before);
    assert_eq!(g.score, 0);
    assert!(g.frozen_squares.is_empty());
}

#[test]
fn scenario_soft_drop_locks_on_fifth_tick() {
    // An I piece on an empty ten-wide board of height eight: four soft
    // drops move it, the fifth locks it and scores one point per cell.
    let mut g = new_game_sized(10, 8);
    g.player_piece = spawn_piece_above(PieceShape::I, 10);
    for t in 1..=4 {
        soft_drop(&mut g).unwrap();
        assert_eq!(g.score, 0);
        assert!(g.frozen_squares.is_empty());
        assert_eq!(g.player_piece.coords[0], pt(4, t));
    }
    soft_drop(&mut g).unwrap();
    assert_eq!(g.score, 4);
    let frozen = frozen_coords(&g);
    assert_eq!(frozen, vec![pt(4, 4), pt(4, 5), pt(4, 6), pt(4, 7)]);
    assert!(!g.game_over);
}

#[test]
fn gravity_tick_scores_nothing() {
    let mut g = new_game_sized(10, 8);
    g.player_piece = spawn_piece_above(PieceShape::I, 10);
    for _ in 0..5 {
        g.step(StepKind::GoDown).unwrap();
    }
    assert_eq!(g.score, 0);
    assert_eq!(frozen_coords(&g), vec![pt(4, 4), pt(4, 5), pt(4, 6), pt(4, 7)]);
}

#[test]
fn scenario_single_line_clear_shifts_cells_down() {
    // Fill the bottom row except one cell, drop an I into the gap: the row
    // clears for a hundred points and the cells above it drop one row.
    let mut g = new_game_sized(10, 8);
    g.player_piece = spawn_piece_above(PieceShape::I, 10);
    let mut frozen = Vec::new();
    for x in 0..10 {
        if x != 4 {
            frozen.push(ColoredPoint(pt(x, 7), gray()));
        }
    }
    g.frozen_squares = frozen;
    g.step(StepKind::HardDrop).unwrap();
    // Two points per cell for the hard drop, then 1 * 1 * 100 for the row.
    assert_eq!(g.score, 108);
    assert_eq!(frozen_coords(&g), vec![pt(4, 5), pt(4, 6), pt(4, 7)]);
    assert!(!g.game_over);
}

#[test]
fn cells_below_a_cleared_row_stay_put() {
    let mut g = new_game_sized(10, 8);
    g.player_piece = spawn_piece_above(PieceShape::I, 10);
    let mut frozen = Vec::new();
    for x in 0..10 {
        if x != 4 {
            frozen.push(ColoredPoint(pt(x, 6), gray()));
        }
    }
    frozen.push(ColoredPoint(pt(0, 7), gray()));
    g.frozen_squares = frozen;
    g.step(StepKind::HardDrop).unwrap();
    // The I rests on rows 4..=7 of column four, completing row six only.
    assert_eq!(g.score, 108);
    assert_eq!(frozen_coords(&g), vec![pt(0, 7), pt(4, 5), pt(4, 6), pt(4, 7)]);
}

#[test]
fn scenario_double_line_clear_scores_quadratically() {
    // Completing two rows with one lock scores 2 * 2 * 100 = 400, not 200.
    let mut g = new_game_sized(10, 8);
    g.player_piece = spawn_piece_above(PieceShape::Square, 10);
    let mut frozen = Vec::new();
    for x in 0..10 {
        if x != 4 && x != 5 {
            frozen.push(ColoredPoint(pt(x, 6), gray()));
            frozen.push(ColoredPoint(pt(x, 7), gray()));
        }
    }
    g.frozen_squares = frozen;
    g.step(StepKind::HardDrop).unwrap();
    assert_eq!(g.score, 408);
    assert!(g.frozen_squares.is_empty());
    assert!(!g.game_over);
}

#[test]
fn scenario_wall_kick_rescues_rotation() {
    // A T flush against the left wall whose raw rotation pokes through it:
    // the (1, 0) kick shifts the candidate clear and the rotation commits.
    let mut g = new_game_sized(10, 8);
    g.player_piece = Piece {
        coords: vec![pt(0, 3), pt(0, 4), pt(0, 5), pt(1, 4)],
        center: pt(0, 4),
        color: gray(),
        piece_shape: PieceShape::T,
    };
    g.step(StepKind::Rotate(Rotation::CW)).unwrap();
    assert_eq!(g.player_piece.coords, vec![pt(0, 4), pt(1, 4), pt(2, 4), pt(1, 3)]);
    assert_eq!(g.player_piece.center, pt(1, 4));
    assert_eq!(g.score, 0);
}

#[test]
fn scenario_rotation_with_no_legal_kick_is_noop() {
    // A T against the top-left corner: the raw turn and every kick leave
    // the board, so the piece stays coordinate for coordinate.
    let mut g = new_game_sized(10, 8);
    let before = vec![pt(0, 0), pt(1, 0), pt(2, 0), pt(1, 1)];
    g.player_piece = Piece {
        coords: before.clone(),
        center: pt(1, 0),
        color: gray(),
        piece_shape: PieceShape::T,
    };
    g.step(StepKind::Rotate(Rotation::CCW)).unwrap();
    assert_eq!(g.player_piece.coords, before);
    assert_eq!(g.player_piece.center, pt(1, 0));
    assert_eq!(g.score, 0);
    assert!(g.frozen_squares.is_empty());
}

#[test]
fn rotation_blocked_by_stack_is_noop() {
    // Against the left wall, with the two kick targets that would stay on
    // the board occupied by locked cells, every offset fails and the
    // rotation is rejected with no side effect.
    let mut g = new_game_sized(10, 8);
    let before = vec![pt(0, 3), pt(0, 4), pt(0, 5), pt(1, 4)];
    g.player_piece = Piece {
        coords: before.clone(),
        center: pt(0, 4),
        color: gray(),
        piece_shape: PieceShape::T,
    };
    g.frozen_squares = vec![ColoredPoint(pt(2, 4), gray()), ColoredPoint(pt(2, 3), gray())];
    g.step(StepKind::Rotate(Rotation::CW)).unwrap();
    assert_eq!(g.player_piece.coords, before);
    assert_eq!(g.player_piece.center, pt(0, 4));
    assert_eq!(g.frozen_squares.len(), 2);
}

#[test]
fn scenario_obstructed_spawn_ends_the_game() {
    // The lock leaves a column under the spawn point; the fresh piece lands
    // on it at once: the step reports the end of the game and nothing else
    // changes.
    let mut g = new_game_sized(10, 8);
    g.player_piece = Piece {
        coords: vec![pt(4, 1), pt(4, 2), pt(4, 3), pt(4, 4)],
        center: pt(4, 2),
        color: gray(),
        piece_shape: PieceShape::I,
    };
    g.frozen_squares = vec![ColoredPoint(pt(4, 5), gray())];
    let r = g.step(StepKind::GoDown);
    assert!(r.is_err());
    assert!(g.game_over);
    assert_eq!(g.score, 0);
    // The old piece froze where it stood; nothing was cleared.
    let frozen = frozen_coords(&g);
    assert_eq!(
        frozen,
        vec![pt(4, 5), pt(4, 1), pt(4, 2), pt(4, 3), pt(4, 4)]
    );
}

#[test]
fn hard_drop_on_empty_board_scores_eight() {
    let mut g = new_game_sized(10, 8);
    g.player_piece = spawn_piece_above(PieceShape::I, 10);
    g.step(StepKind::HardDrop).unwrap();
    assert_eq!(g.score, 8);
    assert_eq!(frozen_coords(&g), vec![pt(4, 4), pt(4, 5), pt(4, 6), pt(4, 7)]);
}

#[test]
fn score_saturates_instead_of_wrapping() {
    let mut g = new_game_sized(10, 8);
    g.player_piece = spawn_piece_above(PieceShape::I, 10);
    g.score = u64::MAX - 2;
    g.step(StepKind::HardDrop).unwrap();
    assert_eq!(g.score, u64::MAX);
}

#[test]
fn projected_piece_shows_resting_position() {
    let mut g = new_game_sized(10, 8);
    g.player_piece = spawn_piece_above(PieceShape::I, 10);
    g.frozen_squares = vec![ColoredPoint(pt(4, 7), gray())];
    let ghost = g.projected_piece();
    assert_eq!(ghost.coords, vec![pt(4, 3), pt(4, 4), pt(4, 5), pt(4, 6)]);
    // Projection alone changes nothing.
    assert_eq!(g.player_piece.coords, vec![pt(4, 0), pt(4, 1), pt(4, 2), pt(4, 3)]);
}

/// After the leading partial group (queue length modulo seven), the queue
/// must be a chain of complete fair groups, and the partial group must not
/// repeat a shape.
fn assert_queue_fair(g: &Game) {
    let q: Vec<PieceShape> = g.piece_queue.iter().copied().collect();
    let r = q.len() % 7;
    for i in 0..r {
        for j in 0..i {
            assert!(q[i] != q[j], "partial group repeats a shape");
        }
    }
    let mut start = r;
    while start + 7 <= q.len() {
        for shape in ALL_SHAPES {
            let count = q[start..start + 7].iter().filter(|s| **s == shape).count();
            assert_eq!(count, 1, "a dealt group must hold each shape once");
        }
        start += 7;
    }
}

#[test]
fn queue_refills_and_stays_fair() {
    let mut g = new_game_sized(10, 22);
    assert_queue_fair(&g);
    // Consume pieces by hard-dropping; the queue must never run dry, and
    // after every deal (and the refill the eighth one triggers) the fair
    // grouping must still hold.
    for _ in 0..10 {
        if g.step(StepKind::HardDrop).is_err() {
            break;
        }
        assert!(g.piece_queue.len() >= 14);
        assert_queue_fair(&g);
    }
}
