use inkball::ball::{Ball, BallColor};
use inkball::board::{GameBoard, BOARD_COLS, BOARD_ROWS, TILE_FP};
use inkball::game::Game;
use inkball::physics::Physics;
use inkball::tile::{BoardColor, BoardTile, Direction, TileType};

/// A live ball at the pixel centre of `(row, col)` with the given velocity.
fn ball_at(row: usize, col: usize, color: BallColor, vx: i64, vy: i64) -> Ball {
    Ball {
        row,
        col,
        color,
        x: col as i64 * TILE_FP + TILE_FP / 2,
        y: row as i64 * TILE_FP + TILE_FP / 2,
        vx,
        vy,
        radius: TILE_FP * 2 / 5,
        alive: true,
        captured: false,
    }
}

/// A 9x9 board whose whole inner row 4 is plain floor, so tests can place
/// their own tiles there whatever cells the random entry and goal chose.
fn board_with_free_middle() -> GameBoard {
    let mut board = GameBoard::with_size(9, 9).expect("9x9 board");
    for col in 1..8 {
        board.set_tile(4, col, BoardTile::new(4, col, TileType::Floor));
    }
    board
}

#[test]
fn construction_rejects_degenerate_grids() {
    assert!(GameBoard::with_size(2, 9).is_none());
    assert!(GameBoard::with_size(9, 2).is_none());
    assert!(GameBoard::with_size(3, 3).is_none(), "one inner cell cannot hold entry and goal");
    assert!(GameBoard::with_size(3, 4).is_some(), "two inner cells suffice");
    assert!(GameBoard::with_size(1001, 9).is_none());
    assert!(GameBoard::with_size(9, 1001).is_none());
}

#[test]
fn construction_places_walls_entry_and_goal() {
    for _ in 0..20 {
        let board = GameBoard::with_size(9, 9).expect("9x9 board");
        let (er, ec) = board.entry_pos;
        let (gr, gc) = board.goal_pos;
        assert!((1..=7).contains(&er) && (1..=7).contains(&ec));
        assert!((1..=7).contains(&gr) && (1..=7).contains(&gc));
        assert_ne!((er, ec), (gr, gc));
        let goal = board.get_tile(gr, gc).expect("goal tile");
        assert_eq!(goal.tile_type, TileType::Drain(BoardColor::Gray));
        for r in 0..9 {
            for c in 0..9 {
                let t = board.get_tile(r, c).expect("dense grid");
                if r == 0 || r == 8 || c == 0 || c == 8 {
                    assert_eq!(t.tile_type, TileType::Wall);
                } else if (r, c) != (gr, gc) {
                    assert_eq!(t.tile_type, TileType::Floor);
                }
            }
        }
        assert_eq!(board.balls.len(), 1);
        let b = &board.balls[0];
        assert_eq!((b.row, b.col), (er, ec));
        assert_eq!(b.color, BallColor::Gray);
        assert_eq!(b.x, ec as i64 * TILE_FP + TILE_FP / 2);
        assert_eq!(b.y, er as i64 * TILE_FP + TILE_FP / 2);
        assert_eq!((b.vx, b.vy), (0, 0));
        assert_eq!(b.radius, TILE_FP * 2 / 5);
        assert!(b.alive && !b.captured);
        assert!(!board.is_win());
    }
}

#[test]
fn default_board_is_seventeen_square() {
    let board = GameBoard::new();
    assert_eq!((board.rows, board.cols), (BOARD_ROWS, BOARD_COLS));
    assert!(!board.is_win());
}

#[test]
fn resting_ball_never_changes_cell() {
    let mut ball = ball_at(4, 3, BallColor::Blue, 0, 0);
    let before = ball;
    for _ in 0..50 {
        Physics::integrate(&mut ball, 1, 0, 990, 1000);
    }
    assert_eq!(ball, before, "zero velocity and zero gravity leave the ball in place");
}

#[test]
fn gravity_only_integration_matches_closed_form() {
    let mut ball = ball_at(2, 4, BallColor::Green, 0, 0);
    let y0 = ball.y;
    for _ in 0..10 {
        Physics::integrate(&mut ball, 1, 150, 1, 1);
    }
    // vy = n * g * dt = 10 * 150
    assert_eq!(ball.vy, 1_500);
    // y = y0 + sum_{k=1..10} (150 k) = y0 + 150 * 55
    assert_eq!(ball.y, y0 + 8_250);
    assert_eq!(ball.vx, 0);
}

#[test]
fn friction_decays_velocity_each_frame() {
    let mut ball = ball_at(4, 4, BallColor::Red, 1_000, 0);
    Physics::integrate(&mut ball, 1, 0, 990, 1000);
    assert_eq!(ball.vx, 990);
    Physics::integrate(&mut ball, 1, 0, 990, 1000);
    assert_eq!(ball.vx, 980, "990 * 990 / 1000 truncates to 980");
}

#[test]
fn update_ball_position_applies_engine_constants() {
    let mut ball = ball_at(4, 4, BallColor::Red, 0, 0);
    let y0 = ball.y;
    Physics::update_ball_position(&mut ball, 1);
    // gravity 0.15 px/frame, then friction 0.99: 150 * 990 / 1000 = 148
    assert_eq!(ball.vy, 148);
    assert_eq!(ball.y, y0 + 148);
    assert_eq!(ball.vx, 0);
}

#[test]
fn dead_or_captured_ball_is_not_integrated() {
    let mut dead = ball_at(4, 4, BallColor::Red, 5_000, 5_000);
    dead.alive = false;
    let before = dead;
    Physics::update_ball_position(&mut dead, 1);
    assert_eq!(dead, before);
}

#[test]
fn bounds_check_is_a_no_op_within_bounds() {
    let board = GameBoard::with_size(9, 9).expect("9x9 board");
    let mut ball = ball_at(4, 4, BallColor::Cyan, -3_000, 2_000);
    let before = ball;
    let collided = Physics::check_board_bounds(&mut ball, &board);
    assert!(!collided);
    assert_eq!(ball, before, "an in-bounds ball is untouched");
}

#[test]
fn bounds_check_clamps_and_reflects() {
    let board = GameBoard::with_size(9, 9).expect("9x9 board");
    let mut ball = ball_at(4, 0, BallColor::Cyan, -5_000, 0);
    ball.x = 10_000;  // left extent reaches past the border
    let collided = Physics::check_board_bounds(&mut ball, &board);
    assert!(collided);
    assert_eq!(ball.x, ball.radius);
    assert_eq!(ball.vx, 4_000, "-(-5000) * 0.8");
    assert_eq!(ball.vy, 0);
}

#[test]
fn wall_reflects_dominant_horizontal_axis() {
    let mut board = board_with_free_middle();
    board.set_tile(4, 4, BoardTile::new(4, 4, TileType::Wall));
    // Ball centre 15 px left of the tile's left edge: overlap of 4.2 px.
    let mut ball = ball_at(4, 3, BallColor::Red, -5_000, 777);
    ball.x = 4 * TILE_FP - 15_000;
    let hit = Physics::check_tile_collision(&mut ball, &mut board);
    assert!(hit);
    assert_eq!(ball.vx, 4_000, "horizontal velocity is flipped and damped");
    assert_eq!(ball.vy, 777, "vertical velocity is untouched");
    assert_eq!(ball.x, 4 * TILE_FP - ball.radius, "flush against the tile's left edge");
    assert_eq!(ball.y, 4 * TILE_FP + TILE_FP / 2);
}

#[test]
fn wall_reflects_dominant_vertical_axis() {
    let mut board = board_with_free_middle();
    board.set_tile(4, 4, BoardTile::new(4, 4, TileType::Wall));
    // Ball centre 15 px below the tile's bottom edge, moving up.
    let mut ball = ball_at(5, 4, BallColor::Red, 777, -5_000);
    ball.y = 5 * TILE_FP + 15_000;
    let hit = Physics::check_tile_collision(&mut ball, &mut board);
    assert!(hit);
    assert_eq!(ball.vy, 4_000, "vertical velocity is flipped and damped");
    assert_eq!(ball.vx, 777, "horizontal velocity is untouched");
    assert_eq!(ball.y, 5 * TILE_FP + ball.radius, "flush against the tile's bottom edge");
}

#[test]
fn breakwall_converts_to_floor_after_one_hit_and_never_reverts() {
    let mut board = board_with_free_middle();
    board.draw_wall(4, 4);
    assert_eq!(
        board.get_tile(4, 4).expect("tile").tile_type,
        TileType::BreakWall,
        "drawing on floor creates a break wall"
    );
    let mut ball = ball_at(4, 3, BallColor::Red, -5_000, 0);
    ball.x = 4 * TILE_FP - 15_000;
    let hit = Physics::check_tile_collision(&mut ball, &mut board);
    assert!(hit);
    let after = board.get_tile(4, 4).expect("tile");
    assert_eq!(after.tile_type, TileType::Floor, "one deflecting hit reverts it to floor");
    assert_eq!(after.hit_count, 0);
    // A second pass over the same cell has no effect and nothing reverts.
    let mut ball2 = ball_at(4, 3, BallColor::Red, -5_000, 0);
    ball2.x = 4 * TILE_FP - 15_000;
    let hit2 = Physics::check_tile_collision(&mut ball2, &mut board);
    assert!(!hit2);
    assert_eq!(board.get_tile(4, 4).expect("tile").tile_type, TileType::Floor);
}

#[test]
fn draw_wall_ignores_border_and_non_floor() {
    let mut board = GameBoard::with_size(9, 9).expect("9x9 board");
    board.draw_wall(0, 4);
    assert_eq!(board.get_tile(0, 4).expect("tile").tile_type, TileType::Wall);
    let (gr, gc) = board.goal_pos;
    board.draw_wall(gr, gc);
    assert_eq!(
        board.get_tile(gr, gc).expect("tile").tile_type,
        TileType::Drain(BoardColor::Gray),
        "a drain is not overwritten"
    );
    board.draw_wall(100, 100);
}

#[test]
fn drain_captures_only_matching_color_within_radius() {
    let mut board = board_with_free_middle();
    board.set_tile(4, 4, BoardTile::new(4, 4, TileType::Drain(BoardColor::Blue)));
    // Mismatched colour at the drain centre: passes through unaffected.
    let mut red = ball_at(4, 4, BallColor::Red, 1_234, -567);
    let hit = Physics::check_tile_collision(&mut red, &mut board);
    assert!(!hit);
    assert!(red.alive && !red.captured);
    assert_eq!(red.x, 4 * TILE_FP + TILE_FP / 2);
    assert_eq!(red.vx, 1_234);
    assert_eq!(red.vy, -567);
    // Matching colour within a quarter tile: captured and no longer alive.
    let mut blue = ball_at(4, 4, BallColor::Blue, 0, 0);
    blue.x += 11_000;  // still within the 12 px capture radius
    let hit = Physics::check_tile_collision(&mut blue, &mut board);
    assert!(hit);
    assert!(blue.captured && !blue.alive);
    // Matching colour but outside the capture radius: untouched.
    let mut far = ball_at(4, 4, BallColor::Blue, 0, 0);
    far.x += 13_000;
    let hit = Physics::check_tile_collision(&mut far, &mut board);
    assert!(!hit);
    assert!(far.alive && !far.captured);
}

#[test]
fn bumper_redirects_radially_with_boost() {
    let mut board = board_with_free_middle();
    board.set_tile(4, 4, BoardTile::new(4, 4, TileType::Bumper));
    let cx = 4 * TILE_FP + TILE_FP / 2;
    let cy = 4 * TILE_FP + TILE_FP / 2;
    let mut ball = ball_at(4, 4, BallColor::Red, -2_000, 0);
    ball.x = cx + 30_000;  // 30 px right of the bumper centre
    let hit = Physics::check_tile_collision(&mut ball, &mut board);
    assert!(hit);
    // speed 2 px/frame boosted by 1.2, redirected along +x
    assert_eq!(ball.vx, 2_400);
    assert_eq!(ball.vy, 0);
    // repositioned just outside the bumper's reach (radius + half tile)
    assert_eq!(ball.x, cx + ball.radius + TILE_FP / 2);
    assert_eq!(ball.y, cy);
}

#[test]
fn chevron_forces_outgoing_direction() {
    let mut board = board_with_free_middle();
    board.set_tile(4, 4, BoardTile::new(4, 4, TileType::Chevron(Direction::Up)));
    // Ball below the tile moving up: natural reflection would send it down,
    // the chevron forces it up.
    let mut ball = ball_at(5, 4, BallColor::Red, 0, -3_000);
    ball.y = 5 * TILE_FP + 15_000;
    let hit = Physics::check_tile_collision(&mut ball, &mut board);
    assert!(hit);
    assert_eq!(ball.vy, -2_400, "magnitude from the bounce, sign forced upward");
    assert_eq!(ball.y, 5 * TILE_FP + ball.radius);
}

#[test]
fn one_way_force_field_is_permeable_one_way() {
    let mut board = board_with_free_middle();
    board.set_tile(4, 4, BoardTile::new(4, 4, TileType::OneWayForce(Direction::Up)));
    // Approaching from below and moving up: passes through unaffected.
    let mut up = ball_at(5, 4, BallColor::Red, 0, -3_000);
    up.y = 5 * TILE_FP + 15_000;
    let before = up;
    let hit = Physics::check_tile_collision(&mut up, &mut board);
    assert!(!hit);
    assert_eq!(up, before);
    // Approaching from above and moving down: reflected, vy sign flips.
    let mut down = ball_at(3, 4, BallColor::Red, 0, 3_000);
    down.y = 4 * TILE_FP - 15_000;
    let hit = Physics::check_tile_collision(&mut down, &mut board);
    assert!(hit);
    assert_eq!(down.vy, -2_400);
    assert_eq!(down.y, 4 * TILE_FP - down.radius);
}

#[test]
fn chevron_with_diagonal_direction_deflects_like_a_wall() {
    let mut board = board_with_free_middle();
    board.set_tile(4, 4, BoardTile::new(4, 4, TileType::Chevron(Direction::UpLeft)));
    let mut ball = ball_at(5, 4, BallColor::Red, 0, -3_000);
    ball.y = 5 * TILE_FP + 15_000;
    let hit = Physics::check_tile_collision(&mut ball, &mut board);
    assert!(hit);
    assert_eq!(ball.vy, 2_400, "natural reflection, no sign forced");
}

#[test]
fn one_way_force_field_with_diagonal_direction_never_blocks() {
    let mut board = board_with_free_middle();
    board.set_tile(4, 4, BoardTile::new(4, 4, TileType::OneWayForce(Direction::DownRight)));
    let mut ball = ball_at(3, 4, BallColor::Red, 1_000, 3_000);
    ball.y = 4 * TILE_FP - 15_000;
    let before = ball;
    let hit = Physics::check_tile_collision(&mut ball, &mut board);
    assert!(!hit);
    assert_eq!(ball, before);
}

#[test]
fn one_way_force_field_blocks_horizontally() {
    let mut board = board_with_free_middle();
    board.set_tile(4, 4, BoardTile::new(4, 4, TileType::OneWayForce(Direction::Left)));
    // Moving right, against a leftward field: blocked.
    let mut ball = ball_at(4, 3, BallColor::Red, 5_000, 0);
    ball.x = 4 * TILE_FP - 15_000;
    let hit = Physics::check_tile_collision(&mut ball, &mut board);
    assert!(hit);
    assert_eq!(ball.vx, -4_000);
    // Moving left, with the field: passes through.
    let mut with_field = ball_at(4, 3, BallColor::Red, -5_000, 0);
    with_field.x = 4 * TILE_FP - 15_000;
    let before = with_field;
    let hit = Physics::check_tile_collision(&mut with_field, &mut board);
    assert!(!hit);
    assert_eq!(with_field, before);
}

#[test]
fn ball_resting_on_bumper_centre_is_pushed_out_rightward() {
    let mut board = board_with_free_middle();
    board.set_tile(4, 4, BoardTile::new(4, 4, TileType::Bumper));
    let mut ball = ball_at(4, 4, BallColor::Red, 0, 0);
    let hit = Physics::check_tile_collision(&mut ball, &mut board);
    assert!(hit);
    assert_eq!(ball.vx, 0, "no speed to boost");
    assert_eq!(ball.vy, 0);
    assert_eq!(ball.x, 4 * TILE_FP + TILE_FP / 2 + ball.radius + TILE_FP / 2);
    assert_eq!(ball.y, 4 * TILE_FP + TILE_FP / 2);
}

#[test]
fn ball_outside_the_grid_collides_with_nothing() {
    let mut board = GameBoard::with_size(9, 9).expect("9x9 board");
    let mut ball = ball_at(4, 4, BallColor::Red, 1_000, 1_000);
    ball.y = 9 * TILE_FP + 10 * TILE_FP;
    let before = ball;
    let hit = Physics::check_tile_collision(&mut ball, &mut board);
    assert!(!hit);
    assert_eq!(ball, before);
}

#[test]
fn reflective_tiles_block_like_walls() {
    let mut board = board_with_free_middle();
    board.set_tile(4, 4, BoardTile::new(4, 4, TileType::RLColored(BoardColor::Red)));
    let mut ball = ball_at(4, 3, BallColor::Red, -5_000, 0);
    ball.x = 4 * TILE_FP - 15_000;
    assert!(Physics::check_tile_collision(&mut ball, &mut board));
    assert_eq!(ball.vx, 4_000);

    board.set_tile(4, 4, BoardTile::new(4, 4, TileType::RLGray));
    let mut ball2 = ball_at(4, 3, BallColor::Red, -5_000, 0);
    ball2.x = 4 * TILE_FP - 15_000;
    assert!(Physics::check_tile_collision(&mut ball2, &mut board));
    assert_eq!(ball2.vx, 4_000);
}

#[test]
fn ball_bounces_off_left_border_wall_flush() {
    let mut board = GameBoard::with_size(9, 9).expect("9x9 board");
    let mut ball = ball_at(4, 2, BallColor::Red, -5_000, 0);
    let mut ticks: u32 = 0;
    while ball.vx <= 0 && ticks < 100 {
        Physics::integrate(&mut ball, 1, 0, 1, 1);
        Physics::check_board_bounds(&mut ball, &board);
        Physics::check_tile_collision(&mut ball, &mut board);
        assert!(ball.x - ball.radius >= TILE_FP, "never penetrates past the wall's right edge");
        ticks += 1;
    }
    assert!(ticks < 100, "contact must happen");
    assert_eq!(ball.vx, 4_000, "5 px/frame reversed with the 0.8 bounce factor");
    assert_eq!(ball.vy, 0);
    assert_eq!(ball.x - ball.radius, TILE_FP, "left edge flush with the wall's right edge");
}

#[test]
fn gray_ball_over_goal_is_captured_in_one_tick() {
    let mut board = GameBoard::with_size(9, 9).expect("9x9 board");
    let (gr, gc) = board.goal_pos;
    let mut b = board.balls[0];
    b.x = gc as i64 * TILE_FP + TILE_FP / 2;
    b.y = gr as i64 * TILE_FP + TILE_FP / 2;
    board.balls[0] = b;
    assert!(!board.is_win());
    // The same contact, shown directly on the flags of a copy of the ball.
    let mut probe = b;
    let hit = Physics::check_tile_collision(&mut probe, &mut board);
    assert!(hit);
    assert!(probe.captured);
    assert!(!probe.alive);
    // The full tick captures, prunes and records the win.
    board.update_balls(1);
    assert!(board.is_win());
    assert_eq!(board.balls.len(), 0, "the captured ball left the live collection");
    // The win never reverts.
    board.update_balls(1);
    assert!(board.is_win());
}

#[test]
fn captured_balls_are_never_alive_after_a_tick() {
    let mut board = GameBoard::with_size(9, 9).expect("9x9 board");
    let (gr, gc) = board.goal_pos;
    board.add_ball(gr, gc, BallColor::Gray);
    board.add_ball(2, 2, BallColor::Red);
    board.update_balls(1);
    for ball in &board.balls {
        assert!(ball.alive);
        assert!(!ball.captured, "captured balls are pruned at the end of the tick");
    }
}

#[test]
fn is_win_reflects_a_captured_ball_in_the_collection() {
    let mut board = GameBoard::with_size(9, 9).expect("9x9 board");
    assert!(!board.is_win());
    let mut b = board.balls[0];
    b.captured = true;
    b.alive = false;
    board.balls[0] = b;
    assert!(board.is_win(), "is_win is true immediately after the flag is set");
}

#[test]
fn add_ball_rejects_out_of_range_cells() {
    let mut board = GameBoard::with_size(9, 9).expect("9x9 board");
    let n = board.balls.len();
    board.add_ball(9, 4, BallColor::Red);
    board.add_ball(4, 9, BallColor::Red);
    assert_eq!(board.balls.len(), n);
    board.add_ball(4, 4, BallColor::Red);
    assert_eq!(board.balls.len(), n + 1);
}

#[test]
fn get_and_set_tile_check_ranges() {
    let mut board = GameBoard::with_size(9, 9).expect("9x9 board");
    assert!(board.get_tile(9, 0).is_none());
    assert!(board.get_tile(0, 9).is_none());
    board.set_tile(20, 20, BoardTile::new(20, 20, TileType::Bumper));
    board.set_tile(4, 4, BoardTile::new(0, 0, TileType::Bumper));
    let t = board.get_tile(4, 4).expect("tile");
    assert_eq!(t.tile_type, TileType::Bumper);
    assert_eq!((t.row, t.col), (4, 4), "stored coordinates follow the cell");
}

#[test]
fn tile_capability_flags() {
    assert!(BoardTile::new(0, 0, TileType::Wall).should_deflect());
    assert!(BoardTile::new(0, 0, TileType::BreakWall).should_deflect());
    assert!(BoardTile::new(0, 0, TileType::Bumper).should_deflect());
    assert!(BoardTile::new(0, 0, TileType::Chevron(Direction::Left)).should_deflect());
    assert!(BoardTile::new(0, 0, TileType::RLColored(BoardColor::Cyan)).should_deflect());
    assert!(BoardTile::new(0, 0, TileType::RLGray).should_deflect());
    assert!(!BoardTile::new(0, 0, TileType::Floor).should_deflect());
    assert!(!BoardTile::new(0, 0, TileType::Drain(BoardColor::Red)).should_deflect());
    assert!(!BoardTile::new(0, 0, TileType::OneWayForce(Direction::Up)).should_deflect());

    assert!(BoardTile::new(0, 0, TileType::Drain(BoardColor::Red)).can_capture());
    assert!(!BoardTile::new(0, 0, TileType::Wall).can_capture());

    assert_eq!(
        BoardTile::new(0, 0, TileType::Drain(BoardColor::Yellow)).get_color(),
        Some(BoardColor::Yellow)
    );
    assert_eq!(
        BoardTile::new(0, 0, TileType::RLColored(BoardColor::Green)).get_color(),
        Some(BoardColor::Green)
    );
    assert_eq!(BoardTile::new(0, 0, TileType::Wall).get_color(), None);
}

#[test]
fn game_starts_unpaused_with_fresh_board() {
    let game = Game::new();
    assert_eq!(game.score, 0);
    assert_eq!(game.time_remaining, 300);
    assert_eq!(game.level, 1);
    assert!(!game.paused);
    assert!(!game.board.is_win());
}

#[test]
fn click_spawns_deterministic_ball() {
    let mut game = Game::new();
    let n = game.board.balls.len();
    // Pixel (100, 150) with 48 px tiles is cell (3, 2): colour (3+2)%6 = 5
    // -> Gray, vx = ((3+2)%5 - 2) * 2 px = -4 px/frame, vy = -3 px/frame.
    game.handle_click(100, 150, 48);
    assert_eq!(game.board.balls.len(), n + 1);
    let b = game.board.balls[game.board.balls.len() - 1];
    assert_eq!((b.row, b.col), (3, 2));
    assert_eq!(b.color, BallColor::Gray);
    assert_eq!(b.vx, -4_000);
    assert_eq!(b.vy, -3_000);
    // A click outside the grid spawns nothing.
    game.handle_click(10_000, 10_000, 48);
    assert_eq!(game.board.balls.len(), n + 1);
}

#[test]
fn click_color_cycles_with_cell_sum() {
    let mut game = Game::new();
    game.handle_click(0, 48, 48);  // cell (1, 0): (1+0)%6 = 1 -> Blue
    let b = game.board.balls[game.board.balls.len() - 1];
    assert_eq!(b.color, BallColor::Blue);
    game.handle_click(48, 48, 48);  // cell (1, 1): 2 -> Green
    let b = game.board.balls[game.board.balls.len() - 1];
    assert_eq!(b.color, BallColor::Green);
    game.handle_click(96, 48, 48);  // cell (1, 2): 3 -> Yellow
    let b = game.board.balls[game.board.balls.len() - 1];
    assert_eq!(b.color, BallColor::Yellow);
}

#[test]
fn paused_game_does_not_tick() {
    let mut game = Game::new();
    game.toggle_pause();
    assert!(game.paused);
    let before: Vec<Ball> = game.board.balls.clone();
    game.update(1);
    assert_eq!(game.board.balls, before, "a paused tick changes nothing");
    game.toggle_pause();
    assert!(!game.paused);
    game.update(1);
    let b = game.board.balls[0];
    assert_eq!(b.vy, 148, "an unpaused tick applies gravity and friction");
}
