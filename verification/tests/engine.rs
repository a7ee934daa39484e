use infinitris::game::{advance, detect_collision, ghost_row, hard_drop, move_horizontal,
    move_piece, new_game, rotate, rotate_piece, set_next_piece, Game, HeightPolicy};
use infinitris::piece::effective_piece;
use infinitris::pool::PiecePool;

fn empty_row(width: usize) -> Vec<u32> {
    vec![0; width]
}

fn classic_square() -> Game {
    Game {
        world: Vec::new(),
        width: 16,
        policy: HeightPolicy::Fixed(20),
        next_gen: 1,
        piece_index: 3,
        orient: 0,
        y: 20,
        x: 6,
    }
}

#[test]
fn rotation_closure_all_pieces() {
    for index in 0..7 {
        for orient in 0..4 {
            let before = effective_piece(index, orient);
            let after = effective_piece(index, orient + 4);
            assert_eq!(before.cells, after.cells);
            assert_eq!(before.width, after.width);
            assert_eq!(before.height, after.height);
        }
    }
}

#[test]
fn bounding_box_duality() {
    for index in 0..7 {
        let base = effective_piece(index, 0);
        for orient in 0..8 {
            let turned = effective_piece(index, orient);
            if orient % 2 == 0 {
                assert_eq!((turned.width, turned.height), (base.width, base.height));
            } else {
                assert_eq!((turned.width, turned.height), (base.height, base.width));
            }
        }
    }
}

#[test]
fn one_turn_of_the_bar() {
    // The 4x1 bar turned once is a 1x4 column packed into the top-left corner.
    let p = effective_piece(0, 1);
    assert_eq!(p.width, 1);
    assert_eq!(p.height, 4);
    for r in 0..4 {
        for c in 0..4 {
            assert_eq!(p.cells[r * 4 + c], c == 0, "cell ({r},{c})");
        }
    }
}

#[test]
fn square_is_rotation_invariant() {
    let base = effective_piece(3, 0);
    for orient in 1..4 {
        let turned = effective_piece(3, orient);
        assert_eq!(base.cells, turned.cells);
    }
}

#[test]
fn collision_at_floor() {
    let game = classic_square();
    let piece = game.effective_piece();
    assert!(detect_collision(&game, 0, &piece));
    assert!(!detect_collision(&game, 1, &piece));
}

#[test]
fn collision_on_stack() {
    let mut game = classic_square();
    let mut row = empty_row(16);
    row[6] = 9;
    game.world.push(row);
    let piece = game.effective_piece();
    // Bottom of the square directly above the occupied cell.
    assert!(detect_collision(&game, 1, &piece));
    // One row higher it still falls freely.
    assert!(!detect_collision(&game, 2, &piece));
}

#[test]
fn move_refused_at_walls() {
    let mut game = classic_square();
    game.x = 0;
    move_piece(&mut game, -1);
    assert_eq!(game.x, 0);
    game.x = 14; // square is 2 wide on a 16-wide board
    assert!(!move_horizontal(&mut game, 1));
    assert_eq!(game.x, 14);
    assert!(move_horizontal(&mut game, -1));
    assert_eq!(game.x, 13);
}

#[test]
fn move_refused_on_occupied_cell() {
    let mut game = classic_square();
    game.y = 0;
    let mut row = empty_row(16);
    row[8] = 3; // just right of the square at columns 6..8
    game.world.push(row);
    assert!(!move_horizontal(&mut game, 1));
    assert_eq!(game.x, 6);
    assert!(move_horizontal(&mut game, -1));
    assert_eq!(game.x, 5);
}

#[test]
fn rotate_refused_at_right_boundary() {
    // A vertical bar on the right edge cannot turn back to horizontal.
    let mut game = Game {
        world: Vec::new(),
        width: 10,
        policy: HeightPolicy::Growing(10),
        next_gen: 1,
        piece_index: 0,
        orient: 1,
        y: 5,
        x: 9,
    };
    assert!(!rotate(&mut game));
    assert_eq!(game.orient, 1);
    game.x = 6;
    assert!(rotate(&mut game));
    assert_eq!(game.orient, 0);
}

#[test]
fn rotate_refused_on_occupied_cell() {
    let mut game = Game {
        world: Vec::new(),
        width: 10,
        policy: HeightPolicy::Growing(10),
        next_gen: 1,
        piece_index: 0,
        orient: 0,
        y: 0,
        x: 0,
    };
    let mut row = empty_row(10);
    row[0] = 7;
    game.world.push(row);
    // Turning the horizontal bar in place would put its column on the
    // occupied cell.
    rotate_piece(&mut game);
    assert_eq!(game.orient, 0);
}

#[test]
fn advance_falls_one_row() {
    let mut game = classic_square();
    assert!(!advance(&mut game));
    assert_eq!(game.y, 19);
    assert_eq!(game.world.len(), 0);
    assert_eq!(game.next_gen, 1);
}

#[test]
fn classic_square_locks_at_floor() {
    let mut game = classic_square();
    for _ in 0..20 {
        assert!(!advance(&mut game));
    }
    assert_eq!(game.y, 0);
    assert!(advance(&mut game));
    assert_eq!(game.world.len(), 2);
    for r in 0..2 {
        for c in 0..16 {
            let expected = if c == 6 || c == 7 { 4 } else { 0 };
            assert_eq!(game.world[r][c], expected, "row {r} column {c}");
        }
    }
    assert_eq!(game.x, 6);
    assert_eq!(game.y, 20);
    assert_eq!(game.orient, 0);
    // The fixed-height variant leaves the generation counter alone.
    assert_eq!(game.next_gen, 1);
}

#[test]
fn hard_drop_matches_stepped_drop() {
    let mut stepped = classic_square();
    while !advance(&mut stepped) {}
    let mut dropped = classic_square();
    hard_drop(&mut dropped);
    assert_eq!(stepped.world, dropped.world);
    assert_eq!(stepped.y, dropped.y);
    assert_eq!(stepped.x, dropped.x);
    assert_eq!(stepped.orient, dropped.orient);
}

#[test]
fn nearly_full_row_clears_on_lock() {
    // One stored row, full except column 3; a square at columns 3-4
    // completes it. The completed row is removed: the count drops from the
    // two spanned rows back to one.
    let mut row = empty_row(10);
    for c in 0..10 {
        if c != 3 {
            row[c] = 5;
        }
    }
    let mut game = Game {
        world: vec![row],
        width: 10,
        policy: HeightPolicy::Growing(10),
        next_gen: 9,
        piece_index: 3,
        orient: 0,
        y: 0,
        x: 3,
    };
    assert!(advance(&mut game));
    assert_eq!(game.world.len(), 1);
    for c in 0..10 {
        let expected = if c == 3 || c == 4 { 9 } else { 0 };
        assert_eq!(game.world[0][c], expected, "column {c}");
    }
    assert_eq!(game.next_gen, 10);
    assert_eq!(game.y, 11);
}

#[test]
fn no_full_rows_survive_a_lock() {
    // Two nearly-full rows; a vertical bar at column 3 completes both.
    let mut r0 = empty_row(10);
    let mut r1 = empty_row(10);
    for c in 0..10 {
        if c != 3 {
            r0[c] = 1;
            r1[c] = 2;
        }
    }
    let mut game = Game {
        world: vec![r0, r1],
        width: 10,
        policy: HeightPolicy::Growing(10),
        next_gen: 3,
        piece_index: 0,
        orient: 1,
        y: 0,
        x: 3,
    };
    assert!(advance(&mut game));
    for row in &game.world {
        assert!(row.iter().any(|&cell| cell == 0));
    }
    // The bar spanned rows 0-3; rows 0 and 1 were completed and removed.
    assert_eq!(game.world.len(), 2);
    for r in 0..2 {
        for c in 0..10 {
            let expected = if c == 3 { 3 } else { 0 };
            assert_eq!(game.world[r][c], expected, "row {r} column {c}");
        }
    }
}

#[test]
fn endless_tags_strictly_increase() {
    let mut game = Game {
        world: Vec::new(),
        width: 10,
        policy: HeightPolicy::Growing(10),
        next_gen: 1,
        piece_index: 3,
        orient: 0,
        y: 3,
        x: 0,
    };
    hard_drop(&mut game);
    let first_tag = game.world[0][0];
    assert_eq!(first_tag, 1);
    assert_eq!(game.next_gen, 2);
    game.x = 4;
    game.y = game.world.len() + 2;
    hard_drop(&mut game);
    let second_tag = game.world[0][4];
    assert_eq!(second_tag, 2);
    assert!(second_tag > first_tag);
    assert_eq!(game.next_gen, 3);
}

#[test]
fn ghost_row_on_empty_board_is_floor() {
    let game = classic_square();
    assert_eq!(ghost_row(&game), 0);
    assert_eq!(game.y, 20);
}

#[test]
fn ghost_row_rests_on_stack() {
    let mut game = classic_square();
    let mut row = empty_row(16);
    row[7] = 2;
    game.world.push(row);
    // The square at columns 6-7 lands on top of the occupied cell.
    assert_eq!(ghost_row(&game), 1);
    game.x = 9;
    // Away from the stack it falls to the floor.
    assert_eq!(ghost_row(&game), 0);
}

#[test]
fn growing_board_appends_rows_at_lock() {
    let mut game = Game {
        world: vec![empty_row(10)],
        width: 10,
        policy: HeightPolicy::Growing(10),
        next_gen: 6,
        piece_index: 3,
        orient: 0,
        y: 1,
        x: 0,
    };
    game.world[0][0] = 5;
    assert!(advance(&mut game));
    assert_eq!(game.world.len(), 3);
    assert_eq!(game.world[1][0], 6);
    assert_eq!(game.world[2][0], 6);
    assert_eq!(game.world[1][1], 6);
    assert_eq!(game.world[2][1], 6);
    assert_eq!(game.world[0][0], 5);
    assert_eq!(game.y, 13);
}

#[test]
fn pool_draws_each_piece_four_times() {
    let mut pool = PiecePool::new();
    let mut counts = [0usize; 7];
    for _ in 0..28 {
        let index = pool.draw();
        assert!(index < 7);
        counts[index] += 1;
    }
    assert_eq!(counts, [4; 7]);
    assert_eq!(pool.pool.len(), 0);
    // The next draw refills the pool.
    let index = pool.draw();
    assert!(index < 7);
    assert_eq!(pool.pool.len(), 27);
}

#[test]
fn new_game_spawns_centered() {
    let mut pool = PiecePool::new();
    let game = new_game(10, HeightPolicy::Growing(10), &mut pool);
    assert_eq!(game.world.len(), 0);
    assert_eq!(game.width, 10);
    assert_eq!(game.next_gen, 1);
    assert_eq!(game.orient, 0);
    assert_eq!(game.x, 3);
    assert_eq!(game.y, 10);
    assert!(game.piece_index < 7);
    let classic = new_game(16, HeightPolicy::Fixed(20), &mut pool);
    assert_eq!(classic.x, 6);
    assert_eq!(classic.y, 20);
}

#[test]
fn set_next_piece_resets_orientation() {
    let mut game = classic_square();
    game.orient = 2;
    set_next_piece(&mut game, 5);
    assert_eq!(game.piece_index, 5);
    assert_eq!(game.orient, 0);
    assert_eq!(game.x, 6);
    assert_eq!(game.y, 20);
}

#[test]
fn one_turn_of_the_s_piece() {
    // The S piece (.XX / XX..) turned one quarter counter-clockwise step:
    // a 2x3 column pair packed to the top-left corner.
    let p = effective_piece(4, 1);
    assert_eq!(p.width, 2);
    assert_eq!(p.height, 3);
    let mut expected = [false; 16];
    expected[0] = true; // (0,0)
    expected[4] = true; // (1,0)
    expected[5] = true; // (1,1)
    expected[9] = true; // (2,1)
    assert_eq!(p.cells, expected.to_vec());
}
