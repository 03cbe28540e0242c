use tetris_core::game::{LOCK_COOLDOWN, MoveDirection, Tetris, drift_step};
use tetris_core::grid::{Grid, HEIGHT, WIDTH, clipping_top};
use tetris_core::piece::{Block, SHAPE_I, SHAPE_L, SQUARE, block_of_kind};

fn count_shape(b: &Block) -> usize {
    b.shape.iter().map(|r| r.iter().filter(|c| **c).count()).sum()
}

fn count_grid(g: &Grid) -> usize {
    g.rows.iter().map(|r| r.iter().filter(|c| **c).count()).sum()
}

fn columns_in_field(b: &Block) -> bool {
    (0..4).all(|i| (0..4).all(|j| !b.shape[i][j] || (0..8).contains(&(b.pos.0 as i32 + j as i32))))
}

#[test]
fn i_piece_falls_then_locks_on_floor() {
    let mut t = Tetris::init();
    t.spawn_kind(SHAPE_I);
    let b = t.get_block().unwrap();
    assert_eq!(b.size, 4);
    assert_eq!(b.pos, (4, 2));
    for k in 1..=3 {
        t.run();
        let b = t.get_block().expect("no lock yet");
        assert_eq!(b.pos, (4, 2 + k));
    }
    for _ in 4..=28 {
        t.run();
        assert!(t.get_block().is_some());
    }
    assert_eq!(t.get_block().unwrap().pos, (4, 30));
    t.run();
    assert!(t.get_block().is_none());
    let g = t.get_grid();
    for x in 0..WIDTH {
        assert_eq!(g.rows[HEIGHT - 1][x], x >= 4);
    }
    assert_eq!(count_grid(&g), 4);
    assert!(!t.has_ended());
    assert_eq!(t.get_score(), 0);
}

#[test]
fn seven_of_eight_qualifies() {
    let mut g = Grid::new();
    for x in 0..7 {
        g.set(20, x, true);
    }
    assert_eq!(g.row_count(20), 7);
    assert!(g.row_qualifies(20));
    g.set(19, 3, true);
    assert_eq!(g.first_full_row(), Some(20));
    assert_eq!(g.clear_full_rows(), 1);
    assert_eq!(count_grid(&g), 1);
    assert!(g.get(20, 3));
    assert!(!g.get(19, 3));
}

#[test]
fn six_of_eight_does_not_qualify() {
    let mut g = Grid::new();
    for x in 0..6 {
        g.set(20, x, true);
    }
    assert!(!g.row_qualifies(20));
    assert_eq!(g.first_full_row(), None);
    assert_eq!(g.clear_full_rows(), 0);
    assert_eq!(count_grid(&g), 6);
}

#[test]
fn square_turned_four_times_is_unchanged() {
    let mut t = Tetris::init();
    t.spawn_kind(SQUARE);
    let start = t.get_block().unwrap();
    for _ in 0..4 {
        t.rotate_block();
    }
    assert_eq!(t.get_block().unwrap().shape, start.shape);
    let b = Block::create_square();
    let r = b.rotated().rotated().rotated().rotated();
    assert_eq!(r, b);
}

#[test]
fn rotation_keeps_cell_count() {
    for kind in 0..7 {
        let b = block_of_kind(kind);
        let r = b.rotated();
        assert_eq!(count_shape(&r), count_shape(&b));
        assert_eq!(count_shape(&b), 4);
    }
    let l = Block::create_l();
    let r = l.rotated();
    assert_ne!(r.shape, l.shape);
    assert_eq!(r.shape[0], [false, true, false, false]);
    assert_eq!(r.shape[1], [false, true, false, false]);
    assert_eq!(r.shape[2], [false, true, true, false]);
}

#[test]
fn rejected_rotation_leaves_piece_unchanged() {
    let mut t = Tetris::init();
    t.spawn_kind(SHAPE_I);
    for _ in 0..28 {
        t.run();
    }
    let before = t.get_block().unwrap();
    assert_eq!(before.pos, (4, 30));
    t.rotate_block();
    assert_eq!(t.get_block().unwrap(), before);
}

#[test]
fn accepted_rotation_turns_piece() {
    let mut t = Tetris::init();
    t.spawn_kind(SHAPE_I);
    t.rotate_block();
    let b = t.get_block().unwrap();
    assert_eq!(b.pos, (4, 2));
    for i in 0..4 {
        for j in 0..4 {
            assert_eq!(b.shape[i][j], j == 2);
        }
    }
}

#[test]
fn drift_stays_within_columns() {
    let mut t = Tetris::init();
    t.spawn_kind(SHAPE_L);
    let mut cols = Vec::new();
    for _ in 0..40 {
        t.move_block();
        let b = t.get_block().unwrap();
        assert!(columns_in_field(&b));
        cols.push(b.pos.0);
    }
    assert!(cols.contains(&0));
    assert!(cols.contains(&5));
}

#[test]
fn drift_bounces_off_the_wall() {
    let g = Grid::new();
    let b = Block::create_i();
    let (m, d) = drift_step(&g, &b, MoveDirection::Right);
    assert_eq!(m.pos, (3, 2));
    assert_eq!(d, MoveDirection::Left);
    let (m2, d2) = drift_step(&g, &m, d);
    assert_eq!(m2.pos, (2, 2));
    assert_eq!(d2, MoveDirection::Left);
}

#[test]
fn wedged_piece_stays_put() {
    let mut g = Grid::new();
    for y in 0..HEIGHT {
        g.set(y, 3, true);
    }
    let mut b = Block::create_square();
    b.pos = (4, 5);
    let mut wedge = g;
    for y in 0..HEIGHT {
        wedge.set(y, 6, true);
    }
    let (m, d) = drift_step(&wedge, &b, MoveDirection::Left);
    assert_eq!(m, b);
    assert_eq!(d, MoveDirection::Right);
}

#[test]
fn lock_adds_piece_cells_and_clears_piece() {
    let mut t = Tetris::init();
    t.spawn_kind(SQUARE);
    for _ in 0..30 {
        t.run();
        if t.get_block().is_none() {
            break;
        }
    }
    assert!(t.get_block().is_none());
    assert_eq!(count_grid(&t.get_grid()), 4);
}

#[test]
fn cooldown_delays_next_spawn() {
    let mut t = Tetris::init();
    t.spawn_kind(SHAPE_I);
    while t.get_block().is_some() {
        t.run();
    }
    for _ in 0..LOCK_COOLDOWN {
        t.run();
        assert!(t.get_block().is_none());
    }
    t.run();
    assert!(t.get_block().is_some());
}

#[test]
fn clear_row_compacts_downward() {
    let mut g = Grid::new();
    g.set(0, 1, true);
    g.set(4, 2, true);
    for x in 0..8 {
        g.set(5, x, true);
    }
    g.set(6, 7, true);
    g.clear_row(5);
    assert!((0..8).all(|x| !g.get(0, x)));
    assert!(g.get(1, 1));
    assert!(g.get(5, 2));
    assert!(g.get(6, 7));
    assert_eq!(count_grid(&g), 3);
}

#[test]
fn top_row_clears_too() {
    let mut g = Grid::new();
    for x in 0..7 {
        g.set(0, x, true);
    }
    assert_eq!(g.clear_full_rows(), 1);
    assert_eq!(count_grid(&g), 0);
}

#[test]
fn cascade_clears_several_rows() {
    let mut g = Grid::new();
    for x in 0..8 {
        g.set(30, x, true);
        g.set(31, x, true);
    }
    g.set(29, 0, true);
    assert_eq!(g.clear_full_rows(), 2);
    assert_eq!(count_grid(&g), 1);
    assert!(g.get(31, 0));
}

#[test]
fn game_ends_and_then_freezes() {
    let mut t = Tetris::init();
    let mut n = 0;
    while !t.has_ended() && n < 100_000 {
        t.run();
        n += 1;
    }
    assert!(t.has_ended());
    let grid = t.get_grid();
    let score = t.get_score();
    let block = t.get_block();
    for _ in 0..20 {
        t.run();
        assert_eq!(t.get_grid(), grid);
        assert_eq!(t.get_score(), score);
        assert!(t.has_ended());
        assert_eq!(t.get_block(), block);
    }
}

#[test]
fn spawner_first_pieces_vary() {
    let mut t = Tetris::init();
    let mut shapes = Vec::new();
    for _ in 0..20 {
        if t.has_ended() {
            break;
        }
        t.add_block();
        let b = t.get_block().unwrap();
        assert_eq!(count_shape(&b), 4);
        assert_eq!(b.pos.0, 4);
        shapes.push(b.shape);
        while t.get_block().is_some() && !t.has_ended() {
            t.run();
        }
    }
    assert!(shapes.len() >= 2);
    assert!(shapes.iter().any(|s| *s != shapes[0]));
}

#[test]
fn clipping_top_detects_high_piece() {
    let b = Block::create_square();
    assert!(clipping_top(&b));
    let mut low = b;
    low.pos = (4, 2);
    assert!(!clipping_top(&low));
}

#[test]
fn edge_detection() {
    let mut t = Tetris::init();
    assert!(!t.block_at_edge());
    t.spawn_kind(SHAPE_I);
    assert!(t.block_at_edge());
    t.move_block();
    assert!(!t.block_at_edge());
}

#[test]
fn move_left_and_right() {
    let mut b = Block::create_t();
    b.move_left();
    assert_eq!(b.pos, (3, 1));
    b.move_right();
    b.move_right();
    assert_eq!(b.pos, (5, 1));
}
