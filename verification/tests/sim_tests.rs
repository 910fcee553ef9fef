use firework::sim::{
    advance_rockets, cross_color, draw_cycle, flatten, make_grid, rasterize, should_exit,
    show_cross, FrameInput, Rocket, CROSS_DEFAULT, CROSS_LEFT, CROSS_MIDDLE, CROSS_RIGHT,
};
use firework::{HEIGHT, WIDTH};

#[test]
fn show_cross_ok() {
    let mut grid: Vec<Vec<u32>> = vec![vec![0_u32; 10]; 10];
    show_cross(&mut grid, (10, 10), (2, 3), 0x123456);

    // x axis
    assert_eq!(grid[6][2], 0x123456);

    // y axis
    assert_eq!(grid[3][8], 0x123456);

    // anywhere else
    assert_eq!(grid[0][0], 0);
}

#[test]
fn show_cross_covers_row_and_column_only() {
    let mut grid = make_grid(10, 10);
    show_cross(&mut grid, (10, 10), (2, 3), 0x123456);
    for i in 0..10 {
        assert_eq!(grid[3][i], 0x123456);
        assert_eq!(grid[i][2], 0x123456);
    }
    for j in 0..10 {
        for i in 0..10 {
            if j != 3 && i != 2 {
                assert_eq!(grid[j][i], 0);
            }
        }
    }
}

#[test]
fn trail_is_nonempty_exactly_for_nonzero_colors() {
    let bright = Rocket::with_color(0, 0, 0x123456);
    assert!(bright.trails.len() > 0);
    let black = Rocket::with_color(0, 0, 0);
    assert_eq!(black.trails.len(), 0);
}

#[test]
fn trail_fades_to_black() {
    let rk = Rocket::with_color(0, 0, 0xffffff);
    assert!(rk.trails.len() > 0);
    assert_eq!(*rk.trails.last().unwrap(), 0);
    let mut prev = rk.color;
    for &t in rk.trails.iter() {
        assert!(t < prev);
        prev = t;
    }
}

#[test]
fn single_rocket_advances_by_two_until_the_edge() {
    let mut rockets = vec![Rocket::with_color(4, 2, 0x0000ff)];
    advance_rockets(&mut rockets, 10);
    assert_eq!(rockets.len(), 1);
    assert_eq!(rockets[0].x, 6);
    assert_eq!(rockets[0].y, 2);
    advance_rockets(&mut rockets, 10);
    assert_eq!(rockets[0].x, 8);
    advance_rockets(&mut rockets, 10);
    assert!(rockets.is_empty());
}

#[test]
fn later_rocket_wins_overlapping_pixels() {
    let first = Rocket::with_color(5, 5, 0x101010);
    let second = Rocket::with_color(5, 5, 0x707070);
    let expected_head = second.color;
    let expected_trail = second.trails[0];
    let rockets = vec![first, second];
    let mut grid = make_grid(10, 10);
    rasterize(&mut grid, &rockets, (10, 10));
    assert_eq!(grid[5][5], expected_head);
    assert_eq!(grid[5][4], expected_trail);
}

#[test]
fn rasterize_draws_head_and_leftward_trail() {
    let rk = Rocket::with_color(3, 1, 0x405060);
    let head = rk.color;
    let t0 = rk.trails[0];
    let t1 = rk.trails[1];
    let t2 = rk.trails[2];
    let mut grid = make_grid(8, 4);
    rasterize(&mut grid, &vec![rk], (8, 4));
    assert_eq!(grid[1][3], head);
    assert_eq!(grid[1][2], t0);
    assert_eq!(grid[1][1], t1);
    assert_eq!(grid[1][0], t2);
    // the rest of the trail falls off the left edge silently
    assert_eq!(grid[0][0], 0);
    assert_eq!(grid[2][3], 0);
}

#[test]
fn flatten_is_row_major() {
    let mut grid = make_grid(4, 3);
    show_cross(&mut grid, (4, 3), (1, 2), 0xabcdef);
    let buf = flatten(&grid, (4, 3));
    assert_eq!(buf.len(), 12);
    for j in 0..3 {
        for i in 0..4 {
            assert_eq!(buf[j * 4 + i], grid[j][i]);
        }
    }
}

#[test]
fn cross_color_precedence() {
    assert_eq!(cross_color(true, true, true), CROSS_LEFT);
    assert_eq!(cross_color(true, false, false), CROSS_LEFT);
    assert_eq!(cross_color(false, true, true), CROSS_MIDDLE);
    assert_eq!(cross_color(false, false, true), CROSS_RIGHT);
    assert_eq!(cross_color(false, false, false), CROSS_DEFAULT);
    assert_eq!(CROSS_LEFT, 0xffffff);
    assert_eq!(CROSS_MIDDLE, 0xff0000);
    assert_eq!(CROSS_RIGHT, 0x0000ff);
    assert_eq!(CROSS_DEFAULT, 0xa0a0a0);
}

#[test]
fn exit_on_close_or_escape_only() {
    assert!(should_exit(false, false));
    assert!(should_exit(false, true));
    assert!(should_exit(true, true));
    assert!(!should_exit(true, false));
}

#[test]
fn draw_cycle_idle_frame_is_black() {
    let mut grid = make_grid(WIDTH, HEIGHT);
    let mut rockets: Vec<Rocket> = Vec::new();
    let input = FrameInput {
        spawn_key: false,
        mouse_pos: None,
        left_down: false,
        middle_down: false,
        right_down: false,
    };
    let buf = draw_cycle(&mut grid, &mut rockets, input, (WIDTH, HEIGHT));
    assert_eq!(buf.len(), WIDTH * HEIGHT);
    assert!(rockets.is_empty());
    assert_eq!(buf[0], 0);
    assert_eq!(buf[123 * WIDTH + 456], 0);
}

#[test]
fn draw_cycle_mouse_spawn_and_cross() {
    let mut grid = make_grid(WIDTH, HEIGHT);
    let mut rockets: Vec<Rocket> = Vec::new();
    let input = FrameInput {
        spawn_key: false,
        mouse_pos: Some((10, 20)),
        left_down: true,
        middle_down: false,
        right_down: false,
    };
    let buf = draw_cycle(&mut grid, &mut rockets, input, (WIDTH, HEIGHT));
    // a rocket was spawned at the cursor and advanced two columns
    assert_eq!(rockets.len(), 1);
    assert_eq!(rockets[0].x, 12);
    assert_eq!(rockets[0].y, 20);
    // the cross-hair, drawn in the left-button color, overlays the frame
    assert_eq!(buf[20 * WIDTH + 700], CROSS_LEFT);
    assert_eq!(buf[400 * WIDTH + 10], CROSS_LEFT);
    // cells off the cross and off the rocket stay black
    assert_eq!(buf[21 * WIDTH + 700], 0);
}

#[test]
fn draw_cycle_key_spawn_adds_one_rocket() {
    let mut grid = make_grid(WIDTH, HEIGHT);
    let mut rockets: Vec<Rocket> = Vec::new();
    let input = FrameInput {
        spawn_key: true,
        mouse_pos: None,
        left_down: false,
        middle_down: false,
        right_down: false,
    };
    let buf = draw_cycle(&mut grid, &mut rockets, input, (WIDTH, HEIGHT));
    assert_eq!(buf.len(), WIDTH * HEIGHT);
    assert_eq!(rockets.len(), 1);
    assert_eq!(rockets[0].x, 2);
    assert!(rockets[0].y < HEIGHT);
}

#[test]
fn draw_cycle_out_of_window_cursor_spawns_nothing() {
    let mut grid = make_grid(WIDTH, HEIGHT);
    let mut rockets: Vec<Rocket> = Vec::new();
    let input = FrameInput {
        spawn_key: false,
        mouse_pos: Some((WIDTH, 5)),
        left_down: true,
        middle_down: false,
        right_down: false,
    };
    let buf = draw_cycle(&mut grid, &mut rockets, input, (WIDTH, HEIGHT));
    assert!(rockets.is_empty());
    assert_eq!(buf[5 * WIDTH + 3], 0);
}
