use labyrinth::cell::Flag;
use labyrinth::grid::Pos;
use labyrinth::screen::{
    spawn_2d_camera, spawn_2d_sprites, spawn_3d_camera, toggle_window_mode, Backdrop,
    GridToPixel, WindowMode, SCREEN_GRIDS_HEIGHT, SCREEN_GRIDS_WIDTH, SCREEN_PIXELS_HEIGHT,
    SCREEN_PIXELS_WIDTH,
};
use labyrinth::state::{goto_state_after_init_app, AfterInitApp, MyState};

#[test]
fn screen_pixels() {
    assert_eq!(SCREEN_PIXELS_WIDTH, 1376);
    assert_eq!(SCREEN_PIXELS_HEIGHT, 768);
    assert_eq!(Pos::new(0, 0).to_screen_pixel(), (-672, 368));
    assert_eq!(Pos::new(42, 23).to_screen_pixel(), (672, -368));
    assert_eq!(Pos::new(3, -2).to_3dxz(), (3, 0, -2));
}

#[test]
fn debug_sprites_cover_the_window() {
    let v = spawn_2d_sprites();
    assert_eq!(v.len(), (SCREEN_GRIDS_WIDTH * SCREEN_GRIDS_HEIGHT) as usize);
    assert_eq!(v[0], (-672, 368));
    assert_eq!(v[1], (-672, 336));
    assert_eq!(v[24], (-640, 368));
    assert_eq!(v[v.len() - 1], (672, -368));
}

#[test]
fn window_mode_toggles() {
    let none: Vec<bool> = vec![false, false];
    assert_eq!(toggle_window_mode(WindowMode::Windowed, true, false, true, &none), WindowMode::SizedFullscreen);
    assert_eq!(toggle_window_mode(WindowMode::Windowed, false, true, true, &none), WindowMode::SizedFullscreen);
    assert_eq!(toggle_window_mode(WindowMode::SizedFullscreen, true, false, true, &none), WindowMode::Windowed);
    assert_eq!(toggle_window_mode(WindowMode::Fullscreen, false, true, true, &vec![]), WindowMode::Windowed);
    assert_eq!(toggle_window_mode(WindowMode::Windowed, true, true, false, &none), WindowMode::Windowed);
    assert_eq!(toggle_window_mode(WindowMode::Windowed, false, false, true, &none), WindowMode::Windowed);
    assert_eq!(toggle_window_mode(WindowMode::Windowed, false, false, false, &vec![false, true]), WindowMode::SizedFullscreen);
    assert_eq!(toggle_window_mode(WindowMode::BorderlessFullscreen, false, false, false, &vec![true]), WindowMode::Windowed);
}

#[test]
fn cameras_stack_2d_over_3d() {
    let a = spawn_2d_camera();
    let b = spawn_3d_camera();
    assert_eq!(a.order, 1);
    assert_eq!(b.order, 0);
    assert_eq!(a.backdrop, Backdrop::Transparent);
    assert_eq!(b.backdrop, Backdrop::Background);
}

#[test]
fn state_after_init_app() {
    let a = AfterInitApp { state: MyState::GameStart };
    assert_eq!(goto_state_after_init_app(Some(&a)), Some(MyState::GameStart));
    assert_eq!(goto_state_after_init_app(None), None);
    assert_eq!(MyState::default(), MyState::LoadAssets);
}

#[test]
fn flags_are_independent_bits() {
    let mut f = Flag::space();
    assert!(f.is_space() && !f.is_wall() && !f.is_deadend());
    f.add_deadend();
    assert!(f.is_space() && !f.is_wall() && f.is_deadend());
    let mut w = Flag::wall();
    w.add_deadend();
    assert!(w.is_wall() && w.is_deadend() && !w.is_space());
    let u = Flag::undefined();
    assert!(!u.is_space() && !u.is_wall() && !u.is_deadend());
}

#[test]
fn frame_bricks_skip_spaces() {
    let design = ["# #", "", " ##"];
    let v = labyrinth::screen::spawn_screen_frame(&design);
    assert_eq!(v, vec![Pos::new(0, 0), Pos::new(2, 0), Pos::new(1, 2), Pos::new(2, 2)]);
    let empty: [&str; 0] = [];
    assert!(labyrinth::screen::spawn_screen_frame(&empty).is_empty());
}
