use vstd::prelude::*;
use vstd::string::StringSliceAdditionalSpecFns;
use crate::grid::Pos;

verus! {

/// Width of the window, in grids.
pub const SCREEN_GRIDS_WIDTH: i32 = 43;
/// Height of the window, in grids.
pub const SCREEN_GRIDS_HEIGHT: i32 = 24;
/// Side of one grid in the source art, in pixels.
pub const BASE_PIXELS: i32 = 8;
/// Magnification of the source art.
pub const SCALING: i32 = 4;
/// Side of one grid on screen, in pixels.
pub const PIXELS_PER_GRID: i32 = BASE_PIXELS * SCALING;
/// Width of the window, in pixels.
pub const SCREEN_PIXELS_WIDTH: i32 = PIXELS_PER_GRID * SCREEN_GRIDS_WIDTH;
/// Height of the window, in pixels.
pub const SCREEN_PIXELS_HEIGHT: i32 = PIXELS_PER_GRID * SCREEN_GRIDS_HEIGHT;

/// Horizontal screen coordinate of the centre of grid column `x`; the origin is the window's
/// centre.
pub open spec fn pixel_x(x: int) -> int {
    -(SCREEN_PIXELS_WIDTH / 2) + PIXELS_PER_GRID * x + PIXELS_PER_GRID / 2
}

/// Vertical screen coordinate of the centre of grid row `y`; screen `y` grows upwards.
pub open spec fn pixel_y(y: int) -> int {
    SCREEN_PIXELS_HEIGHT / 2 - PIXELS_PER_GRID * y - PIXELS_PER_GRID / 2
}

/// Conversions from a grid coordinate to screen and world coordinates.
pub trait GridToPixel {
    /// The grid coordinate that the value stands for.
    spec fn grid(&self) -> (int, int);

    /// The centre of the grid on screen, in pixels.
    fn to_screen_pixel(&self) -> (r: (i64, i64))
        ensures
            r.0 == pixel_x(self.grid().0),
            r.1 == pixel_y(self.grid().1),
    ;

    /// The grid laid on the world's XZ plane: `(x, 0, y)`.
    fn to_3dxz(&self) -> (r: (i64, i64, i64))
        ensures
            r == (self.grid().0 as i64, 0i64, self.grid().1 as i64),
    ;
}

impl GridToPixel for Pos {
    open spec fn grid(&self) -> (int, int) {
        (self.x as int, self.y as int)
    }

    fn to_screen_pixel(&self) -> (r: (i64, i64)) {
        let ppg = PIXELS_PER_GRID as i64;
        let x = -(SCREEN_PIXELS_WIDTH as i64 / 2) + ppg * (self.x as i64) + ppg / 2;
        let y = SCREEN_PIXELS_HEIGHT as i64 / 2 - ppg * (self.y as i64) - ppg / 2;
        (x, y)
    }

    fn to_3dxz(&self) -> (r: (i64, i64, i64)) {
        (self.x as i64, 0, self.y as i64)
    }
}

/// Where the debug grid sprites go: the centre of every grid of the window, column by column
/// from the left, each column from the top.
pub fn spawn_2d_sprites() -> (r: Vec<(i64, i64)>)
    ensures
        r@.len() == SCREEN_GRIDS_WIDTH * SCREEN_GRIDS_HEIGHT,
        forall|x: int, y: int|
            0 <= x < SCREEN_GRIDS_WIDTH && 0 <= y < SCREEN_GRIDS_HEIGHT ==> #[trigger] r@[x
                * SCREEN_GRIDS_HEIGHT + y] == (pixel_x(x) as i64, pixel_y(y) as i64),
{
    let mut r: Vec<(i64, i64)> = Vec::new();
    let mut x: i32 = 0;
    while x < SCREEN_GRIDS_WIDTH
        invariant
            0 <= x <= SCREEN_GRIDS_WIDTH,
            r@.len() == x * SCREEN_GRIDS_HEIGHT,
            forall|i: int, j: int|
                0 <= i < x && 0 <= j < SCREEN_GRIDS_HEIGHT ==> #[trigger] r@[i * SCREEN_GRIDS_HEIGHT
                    + j] == (pixel_x(i) as i64, pixel_y(j) as i64),
        decreases SCREEN_GRIDS_WIDTH - x,
    {
        let mut y: i32 = 0;
        while y < SCREEN_GRIDS_HEIGHT
            invariant
                0 <= x < SCREEN_GRIDS_WIDTH,
                0 <= y <= SCREEN_GRIDS_HEIGHT,
                r@.len() == x * SCREEN_GRIDS_HEIGHT + y,
                forall|i: int, j: int|
                    0 <= i < x && 0 <= j < SCREEN_GRIDS_HEIGHT ==> #[trigger] r@[i
                        * SCREEN_GRIDS_HEIGHT + j] == (pixel_x(i) as i64, pixel_y(j) as i64),
                forall|j: int|
                    0 <= j < y ==> #[trigger] r@[x * SCREEN_GRIDS_HEIGHT + j] == (
                        pixel_x(x as int) as i64,
                        pixel_y(j) as i64,
                    ),
            decreases SCREEN_GRIDS_HEIGHT - y,
        {
            r.push(Pos::new(x, y).to_screen_pixel());
            y = y + 1;
        }
        x = x + 1;
    }
    r
}

/// How a window is shown.
#[derive(Clone, Copy, PartialEq, Eq, Structural, Debug)]
pub enum WindowMode {
    Windowed,
    BorderlessFullscreen,
    SizedFullscreen,
    Fullscreen,
}

/// The mode that a toggle switches to: a window goes full screen, anything else back to a window.
pub open spec fn toggled(mode: WindowMode) -> WindowMode {
    match mode {
        WindowMode::Windowed => WindowMode::SizedFullscreen,
        _ => WindowMode::Windowed,
    }
}

/// Switches between window and full screen on Alt+Enter, or on Select of any game pad
/// (`select_pressed` holds one entry per game pad); with neither, the mode stays.
pub fn toggle_window_mode(
    mode: WindowMode,
    alt_right: bool,
    alt_left: bool,
    return_pressed: bool,
    select_pressed: &Vec<bool>,
) -> (r: WindowMode)
    ensures
        r == if (alt_right || alt_left) && return_pressed || exists|i: int|
            0 <= i < select_pressed@.len() && #[trigger] select_pressed@[i] {
            toggled(mode)
        } else {
            mode
        },
{
    let is_key_pressed = (alt_right || alt_left) && return_pressed;
    let mut is_gpdbtn_pressed = false;
    let mut i: usize = 0;
    while i < select_pressed.len()
        invariant_except_break
            !is_gpdbtn_pressed,
        invariant
            i <= select_pressed@.len(),
            forall|j: int| 0 <= j < i ==> !#[trigger] select_pressed@[j],
        ensures
            is_gpdbtn_pressed ==> i < select_pressed@.len() && select_pressed@[i as int],
            !is_gpdbtn_pressed ==> forall|j: int|
                0 <= j < select_pressed@.len() ==> !#[trigger] select_pressed@[j],
        decreases select_pressed@.len() - i,
    {
        if select_pressed[i] {
            is_gpdbtn_pressed = true;
            break ;
        }
        i = i + 1;
    }
    if !is_key_pressed && !is_gpdbtn_pressed {
        return mode;
    }
    match mode {
        WindowMode::Windowed => WindowMode::SizedFullscreen,
        _ => WindowMode::Windowed,
    }
}

/// What the screen shows behind a camera's picture.
#[derive(Clone, Copy, PartialEq, Eq, Structural, Debug)]
pub enum Backdrop {
    /// Nothing: the layers below show through.
    Transparent,
    /// The application's background colour.
    Background,
}

/// The drawing order and backdrop of a camera; a higher order is drawn later, on top.
#[derive(Clone, Copy, PartialEq, Eq, Structural, Debug)]
pub struct CameraLayer {
    pub order: isize,
    pub backdrop: Backdrop,
}

/// Rendering order of the 2D camera.
pub const CAMERA2D_ORDER: isize = 1;
/// Rendering order of the 3D camera.
pub const CAMERA3D_ORDER: isize = 0;

/// The 2D camera: drawn over the 3D picture, with a transparent backdrop.
pub fn spawn_2d_camera() -> (r: CameraLayer)
    ensures
        r == (CameraLayer { order: CAMERA2D_ORDER, backdrop: Backdrop::Transparent }),
{
    CameraLayer { order: CAMERA2D_ORDER, backdrop: Backdrop::Transparent }
}

/// The 3D camera: drawn first, over the background colour.
pub fn spawn_3d_camera() -> (r: CameraLayer)
    ensures
        r == (CameraLayer { order: CAMERA3D_ORDER, backdrop: Backdrop::Background }),
        r.order < CAMERA2D_ORDER,
{
    CameraLayer { order: CAMERA3D_ORDER, backdrop: Backdrop::Background }
}


/// The bricks of one line of a frame design among its first `n` bytes: one at each column whose
/// byte is not a space, from the left.
pub open spec fn line_bricks(line: Seq<u8>, y: int, n: int) -> Seq<Pos>
    decreases n,
{
    if n <= 0 {
        seq![]
    } else if line[n - 1] != 32u8 {
        line_bricks(line, y, n - 1).push(Pos { x: (n - 1) as i32, y: y as i32 })
    } else {
        line_bricks(line, y, n - 1)
    }
}

/// The bricks of the first `m` lines of a frame design, line by line from the top.
pub open spec fn frame_bricks(design: Seq<&str>, m: int) -> Seq<Pos>
    decreases m,
{
    if m <= 0 {
        seq![]
    } else {
        frame_bricks(design, m - 1) + line_bricks(
            design[m - 1].spec_bytes(),
            m - 1,
            design[m - 1].spec_bytes().len() as int,
        )
    }
}

/// Where the bricks of the screen frame go: the grid of every character of `design` (ASCII art,
/// one line per grid row) that is not a space.
pub fn spawn_screen_frame(design: &[&str]) -> (r: Vec<Pos>)
    requires
        design@.len() <= i32::MAX,
        forall|y: int| 0 <= y < design@.len() ==> (#[trigger] design@[y]).spec_bytes().len() <= i32::MAX,
    ensures
        r@ == frame_bricks(design@, design@.len() as int),
{
    let mut r: Vec<Pos> = Vec::new();
    let mut y: usize = 0;
    while y < design.len()
        invariant
            y <= design@.len(),
            design@.len() <= i32::MAX,
            forall|j: int| 0 <= j < design@.len() ==> (#[trigger] design@[j]).spec_bytes().len() <= i32::MAX,
            r@ == frame_bricks(design@, y as int),
        decreases design@.len() - y,
    {
        let line: &[u8] = design[y].as_bytes();
        let ghost before = r@;
        let mut x: usize = 0;
        while x < line.len()
            invariant
                y < design@.len() <= i32::MAX,
                x <= line@.len() <= i32::MAX,
                line@ == design@[y as int].spec_bytes(),
                r@ == before + line_bricks(line@, y as int, x as int),
            decreases line@.len() - x,
        {
            if line[x] != 32u8 {
                r.push(Pos { x: x as i32, y: y as i32 });
                assert(r@ =~= before + line_bricks(line@, y as int, x + 1));
            }
            x = x + 1;
        }
        y = y + 1;
    }
    r
}

} // verus!
