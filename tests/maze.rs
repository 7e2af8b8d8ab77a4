use labyrinth::grid::{News, Pos};
use labyrinth::map::{make_new_data, MazeMap, MAP_GRIDS_HEIGHT, MAP_GRIDS_WIDTH, SEED_DEV};

fn render(map: &MazeMap) -> Vec<String> {
    let mut rows = Vec::new();
    for y in 0..map.height() {
        let mut row = String::new();
        for x in 0..map.width() {
            let p = Pos::new(x, y);
            let c = if map.is_wall(p) {
                '#'
            } else if map.is_deadend(p) {
                '.'
            } else {
                ' '
            };
            row.push(c);
        }
        rows.push(row);
    }
    rows
}

fn generated(width: i32, height: i32, seed: u64) -> MazeMap {
    let mut map = MazeMap::new(width, height, seed);
    make_new_data(&mut map);
    map
}

fn spaces(map: &MazeMap) -> Vec<(i32, i32)> {
    let mut v = Vec::new();
    for x in 0..map.width() {
        for y in 0..map.height() {
            if map.is_space(Pos::new(x, y)) {
                v.push((x, y));
            }
        }
    }
    v
}

fn edge_count(map: &MazeMap) -> usize {
    let mut n = 0;
    for (x, y) in spaces(map) {
        if map.is_space(Pos::new(x + 1, y)) {
            n += 1;
        }
        if map.is_space(Pos::new(x, y + 1)) {
            n += 1;
        }
    }
    n
}

fn reachable_count(map: &MazeMap) -> usize {
    let w = map.width() as usize;
    let h = map.height() as usize;
    let mut seen = vec![false; w * h];
    let s = map.start();
    let mut stack = vec![(s.x, s.y)];
    seen[s.y as usize * w + s.x as usize] = true;
    let mut n = 0;
    while let Some((x, y)) = stack.pop() {
        n += 1;
        for (dx, dy) in [(0, -1), (1, 0), (-1, 0), (0, 1)] {
            let (a, b) = (x + dx, y + dy);
            if map.is_space(Pos::new(a, b)) && !seen[b as usize * w + a as usize] {
                seen[b as usize * w + a as usize] = true;
                stack.push((a, b));
            }
        }
    }
    n
}

#[test]
fn seven_by_seven_layout_is_recorded() {
    let map = generated(7, 7, SEED_DEV);
    assert_eq!(map.start(), Pos::new(3, 3));
    let rows = render(&map);
    let expected = vec![
        "#######",
        "#.....#",
        "#.##.##",
        "#.# .##",
        "#.##..#",
        "#..##.#",
        "#######",
    ];
    assert_eq!(rows, expected);
}

#[test]
fn same_seed_same_maze() {
    let a = generated(MAP_GRIDS_WIDTH, MAP_GRIDS_HEIGHT, 42);
    let b = generated(MAP_GRIDS_WIDTH, MAP_GRIDS_HEIGHT, 42);
    assert_eq!(render(&a), render(&b));
    let c = generated(7, 7, SEED_DEV);
    let d = generated(7, 7, SEED_DEV);
    assert_eq!(render(&c), render(&d));
}

#[test]
fn every_open_cell_is_reachable_from_start() {
    for seed in [1u64, 2, 3, SEED_DEV] {
        let map = generated(MAP_GRIDS_WIDTH, MAP_GRIDS_HEIGHT, seed);
        assert_eq!(reachable_count(&map), spaces(&map).len());
    }
}

#[test]
fn open_cells_form_a_tree() {
    for seed in [1u64, 2, 3, SEED_DEV] {
        let map = generated(MAP_GRIDS_WIDTH, MAP_GRIDS_HEIGHT, seed);
        assert_eq!(spaces(&map).len(), edge_count(&map) + 1);
    }
}

#[test]
fn no_two_by_two_open_block() {
    for seed in [1u64, 2, 3, SEED_DEV] {
        let map = generated(MAP_GRIDS_WIDTH, MAP_GRIDS_HEIGHT, seed);
        for x in -1..map.width() {
            for y in -1..map.height() {
                let a = map.is_space(Pos::new(x, y));
                let b = map.is_space(Pos::new(x + 1, y));
                let c = map.is_space(Pos::new(x, y + 1));
                let d = map.is_space(Pos::new(x + 1, y + 1));
                assert!(!(a && b && c && d));
                if a && d {
                    assert!(map.is_wall(Pos::new(x + 1, y)) || map.is_wall(Pos::new(x, y + 1)));
                    assert!(b != c);
                }
                if b && c {
                    assert!(a != d);
                }
            }
        }
    }
}

#[test]
fn walls_and_spaces_cover_the_grid() {
    let map = generated(MAP_GRIDS_WIDTH, MAP_GRIDS_HEIGHT, 7);
    let mut walls = 0;
    let mut open = 0;
    for x in 0..map.width() {
        for y in 0..map.height() {
            let p = Pos::new(x, y);
            assert!(map.is_wall(p) != map.is_space(p));
            if map.is_wall(p) {
                walls += 1;
            } else {
                open += 1;
            }
        }
    }
    assert_eq!(walls + open, MAP_GRIDS_WIDTH * MAP_GRIDS_HEIGHT);
    assert!(open > 1);
}

#[test]
fn outer_ring_stays_wall() {
    let map = generated(9, 8, 5);
    for x in 0..9 {
        assert!(map.is_wall(Pos::new(x, 0)));
        assert!(map.is_wall(Pos::new(x, 7)));
    }
    for y in 0..8 {
        assert!(map.is_wall(Pos::new(0, y)));
        assert!(map.is_wall(Pos::new(8, y)));
    }
}

#[test]
fn carving_leaves_only_the_start_live() {
    let map = generated(MAP_GRIDS_WIDTH, MAP_GRIDS_HEIGHT, 11);
    let s = map.start();
    assert!(map.is_space(s));
    for (x, y) in spaces(&map) {
        if (x, y) != (s.x, s.y) {
            assert!(map.is_deadend(Pos::new(x, y)));
        }
    }
}

#[test]
fn outside_coordinates_read_as_wall() {
    let map = generated(7, 7, SEED_DEV);
    for p in [
        Pos::new(-1, 0),
        Pos::new(0, -1),
        Pos::new(7, 3),
        Pos::new(3, 7),
        Pos::new(i32::MIN, i32::MAX),
        Pos::new(i32::MAX, i32::MIN),
    ] {
        assert!(map.is_wall(p));
        assert!(!map.is_space(p));
        assert!(!map.is_deadend(p));
        assert!(!map.is_inside(p));
    }
}

#[test]
fn new_grid_is_undefined_until_filled() {
    let mut map = MazeMap::new(5, 4, 0);
    assert_eq!(map.width(), 5);
    assert_eq!(map.height(), 4);
    let p = Pos::new(2, 2);
    assert!(!map.is_wall(p) && !map.is_space(p) && !map.is_deadend(p));
    map.fill_walls();
    assert!(map.is_wall(p) && !map.is_space(p) && !map.is_deadend(p));
}

#[test]
fn open_clears_marker_and_marker_keeps_terrain() {
    let mut map = MazeMap::new(5, 5, 0);
    map.fill_walls();
    let p = Pos::new(2, 2);
    map.add_flag_deadend(p);
    assert!(map.is_wall(p) && map.is_deadend(p));
    map.set_space(p);
    assert!(map.is_space(p) && !map.is_wall(p) && !map.is_deadend(p));
    map.add_flag_deadend(p);
    assert!(map.is_space(p) && map.is_deadend(p));
    map.set_space(Pos::new(9, 9));
    map.add_flag_deadend(Pos::new(-1, 2));
    assert!(map.is_wall(Pos::new(1, 1)));
}

#[test]
fn dig_test_looks_ahead_and_beside() {
    let mut map = MazeMap::new(7, 7, 0);
    map.fill_walls();
    map.set_space(Pos::new(1, 1));
    let c = Pos::new(3, 3);
    assert!(map.is_digable(c, News::North));
    assert!(map.is_digable(c, News::East));
    assert!(map.is_digable(c, News::West));
    assert!(map.is_digable(c, News::South));
    // open cell just south of c: only a carver coming from there may dig c
    map.set_space(Pos::new(3, 4));
    assert!(map.is_digable(c, News::North));
    assert!(!map.is_digable(c, News::East));
    assert!(!map.is_digable(c, News::West));
    assert!(!map.is_digable(c, News::South));
    // open cell north-east of c, diagonal to it
    map.set_space(Pos::new(4, 2));
    assert!(!map.is_digable(c, News::North));
    assert!(map.is_digable(Pos::new(2, 3), News::West));
}

#[test]
fn directions_step_one_cell() {
    let p = Pos::new(5, 5);
    assert_eq!(p.add(News::North), Pos::new(5, 4));
    assert_eq!(p.add(News::East), Pos::new(6, 5));
    assert_eq!(p.add(News::West), Pos::new(4, 5));
    assert_eq!(p.add(News::South), Pos::new(5, 6));
    assert_eq!(News::North.offset(), (0, -1));
    assert_eq!(News::default(), News::North);
}

#[test]
fn default_size_grid() {
    let mut map = MazeMap::with_seed(SEED_DEV);
    make_new_data(&mut map);
    assert_eq!(map.width(), MAP_GRIDS_WIDTH);
    assert_eq!(map.height(), MAP_GRIDS_HEIGHT);
    assert_eq!(map.start(), Pos::new(15, 10));
    assert_eq!(reachable_count(&map), spaces(&map).len());
}

#[test]
fn wall_cubes_list_every_wall_but_the_origin() {
    let map = generated(7, 7, SEED_DEV);
    let cubes = map.wall_cubes();
    let mut expected = Vec::new();
    for x in 0..7 {
        for y in 0..7 {
            if map.is_wall(Pos::new(x, y)) && (x, y) != (0, 0) {
                expected.push(Pos::new(x, y));
            }
        }
    }
    assert_eq!(cubes, expected);
    assert_eq!(cubes.len(), 49 - 16 - 1);
    assert_eq!(cubes[0], Pos::new(0, 1));
}

#[test]
fn steps_at_the_edges_of_the_integers() {
    let p = Pos::new(i32::MAX, 0);
    assert_eq!(p.add(News::North), Pos::new(i32::MAX, -1));
    assert_eq!(p.add(News::West), Pos::new(i32::MAX - 1, 0));
    let q = Pos::new(0, i32::MIN + 1);
    assert_eq!(q.add(News::North).add(News::South), q);
    let r = Pos::new(i32::MIN, i32::MAX);
    assert_eq!(r.add(News::East).add(News::West), r);
    assert_eq!(r.add(News::North), Pos::new(i32::MIN, i32::MAX - 1));
}

#[test]
fn nothing_left_to_dig() {
    for seed in [1u64, 2, SEED_DEV] {
        let map = generated(MAP_GRIDS_WIDTH, MAP_GRIDS_HEIGHT, seed);
        let w = map.width();
        let h = map.height();
        for (x, y) in spaces(&map) {
            for d in [News::North, News::East, News::West, News::South] {
                let n = Pos::new(x, y).add(d);
                if 1 <= n.x && n.x < w - 1 && 1 <= n.y && n.y < h - 1 {
                    assert!(!(map.is_wall(n) && map.is_digable(n, d)));
                }
            }
        }
    }
}

#[test]
fn start_has_an_open_neighbour_and_open_cells_fit_the_interior() {
    for seed in [3u64, 4, SEED_DEV] {
        let map = generated(7, 7, seed);
        let s = map.start();
        assert!(!map.is_deadend(s));
        let open = [News::North, News::East, News::West, News::South]
            .iter()
            .filter(|d| map.is_space(s.add(**d)))
            .count();
        assert!(open >= 1);
        assert!(spaces(&map).len() <= 25);
    }
}
