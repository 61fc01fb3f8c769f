use aoc2022::hill_climb::{Climb, Direction, HeightMap, Position, Target};

const SAMPLE: &str = "Sabqponm\nabcryxxl\naccszExk\nacctuvwj\nabdefghi";

fn load(text: &str) -> HeightMap {
    let mut heights = Vec::new();
    let mut start = Position(0, 0);
    let mut goal = Position(0, 0);
    for (y, line) in text.lines().enumerate() {
        let mut row = Vec::new();
        for (x, c) in line.chars().enumerate() {
            match c {
                'S' => {
                    start = Position(x as i32, y as i32);
                    row.push(0);
                }
                'E' => {
                    goal = Position(x as i32, y as i32);
                    row.push(25);
                }
                _ => row.push(c as u8 - b'a'),
            }
        }
        heights.push(row);
    }
    HeightMap::new(heights, start, goal).expect("valid grid")
}

fn check_route(map: &HeightMap, route: &[Position], climbing: bool) {
    for w in route.windows(2) {
        let a = map.get_field(w[0]).unwrap() as i32;
        let b = map.get_field(w[1]).unwrap() as i32;
        assert_eq!((w[0].0 - w[1].0).abs() + (w[0].1 - w[1].1).abs(), 1);
        if climbing {
            assert!(b <= a + 1);
        } else {
            assert!(b >= a - 1);
        }
    }
}

#[test]
fn sample_climb_takes_31_steps() {
    let map = load(SAMPLE);
    assert_eq!(map.shortest_climb(), Some(31));
    let path = map.find_path(map.start()).unwrap();
    assert_eq!(path.len(), 32);
    assert_eq!(path[0], Position(0, 0));
    assert_eq!(*path.last().unwrap(), Position(5, 2));
    check_route(&map, &path, true);
}

#[test]
fn sample_descent_takes_29_steps() {
    let map = load(SAMPLE);
    assert_eq!(map.shortest_descent(), Some(29));
    let path = map.search_from_end(map.goal(), 0).unwrap();
    assert_eq!(path.len(), 30);
    assert_eq!(map.get_field(*path.last().unwrap()), Some(0));
    check_route(&map, &path, false);
}

#[test]
fn repeated_searches_agree() {
    let map = load(SAMPLE);
    let a = map.find_path(map.start());
    let b = map.find_path(map.start());
    assert_eq!(a, b);
    assert_eq!(map.shortest_climb(), map.shortest_climb());
}

#[test]
fn wall_of_z_blocks_the_goal() {
    let map = load("Sazaa\naazaa\naazaE");
    assert_eq!(map.shortest_climb(), None);
    assert_eq!(map.find_path(map.start()), None);
}

#[test]
fn start_on_goal_takes_no_steps() {
    let map = HeightMap::new(vec![vec![0]], Position(0, 0), Position(0, 0)).unwrap();
    assert_eq!(map.find_path(Position(0, 0)), Some(vec![Position(0, 0)]));
    assert_eq!(map.shortest_climb(), Some(0));
}

#[test]
fn detour_round_a_ridge_is_shortest() {
    // The direct way down the first column meets a 9; the route snakes round.
    let heights = vec![vec![0, 1, 2, 3], vec![9, 9, 9, 4], vec![8, 7, 6, 5]];
    let map = HeightMap::new(heights, Position(0, 0), Position(0, 2)).unwrap();
    let path = map.find_path(map.start()).unwrap();
    assert_eq!(path.len(), 9);
    check_route(&map, &path, true);
    assert_eq!(map.shortest_climb(), Some(8));
}

#[test]
fn steep_rise_blocks_the_climb() {
    let map = load("Sacaa\nabcdE");
    assert_eq!(map.find_path(map.start()), None);
    assert_eq!(map.shortest_climb(), None);
}

#[test]
fn neighbours_in_fixed_order() {
    let map = HeightMap::new(vec![vec![0, 1, 0], vec![2, 1, 5], vec![0, 0, 0]], Position(1, 1), Position(0, 0)).unwrap();
    // up is +row, down is -row, then right, then left
    assert_eq!(map.get_neighbors_up(Position(1, 1)), vec![Position(1, 2), Position(1, 0), Position(0, 1)]);
    assert_eq!(
        map.get_neighbors_down(Position(1, 1)),
        vec![Position(1, 2), Position(1, 0), Position(2, 1), Position(0, 1)]
    );
    assert_eq!(map.get_neighbors(Position(1, 1), Climb::Ascending), map.get_neighbors_up(Position(1, 1)));
}

#[test]
fn lookups_outside_the_grid_are_none() {
    let map = load(SAMPLE);
    assert_eq!(map.get_field(Position(-1, 0)), None);
    assert_eq!(map.get_field(Position(8, 0)), None);
    assert_eq!(map.get_field(Position(0, 5)), None);
    assert_eq!(map.get_field(Position(5, 2)), Some(25));
    assert_eq!(map.get_field(Position(1, 0)), Some(0));
}

#[test]
fn invalid_grids_are_rejected() {
    assert!(HeightMap::new(vec![], Position(0, 0), Position(0, 0)).is_none());
    assert!(HeightMap::new(vec![vec![0, 1], vec![1]], Position(0, 0), Position(0, 0)).is_none());
    assert!(HeightMap::new(vec![vec![0, 26]], Position(0, 0), Position(0, 0)).is_none());
    assert!(HeightMap::new(vec![vec![0, 1]], Position(2, 0), Position(0, 0)).is_none());
}

#[test]
fn descent_to_any_cell_of_target_elevation() {
    let map = HeightMap::new(vec![vec![0, 0, 1, 2], vec![3, 3, 3, 3]], Position(0, 0), Position(3, 0)).unwrap();
    let path = map.frontier_search(map.goal(), Climb::Descending, Target::Elevation(0), None).unwrap();
    assert_eq!(path.len(), 3);
    assert_eq!(*path.last().unwrap(), Position(1, 0));
}

#[test]
fn manhattan_distance_and_moves() {
    assert_eq!(Position(1, 2).get_distance(&Position(-3, 5)), 7);
    assert_eq!(Position(4, 4).move_in_direction(Direction::Up), Position(4, 5));
    assert_eq!(Position(4, 4).move_in_direction(Direction::Down), Position(4, 3));
    assert_eq!(Position(4, 4).move_in_direction(Direction::Right), Position(5, 4));
    assert_eq!(Direction::Left.get_as_pos(), Position(-1, 0));
}

#[test]
fn guided_and_unguided_searches_agree_on_length() {
    let map = load(SAMPLE);
    let guided = map.frontier_search(map.start(), Climb::Ascending, Target::Cell(map.goal()), Some(map.goal())).unwrap();
    let plain = map.frontier_search(map.start(), Climb::Ascending, Target::Cell(map.goal()), None).unwrap();
    assert_eq!(guided.len(), 32);
    assert_eq!(plain.len(), 32);
    check_route(&map, &plain, true);
    let heights = vec![vec![0; 5]; 5];
    let flat = HeightMap::new(heights, Position(0, 0), Position(4, 4)).unwrap();
    assert_eq!(flat.shortest_climb(), Some(8));
    assert_eq!(flat.shortest_descent(), Some(0));
}

#[test]
fn moves_at_the_edge_of_the_coordinate_range() {
    assert_eq!(Position(i32::MAX, 0).move_in_direction(Direction::Up), Position(i32::MAX, 1));
    assert_eq!(Position(0, i32::MIN).move_in_direction(Direction::Right), Position(1, i32::MIN));
}
