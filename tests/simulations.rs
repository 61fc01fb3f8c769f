use aoc2022::beacons::{Position as Spot, SensorMap};
use aoc2022::cathode::{Command as Instruction, Computer};
use aoc2022::monkeys::{Decision, Item, Monkey, MonkeyTroop, Operation};
use aoc2022::pyroclastic::{tower_height, Chamber, Direction as Jet, Rock, Vec2D};
use aoc2022::reservoir::{Cave, Line, Position as Cell};
use aoc2022::rope::{Chain, Knot, Move, Position as Point};
use aoc2022::tree_house::{best_scenic_score, check_if_visible, count_visible, get_distance_in_direction, get_scenic_score, Direction as Look};

fn moves(text: &str) -> Vec<Move> {
    text.lines()
        .map(|l| {
            let (d, n) = l.split_once(' ').unwrap();
            let n: i64 = n.parse().unwrap();
            match d {
                "R" => Move::Right(n),
                "L" => Move::Left(n),
                "U" => Move::Up(n),
                _ => Move::Down(n),
            }
        })
        .collect()
}

fn visited(len: usize, ms: &[Move]) -> usize {
    let mut chain = Chain::new(len);
    for m in ms {
        chain.execute_move(m);
    }
    chain.get_visited_count()
}

#[test]
fn rope_tail_positions() {
    let small = moves("R 4\nU 4\nL 3\nD 1\nR 4\nD 1\nL 5\nR 2");
    assert_eq!(visited(2, &small), 13);
    assert_eq!(visited(10, &small), 1);
    let large = moves("R 5\nU 8\nL 8\nD 3\nR 17\nD 10\nL 25\nU 20");
    assert_eq!(visited(10, &large), 36);
}

#[test]
fn knot_follows_diagonally() {
    let mut tail = Knot::new();
    tail.follow(&Knot { pos: Point { x: 2, y: 1 } });
    assert_eq!(tail.pos, Point { x: 1, y: 1 });
    assert!(Point { x: 0, y: 0 }.is_touching(&Point { x: 1, y: -1 }));
    assert!(!Point { x: 0, y: 0 }.is_touching(&Point { x: 2, y: 0 }));
    assert_eq!(Point { x: -7, y: 3 }.get_direction(), Point { x: -1, y: 1 });
    assert_eq!(Move::Left(3).get_as_position(), Point { x: -3, y: 0 });
    assert_eq!(Move::Down(3).get_direction(), Point { x: 0, y: -1 });
}

#[test]
fn cpu_screen_and_signal() {
    let prog = vec![Instruction::Noop, Instruction::AddX(3), Instruction::AddX(-5)];
    let mut c = Computer::new(prog.clone());
    let screen: String = c.draw_crt().into_iter().collect();
    assert_eq!(screen, "\n\u{2588}\u{2588}\u{2588}\u{2588}\u{2588} ");
    let mut c = Computer::new(prog);
    assert_eq!(c.get_signal_strength(), 0);
    let mut c = Computer::new(vec![Instruction::Noop; 20]);
    assert_eq!(c.get_signal_strength(), 20);
    let mut prog = vec![Instruction::AddX(4)];
    prog.extend(vec![Instruction::Noop; 20]);
    let mut c = Computer::new(prog);
    assert_eq!(c.get_signal_strength(), 100);
}

fn sample_troop() -> MonkeyTroop {
    let m = |items: &[u64], operation, d, t, f| Monkey {
        items: items.iter().map(|&w| Item { worry_level: w }).collect(),
        operation,
        decision: Decision { divisible_by: d, true_monkey: t, false_monkey: f },
        inspection_count: 0,
    };
    MonkeyTroop::new(vec![
        m(&[79, 98], Operation::Multiply(19), 23, 2, 3),
        m(&[54, 65, 75, 74], Operation::Add(6), 19, 2, 0),
        m(&[79, 60, 97], Operation::Square, 13, 1, 3),
        m(&[74], Operation::Add(3), 17, 0, 1),
    ])
    .unwrap()
}

#[test]
fn monkey_business() {
    let mut t = sample_troop();
    for _ in 0..20 {
        t.round(true);
    }
    assert_eq!(t.inspection_counts(), vec![101, 95, 7, 105]);
    assert_eq!(t.monkey_business(), Some(10605));
    let mut t = sample_troop();
    for _ in 0..10000 {
        t.round(false);
    }
    assert_eq!(t.inspection_counts(), vec![52166, 47830, 1938, 52013]);
    assert_eq!(t.monkey_business(), Some(2713310158));
}

#[test]
fn monkey_pieces() {
    assert_eq!(Operation::Square.execute(7), 49);
    assert_eq!(Operation::Add(3).execute(7), 10);
    assert_eq!(Decision { divisible_by: 5, true_monkey: 1, false_monkey: 2 }.decide(&Item { worry_level: 10 }), 1);
    let mut m = Monkey {
        items: vec![Item { worry_level: 10 }, Item { worry_level: 4 }],
        operation: Operation::Multiply(3),
        decision: Decision { divisible_by: 4, true_monkey: 1, false_monkey: 2 },
        inspection_count: 5,
    };
    let throws = m.take_turn(true);
    assert_eq!(throws.len(), 2);
    assert_eq!((throws[0].item.worry_level, throws[0].destination), (10, 2));
    assert_eq!((throws[1].item.worry_level, throws[1].destination), (4, 1));
    assert_eq!(m.inspection_count, 7);
    assert!(m.items.is_empty());
    assert!(MonkeyTroop::new(vec![Monkey {
        items: vec![],
        operation: Operation::Square,
        decision: Decision { divisible_by: 0, true_monkey: 0, false_monkey: 0 },
        inspection_count: 0,
    }])
    .is_none());
}

fn forest() -> Vec<Vec<u32>> {
    "30373\n25512\n65332\n33549\n35390"
        .lines()
        .map(|l| l.chars().map(|c| c.to_digit(10).unwrap()).collect())
        .collect()
}

#[test]
fn visible_trees_and_scenic_scores() {
    let f = forest();
    let mut visible = 0;
    let mut best = 0;
    for y in 0..5 {
        for x in 0..5 {
            if check_if_visible(&f, x, y) {
                visible += 1;
            }
            best = best.max(get_scenic_score(&f, x, y));
        }
    }
    assert_eq!(visible, 21);
    assert_eq!(count_visible(&f), 21);
    assert_eq!(best, 8);
    assert_eq!(best_scenic_score(&f), 8);
    assert_eq!(get_scenic_score(&f, 2, 1), 4);
    assert_eq!(get_distance_in_direction(&f, 2, 3, Look::Up), 2);
    assert_eq!(get_distance_in_direction(&f, 2, 3, Look::Left), 2);
    assert_eq!(get_distance_in_direction(&f, 0, 3, Look::Left), 0);
}

fn cave() -> Cave {
    let paths: Vec<Vec<Cell>> = "498,4 -> 498,6 -> 496,6\n503,4 -> 502,4 -> 502,9 -> 494,9"
        .lines()
        .map(|l| {
            l.split(" -> ")
                .map(|p| {
                    let (x, y) = p.split_once(',').unwrap();
                    Cell(x.parse().unwrap(), y.parse().unwrap())
                })
                .collect()
        })
        .collect();
    Cave::new(&paths)
}

#[test]
fn sand_fills_the_cave() {
    let mut c = cave();
    let mut n = 0;
    while c.spawn_sand() {
        n += 1;
    }
    assert_eq!(n, 24);
    let mut c = cave();
    c.set_floor(true);
    let mut n = 1;
    while c.spawn_sand() {
        n += 1;
    }
    assert_eq!(n, 93);
}

#[test]
fn rock_lines() {
    let l = Line::new(Cell(502, 9), Cell(499, 9));
    assert_eq!(l.points(), vec![Cell(502, 9), Cell(501, 9), Cell(500, 9), Cell(499, 9)]);
    assert_eq!(Cell(3, 4).get_block_distance(&Cell(1, 9)), 7);
    assert_eq!(Cell(3, 4).get_direction_to(&Cell(4, 5)), None);
    let c = cave();
    assert!(!c.is_free(&Cell(498, 5)));
    assert!(c.is_free(&Cell(500, 5)));
}

#[test]
fn sensors_and_borders() {
    let s = Spot(8, 7);
    assert_eq!(s.get_block_distance(&Spot(2, 10)), 9);
    let b = Spot(0, 0).get_border_positions(0);
    assert_eq!(b, vec![Spot(1, 0), Spot(0, 1), Spot(-1, 0), Spot(0, -1)]);
    assert_eq!(Spot(0, 0).get_border_positions(2).len(), 12);
    let m = SensorMap::new(&vec![(Spot(8, 7), Spot(2, 10))]);
    assert!(!m.can_contain_beacon(&Spot(8, 16)));
    assert!(m.can_contain_beacon(&Spot(8, 17)));
    let free = m.find_free_space().unwrap();
    assert!(m.can_contain_beacon(&free));
    assert_eq!(free, Spot(12, 1));
}

#[test]
fn falling_rocks_stack_up() {
    let jets: Vec<Jet> = ">>><<><>><<<>><>>><<<>>><<<><<<>><>><<>>"
        .chars()
        .map(|c| if c == '<' { Jet::Left } else { Jet::Right })
        .collect();
    let mut ch = Chamber::new(7, jets.clone());
    for _ in 0..10 {
        ch.spawn_rock();
    }
    assert_eq!(ch.height(), 17);
    assert_eq!(tower_height(jets, 2022), 3068);
}

#[test]
fn rock_shapes() {
    assert_eq!(Rock::from_rock_count(7), Rock::BackwardsL);
    assert_eq!(Rock::Plus.get_dimensions(), Vec2D(3, 3));
    assert_eq!(Rock::Square.get_shape().len(), 4);
    assert!(Rock::Plus.check_if_intersects_with(Vec2D(0, 0), &Rock::VerticalLine, Vec2D(1, 2)));
    assert!(!Rock::Plus.check_if_intersects_with(Vec2D(0, 0), &Rock::VerticalLine, Vec2D(0, 2)));
    assert!(Rock::Square.check_if_placable(Vec2D(5, 5), &vec![(Vec2D(0, 0), Rock::HorizontalLine)]));
}
