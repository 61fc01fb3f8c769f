use aoc2022::calories::{elf_totals, most_calories, top_three_total};
use aoc2022::distress::{compare_seq, decoder_key, ordered_index_sum, parse_packet, ComparisonResult, Item, Pair};
use aoc2022::filesystem::{build_tree, smallest_at_least, File, Record};
use aoc2022::lava::{bounds, check_outside_connection, exterior_surface, surface_area, FaceNeighbors, Position};

fn v(n: u8) -> Item {
    Item::Value(n)
}

fn l(items: Vec<Item>) -> Item {
    Item::List(items)
}

#[test]
fn packet_order_rules() {
    // [1,1,3,1,1] vs [1,1,5,1,1]
    let a = l(vec![v(1), v(1), v(3), v(1), v(1)]);
    let b = l(vec![v(1), v(1), v(5), v(1), v(1)]);
    assert_eq!(a.compare(&b), ComparisonResult::Correct);
    // [[1],[2,3,4]] vs [[1],4]
    let a = l(vec![l(vec![v(1)]), l(vec![v(2), v(3), v(4)])]);
    let b = l(vec![l(vec![v(1)]), v(4)]);
    assert_eq!(a.compare(&b), ComparisonResult::Correct);
    // [9] vs [[8,7,6]]
    assert_eq!(l(vec![v(9)]).compare(&l(vec![l(vec![v(8), v(7), v(6)])])), ComparisonResult::Wrong);
    // [[4,4],4,4] vs [[4,4],4,4,4]
    let a = l(vec![l(vec![v(4), v(4)]), v(4), v(4)]);
    let b = l(vec![l(vec![v(4), v(4)]), v(4), v(4), v(4)]);
    assert_eq!(a.compare(&b), ComparisonResult::Correct);
    // [7,7,7,7] vs [7,7,7]
    assert_eq!(l(vec![v(7), v(7), v(7), v(7)]).compare(&l(vec![v(7), v(7), v(7)])), ComparisonResult::Wrong);
    // [] vs [3]
    assert_eq!(l(vec![]).compare(&l(vec![v(3)])), ComparisonResult::Correct);
    // [[[]]] vs [[]]
    assert_eq!(l(vec![l(vec![l(vec![])])]).compare(&l(vec![l(vec![])])), ComparisonResult::Wrong);
    assert_eq!(v(3).compare(&v(3)), ComparisonResult::Continue);
    assert_eq!(v(3).compare(&l(vec![v(3)])), ComparisonResult::Continue);
    assert_eq!(compare_seq(&vec![v(1)], &vec![v(1), v(0)]), ComparisonResult::Correct);
}

#[test]
fn ordered_pair_indices() {
    let pairs = vec![
        Pair(l(vec![v(1), v(1), v(3), v(1), v(1)]), l(vec![v(1), v(1), v(5), v(1), v(1)])),
        Pair(l(vec![l(vec![v(1)]), l(vec![v(2), v(3), v(4)])]), l(vec![l(vec![v(1)]), v(4)])),
        Pair(l(vec![v(9)]), l(vec![l(vec![v(8), v(7), v(6)])])),
        Pair(l(vec![l(vec![v(4), v(4)]), v(4), v(4)]), l(vec![l(vec![v(4), v(4)]), v(4), v(4), v(4)])),
        Pair(l(vec![v(7), v(7), v(7), v(7)]), l(vec![v(7), v(7), v(7)])),
        Pair(l(vec![]), l(vec![v(3)])),
        Pair(l(vec![l(vec![l(vec![])])]), l(vec![l(vec![])])),
    ];
    assert!(pairs[0].check_order());
    assert!(!pairs[2].check_order());
    assert_eq!(ordered_index_sum(&pairs), 1 + 2 + 4 + 6);
}

fn session() -> Vec<Record> {
    let s = |n: &str| n.to_string();
    vec![
        Record::CdRoot,
        Record::Sized(s("b.txt"), 14848514),
        Record::Sized(s("c.dat"), 8504156),
        Record::Cd(s("a")),
        Record::Sized(s("f"), 29116),
        Record::Sized(s("g"), 2557),
        Record::Sized(s("h.lst"), 62596),
        Record::Cd(s("e")),
        Record::Sized(s("i"), 584),
        Record::CdUp,
        Record::CdUp,
        Record::Cd(s("d")),
        Record::Sized(s("j"), 4060174),
        Record::Sized(s("d.log"), 8033020),
        Record::Sized(s("d.ext"), 5626152),
        Record::Sized(s("k"), 7214296),
    ]
}

#[test]
fn directory_sizes() {
    let root = build_tree(&session());
    assert!(root.is_dir);
    assert_eq!(root.get_size(), 48381165);
    assert_eq!(root.task_one(), 95437);
    assert_eq!(root.get_size_files_only(), 14848514 + 8504156);
    let needed = root.get_size() - 40000000;
    let mut sizes = root.task_two(needed);
    sizes.sort();
    assert_eq!(sizes, vec![24933642, 48381165]);
    assert_eq!(smallest_at_least(&root, needed), Some(24933642));
    assert_eq!(smallest_at_least(&root, u64::MAX), None);
}

#[test]
fn files_and_bounded_sizes() {
    let mut dir = File::new(true, None);
    dir.insert_child("x".to_string(), File::new(false, Some(5)));
    dir.insert_child("y".to_string(), File::new(false, Some(50)));
    dir.insert_child("x".to_string(), File::new(false, Some(7)));
    assert_eq!(dir.children.len(), 2);
    assert_eq!(dir.get_size(), 57);
    assert_eq!(dir.get_size_min_max(6, 10), 7);
    assert_eq!(File::new(false, Some(3)).get_size(), 3);
}

#[test]
fn calorie_totals() {
    let elves = vec![vec![1000, 2000, 3000], vec![4000], vec![5000, 6000], vec![7000, 8000, 9000], vec![10000]];
    let totals = elf_totals(&elves);
    assert_eq!(totals, vec![6000, 4000, 11000, 24000, 10000]);
    assert_eq!(most_calories(&totals), Some(24000));
    assert_eq!(top_three_total(&totals), Some(45000));
    assert_eq!(most_calories(&vec![]), None);
    assert_eq!(top_three_total(&vec![1, 2]), None);
    assert_eq!(top_three_total(&vec![5, 5, 5, 1]), Some(15));
}

fn text(s: &str) -> Vec<char> {
    s.chars().collect()
}

#[test]
fn packets_parse_from_canonical_text() {
    let p = parse_packet(&text("[[1],[2,3,4]]")).unwrap();
    let q = l(vec![l(vec![v(1)]), l(vec![v(2), v(3), v(4)])]);
    assert_eq!(p.compare(&q), ComparisonResult::Continue);
    let p = parse_packet(&text("[1,[2,[3,[4,[5,6,7]]]],8,9]")).unwrap();
    assert_eq!(p.compare(&l(vec![v(1), l(vec![v(2)])])), ComparisonResult::Wrong);
    let p = parse_packet(&text("[10,[]]")).unwrap();
    assert_eq!(p.compare(&l(vec![v(10), l(vec![])])), ComparisonResult::Continue);
    assert_eq!(p.compare(&l(vec![v(9)])), ComparisonResult::Wrong);
    assert!(parse_packet(&text("[]")).is_some());
    assert!(parse_packet(&text("[1,2")).is_none());
    assert!(parse_packet(&text("[01]")).is_none());
    assert!(parse_packet(&text("[256]")).is_none());
    assert!(parse_packet(&text("[1]x")).is_none());
    assert!(parse_packet(&text("[1,,2]")).is_none());
    let (item, end) = Item::parse_value(&text("123,"), 0).unwrap();
    assert_eq!(end, 3);
    assert_eq!(item.compare(&v(123)), ComparisonResult::Continue);
}

fn droplet() -> Vec<Position> {
    "2,2,2\n1,2,2\n3,2,2\n2,1,2\n2,3,2\n2,2,1\n2,2,3\n2,2,4\n2,2,6\n1,2,5\n3,2,5\n2,1,5\n2,3,5"
        .lines()
        .map(|l| {
            let c: Vec<i8> = l.split(',').map(|n| n.parse().unwrap()).collect();
            Position { x: c[0], y: c[1], z: c[2] }
        })
        .collect()
}

#[test]
fn droplet_surfaces() {
    let d = droplet();
    assert_eq!(surface_area(&d), 64);
    assert_eq!(exterior_surface(&d), 58);
    let pair = vec![Position { x: 1, y: 1, z: 1 }, Position { x: 2, y: 1, z: 1 }];
    assert_eq!(surface_area(&pair), 10);
    let b = bounds(&d);
    assert_eq!(b, Position { x: 3, y: 3, z: 6 });
    // the pocket inside the droplet is sealed off
    assert!(!check_outside_connection(Position { x: 2, y: 2, z: 5 }, &d, b));
    assert!(check_outside_connection(Position { x: 0, y: 0, z: 0 }, &d, b));
    assert!(!check_outside_connection(Position { x: 2, y: 2, z: 2 }, &d, b));
    let mut it = FaceNeighbors::new(Position { x: 0, y: 0, z: 0 });
    assert_eq!(it.next(), Some(Position { x: 1, y: 0, z: 0 }));
    assert_eq!(it.next(), Some(Position { x: 0, y: 1, z: 0 }));
    for _ in 0..4 {
        assert!(it.next().is_some());
    }
    assert_eq!(it.next(), None);
}

#[test]
fn decoder_key_of_sample() {
    let lines = [
        "[1,1,3,1,1]", "[1,1,5,1,1]", "[[1],[2,3,4]]", "[[1],4]", "[9]", "[[8,7,6]]",
        "[[4,4],4,4]", "[[4,4],4,4,4]", "[7,7,7,7]", "[7,7,7]", "[]", "[3]",
        "[[[]]]", "[[]]", "[1,[2,[3,[4,[5,6,7]]]],8,9]", "[1,[2,[3,[4,[5,6,0]]]],8,9]",
    ];
    let packets: Vec<Item> = lines.iter().map(|l| parse_packet(&text(l)).unwrap()).collect();
    assert_eq!(decoder_key(&packets), 140);
}

#[test]
fn children_kept_in_name_order() {
    let mut dir = File::new(true, None);
    dir.insert_child("b".to_string(), File::new(false, Some(2)));
    dir.insert_child("a".to_string(), File::new(false, Some(1)));
    dir.insert_child("c".to_string(), File::new(true, None));
    dir.insert_child("ab".to_string(), File::new(false, Some(4)));
    dir.insert_child("a".to_string(), File::new(false, Some(3)));
    let names: Vec<&str> = dir.children.iter().map(|(n, _)| n.as_str()).collect();
    assert_eq!(names, vec!["a", "ab", "b", "c"]);
    assert_eq!(dir.get_size(), 3 + 4 + 2);
}

#[test]
fn droplet_edges_of_the_coordinate_range() {
    let mut it = FaceNeighbors::new(Position { x: -127, y: 126, z: 0 });
    assert_eq!(it.next(), Some(Position { x: -126, y: 126, z: 0 }));
    assert_eq!(it.next(), Some(Position { x: -127, y: 127, z: 0 }));
    assert_eq!(it.next(), Some(Position { x: -128, y: 126, z: 0 }));
    let lava = vec![Position { x: 0, y: 0, z: 0 }];
    let b = Position { x: 125, y: 125, z: 125 };
    assert!(check_outside_connection(Position { x: 1, y: 0, z: 0 }, &lava, b));
    assert!(!check_outside_connection(Position { x: 0, y: 0, z: 0 }, &lava, b));
}
