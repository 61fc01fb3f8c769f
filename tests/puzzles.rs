use aoc2022::camp_cleanup::{count_containing, count_overlapping, Range};
use aoc2022::rock_paper_scissors::{total_score_by_hand, total_score_by_outcome, GameResult, Hand};
use aoc2022::rucksack::{badge, common_item, get_character_priority};
use aoc2022::supply_stacks::{top_crates, Command};
use aoc2022::tuning::{contains_duplicate, find_marker};

fn chars(s: &str) -> Vec<char> {
    s.chars().collect()
}

fn games(text: &str) -> Vec<(Hand, Hand)> {
    text.lines()
        .map(|l| {
            let mut it = l.split_whitespace().map(|w| Hand::from_letter(w.chars().next().unwrap()).unwrap());
            (it.next().unwrap(), it.next().unwrap())
        })
        .collect()
}

#[test]
fn strategy_guide_scores() {
    let g = games("A Y\nB X\nC Z");
    assert_eq!(total_score_by_hand(&g), 15);
    assert_eq!(total_score_by_outcome(&g), 12);
}

#[test]
fn hand_rules() {
    assert_eq!(Hand::PaperOrDraw.play(&Hand::StoneOrLoose), GameResult::Win);
    assert_eq!(Hand::StoneOrLoose.play(&Hand::PaperOrDraw), GameResult::Loose);
    assert_eq!(Hand::ScissorsOrWin.play(&Hand::ScissorsOrWin), GameResult::Draw);
    assert_eq!(Hand::StoneOrLoose.get_opponent(true), Hand::PaperOrDraw);
    assert_eq!(Hand::StoneOrLoose.get_opponent(false), Hand::ScissorsOrWin);
    assert_eq!(Hand::ScissorsOrWin.get_part2_matching(&Hand::PaperOrDraw), Hand::ScissorsOrWin);
    assert_eq!(Hand::StoneOrLoose.get_part2_matching(&Hand::PaperOrDraw), Hand::StoneOrLoose);
    assert_eq!(Hand::ScissorsOrWin.score(), 3);
    assert_eq!(Hand::ScissorsOrWin.result_score(), 6);
    assert_eq!(GameResult::Draw.score(), 3);
    assert_eq!(Hand::from_letter('Q'), None);
}

fn range_pairs(text: &str) -> Vec<(Range, Range)> {
    text.lines()
        .map(|l| {
            let v: Vec<u64> = l.split(|c| c == ',' || c == '-').map(|n| n.parse().unwrap()).collect();
            (Range(v[0], v[1]), Range(v[2], v[3]))
        })
        .collect()
}

#[test]
fn section_overlaps() {
    let p = range_pairs("2-4,6-8\n2-3,4-5\n5-7,7-9\n2-8,3-7\n6-6,4-6\n2-6,4-8");
    assert_eq!(count_containing(&p), 2);
    assert_eq!(count_overlapping(&p), 4);
    assert!(Range(2, 8).contains(&Range(3, 7)));
    assert!(!Range(2, 4).overlaps(&Range(6, 8)));
    assert!(Range(5, 7).overlaps(&Range(7, 9)));
}

#[test]
fn item_priorities() {
    assert_eq!(get_character_priority(&'a'), 1);
    assert_eq!(get_character_priority(&'p'), 16);
    assert_eq!(get_character_priority(&'z'), 26);
    assert_eq!(get_character_priority(&'A'), 27);
    assert_eq!(get_character_priority(&'L'), 38);
    assert_eq!(get_character_priority(&'Z'), 52);
}

#[test]
fn shared_rucksack_item() {
    let line = "vJrwpWtwJgWrhcsFMMfFFhFp";
    let (a, b) = line.split_at(line.len() / 2);
    assert_eq!(common_item(&chars(a), &chars(b)), Some('p'));
    assert_eq!(common_item(&chars("abc"), &chars("xyz")), None);
    assert_eq!(common_item(&chars("zbq"), &chars("qzz")), Some('q'));
}

#[test]
fn packet_markers() {
    assert_eq!(find_marker(&chars("mjqjpqmgbljsphdztnvjfqwrcgsmlb"), 4), Some(7));
    assert_eq!(find_marker(&chars("zcfzfwzzqfrljwzlrfnpqdbhtmscgvjw"), 4), Some(11));
    assert_eq!(find_marker(&chars("zcfzfwzzqfrljwzlrfnpqdbhtmscgvjw"), 14), Some(26));
    assert_eq!(find_marker(&chars("mjqjpqmgbljsphdztnvjfqwrcgsmlb"), 14), Some(19));
    assert_eq!(find_marker(&chars("aaaaaaaa"), 4), None);
    assert!(contains_duplicate(&chars("abca")));
    assert!(!contains_duplicate(&chars("abcd")));
}

#[test]
fn crane_moves() {
    let start = vec![chars("ZN"), chars("MCD"), chars("P")];
    let cmds = [
        Command { num: 1, from: 2, to: 1 },
        Command { num: 3, from: 1, to: 3 },
        Command { num: 2, from: 2, to: 1 },
        Command { num: 1, from: 1, to: 2 },
    ];
    let mut one = start.clone();
    for c in &cmds {
        c.run9000(&mut one);
    }
    assert_eq!(top_crates(&one), chars("CMZ"));
    let mut two = start.clone();
    for c in &cmds {
        c.run9001(&mut two);
    }
    assert_eq!(top_crates(&two), chars("MCD"));
}

#[test]
fn crane_move_to_same_stack_changes_nothing() {
    let mut s = vec![chars("AB"), chars("C")];
    Command { num: 2, from: 1, to: 1 }.run9000(&mut s);
    assert_eq!(s, vec![chars("AB"), chars("C")]);
}

#[test]
fn group_badges() {
    let a = chars("vJrwpWtwJgWrhcsFMMfFFhFp");
    let b = chars("jqHRNqRjqzjGDLGLrsFMfFZSrLrFZsSL");
    let c = chars("PmmdzqPrVvPwwTWBwg");
    assert_eq!(badge(&a, &b, &c), Some('r'));
    assert_eq!(badge(&chars("ab"), &chars("bc"), &chars("ca")), None);
}
