use pipe_puzzles::hands::{
    calculate_bids, compare_card_set, detect_card_type, parse_card, parse_cardset, parse_inputs,
};
use std::cmp::Ordering;

#[test]
fn test_parse_cardset() {
    let ex = "32T3K";
    println!("{:?}", parse_cardset(ex));
}

#[test]
fn test_detect() {
    let strs = ["32T3K", "T55J5", "KK677", "KTJJT", "QQQJA"];

    for s in strs {
        println!("{}", detect_card_type(&parse_cardset(s)));
    }
}

#[test]
fn test_calculate_bids() {
    let strs = ["32T3K", "T55J5", "KK677", "KTJJT", "QQQJA"];
    let bids = [765, 684, 28, 220, 483];
    let mut v = Vec::new();
    for (s, i) in strs.into_iter().zip(bids) {
        v.push((parse_cardset(s), i))
    }
    println!("{}", calculate_bids(v));
}

#[test]
fn card_values() {
    assert_eq!(parse_card('2'), 2);
    assert_eq!(parse_card('9'), 9);
    assert_eq!(parse_card('T'), 10);
    assert_eq!(parse_card('J'), 11);
    assert_eq!(parse_card('Q'), 12);
    assert_eq!(parse_card('K'), 13);
    assert_eq!(parse_card('A'), 14);
    assert_eq!(parse_cardset("32T3K"), [3, 2, 10, 3, 13]);
}

#[test]
fn every_kind() {
    let cases = [
        ("AAAAA", 7),
        ("AA8AA", 6),
        ("23332", 5),
        ("TTT98", 4),
        ("23432", 3),
        ("A23A4", 2),
        ("23456", 1),
        ("32T3K", 2),
        ("T55J5", 4),
        ("KK677", 3),
        ("KTJJT", 3),
        ("QQQJA", 4),
    ];
    for (s, k) in cases {
        assert_eq!(detect_card_type(&parse_cardset(s)), k, "{}", s);
    }
}

#[test]
fn hand_order() {
    let a = parse_cardset("33332");
    let b = parse_cardset("2AAAA");
    assert_eq!(compare_card_set(&a, &b), Ordering::Greater);
    assert_eq!(compare_card_set(&b, &a), Ordering::Less);
    let c = parse_cardset("77888");
    let d = parse_cardset("77788");
    assert_eq!(compare_card_set(&c, &d), Ordering::Greater);
    assert_eq!(compare_card_set(&c, &c), Ordering::Equal);
    let e = parse_cardset("23456");
    assert_eq!(compare_card_set(&e, &c), Ordering::Less);
}

#[test]
fn example_winnings() {
    let strs: Vec<String> = ["32T3K", "T55J5", "KK677", "KTJJT", "QQQJA"]
        .iter()
        .map(|s| s.to_string())
        .collect();
    let bids = vec![765, 684, 28, 220, 483];
    let sets = parse_inputs(strs, bids);
    assert_eq!(sets.len(), 5);
    assert_eq!(sets[1], ([10, 5, 5, 11, 5], 684));
    assert_eq!(calculate_bids(sets), 6440);
}

#[test]
fn equal_hands_rank_in_given_order() {
    let h = parse_cardset("KK677");
    assert_eq!(calculate_bids(vec![(h, 10), (h, 1)]), 10 + 2);
    assert_eq!(calculate_bids(vec![(h, 1), (h, 10)]), 1 + 20);
    assert_eq!(calculate_bids(Vec::new()), 0);
}

#[test]
fn inputs_stop_at_shorter_list() {
    let sets = parse_inputs(vec!["23456".to_string(), "AAAAA".to_string()], vec![5]);
    assert_eq!(sets, vec![([2, 3, 4, 5, 6], 5)]);
}
