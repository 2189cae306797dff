use pipe_puzzles::desert::{
    execute_all, execute_all_p2, execute_all_within, find_all_as, inst_count, inst_count_within,
    parse_all, parse_desert_map, parse_instruction, parse_map_pair,
};

#[test]
fn test_parse_map_pair() {
    let test_text = "AAA = (BBB, CCC)";
    let (s, (l, r)) = parse_map_pair(test_text);
    assert_eq!(s, "AAA");
    assert_eq!(l, "BBB");
    assert_eq!(r, "CCC");
}

#[test]
fn test_parse_instruction() {
    let instructions = "LR";
    let stream = parse_instruction(instructions);
    assert_eq!(stream.take(4).into_iter().collect::<String>(), "LRLR");
}

#[test]
fn test_inst_count() {
    let inst_pat = "RL";
    let map = "AAA = (BBB, CCC)
BBB = (DDD, EEE)
CCC = (ZZZ, GGG)
DDD = (DDD, DDD)
EEE = (EEE, EEE)
GGG = (GGG, GGG)
ZZZ = (ZZZ, ZZZ)";
    let desert_map = parse_desert_map(map);
    let insts = parse_instruction(inst_pat);
    assert_eq!(2, inst_count(&desert_map, &insts, "AAA"));
}

#[test]
fn test_parse_all() {
    let test_input = "RL

AAA = (BBB, CCC)
BBB = (DDD, EEE)
CCC = (ZZZ, GGG)
DDD = (DDD, DDD)
EEE = (EEE, EEE)
GGG = (GGG, GGG)
ZZZ = (ZZZ, ZZZ)";
    println!("{:?}", parse_all(test_input));
}

#[test]
fn test_execute_all() {
    let test_input = "RL

AAA = (BBB, CCC)
BBB = (DDD, EEE)
CCC = (ZZZ, GGG)
DDD = (DDD, DDD)
EEE = (EEE, EEE)
GGG = (GGG, GGG)
ZZZ = (ZZZ, ZZZ)";
    println!("{}", execute_all(test_input, "AAA"));
}

#[test]
fn test_exec_p2() {
    let test_text = "LR

11A = (11B, XXX)
11B = (XXX, 11Z)
11Z = (11B, XXX)
22A = (22B, XXX)
22B = (22C, 22C)
22C = (22Z, 22Z)
22Z = (22B, 22B)
XXX = (XXX, XXX)";
    println!("{}", execute_all_p2(test_text))
}

#[test]
fn walks_with_repeating_instructions() {
    let text = "LLR

AAA = (BBB, BBB)
BBB = (AAA, ZZZ)
ZZZ = (ZZZ, ZZZ)";
    assert_eq!(execute_all(text, "AAA"), 6);
    let text2 = "RL\n\nAAA = (BBB, CCC)\nBBB = (DDD, EEE)\nCCC = (ZZZ, GGG)\nDDD = (DDD, DDD)\nEEE = (EEE, EEE)\nGGG = (GGG, GGG)\nZZZ = (ZZZ, ZZZ)";
    assert_eq!(execute_all(text2, "AAA"), 2);
}

#[test]
fn ghost_walks_meet_at_lcm() {
    let text = "LR\n\n11A = (11B, XXX)\n11B = (XXX, 11Z)\n11Z = (11B, XXX)\n22A = (22B, XXX)\n22B = (22C, 22C)\n22C = (22Z, 22Z)\n22Z = (22B, 22B)\nXXX = (XXX, XXX)";
    assert_eq!(execute_all_p2(text), 6);
}

#[test]
fn later_line_replaces_label() {
    let m = parse_desert_map("AAA = (BBB, CCC)\nQQA = (QQA, QQA)\nAAA = (ZZZ, ZZZ)\nZZZ = (ZZZ, ZZZ)");
    let insts = parse_instruction("L");
    assert_eq!(inst_count(&m, &insts, "AAA"), 1);
    assert_eq!(find_all_as(&m), vec!["AAA".to_string(), "QQA".to_string()]);
}

#[test]
fn empty_text_has_no_parts() {
    assert!(parse_all("").is_none());
    let (m, s) = parse_all("LR").unwrap();
    assert!(find_all_as(&m).is_empty());
    assert_eq!(s.take(3), vec!['L', 'R', 'L']);
}

#[test]
fn bounded_walks() {
    let m = parse_desert_map("AAA = (BBB, BBB)\nBBB = (AAA, ZZZ)\nZZZ = (ZZZ, ZZZ)");
    let insts = parse_instruction("LLR");
    assert_eq!(inst_count_within(&m, &insts, "AAA", 6), Some(6));
    assert_eq!(inst_count_within(&m, &insts, "AAA", 5), None);
    assert_eq!(inst_count_within(&m, &insts, "QQQ", 100), None);
    assert_eq!(inst_count_within(&m, &parse_instruction("X"), "AAA", 100), None);
    assert_eq!(inst_count_within(&m, &parse_instruction(""), "AAA", 100), None);
    let loops = parse_desert_map("AAA = (AAA, AAA)");
    assert_eq!(inst_count_within(&loops, &parse_instruction("L"), "AAA", 1000), None);
    let text = "RL\n\nAAA = (BBB, CCC)\nBBB = (DDD, EEE)\nCCC = (ZZZ, GGG)\nDDD = (DDD, DDD)\nEEE = (EEE, EEE)\nGGG = (GGG, GGG)\nZZZ = (ZZZ, ZZZ)";
    assert_eq!(execute_all_within(text, "AAA", 10), Some(2));
    assert_eq!(execute_all_within("", "AAA", 10), None);
}
