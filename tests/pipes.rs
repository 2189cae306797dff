use pipe_puzzles::pipes::{PipeError, PipeMap};

const SMALL: &str = "..F7.
.FJ|.
SJ.L7
|F--J
LJ...";

const LARGE: &str = "FF7FSF7F7F7F7F7F---7
L|LJ||||||||||||F--J
FL-7LJLJ||||||LJL-77
F--JF--7||LJLJ7F7FJ-
L---JF-JLJ.||-FJLJJ7
|F|F-JF---7F7-L7L|7|
|FFJF7L7F-JF7|JL---7
7-L-JL7||F7|L7F-7F7|
L.L7LFJ|||||FJL7||LJ
L7JLJL-JLJLJL--JLJ.L";

#[test]
fn test_new_pipe_map() {
    let s = "..F7.
.FJ|.
SJ.L7
|F--J
LJ...";
    let mut pm = PipeMap::new(s).unwrap();
    println!("{:?}", pm);
    assert_eq!(pm.find_s(), (2, 0));
    println!("{:?}", pm.search_farthest());
    println!("{:?}", pm.traverse_main_loop())
}

#[test]
fn test_area() {
    let s = "FF7FSF7F7F7F7F7F---7
L|LJ||||||||||||F--J
FL-7LJLJ||||||LJL-77
F--JF--7||LJLJ7F7FJ-
L---JF-JLJ.||-FJLJJ7
|F|F-JF---7F7-L7L|7|
|FFJF7L7F-JF7|JL---7
7-L-JL7||F7|L7F-7F7|
L.L7LFJ|||||FJL7||LJ
L7JLJL-JLJLJL--JLJ.L";
    let mut pm = PipeMap::new(s).unwrap();
    pm.search_farthest().unwrap();
    println!("{:?}", pm);
    println!("{:?}", pm.traverse_main_loop().unwrap().abs())
}

#[test]
fn small_loop_start_and_farthest() {
    let mut pm = PipeMap::new(SMALL).unwrap();
    assert_eq!(pm.find_s(), (2, 0));
    assert_eq!(pm.search_farthest(), Ok(8));
    assert_eq!(pm.traverse_main_loop().unwrap().abs(), 1);
}

#[test]
fn small_loop_distances() {
    let mut pm = PipeMap::new(SMALL).unwrap();
    pm.search_farthest().unwrap();
    let expected: Vec<Vec<i32>> = vec![
        vec![-1, -1, 4, 5, -1],
        vec![-1, 2, 3, 6, -1],
        vec![0, 1, -1, 7, 8],
        vec![1, 4, 5, 6, 7],
        vec![2, 3, -1, -1, -1],
    ];
    assert_eq!(pm.distances(), &expected);
}

#[test]
fn large_loop_farthest_and_area() {
    let mut pm = PipeMap::new(LARGE).unwrap();
    assert_eq!(pm.search_farthest(), Ok(80));
    assert_eq!(pm.traverse_main_loop().unwrap().abs(), 10);
}

#[test]
fn search_twice_gives_same_map() {
    let mut a = PipeMap::new(LARGE).unwrap();
    let mut b = PipeMap::new(LARGE).unwrap();
    let fa = a.search_farthest();
    let fb = b.search_farthest();
    assert_eq!(fa, fb);
    assert_eq!(a.distances(), b.distances());
    let again = a.search_farthest();
    assert_eq!(again, fa);
    assert_eq!(a.distances(), b.distances());
}

#[test]
fn walk_marks_loop_tiles_passed() {
    for text in [SMALL, LARGE] {
        let mut pm = PipeMap::new(text).unwrap();
        pm.search_farthest().unwrap();
        let before = pm.distances().clone();
        let (sr, sc) = pm.find_s();
        pm.traverse_main_loop().unwrap();
        let after = pm.distances();
        for r in 0..before.len() {
            for c in 0..before[r].len() {
                if (r, c) == (sr, sc) {
                    assert_eq!(after[r][c], 0);
                } else if before[r][c] >= 0 {
                    assert_eq!(after[r][c], -2);
                } else {
                    assert_eq!(after[r][c], before[r][c]);
                }
            }
        }
    }
}

#[test]
fn start_with_no_joining_neighbour() {
    let mut pm = PipeMap::new(".....\n.F-7.\n.|.|.\n.L-J.\n..S..").unwrap();
    assert_eq!(pm.search_farthest(), Err(PipeError::DegenerateStart));
    let mut lone = PipeMap::new("S").unwrap();
    assert_eq!(lone.search_farthest(), Err(PipeError::DegenerateStart));
    let mut one = PipeMap::new("S-.").unwrap();
    assert_eq!(one.search_farthest(), Err(PipeError::DegenerateStart));
}

#[test]
fn start_with_three_joining_neighbours() {
    let mut pm = PipeMap::new(".|.\n-S-\n...").unwrap();
    assert_eq!(pm.search_farthest(), Err(PipeError::DegenerateStart));
}

#[test]
fn loop_with_stray_pipes_around() {
    let mut pm = PipeMap::new("-L|F7\n7S-7|\nL|7||\n-L-J|\nL|-JF").unwrap();
    assert_eq!(pm.find_s(), (1, 1));
    assert_eq!(pm.search_farthest(), Ok(4));
    assert_eq!(pm.traverse_main_loop(), Ok(1));
}

#[test]
fn area_with_squeezed_gap() {
    let text = "...........\n.S-------7.\n.|F-----7|.\n.||.....||.\n.||.....||.\n.|L-7.F-J|.\n.|..|.|..|.\n.L--J.L--J.\n...........";
    let mut pm = PipeMap::new(text).unwrap();
    assert_eq!(pm.search_farthest(), Ok(23));
    assert_eq!(pm.traverse_main_loop().unwrap().abs(), 4);
}

#[test]
fn ragged_rows_are_malformed() {
    assert_eq!(PipeMap::new("S-7\n|.\nL-J").err(), Some(PipeError::Malformed));
    assert_eq!(PipeMap::new("").err(), Some(PipeError::Malformed));
}

#[test]
fn crlf_and_final_newline_are_accepted() {
    let mut pm = PipeMap::new("S7\r\nLJ\r\n").unwrap();
    assert_eq!(pm.find_s(), (0, 0));
    assert_eq!(pm.search_farthest(), Ok(2));
}

#[test]
fn missing_start_is_reported() {
    let mut pm = PipeMap::new("F7\nLJ").unwrap();
    assert_eq!(pm.search_farthest(), Err(PipeError::MissingStart));
    assert_eq!(pm.traverse_main_loop(), Err(PipeError::MissingStart));
}

#[test]
fn undefined_symbol_is_reported() {
    let mut pm = PipeMap::new("SX\nLJ").unwrap();
    assert_eq!(pm.search_farthest(), Err(PipeError::UndefinedSymbol));
}

#[test]
fn broken_walk_is_reported() {
    let mut pm = PipeMap::new("S7\nLJ").unwrap();
    assert_eq!(pm.traverse_main_loop(), Err(PipeError::BrokenLoop));
}

#[test]
fn clean_memo_shape() {
    let m = PipeMap::create_clean_memo(2, 3);
    assert_eq!(m, vec![vec![-1, -1, -1], vec![-1, -1, -1]]);
}

#[test]
fn reachability_of_neighbours() {
    let pm = PipeMap::new("S-7\n|.|\nL-J").unwrap();
    assert!(!pm.tile_unreachable((0, 0), 0, 1));
    assert!(!pm.tile_unreachable((0, 0), 1, 0));
    assert!(pm.tile_unreachable((0, 0), -1, 0));
    assert!(pm.tile_unreachable((0, 1), 1, 0));
    assert!(pm.tile_unreachable((1, 0), 0, 1));
}

#[test]
fn pipe_area_counts_unreached_to_the_left() {
    let mut pm = PipeMap::new(SMALL).unwrap();
    pm.search_farthest().unwrap();
    assert_eq!(pm.without_pipe_area((2, 3)), 1);
    assert_eq!(pm.without_pipe_area((0, 2)), 2);
    assert_eq!(pm.without_pipe_area((2, 0)), 0);
    assert_eq!(PipeMap::add_ui(3, -1), 2);
    assert_eq!(PipeMap::add_ui(3, 1), 4);
}

#[test]
fn origin_and_column_beyond_the_map() {
    let mut pm = PipeMap::new(SMALL).unwrap();
    assert!(pm.tile_unreachable((7, 7), 0, 1));
    assert!(pm.tile_unreachable((2, 5), 0, -1));
    let row = PipeMap::new("S-").unwrap();
    assert!(!row.tile_unreachable((0, 2), 0, -1));
    pm.search_farthest().unwrap();
    assert_eq!(pm.without_pipe_area((2, 9)), 1);
    assert_eq!(pm.without_pipe_area((4, 9)), 3);
}
