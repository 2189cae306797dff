use pipe_puzzles::cosmos::Cosmo;

const SKY: &str = "...#......
.......#..
#.........
..........
......#...
.#........
.........#
..........
.......#..
#...#.....";

#[test]
fn test_find_galaxies() {
    let s = "...#......
.......#..
#.........
..........
......#...
.#........
.........#
..........
.......#..
#...#.....";
    let cosmo = Cosmo::with_expansion(s, 2);
    assert_eq!(374, cosmo.find_all_distances())
}

#[test]
fn galaxies_in_row_major_order() {
    let cosmo = Cosmo::new(SKY);
    let gs = cosmo.find_galaxies();
    assert_eq!(gs.len(), 9);
    assert_eq!(gs[0], (0, 3));
    assert_eq!(gs[1], (1, 7));
    assert_eq!(gs[8], (9, 4));
}

#[test]
fn pairs_each_once_in_order() {
    let cosmo = Cosmo::new("#.#\n...\n#..");
    let ps = cosmo.find_pairs();
    assert_eq!(
        ps,
        vec![((0, 0), (0, 2)), ((0, 0), (2, 0)), ((0, 2), (2, 0))]
    );
    assert_eq!(Cosmo::new(SKY).find_pairs().len(), 36);
}

#[test]
fn distances_between_example_galaxies() {
    let cosmo = Cosmo::with_expansion(SKY, 2);
    assert_eq!(cosmo.find_distance((5, 1), (9, 4)), 9);
    assert_eq!(cosmo.find_distance((9, 4), (5, 1)), 9);
    assert_eq!(cosmo.find_distance((0, 3), (8, 7)), 15);
    assert_eq!(cosmo.find_distance((2, 0), (6, 9)), 17);
    assert_eq!(cosmo.find_distance((9, 0), (9, 4)), 5);
}

#[test]
fn larger_expansion() {
    assert_eq!(Cosmo::with_expansion(SKY, 10).find_all_distances(), 1030);
    assert_eq!(Cosmo::with_expansion(SKY, 100).find_all_distances(), 8410);
}

#[test]
fn empty_columns() {
    let v = vec![vec!['.', '#'], vec!['.', '.']];
    assert!(Cosmo::col_not_contain_galaxy(&v, 0));
    assert!(!Cosmo::col_not_contain_galaxy(&v, 1));
}

#[test]
fn no_pairs_no_distance() {
    assert_eq!(Cosmo::with_expansion("...\n.#.", 2).find_all_distances(), 0);
    assert_eq!(Cosmo::new("...\n.#.").find_all_distances(), 0);
}

#[test]
fn default_expansion_is_a_million() {
    let cosmo = Cosmo::new(SKY);
    assert_eq!(cosmo.find_distance((5, 1), (9, 4)), 2000005);
    assert_eq!(cosmo.find_all_distances(), 82000210);
}
