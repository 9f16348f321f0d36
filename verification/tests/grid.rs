use npuzzle::Coord;
use npuzzle::Grid;

#[test]
fn display() {
    let test = Grid::new(vec![1, 2, 3, 4, 5, 6, 7, 8, 0], 3);
    println!("{}", test.to_string());
    let test = Grid::new(vec![1, 2, 3, 4, 5, 6, 7, 8, 9, 10, 11, 12, 13, 14, 15, 0], 4);
    println!("{}", test.to_string());
}

#[test]
fn hamming() {
    let goal = Grid::new(vec![1, 2, 3, 8, 0, 4, 7, 6, 5], 3);
    let test = Grid::new(vec![1, 2, 3, 4, 5, 6, 7, 8, 0], 3);
    let expected = 4;

    assert_eq!(test.hamming(&goal), expected);
}

#[test]
fn manhattan() {
    let goal = Grid::new(vec![1, 2, 3, 8, 0, 4, 7, 6, 5], 3);
    let test = Grid::new(vec![1, 2, 5, 3, 0, 6, 7, 4, 8], 3);

    let expected = 12;
    assert_eq!(test.manhattan(&goal), expected);

    let expected = 2;
    let test = Grid::new(vec![1, 2, 3, 8, 0, 4, 7, 5, 6], 3);
    assert_eq!(test.manhattan(&goal), expected);

    let expected = 1;
    let test = Grid::new(vec![1, 0, 3, 8, 2, 4, 7, 6, 5], 3);
    assert_eq!(test.manhattan(&goal), expected);

    let expected = 4;
    let test = Grid::new(vec![1, 2, 3, 8, 0, 4, 5, 7, 6], 3);
    assert_eq!(test.manhattan(&goal), expected);
}

#[test]
fn misplaced() {
    let goal = Grid::new(vec![1, 2, 3, 8, 0, 4, 7, 6, 5], 3);
    let test = Grid::new(vec![3, 1, 2, 8, 0, 4, 7, 6, 5], 3);

    assert_eq!(
        Grid::check_misplaced(&test, &goal),
        vec![
            (Coord::new(0, 0), Coord::new(2, 0)),
            (Coord::new(1, 0), Coord::new(0, 0)),
            (Coord::new(2, 0), Coord::new(1, 0))
        ]
    );
}

#[test]
fn linear_conflict() {
    let goal = Grid::new(vec![1, 2, 3, 8, 0, 4, 7, 6, 5], 3);
    let test = Grid::new(vec![3, 1, 2, 8, 0, 4, 7, 6, 5], 3);
    assert_eq!(test.linear_conflict(&goal), 2);
    let test = Grid::new(vec![8, 2, 3, 7, 0, 4, 1, 6, 5], 3);
    assert_eq!(test.linear_conflict(&goal), 2);
    let test = Grid::new(vec![8, 2, 4, 7, 0, 5, 1, 6, 3], 3);
    assert_eq!(test.linear_conflict(&goal), 4);
    let test = Grid::new(vec![8, 6, 4, 7, 0, 5, 1, 2, 3], 3);
    assert_eq!(test.linear_conflict(&goal), 5);
}

#[test]
fn solvable() {
    let test = Grid::new(vec![0, 7, 6, 8, 2, 4, 1, 5, 3], 3);
    println!("{}", test.solvable());
    let test = Grid::new(vec![0, 1, 3, 4, 8, 6, 2, 5, 7], 3);
    println!("{}", test.solvable());
    let test = Grid::new(vec![2, 1, 0, 4, 6, 5, 8, 7, 3], 3);
    println!("{}", test.solvable());
    let test = Grid::new(vec![2, 5, 0, 8, 7, 6, 3, 4, 1], 3);
    println!("{}", test.solvable());
    // Below is solvable
    let test = Grid::new(vec![1, 0, 3, 8, 2, 4, 7, 6, 5], 3);
    println!("{}", test.solvable());
    let test = Grid::new(vec![1, 2, 3, 8, 4, 0, 7, 6, 5], 3);
    println!("{}", test.solvable());
}

#[test]
fn new_random() {
    let puzzle = Grid::new_random(4);
    println!("{}", puzzle.to_string());
}
