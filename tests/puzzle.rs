use veggie_puzzle::puzzle::{count_placed, count_veggies, Puzzle, MAX_H, MAX_W, UNLIMITED};
use veggie_puzzle::rules::Tile;
use veggie_puzzle::veggie::{Colors, Expression, Veggie};

fn two_strawberries() -> Puzzle {
    Puzzle {
        author: "ab".to_string(),
        size: (2, 1),
        veggies: vec![],
        tiles: vec![],
        placed: vec![((0, 0), Veggie::Strawberry), ((1, 0), Veggie::Strawberry)],
    }
}

#[test]
fn default_puzzle_is_an_empty_five_by_three_grid() {
    let p = Puzzle::default();
    assert_eq!(p.author, "");
    assert_eq!(p.size, (5, 3));
    assert!(p.veggies.is_empty());
    assert!(p.tiles.is_empty());
    assert!(p.placed.is_empty());
    assert_eq!(p.is_valid(), Err("The puzzle is empty!".to_string()));
}

#[test]
fn valid_two_strawberries() {
    assert_eq!(two_strawberries().is_valid(), Ok(()));
}

#[test]
fn too_large_grid() {
    let mut p = two_strawberries();
    p.size = (MAX_W + 1, 1);
    assert_eq!(p.is_valid(), Err("The grid is too large!".to_string()));
    p.size = (2, MAX_H + 1);
    assert_eq!(p.is_valid(), Err("The grid is too large!".to_string()));
    p.size = (MAX_W, MAX_H);
    assert_eq!(p.is_valid(), Ok(()));
}

#[test]
fn too_small_grid() {
    let mut p = two_strawberries();
    p.size = (0, 1);
    assert_eq!(p.is_valid(), Err("The grid is too small!".to_string()));
    p.size = (3, 0);
    assert_eq!(p.is_valid(), Err("The grid is too small!".to_string()));
}

#[test]
fn unhappy_item() {
    let mut p = two_strawberries();
    p.placed = vec![((0, 0), Veggie::Strawberry), ((0, 2), Veggie::Strawberry)];
    p.size = (3, 3);
    assert_eq!(p.is_valid(), Err("The veggies should be happy!".to_string()));
}

#[test]
fn size_is_checked_before_happiness() {
    let mut p = Puzzle::default();
    p.size = (11, 3);
    p.placed = vec![((0, 0), Veggie::Strawberry)];
    assert_eq!(p.is_valid(), Err("The grid is too large!".to_string()));
}

#[test]
fn remaining_in_editor_is_unlimited() {
    let p = two_strawberries();
    for v in Veggie::all() {
        assert_eq!(p.remaining_veggie(&v, true), UNLIMITED);
        assert_eq!(p.remaining_veggie(&v, true), 99);
    }
}

#[test]
fn remaining_in_play() {
    let mut p = two_strawberries();
    p.veggies = vec![(Veggie::Strawberry, 3), (Veggie::Mint, 1)];
    assert_eq!(p.remaining_veggie(&Veggie::Strawberry, false), 1);
    assert_eq!(p.remaining_veggie(&Veggie::Mint, false), 1);
    assert_eq!(p.remaining_veggie(&Veggie::Apple, false), 0);
}

#[test]
fn remaining_never_goes_below_zero() {
    let mut p = two_strawberries();
    p.veggies = vec![(Veggie::Strawberry, 1)];
    assert_eq!(p.remaining_veggie(&Veggie::Strawberry, false), 0);
}

#[test]
fn prepare_clears_the_solution_only() {
    let mut p = two_strawberries();
    p.veggies = vec![(Veggie::Strawberry, 2)];
    p.tiles = vec![((1, 1), Tile::Water)];
    p.prepare();
    assert!(p.placed.is_empty());
    assert_eq!(p.veggies, vec![(Veggie::Strawberry, 2)]);
    assert_eq!(p.tiles, vec![((1, 1), Tile::Water)]);
    assert_eq!(p.author, "ab");
    assert_eq!(p.remaining_veggie(&Veggie::Strawberry, false), 2);
}

#[test]
fn solved_once_everything_is_placed() {
    let mut p = two_strawberries();
    p.veggies = vec![(Veggie::Strawberry, 2)];
    assert!(p.is_solved());
    p.placed.pop();
    assert!(!p.is_solved());
    p.placed = vec![((0, 0), Veggie::Strawberry), ((1, 0), Veggie::Strawberry)];
    p.veggies = vec![(Veggie::Strawberry, 3)];
    assert!(!p.is_solved());
}

#[test]
fn counts_per_kind() {
    let placed = vec![
        ((0, 0), Veggie::Mint),
        ((1, 0), Veggie::Apple),
        ((2, 0), Veggie::Mint),
        ((3, 0), Veggie::Mint),
    ];
    assert_eq!(count_veggies(&placed), vec![(Veggie::Mint, 3), (Veggie::Apple, 1)]);
    assert_eq!(count_placed(&placed, Veggie::Mint), 3);
    assert_eq!(count_placed(&placed, Veggie::Cherry), 0);
    assert!(count_veggies(&vec![]).is_empty());
}

#[test]
fn faces_and_colors() {
    assert_eq!(Veggie::Carrot.face_bg(), Colors::Orange);
    assert_eq!(Veggie::Garlic.face_bg(), Colors::Grey);
    assert_eq!(Veggie::Mint.face_bg(), Colors::Green);
    assert_eq!(Veggie::Cherry.face_bg(), Colors::Red);
    assert_eq!(Veggie::Garlic.face_fg(), Colors::Black);
    assert_eq!(Veggie::Tomato.face_fg(), Colors::Beige);
    assert_eq!(Expression::Neutral.index(), 0);
    assert_eq!(Expression::Surprised.index(), 1);
    assert_eq!(Expression::Sad.index(), 2);
    assert_eq!(Expression::Happy.index(), 3);
}
