use veggie_puzzle::rules::{adjacent, is_happy, unhappy_adjacent, Tile};
use veggie_puzzle::veggie::Veggie;

type Tiles = Vec<((i8, i8), Tile)>;
type Items = Vec<((i8, i8), Veggie)>;

#[test]
fn test_strawberry() {
    let tiles: Tiles = vec![];
    let veggies: Items = vec![((0, 0), Veggie::Strawberry)];

    assert_eq!(is_happy(&Veggie::Strawberry, (1, 0), &tiles, &veggies), (true, true));
    assert_eq!(is_happy(&Veggie::Strawberry, (0, 2), &tiles, &veggies), (false, true));
}

#[test]
fn test_carrot() {
    let tiles: Tiles = vec![((0, 0), Tile::Rock)];
    let veggies: Items = vec![];

    assert_eq!(is_happy(&Veggie::Carrot, (0, 1), &tiles, &veggies), (false, true));
    assert_eq!(is_happy(&Veggie::Carrot, (0, 2), &tiles, &veggies), (true, true));
}

#[test]
fn test_garlic() {
    let tiles: Tiles = vec![((0, 0), Tile::Water)];
    let veggies: Items = vec![];

    assert_eq!(is_happy(&Veggie::Garlic, (0, 1), &tiles, &veggies), (false, true));
    assert_eq!(is_happy(&Veggie::Garlic, (0, 2), &tiles, &veggies), (true, true));
}

#[test]
fn test_apple() {
    let tiles: Tiles = vec![];
    let veggies: Items = vec![((1, 1), Veggie::Apple)];

    for veggie in Veggie::all() {
        assert_eq!(is_happy(&veggie, (2, 1), &tiles, &veggies), (false, false));
    }
}

#[test]
fn test_mint() {
    let tiles: Tiles = vec![];
    let veggies: Items = vec![((1, 1), Veggie::Mint)];

    for veggie in [Veggie::Carrot, Veggie::Garlic] {
        assert_eq!(is_happy(&veggie, (2, 1), &tiles, &veggies), (false, false));
        assert_eq!(is_happy(&veggie, (3, 1), &tiles, &veggies), (true, true));
    }
}

#[test]
fn test_tomato() {
    let tiles: Tiles = vec![];
    let veggies: Items = vec![((0, 0), Veggie::Garlic), ((5, 0), Veggie::Carrot)];

    assert_eq!(is_happy(&Veggie::Tomato, (0, 5), &tiles, &veggies), (false, true));
    assert_eq!(is_happy(&Veggie::Tomato, (1, 0), &tiles, &veggies), (true, true));
    assert_eq!(is_happy(&Veggie::Tomato, (6, 0), &tiles, &veggies), (true, true));
}

#[test]
fn test_cherry() {
    let tiles: Tiles = vec![];
    let veggies: Items = vec![
        ((0, 0), Veggie::Apple),
        ((3, 1), Veggie::Cherry),
        ((1, 3), Veggie::Cherry),
    ];

    assert_eq!(is_happy(&Veggie::Cherry, (2, 1), &tiles, &veggies), (true, true));
    assert_eq!(is_happy(&Veggie::Cherry, (3, 3), &tiles, &veggies), (false, true));
    assert_eq!(is_happy(&Veggie::Cherry, (3, 0), &tiles, &veggies), (true, false));
    assert_eq!(is_happy(&Veggie::Cherry, (0, 3), &tiles, &veggies), (true, false));
    assert_eq!(is_happy(&Veggie::Cherry, (0, 5), &tiles, &veggies), (false, false));
}

#[test]
fn diagonal_neighbour_counts() {
    let tiles: Tiles = vec![];
    let near: Items = vec![((0, 0), Veggie::Strawberry), ((1, 1), Veggie::Strawberry)];
    assert_eq!(is_happy(&Veggie::Strawberry, (0, 0), &tiles, &near), (true, true));
    let far: Items = vec![((0, 0), Veggie::Strawberry), ((0, 2), Veggie::Strawberry)];
    assert_eq!(is_happy(&Veggie::Strawberry, (0, 0), &tiles, &far), (false, true));
}

#[test]
fn apple_next_to_every_kind() {
    let tiles: Tiles = vec![];
    for kind in Veggie::all() {
        for apple in [(4, 4), (5, 4), (6, 4), (4, 5), (6, 5), (4, 6), (5, 6), (6, 6)] {
            let items: Items = vec![(apple, Veggie::Apple), ((5, 5), kind)];
            assert_eq!(is_happy(&kind, (5, 5), &tiles, &items), (false, false));
        }
    }
}

#[test]
fn apple_two_cells_away_is_harmless() {
    let tiles: Tiles = vec![];
    let items: Items = vec![((0, 0), Veggie::Apple), ((3, 3), Veggie::Mint)];
    assert_eq!(is_happy(&Veggie::Mint, (3, 3), &tiles, &items), (true, true));
}

#[test]
fn cherry_counts_its_neighbours_exactly() {
    let tiles: Tiles = vec![];
    let none: Items = vec![((5, 5), Veggie::Cherry)];
    assert_eq!(is_happy(&Veggie::Cherry, (5, 5), &tiles, &none), (false, true));
    let one: Items = vec![((5, 5), Veggie::Cherry), ((6, 6), Veggie::Cherry)];
    assert_eq!(is_happy(&Veggie::Cherry, (5, 5), &tiles, &one), (true, true));
    let two: Items = vec![
        ((5, 5), Veggie::Cherry),
        ((6, 6), Veggie::Cherry),
        ((4, 5), Veggie::Cherry),
    ];
    assert_eq!(is_happy(&Veggie::Cherry, (5, 5), &tiles, &two), (false, true));
}

#[test]
fn cherry_sees_apples_across_the_whole_grid() {
    let tiles: Tiles = vec![];
    let row: Items = vec![
        ((0, 0), Veggie::Cherry),
        ((1, 0), Veggie::Cherry),
        ((9, 0), Veggie::Apple),
    ];
    assert_eq!(is_happy(&Veggie::Cherry, (0, 0), &tiles, &row), (true, false));
    let column: Items = vec![
        ((0, 0), Veggie::Cherry),
        ((1, 0), Veggie::Cherry),
        ((0, 6), Veggie::Apple),
    ];
    assert_eq!(is_happy(&Veggie::Cherry, (0, 0), &tiles, &column), (true, false));
    let elsewhere: Items = vec![
        ((0, 0), Veggie::Cherry),
        ((1, 0), Veggie::Cherry),
        ((5, 5), Veggie::Apple),
    ];
    assert_eq!(is_happy(&Veggie::Cherry, (0, 0), &tiles, &elsewhere), (true, true));
}

#[test]
fn obstacles_do_not_count_as_items() {
    let tiles: Tiles = vec![((1, 0), Tile::Rock)];
    let items: Items = vec![((0, 0), Veggie::Strawberry)];
    assert_eq!(is_happy(&Veggie::Strawberry, (0, 0), &tiles, &items), (false, true));
    assert_eq!(is_happy(&Veggie::Garlic, (0, 1), &tiles, &items), (true, true));
}

#[test]
fn adjacent_lists_neighbours_row_by_row() {
    let items: Items = vec![
        ((2, 2), Veggie::Mint),
        ((1, 1), Veggie::Apple),
        ((3, 3), Veggie::Cherry),
        ((2, 1), Veggie::Tomato),
        ((1, 2), Veggie::Garlic),
        ((9, 9), Veggie::Carrot),
    ];
    assert_eq!(
        adjacent((2, 2), &items),
        vec![Veggie::Apple, Veggie::Tomato, Veggie::Garlic, Veggie::Cherry]
    );
    assert_eq!(adjacent((-128, -128), &items), Vec::<Veggie>::new());
}

#[test]
fn incompatible_kinds() {
    assert_eq!(unhappy_adjacent(&Veggie::Carrot), vec![Veggie::Apple, Veggie::Mint]);
    assert_eq!(unhappy_adjacent(&Veggie::Garlic), vec![Veggie::Apple, Veggie::Mint]);
    assert_eq!(unhappy_adjacent(&Veggie::Tomato), vec![Veggie::Apple]);
}

#[test]
fn sprite_indices() {
    assert_eq!(Tile::Water.index(), 2);
    assert_eq!(Tile::Rock.index(), 3);
    let sprites: Vec<usize> = Veggie::all().iter().map(|v| v.sprite()).collect();
    assert_eq!(sprites, vec![0, 1, 2, 3, 4, 5, 6]);
}
