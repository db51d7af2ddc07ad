use crate::veggie::Veggie;
use vstd::prelude::*;

verus! {

/// An obstacle that occupies a grid cell.
#[derive(Clone, Copy, Debug, PartialEq, Eq, Hash, Structural)]
pub enum Tile {
    Water,
    Rock,
}

impl Tile {
    /// The obstacle's position in the tile sprite sheet.
    pub fn index(&self) -> (r: usize)
        ensures
            r == (match *self {
                Tile::Water => 2usize,
                Tile::Rock => 3usize,
            }),
    {
        match self {
            Tile::Water => 2,
            Tile::Rock => 3,
        }
    }
}

/// A grid coordinate as a pair of integers.
pub open spec fn coord(p: (i8, i8)) -> (int, int) {
    (p.0 as int, p.1 as int)
}

/// What a cell list holds at `p`: the first entry with that coordinate decides.
pub open spec fn lookup<A>(cells: Seq<((i8, i8), A)>, p: (int, int)) -> Option<A>
    decreases cells.len(),
{
    if cells.len() == 0 {
        None
    } else if coord(cells[0].0) == p {
        Some(cells[0].1)
    } else {
        lookup(cells.drop_first(), p)
    }
}

/// No two entries of the list name the same cell, as in a map from cells.
pub open spec fn distinct_cells<A>(cells: Seq<((i8, i8), A)>) -> bool {
    forall|i: int, j: int|
        0 <= i < j < cells.len() ==> #[trigger] cells[i].0 != #[trigger] cells[j].0
}

/// The offset of the `k`-th neighbour, row by row from the top left.
pub open spec fn offset(k: int) -> (int, int) {
    if k < 3 {
        (k - 1, -1)
    } else if k == 3 {
        (-1, 0)
    } else if k == 4 {
        (1, 0)
    } else {
        (k - 6, 1)
    }
}

/// The eight cells around `p`, diagonals included.
pub open spec fn neighbors(p: (int, int)) -> Seq<(int, int)> {
    Seq::new(8, |k: int| (p.0 + offset(k).0, p.1 + offset(k).1))
}

/// What the cell list holds at each of the coordinates `ps` that it holds anything at.
pub open spec fn present<A>(cells: Seq<((i8, i8), A)>, ps: Seq<(int, int)>) -> Seq<A>
    decreases ps.len(),
{
    if ps.len() == 0 {
        Seq::empty()
    } else {
        let rest = present(cells, ps.drop_last());
        match lookup(cells, ps.last()) {
            Some(a) => rest.push(a),
            None => rest,
        }
    }
}

/// What the cell list holds around `p`.
pub open spec fn adjacent_spec<A>(p: (int, int), cells: Seq<((i8, i8), A)>) -> Seq<A> {
    present(cells, neighbors(p))
}

/// How many times `a` occurs in `s`.
pub open spec fn occurrences<A>(s: Seq<A>, a: A) -> nat
    decreases s.len(),
{
    if s.len() == 0 {
        0
    } else {
        occurrences(s.drop_last(), a) + if s.last() == a {
            1nat
        } else {
            0nat
        }
    }
}

/// The kinds that an item cannot stand next to.
pub open spec fn incompatible(v: Veggie) -> Seq<Veggie> {
    match v {
        Veggie::Garlic | Veggie::Carrot => seq![Veggie::Apple, Veggie::Mint],
        _ => seq![Veggie::Apple],
    }
}

/// Some neighbour is of a kind that `v` cannot stand next to.
pub open spec fn shocked(v: Veggie, near: Seq<Veggie>) -> bool {
    exists|i: int| 0 <= i < incompatible(v).len() && near.contains(#[trigger] incompatible(v)[i])
}

/// An Apple stands anywhere in the row or the column of `p`.
pub open spec fn apple_in_line(p: (int, int), placed: Seq<((i8, i8), Veggie)>) -> bool {
    exists|i: int|
        0 <= i < placed.len() && #[trigger] placed[i].1 == Veggie::Apple && (coord(placed[i].0).0
            == p.0 || coord(placed[i].0).1 == p.1)
}

/// The two conditions of an item of kind `v` at `p`.
pub open spec fn happiness(
    v: Veggie,
    p: (int, int),
    tiles: Seq<((i8, i8), Tile)>,
    placed: Seq<((i8, i8), Veggie)>,
) -> (bool, bool) {
    let near = adjacent_spec(p, placed);
    let near_tiles = adjacent_spec(p, tiles);
    if shocked(v, near) {
        (false, false)
    } else {
        match v {
            Veggie::Strawberry => (near.contains(Veggie::Strawberry), true),
            Veggie::Tomato => (near.contains(Veggie::Garlic) || near.contains(Veggie::Carrot), true),
            Veggie::Carrot => (!near_tiles.contains(Tile::Rock), true),
            Veggie::Cherry => (occurrences(near, Veggie::Cherry) == 1, !apple_in_line(p, placed)),
            Veggie::Garlic => (!near_tiles.contains(Tile::Water), true),
            Veggie::Apple | Veggie::Mint => (true, true),
        }
    }
}

/// What the cell list holds at `(x, y)`.
pub fn cell_at<A: Copy>(cells: &Vec<((i8, i8), A)>, x: i16, y: i16) -> (r: Option<A>)
    ensures
        r == lookup(cells@, (x as int, y as int)),
{
    let ghost p = (x as int, y as int);
    let mut i: usize = 0;
    assert(cells@.skip(0) =~= cells@);
    while i < cells.len()
        invariant
            0 <= i <= cells@.len(),
            p == (x as int, y as int),
            lookup(cells@, p) == lookup(cells@.skip(i as int), p),
        decreases cells.len() - i,
    {
        let key: (i8, i8) = cells[i].0;
        proof {
            assert(cells@.skip(i as int).drop_first() =~= cells@.skip(i as int + 1));
            assert(cells@.skip(i as int)[0] == cells@[i as int]);
        }
        if key.0 as i16 == x && key.1 as i16 == y {
            assert(coord(cells@[i as int].0) == p);
            return Some(cells[i].1);
        }
        assert(coord(cells@[i as int].0) != p);
        i = i + 1;
    }
    None
}

fn offset_of(k: usize) -> (r: (i16, i16))
    requires
        k < 8,
    ensures
        (r.0 as int, r.1 as int) == offset(k as int),
{
    if k < 3 {
        (k as i16 - 1, -1)
    } else if k == 3 {
        (-1, 0)
    } else if k == 4 {
        (1, 0)
    } else {
        (k as i16 - 6, 1)
    }
}

/// What the cell list holds in the eight cells around `pos`, row by row from the top left.
pub fn adjacent<A: Copy>(pos: (i8, i8), map: &Vec<((i8, i8), A)>) -> (r: Vec<A>)
    ensures
        r@ == adjacent_spec(coord(pos), map@),
{
    let ghost ps = neighbors(coord(pos));
    let mut r: Vec<A> = Vec::new();
    let mut k: usize = 0;
    while k < 8
        invariant
            k <= 8,
            ps == neighbors(coord(pos)),
            r@ == present(map@, ps.take(k as int)),
        decreases 8 - k,
    {
        let d = offset_of(k);
        let found = cell_at(map, pos.0 as i16 + d.0, pos.1 as i16 + d.1);
        proof {
            assert(ps.take(k + 1).drop_last() =~= ps.take(k as int));
        }
        match found {
            Some(a) => r.push(a),
            None => {},
        }
        k = k + 1;
    }
    proof {
        assert(ps.take(8) =~= ps);
    }
    r
}

/// The kinds that an item of kind `veggie` cannot stand next to.
pub fn unhappy_adjacent(veggie: &Veggie) -> (r: Vec<Veggie>)
    ensures
        r@ == incompatible(*veggie),
{
    let r = match veggie {
        Veggie::Garlic | Veggie::Carrot => vec![Veggie::Apple, Veggie::Mint],
        _ => vec![Veggie::Apple],
    };
    assert(r@ =~= incompatible(*veggie));
    r
}

fn has_veggie(s: &Vec<Veggie>, v: Veggie) -> (r: bool)
    ensures
        r == s@.contains(v),
{
    let mut i: usize = 0;
    while i < s.len()
        invariant
            i <= s@.len(),
            forall|j: int| 0 <= j < i ==> s@[j] != v,
        decreases s.len() - i,
    {
        if s[i] == v {
            return true;
        }
        i = i + 1;
    }
    false
}

fn has_tile(s: &Vec<Tile>, t: Tile) -> (r: bool)
    ensures
        r == s@.contains(t),
{
    let mut i: usize = 0;
    while i < s.len()
        invariant
            i <= s@.len(),
            forall|j: int| 0 <= j < i ==> s@[j] != t,
        decreases s.len() - i,
    {
        if s[i] == t {
            return true;
        }
        i = i + 1;
    }
    false
}

fn count_veggie(s: &Vec<Veggie>, v: Veggie) -> (r: usize)
    ensures
        r == occurrences(s@, v),
{
    let mut n: usize = 0;
    let mut i: usize = 0;
    while i < s.len()
        invariant
            i <= s@.len(),
            n == occurrences(s@.take(i as int), v),
            n <= i,
        decreases s.len() - i,
    {
        proof {
            assert(s@.take(i + 1).drop_last() =~= s@.take(i as int));
        }
        if s[i] == v {
            n = n + 1;
        }
        i = i + 1;
    }
    proof {
        assert(s@.take(i as int) =~= s@);
    }
    n
}

fn apples_in_line(pos: (i8, i8), placed: &Vec<((i8, i8), Veggie)>) -> (r: bool)
    ensures
        r == apple_in_line(coord(pos), placed@),
{
    let mut i: usize = 0;
    while i < placed.len()
        invariant
            i <= placed@.len(),
            forall|j: int|
                0 <= j < i ==> !(#[trigger] placed@[j].1 == Veggie::Apple && (coord(
                    placed@[j].0,
                ).0 == pos.0 || coord(placed@[j].0).1 == pos.1)),
        decreases placed.len() - i,
    {
        let (key, v) = placed[i];
        if v == Veggie::Apple && (key.0 == pos.0 || key.1 == pos.1) {
            return true;
        }
        i = i + 1;
    }
    false
}

/// The two conditions of an item of kind `veggie` standing at `pos`: both are
/// false when a neighbour is of a kind it cannot stand next to, else each
/// follows the rule of its kind.
pub fn is_happy(
    veggie: &Veggie,
    pos: (i8, i8),
    tiles: &Vec<((i8, i8), Tile)>,
    veggies: &Vec<((i8, i8), Veggie)>,
) -> (r: (bool, bool))
    ensures
        r == happiness(*veggie, coord(pos), tiles@, veggies@),
{
    let adjacent_veggies = adjacent(pos, veggies);
    let adjacent_tiles = adjacent(pos, tiles);
    let impossible = unhappy_adjacent(veggie);
    let mut i: usize = 0;
    while i < impossible.len()
        invariant
            i <= impossible@.len(),
            impossible@ == incompatible(*veggie),
            adjacent_veggies@ == adjacent_spec(coord(pos), veggies@),
            forall|j: int| 0 <= j < i ==> !adjacent_veggies@.contains(impossible@[j]),
        decreases impossible.len() - i,
    {
        if has_veggie(&adjacent_veggies, impossible[i]) {
            assert(incompatible(*veggie)[i as int] == impossible@[i as int]);
            return (false, false);
        }
        i = i + 1;
    }
    match veggie {
        Veggie::Strawberry => (has_veggie(&adjacent_veggies, Veggie::Strawberry), true),
        Veggie::Tomato => (
            has_veggie(&adjacent_veggies, Veggie::Garlic) || has_veggie(
                &adjacent_veggies,
                Veggie::Carrot,
            ),
            true,
        ),
        Veggie::Carrot => (!has_tile(&adjacent_tiles, Tile::Rock), true),
        Veggie::Cherry => {
            // exactly one neighbouring Cherry
            let c1 = count_veggie(&adjacent_veggies, Veggie::Cherry) == 1;
            // no Apple anywhere in the row or the column
            let c2 = !apples_in_line(pos, veggies);
            (c1, c2)
        },
        Veggie::Garlic => (!has_tile(&adjacent_tiles, Tile::Water), true),
        _ => (true, true),
    }
}

} // verus!
