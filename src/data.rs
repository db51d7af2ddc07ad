use crate::bits::{
    bits_of, bits_of_bytes, bytes_of, field, lemma_bits_of_len, padded, push_bits, value_of, zeros,
};
use crate::puzzle::{count_veggies, counts_of, Puzzle, PuzzleModel, MAX_H, MAX_W};
use crate::rules::{distinct_cells, Tile};
use crate::text::{base91_decode, base91_decoded, base91_encode, base91_encoded, push_char};
use crate::veggie::Veggie;
use vstd::prelude::*;
use vstd::slice::slice_subrange;

verus! {

// Level format, bit by bit, most significant bit first:
// - the author: five bits per letter (1 = 'a' ... 26 = 'z'), at most nine
//   letters, then five zero bits;
// - the width in five bits and the height in four;
// - one record per obstacle, then one per item: x in five bits, y in four,
//   then a four-bit tag (1 Water, 2 Rock, 3 Strawberry ... 9 Mint);
// - zero bits up to a whole number of bytes.
// The bytes are then written as basE91 text.

/// The longest author name that a level keeps.
pub const MAX_AUTHOR: usize = 9;

/// The five-bit code of an author character: its five low bits, so that
/// 'a' to 'z' give 1 to 26.
pub open spec fn char_code(c: char) -> nat {
    (c as u32 % 32) as nat
}

/// The character that a nonzero five-bit author code stands for.
pub open spec fn char_of(code: nat) -> char {
    ((code + 96) as u32) as char
}

/// The part of an author name that a level keeps.
pub open spec fn shown_author(a: Seq<char>) -> Seq<char> {
    if a.len() <= MAX_AUTHOR {
        a
    } else {
        a.take(MAX_AUTHOR as int)
    }
}

pub open spec fn author_bits(a: Seq<char>) -> Seq<bool>
    decreases a.len(),
{
    if a.len() == 0 {
        Seq::empty()
    } else {
        author_bits(a.drop_last()) + bits_of(char_code(a.last()), 5)
    }
}

pub open spec fn tile_tag(t: Tile) -> nat {
    match t {
        Tile::Water => 1,
        Tile::Rock => 2,
    }
}

pub open spec fn veggie_tag(v: Veggie) -> nat {
    match v {
        Veggie::Strawberry => 3,
        Veggie::Tomato => 4,
        Veggie::Apple => 5,
        Veggie::Carrot => 6,
        Veggie::Cherry => 7,
        Veggie::Garlic => 8,
        Veggie::Mint => 9,
    }
}

pub open spec fn tile_of(tag: nat) -> Option<Tile> {
    if tag == 1 {
        Some(Tile::Water)
    } else if tag == 2 {
        Some(Tile::Rock)
    } else {
        None
    }
}

pub open spec fn veggie_of(tag: nat) -> Option<Veggie> {
    if tag == 3 {
        Some(Veggie::Strawberry)
    } else if tag == 4 {
        Some(Veggie::Tomato)
    } else if tag == 5 {
        Some(Veggie::Apple)
    } else if tag == 6 {
        Some(Veggie::Carrot)
    } else if tag == 7 {
        Some(Veggie::Cherry)
    } else if tag == 8 {
        Some(Veggie::Garlic)
    } else if tag == 9 {
        Some(Veggie::Mint)
    } else {
        None
    }
}

/// A coordinate that a record can hold.
pub open spec fn in_grid(p: (i8, i8)) -> bool {
    0 <= p.0 < MAX_W && 0 <= p.1 < MAX_H
}

/// The record of one cell; a cell off the grid is left out.
pub open spec fn cell_bits(p: (i8, i8), tag: nat) -> Seq<bool> {
    if in_grid(p) {
        bits_of(p.0 as nat, 5) + bits_of(p.1 as nat, 4) + bits_of(tag, 4)
    } else {
        Seq::empty()
    }
}

pub open spec fn records(cells: Seq<((i8, i8), nat)>) -> Seq<bool>
    decreases cells.len(),
{
    if cells.len() == 0 {
        Seq::empty()
    } else {
        records(cells.drop_last()) + cell_bits(cells.last().0, cells.last().1)
    }
}

pub open spec fn tile_tags(tiles: Seq<((i8, i8), Tile)>) -> Seq<((i8, i8), nat)> {
    tiles.map_values(|c: ((i8, i8), Tile)| (c.0, tile_tag(c.1)))
}

pub open spec fn veggie_tags(placed: Seq<((i8, i8), Veggie)>) -> Seq<((i8, i8), nat)> {
    placed.map_values(|c: ((i8, i8), Veggie)| (c.0, veggie_tag(c.1)))
}

/// The bits of a level, before padding.
pub open spec fn puzzle_bits(m: PuzzleModel) -> Seq<bool> {
    author_bits(shown_author(m.author)) + zeros(5) + bits_of(m.size.0 as nat, 5) + bits_of(
        m.size.1 as nat,
        4,
    ) + records(tile_tags(m.tiles)) + records(veggie_tags(m.placed))
}

/// The bytes of a level.
pub open spec fn level_bytes(m: PuzzleModel) -> Seq<u8> {
    bytes_of(padded(puzzle_bits(m)))
}

/// A cell list after a cell is set: the entry for `k` takes the new value, or
/// a new entry comes last.
pub open spec fn inserted<A>(cells: Seq<((i8, i8), A)>, k: (i8, i8), a: A) -> Seq<((i8, i8), A)>
    decreases cells.len(),
{
    if cells.len() == 0 {
        seq![(k, a)]
    } else if cells[0].0 == k {
        cells.update(0, (k, a))
    } else {
        seq![cells[0]] + inserted(cells.drop_first(), k, a)
    }
}

/// Reads the author from `pos` on, after the letters `name`: the name and
/// where the field after it starts, or nothing if the bits run out first.
pub open spec fn parse_author(bits: Seq<bool>, pos: int, name: Seq<char>) -> Option<
    (Seq<char>, int),
>
    decreases bits.len() - pos,
{
    if pos < 0 || pos + 5 > bits.len() {
        None
    } else if field(bits, pos, 5) == 0 {
        Some((name, pos + 5))
    } else {
        parse_author(bits, pos + 5, name.push(char_of(field(bits, pos, 5))))
    }
}

/// Reads cell records from `pos` on into the obstacles and items read so
/// far, until fewer bits than a record are left; nothing if a tag is unknown.
pub open spec fn parse_cells(
    bits: Seq<bool>,
    pos: int,
    tiles: Seq<((i8, i8), Tile)>,
    placed: Seq<((i8, i8), Veggie)>,
) -> Option<(Seq<((i8, i8), Tile)>, Seq<((i8, i8), Veggie)>)>
    decreases bits.len() - pos,
{
    if pos < 0 || pos + 13 > bits.len() {
        Some((tiles, placed))
    } else {
        let key = (field(bits, pos, 5) as i8, field(bits, pos + 5, 4) as i8);
        let tag = field(bits, pos + 9, 4);
        match tile_of(tag) {
            Some(t) => parse_cells(bits, pos + 13, inserted(tiles, key, t), placed),
            None => match veggie_of(tag) {
                Some(v) => parse_cells(bits, pos + 13, tiles, inserted(placed, key, v)),
                None => None,
            },
        }
    }
}

/// The level that a bit sequence holds, with an empty requirement list, or
/// nothing if it is malformed.
pub open spec fn parse_level(bits: Seq<bool>) -> Option<PuzzleModel> {
    match parse_author(bits, 0, Seq::empty()) {
        None => None,
        Some((author, pos)) => if pos + 9 > bits.len() {
            None
        } else {
            match parse_cells(bits, pos + 9, Seq::empty(), Seq::empty()) {
                None => None,
                Some((tiles, placed)) => Some(
                    PuzzleModel {
                        author,
                        size: (field(bits, pos, 5) as i8, field(bits, pos + 5, 4) as i8),
                        veggies: Seq::empty(),
                        tiles,
                        placed,
                    },
                ),
            }
        },
    }
}

/// The level that a text holds, or nothing if it is malformed.
pub open spec fn parse_text(text: Seq<char>) -> Option<PuzzleModel> {
    parse_level(bits_of_bytes(base91_decoded(text)))
}

/// Two puzzles hold the same level: all but the requirement lists agree.
pub open spec fn same_level(a: PuzzleModel, b: PuzzleModel) -> bool {
    a.author == b.author && a.size == b.size && a.tiles == b.tiles && a.placed == b.placed
}

/// What the bytes hold, when they hold a valid level: that level, with the
/// requirement list rebuilt from its items.
pub open spec fn decodes_bytes_to(bytes: Seq<u8>, p: PuzzleModel) -> bool {
    let parsed = parse_level(bits_of_bytes(bytes));
    &&& parsed is Some
    &&& parsed->0.valid()
    &&& same_level(p, parsed->0)
    &&& counts_of(p.veggies, p.placed)
    &&& p.wf()
}

/// What the text holds, when it holds a valid level: that level, with the
/// requirement list rebuilt from its items.
pub open spec fn decodes_to(text: Seq<char>, p: PuzzleModel) -> bool {
    decodes_bytes_to(base91_decoded(text), p)
}

/// Setting a cell keeps a list that names each cell once that way.
pub proof fn lemma_inserted_distinct<A>(cells: Seq<((i8, i8), A)>, k: (i8, i8), a: A)
    requires
        distinct_cells(cells),
    ensures
        distinct_cells(inserted(cells, k, a)),
        forall|j: int|
            0 <= j < inserted(cells, k, a).len() ==> (#[trigger] inserted(cells, k, a)[j]).0 == k
                || exists|i: int| 0 <= i < cells.len() && cells[i].0 == inserted(cells, k, a)[j].0,
    decreases cells.len(),
{
    let r = inserted(cells, k, a);
    if cells.len() == 0 {
    } else if cells[0].0 == k {
        assert forall|j: int| 0 <= j < r.len() implies (#[trigger] r[j]).0 == cells[j].0 by {}
        assert forall|i: int, j: int| 0 <= i < j < r.len() implies #[trigger] r[i].0
            != #[trigger] r[j].0 by {
            assert(r[i].0 == cells[i].0);
            assert(r[j].0 == cells[j].0);
        }
        assert forall|j: int| 0 <= j < r.len() implies (#[trigger] r[j]).0 == k || exists|i: int|
            0 <= i < cells.len() && cells[i].0 == r[j].0 by {
            assert(r[j].0 == cells[j].0);
        }
    } else {
        let rest = cells.drop_first();
        assert forall|i: int, j: int| 0 <= i < j < rest.len() implies #[trigger] rest[i].0
            != #[trigger] rest[j].0 by {
            assert(rest[i] == cells[i + 1]);
            assert(rest[j] == cells[j + 1]);
        }
        lemma_inserted_distinct(rest, k, a);
        let ir = inserted(rest, k, a);
        assert(r == seq![cells[0]] + ir);
        assert forall|j: int| 0 < j < r.len() implies (#[trigger] r[j]).0 == k || exists|i: int|
            0 <= i < cells.len() && cells[i].0 == r[j].0 by {
            assert(r[j] == ir[j - 1]);
            if ir[j - 1].0 != k {
                let i = choose|i: int| 0 <= i < rest.len() && rest[i].0 == ir[j - 1].0;
                assert(cells[i + 1] == rest[i]);
            }
        }
        assert forall|j: int| 0 <= j < r.len() implies (#[trigger] r[j]).0 == k || exists|i: int|
            0 <= i < cells.len() && cells[i].0 == r[j].0 by {
            if j == 0 {
                assert(cells[0].0 == r[0].0);
            }
        }
        assert forall|i: int, j: int| 0 <= i < j < r.len() implies #[trigger] r[i].0
            != #[trigger] r[j].0 by {
            assert(r[j] == ir[j - 1]);
            if i == 0 {
                if ir[j - 1].0 != k {
                    let m = choose|m: int| 0 <= m < rest.len() && rest[m].0 == ir[j - 1].0;
                    assert(rest[m] == cells[m + 1]);
                }
            } else {
                assert(r[i] == ir[i - 1]);
            }
        }
    }
}

/// Sets a cell: the entry for `key` takes the new value, or a new entry comes last.
pub fn insert_cell<A: Copy>(cells: &mut Vec<((i8, i8), A)>, key: (i8, i8), a: A)
    ensures
        final(cells)@ == inserted(old(cells)@, key, a),
        distinct_cells(old(cells)@) ==> distinct_cells(final(cells)@),
{
    proof {
        if distinct_cells(cells@) {
            lemma_inserted_distinct(cells@, key, a);
        }
    }
    let mut j: usize = 0;
    while j < cells.len()
        invariant
            j <= cells@.len(),
            cells@ == old(cells)@,
            forall|i: int| 0 <= i < j ==> #[trigger] cells@[i].0 != key,
        ensures
            j <= cells@.len(),
            cells@ == old(cells)@,
            forall|i: int| 0 <= i < j ==> #[trigger] cells@[i].0 != key,
            j < cells@.len() ==> cells@[j as int].0 == key,
        decreases cells.len() - j,
    {
        let k = cells[j].0;
        if k.0 == key.0 && k.1 == key.1 {
            break;
        }
        j = j + 1;
    }
    proof {
        lemma_inserted_at(cells@, key, a, j as int);
    }
    if j < cells.len() {
        cells.set(j, (key, a));
    } else {
        cells.push((key, a));
    }
}

proof fn lemma_inserted_at<A>(cells: Seq<((i8, i8), A)>, k: (i8, i8), a: A, j: int)
    requires
        0 <= j <= cells.len(),
        forall|i: int| 0 <= i < j ==> #[trigger] cells[i].0 != k,
        j < cells.len() ==> cells[j].0 == k,
    ensures
        inserted(cells, k, a) == if j < cells.len() {
            cells.update(j, (k, a))
        } else {
            cells.push((k, a))
        },
    decreases cells.len(),
{
    if cells.len() > 0 && j > 0 {
        let rest = cells.drop_first();
        assert forall|i: int| 0 <= i < j - 1 implies #[trigger] rest[i].0 != k by {
            assert(rest[i] == cells[i + 1]);
        }
        lemma_inserted_at(rest, k, a, j - 1);
        if j < cells.len() {
            assert(seq![cells[0]] + rest.update(j - 1, (k, a)) =~= cells.update(j, (k, a)));
        } else {
            assert(seq![cells[0]] + rest.push((k, a)) =~= cells.push((k, a)));
        }
    } else if cells.len() == 0 {
        assert(seq![(k, a)] =~= cells.push((k, a)));
    }
}

/// Appends zero bits up to a whole number of bytes.
fn pad_to_byte(data: &mut Vec<bool>)
    ensures
        final(data)@ == padded(old(data)@),
{
    let ghost unpadded = data@;
    while data.len() % 8 != 0
        invariant
            unpadded == old(data)@,
            unpadded.len() <= data@.len() < unpadded.len() + 8,
            data@.len() - unpadded.len() <= (8 - unpadded.len() % 8) % 8,
            data@ == unpadded + zeros((data@.len() - unpadded.len()) as nat),
        decreases (8 - unpadded.len() % 8) % 8 - (data@.len() - unpadded.len()),
    {
        data.push(false);
        proof {
            assert(data@ =~= unpadded + zeros((data@.len() - unpadded.len()) as nat));
        }
    }
    proof {
        assert(data@ =~= padded(unpadded));
    }
}

pub struct Encoder;

impl Encoder {
    /// Writes a level as text: nothing if the puzzle is not valid, else the
    /// basE91 text of its bytes.
    pub fn encode_puzzle(puzzle: &Puzzle) -> (r: Option<String>)
        ensures
            r is Some <==> puzzle@.valid(),
            r matches Some(s) ==> s@ == base91_encoded(level_bytes(puzzle@)) && base91_decoded(s@)
                == level_bytes(puzzle@) && s@.len() > 0,
    {
        match Encoder::encode_bytes(puzzle) {
            Some(bytes) => Some(base91_encode(&bytes)),
            None => None,
        }
    }

    /// Writes a level as bytes: nothing if the puzzle is not valid, else its
    /// bits packed eight to a byte.
    pub fn encode_bytes(puzzle: &Puzzle) -> (r: Option<Vec<u8>>)
        ensures
            r is Some <==> puzzle@.valid(),
            r matches Some(b) ==> b@ == level_bytes(puzzle@) && b@.len() > 0,
    {
        match puzzle.is_valid() {
            Err(_) => {
                return None;
            },
            Ok(_) => {},
        }
        let mut data: Vec<bool> = Vec::new();
        let author = puzzle.author.as_str();
        let n = author.unicode_len();
        let mut i: usize = 0;
        while i < n && i < MAX_AUTHOR
            invariant
                i <= n,
                i <= MAX_AUTHOR,
                n == author@.len(),
                author@ == puzzle.author@,
                data@ == author_bits(author@.take(i as int)),
            decreases n - i,
        {
            let c = author.get_char(i);
            let mut code = Encoder::encode_u5((c as u32 % 32) as u8);
            data.append(&mut code);
            proof {
                assert(author@.take(i + 1).drop_last() =~= author@.take(i as int));
            }
            i = i + 1;
        }
        proof {
            if n <= MAX_AUTHOR {
                assert(author@.take(i as int) =~= author@);
            }
        }
        data.append(&mut Encoder::encode_u5(0));
        data.append(&mut Encoder::encode_u5(puzzle.size.0 as u8));
        data.append(&mut Encoder::encode_u4(puzzle.size.1 as u8));
        proof {
            assert(bits_of(0, 5) =~= zeros(5)) by {
                reveal_with_fuel(bits_of, 6);
            }
            lemma_bits_of_len(0, 5);
            lemma_bits_of_len(puzzle.size.0 as u8 as nat, 5);
            lemma_bits_of_len(puzzle.size.1 as u8 as nat, 4);
        }
        let ghost head = data@;
        assert(head.len() >= 14);
        let mut k: usize = 0;
        while k < puzzle.tiles.len()
            invariant
                k <= puzzle.tiles@.len(),
                head.len() >= 14,
                data@ == head + records(tile_tags(puzzle.tiles@.take(k as int))),
            decreases puzzle.tiles.len() - k,
        {
            let (pos, tile) = puzzle.tiles[k];
            proof {
                assert(tile_tags(puzzle.tiles@.take(k + 1)).drop_last() =~= tile_tags(
                    puzzle.tiles@.take(k as int),
                ));
            }
            if pos.0 >= 0 && pos.1 >= 0 && pos.0 < MAX_W && pos.1 < MAX_H {
                data.append(&mut Encoder::encode_u5(pos.0 as u8));
                data.append(&mut Encoder::encode_u4(pos.1 as u8));
                data.append(&mut Encoder::encode_tile(&tile));
            }
            k = k + 1;
        }
        proof {
            assert(puzzle.tiles@.take(k as int) =~= puzzle.tiles@);
        }
        let ghost head = data@;
        let mut k: usize = 0;
        while k < puzzle.placed.len()
            invariant
                k <= puzzle.placed@.len(),
                head.len() >= 14,
                data@ == head + records(veggie_tags(puzzle.placed@.take(k as int))),
            decreases puzzle.placed.len() - k,
        {
            let (pos, veg) = puzzle.placed[k];
            proof {
                assert(veggie_tags(puzzle.placed@.take(k + 1)).drop_last() =~= veggie_tags(
                    puzzle.placed@.take(k as int),
                ));
            }
            if pos.0 >= 0 && pos.1 >= 0 && pos.0 < MAX_W && pos.1 < MAX_H {
                data.append(&mut Encoder::encode_u5(pos.0 as u8));
                data.append(&mut Encoder::encode_u4(pos.1 as u8));
                data.append(&mut Encoder::encode_veggie(&veg));
            }
            k = k + 1;
        }
        proof {
            assert(puzzle.placed@.take(k as int) =~= puzzle.placed@);
            assert(data@ =~= puzzle_bits(puzzle@));
        }
        pad_to_byte(&mut data);
        let mut bytes: Vec<u8> = Vec::new();
        let mut j: usize = 0;
        while j < data.len() / 8
            invariant
                j <= data@.len() / 8,
                data@ == padded(puzzle_bits(puzzle@)),
                data@.len() >= 14,
                bytes@ =~= bytes_of(data@).take(j as int),
            decreases data.len() / 8 - j,
        {
            let b = Encoder::slice_to_u8(slice_subrange(data.as_slice(), 8 * j, 8 * j + 8));
            bytes.push(b);
            j = j + 1;
        }
        proof {
            assert(bytes_of(data@).take(j as int) =~= bytes_of(data@));
        }
        Some(bytes)
    }

    /// The five low bits of `n`, most significant first.
    pub fn encode_u5(n: u8) -> (r: Vec<bool>)
        ensures
            r@ == bits_of(n as nat, 5),
    {
        let mut r: Vec<bool> = Vec::new();
        push_bits(&mut r, n, 5);
        r
    }

    /// The four low bits of `n`, most significant first.
    pub fn encode_u4(n: u8) -> (r: Vec<bool>)
        ensures
            r@ == bits_of(n as nat, 4),
    {
        let mut r: Vec<bool> = Vec::new();
        push_bits(&mut r, n, 4);
        r
    }

    /// The tag of an obstacle.
    pub fn encode_tile(tile: &Tile) -> (r: Vec<bool>)
        ensures
            r@ == bits_of(tile_tag(*tile), 4),
    {
        match *tile {
            Tile::Water => Encoder::encode_u4(1),
            Tile::Rock => Encoder::encode_u4(2),
        }
    }

    /// The tag of an item.
    pub fn encode_veggie(veggie: &Veggie) -> (r: Vec<bool>)
        ensures
            r@ == bits_of(veggie_tag(*veggie), 4),
    {
        match *veggie {
            Veggie::Strawberry => Encoder::encode_u4(3),
            Veggie::Tomato => Encoder::encode_u4(4),
            Veggie::Apple => Encoder::encode_u4(5),
            Veggie::Carrot => Encoder::encode_u4(6),
            Veggie::Cherry => Encoder::encode_u4(7),
            Veggie::Garlic => Encoder::encode_u4(8),
            Veggie::Mint => Encoder::encode_u4(9),
        }
    }

    /// The byte whose high bits are the given bits, most significant first;
    /// the bits that the slice lacks are zero.
    pub fn slice_to_u8(p0: &[bool]) -> (r: u8)
        requires
            p0@.len() <= 8,
        ensures
            r as nat == value_of(p0@ + zeros((8 - p0@.len()) as nat)),
            p0@.len() == 8 ==> r as nat == value_of(p0@),
    {
        let ghost full = p0@ + zeros((8 - p0@.len()) as nat);
        let mut r: u8 = 0;
        let mut i: usize = 0;
        while i < 8
            invariant
                i <= 8,
                p0@.len() <= 8,
                full == p0@ + zeros((8 - p0@.len()) as nat),
                r as nat == value_of(full.take(i as int)),
            decreases 8 - i,
        {
            let ghost prefix = full.take(i as int);
            let ghost next = full.take(i + 1);
            let bit = if i < p0.len() {
                p0[i]
            } else {
                false
            };
            proof {
                assert(full[i as int] == bit);
                assert(next.drop_last() =~= prefix);
                crate::bits::lemma_value_bound(next);
                assert(vstd::arithmetic::power2::pow2(next.len()) <= 256) by {
                    vstd::arithmetic::power2::lemma2_to64();
                    if next.len() < 8 {
                        vstd::arithmetic::power2::lemma_pow2_strictly_increases(next.len(), 8);
                    }
                }
                assert(value_of(next) == 2 * value_of(prefix) + if bit {
                    1nat
                } else {
                    0nat
                });
            }
            r = 2 * r + if bit {
                1u8
            } else {
                0u8
            };
            i = i + 1;
        }
        proof {
            assert(full.take(8) =~= full);
            if p0@.len() == 8 {
                assert(full =~= p0@);
            }
        }
        r
    }
}

pub struct Decoder;

impl Decoder {
    /// Reads a level from text: the level it holds, with the requirement list
    /// rebuilt from its items, or nothing if the text is malformed or the
    /// level is not valid.
    pub fn decode_puzzle(text: String) -> (r: Option<Puzzle>)
        ensures
            r is Some <==> (parse_text(text@) is Some && parse_text(text@)->0.valid()),
            r matches Some(p) ==> decodes_to(text@, p@),
    {
        let decoded = base91_decode(text.as_str());
        Decoder::decode_bytes(&decoded)
    }

    /// Reads a level from bytes: the level their bits hold, with the
    /// requirement list rebuilt from its items, or nothing if the bits are
    /// malformed or the level is not valid.
    pub fn decode_bytes(decoded: &Vec<u8>) -> (r: Option<Puzzle>)
        ensures
            r is Some <==> (parse_level(bits_of_bytes(decoded@)) is Some && parse_level(
                bits_of_bytes(decoded@),
            )->0.valid()),
            r matches Some(p) ==> decodes_bytes_to(decoded@, p@),
    {
        let mut bits: Vec<bool> = Vec::new();
        let mut i: usize = 0;
        while i < decoded.len()
            invariant
                i <= decoded@.len(),
                bits@ == bits_of_bytes(decoded@.take(i as int)),
            decreases decoded.len() - i,
        {
            let mut byte_bits = Decoder::u8_to_slice(decoded[i]);
            bits.append(&mut byte_bits);
            proof {
                assert(decoded@.take(i + 1).drop_last() =~= decoded@.take(i as int));
            }
            i = i + 1;
        }
        proof {
            assert(decoded@.take(i as int) =~= decoded@);
        }
        let ghost all = bits@;
        let mut author = String::new();
        let mut pos: usize = 0;
        loop
            invariant_except_break
                parse_author(all, 0, Seq::empty()) == parse_author(all, pos as int, author@),
            invariant
                pos <= bits@.len(),
                bits@ == all,
                all == bits_of_bytes(decoded@),
            ensures
                pos <= bits@.len(),
                bits@ == all,
                parse_author(all, 0, Seq::empty()) == Some((author@, pos as int)),
            decreases bits@.len() - pos,
        {
            if bits.len() - pos < 5 {
                return None;
            }
            let slice = slice_subrange(bits.as_slice(), pos, pos + 5);
            let code = Decoder::decode_u5(slice);
            if code == 0 {
                pos = pos + 5;
                break;
            }
            push_char(&mut author, Decoder::decode_char(slice));
            pos = pos + 5;
        }
        if bits.len() - pos < 9 {
            return None;
        }
        let width = Decoder::decode_u5(slice_subrange(bits.as_slice(), pos, pos + 5));
        let height = Decoder::decode_u4(slice_subrange(bits.as_slice(), pos + 5, pos + 9));
        let ghost start = pos + 9;
        pos = pos + 9;
        let mut tiles: Vec<((i8, i8), Tile)> = Vec::new();
        let mut placed: Vec<((i8, i8), Veggie)> = Vec::new();
        while bits.len() - pos >= 13
            invariant
                start <= pos <= bits@.len(),
                bits@ == all,
                all == bits_of_bytes(decoded@),
                parse_author(all, 0, Seq::empty()) == Some((author@, start - 9)),
                width as nat == field(all, start - 9, 5),
                height as nat == field(all, start - 4, 4),
                distinct_cells(tiles@),
                distinct_cells(placed@),
                parse_cells(all, start, Seq::empty(), Seq::empty()) == parse_cells(
                    all,
                    pos as int,
                    tiles@,
                    placed@,
                ),
            decreases bits@.len() - pos,
        {
            let x = Decoder::decode_u5(slice_subrange(bits.as_slice(), pos, pos + 5));
            let y = Decoder::decode_u4(slice_subrange(bits.as_slice(), pos + 5, pos + 9));
            let tag = Decoder::decode_u4(slice_subrange(bits.as_slice(), pos + 9, pos + 13));
            let key = (x as i8, y as i8);
            match tag {
                1 => insert_cell(&mut tiles, key, Tile::Water),
                2 => insert_cell(&mut tiles, key, Tile::Rock),
                3 => insert_cell(&mut placed, key, Veggie::Strawberry),
                4 => insert_cell(&mut placed, key, Veggie::Tomato),
                5 => insert_cell(&mut placed, key, Veggie::Apple),
                6 => insert_cell(&mut placed, key, Veggie::Carrot),
                7 => insert_cell(&mut placed, key, Veggie::Cherry),
                8 => insert_cell(&mut placed, key, Veggie::Garlic),
                9 => insert_cell(&mut placed, key, Veggie::Mint),
                _ => {
                    return None;
                },
            }
            pos = pos + 13;
        }
        let mut puzzle = Puzzle {
            author,
            size: (width as i8, height as i8),
            veggies: Vec::new(),
            tiles,
            placed,
        };
        match puzzle.is_valid() {
            Ok(_) => {
                puzzle.veggies = count_veggies(&puzzle.placed);
                Some(puzzle)
            },
            Err(_) => None,
        }
    }

    /// The eight bits of a byte, most significant first.
    pub fn u8_to_slice(n: u8) -> (r: Vec<bool>)
        ensures
            r@ == bits_of(n as nat, 8),
    {
        let mut r: Vec<bool> = Vec::new();
        push_bits(&mut r, n, 8);
        r
    }

    /// The value of the first five bits, most significant first.
    pub fn decode_u5(slice: &[bool]) -> (r: u8)
        requires
            slice@.len() >= 5,
        ensures
            r as nat == value_of(slice@.subrange(0, 5)),
            slice@.len() == 5 ==> r as nat == value_of(slice@),
            r < 32,
    {
        let ghost first = slice@.subrange(0, 5);
        proof {
            reveal_with_fuel(value_of, 6);
            assert(first.drop_last().drop_last().drop_last().drop_last().drop_last().len() == 0);
            if slice@.len() == 5 {
                assert(first =~= slice@);
            }
        }
        let mut result: u8 = 0;
        if slice[0] {
            result = result + 16;
        }
        if slice[1] {
            result = result + 8;
        }
        if slice[2] {
            result = result + 4;
        }
        if slice[3] {
            result = result + 2;
        }
        if slice[4] {
            result = result + 1;
        }
        result
    }

    /// The value of the first four bits, most significant first.
    pub fn decode_u4(slice: &[bool]) -> (r: u8)
        requires
            slice@.len() >= 4,
        ensures
            r as nat == value_of(slice@.subrange(0, 4)),
            slice@.len() == 4 ==> r as nat == value_of(slice@),
            r < 16,
    {
        let ghost first = slice@.subrange(0, 4);
        proof {
            reveal_with_fuel(value_of, 5);
            assert(first.drop_last().drop_last().drop_last().drop_last().len() == 0);
            if slice@.len() == 4 {
                assert(first =~= slice@);
            }
        }
        let mut result: u8 = 0;
        if slice[0] {
            result = result + 8;
        }
        if slice[1] {
            result = result + 4;
        }
        if slice[2] {
            result = result + 2;
        }
        if slice[3] {
            result = result + 1;
        }
        result
    }

    /// The author character that the first five bits stand for; they must
    /// not all be zero, which ends the name.
    pub fn decode_char(slice: &[bool]) -> (r: char)
        requires
            slice@.len() >= 5,
            value_of(slice@.subrange(0, 5)) != 0,
        ensures
            r == char_of(value_of(slice@.subrange(0, 5))),
    {
        let b = Decoder::decode_u5(slice) - 1 + 97u8;
        let r = b as char;
        proof {
            vstd::utf8::char_u32_cast(r, b as u32);
        }
        r
    }
}

} // verus!
