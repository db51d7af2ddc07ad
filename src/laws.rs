use crate::bits::{
    bits_of, bits_of_bytes, field, lemma_bits_of_bytes_of, lemma_bits_of_len, lemma_value_of_bits,
    padded, zeros,
};
use crate::data::{
    author_bits, cell_bits, char_code, char_of, in_grid, inserted, level_bytes, parse_author,
    parse_cells, parse_level, puzzle_bits, records, shown_author, tile_of, tile_tag, tile_tags,
    veggie_of, veggie_tag, veggie_tags,
};
use crate::puzzle::PuzzleModel;
use crate::rules::{
    adjacent_spec, apple_in_line, coord, distinct_cells, happiness, incompatible, lookup,
    occurrences, shocked, Tile,
};
use crate::veggie::Veggie;
use vstd::arithmetic::power2::{lemma2_to64, pow2};
use vstd::prelude::*;

verus! {

/// Every character is a lowercase ASCII letter.
pub open spec fn lowercase(a: Seq<char>) -> bool {
    forall|i: int| 0 <= i < a.len() ==> 97 <= (#[trigger] a[i]) as u32 <= 122
}

/// Every cell of the list lies on the largest grid.
pub open spec fn on_grid<A>(cells: Seq<((i8, i8), A)>) -> bool {
    forall|i: int| 0 <= i < cells.len() ==> in_grid(#[trigger] cells[i].0)
}

proof fn lemma_pow2_small()
    ensures
        pow2(4) == 16,
        pow2(5) == 32,
{
    lemma2_to64();
}

/// The value of `w` bits inside a chunk that sits at `start` in `x`.
proof fn lemma_field_in(x: Seq<bool>, start: int, chunk: Seq<bool>, off: int, n: nat, w: nat)
    requires
        0 <= start,
        start + chunk.len() <= x.len(),
        x.subrange(start, start + chunk.len()) == chunk,
        0 <= off,
        off + w <= chunk.len(),
        chunk.subrange(off, off + w) == bits_of(n, w),
        n < pow2(w),
    ensures
        field(x, start + off, w as int) == n,
{
    assert(x.subrange(start + off, start + off + w) =~= chunk.subrange(off, off + w)) by {
        assert forall|k: int| 0 <= k < w implies #[trigger] x.subrange(
            start + off,
            start + off + w,
        )[k] == chunk.subrange(off, off + w)[k] by {
            assert(x.subrange(start, start + chunk.len())[off + k] == x[start + off + k]);
        }
    }
    lemma_value_of_bits(n, w);
}

proof fn lemma_author_chunks(a: Seq<char>)
    ensures
        author_bits(a).len() == 5 * a.len(),
        forall|i: int|
            0 <= i < a.len() ==> #[trigger] author_bits(a).subrange(5 * i, 5 * i + 5) == bits_of(
                char_code(a[i]),
                5,
            ),
    decreases a.len(),
{
    if a.len() > 0 {
        let front = a.drop_last();
        lemma_author_chunks(front);
        lemma_bits_of_len(char_code(a.last()), 5);
        assert forall|i: int| 0 <= i < a.len() implies #[trigger] author_bits(a).subrange(
            5 * i,
            5 * i + 5,
        ) == bits_of(char_code(a[i]), 5) by {
            if i < front.len() {
                assert(author_bits(a).subrange(5 * i, 5 * i + 5) =~= author_bits(front).subrange(
                    5 * i,
                    5 * i + 5,
                ));
            } else {
                assert(author_bits(a).subrange(5 * i, 5 * i + 5) =~= bits_of(char_code(a[i]), 5));
            }
        }
    }
}

proof fn lemma_record_chunks(cells: Seq<((i8, i8), nat)>)
    requires
        forall|i: int| 0 <= i < cells.len() ==> in_grid(#[trigger] cells[i].0),
    ensures
        records(cells).len() == 13 * cells.len(),
        forall|i: int|
            0 <= i < cells.len() ==> #[trigger] records(cells).subrange(13 * i, 13 * i + 13)
                == cell_bits(cells[i].0, cells[i].1),
    decreases cells.len(),
{
    if cells.len() > 0 {
        let front = cells.drop_last();
        assert forall|i: int| 0 <= i < front.len() implies in_grid(#[trigger] front[i].0) by {
            assert(front[i] == cells[i]);
        }
        lemma_record_chunks(front);
        let last = cells.last();
        assert(in_grid(cells[cells.len() - 1].0));
        lemma_bits_of_len(last.0.0 as nat, 5);
        lemma_bits_of_len(last.0.1 as nat, 4);
        lemma_bits_of_len(last.1, 4);
        assert forall|i: int| 0 <= i < cells.len() implies #[trigger] records(cells).subrange(
            13 * i,
            13 * i + 13,
        ) == cell_bits(cells[i].0, cells[i].1) by {
            if i < front.len() {
                assert(records(cells).subrange(13 * i, 13 * i + 13) =~= records(front).subrange(
                    13 * i,
                    13 * i + 13,
                ));
                assert(front[i] == cells[i]);
            } else {
                assert(records(cells).subrange(13 * i, 13 * i + 13) =~= cell_bits(
                    cells[i].0,
                    cells[i].1,
                ));
            }
        }
    }
}

/// Reads the fields of the record that sits at `pos` in `x`.
proof fn lemma_record_fields(x: Seq<bool>, pos: int, p: (i8, i8), tag: nat)
    requires
        0 <= pos,
        pos + 13 <= x.len(),
        in_grid(p),
        tag < 16,
        x.subrange(pos, pos + 13) == cell_bits(p, tag),
    ensures
        field(x, pos, 5) as i8 == p.0,
        field(x, pos + 5, 4) as i8 == p.1,
        field(x, pos + 9, 4) == tag,
{
    let chunk = cell_bits(p, tag);
    lemma_pow2_small();
    lemma_bits_of_len(p.0 as nat, 5);
    lemma_bits_of_len(p.1 as nat, 4);
    lemma_bits_of_len(tag, 4);
    assert(chunk.subrange(0, 5) =~= bits_of(p.0 as nat, 5));
    assert(chunk.subrange(5, 9) =~= bits_of(p.1 as nat, 4));
    assert(chunk.subrange(9, 13) =~= bits_of(tag, 4));
    lemma_field_in(x, pos, chunk, 0, p.0 as nat, 5);
    lemma_field_in(x, pos, chunk, 5, p.1 as nat, 4);
    lemma_field_in(x, pos, chunk, 9, tag, 4);
}

/// Setting a cell that the list does not hold yet appends it.
proof fn lemma_inserted_new<A>(cells: Seq<((i8, i8), A)>, k: (i8, i8), a: A)
    requires
        forall|i: int| 0 <= i < cells.len() ==> #[trigger] cells[i].0 != k,
    ensures
        inserted(cells, k, a) == cells.push((k, a)),
    decreases cells.len(),
{
    if cells.len() > 0 {
        let rest = cells.drop_first();
        assert forall|i: int| 0 <= i < rest.len() implies #[trigger] rest[i].0 != k by {
            assert(rest[i] == cells[i + 1]);
        }
        lemma_inserted_new(rest, k, a);
        assert(seq![cells[0]] + rest.push((k, a)) =~= cells.push((k, a)));
    } else {
        assert(seq![(k, a)] =~= cells.push((k, a)));
    }
}

proof fn lemma_parse_author_from(x: Seq<bool>, a: Seq<char>, i: int)
    requires
        lowercase(a),
        0 <= i <= a.len(),
        x.len() >= 5 * a.len() + 5,
        x.subrange(0, 5 * a.len() as int) == author_bits(a),
        x.subrange(5 * a.len() as int, 5 * a.len() as int + 5) == zeros(5),
    ensures
        parse_author(x, 5 * i, a.take(i)) == Some((a, 5 * a.len() as int + 5)),
    decreases a.len() - i,
{
    lemma_author_chunks(a);
    lemma_pow2_small();
    if i == a.len() {
        assert(zeros(5).subrange(0, 5) =~= bits_of(0, 5)) by {
            reveal_with_fuel(bits_of, 6);
        }
        lemma_field_in(x, 5 * a.len() as int, zeros(5), 0, 0, 5);
        assert(a.take(i) =~= a);
    } else {
        let code = char_code(a[i]);
        assert(97 <= (a[i] as u32) <= 122);
        assert((a[i] as u32) % 32 == (a[i] as u32) - 96);
        assert(1 <= code <= 26);
        assert((code + 96) as u32 == a[i] as u32);
        vstd::utf8::char_u32_cast(a[i], a[i] as u32);
        lemma_field_in(x, 0, author_bits(a), 5 * i, code, 5);
        assert(char_of(code) == a[i]);
        assert(a.take(i).push(a[i]) =~= a.take(i + 1));
        lemma_parse_author_from(x, a, i + 1);
    }
}

proof fn lemma_parse_tiles(
    x: Seq<bool>,
    q: int,
    tiles: Seq<((i8, i8), Tile)>,
    placed: Seq<((i8, i8), Veggie)>,
    i: int,
)
    requires
        0 <= q,
        on_grid(tiles),
        distinct_cells(tiles),
        0 <= i <= tiles.len(),
        q + 13 * tiles.len() <= x.len(),
        x.subrange(q, q + 13 * tiles.len()) == records(tile_tags(tiles)),
    ensures
        parse_cells(x, q + 13 * i, tiles.take(i), placed) == parse_cells(
            x,
            q + 13 * tiles.len(),
            tiles,
            placed,
        ),
    decreases tiles.len() - i,
{
    if i == tiles.len() {
        assert(tiles.take(i) =~= tiles);
    } else {
        let tags = tile_tags(tiles);
        assert forall|j: int| 0 <= j < tags.len() implies in_grid(#[trigger] tags[j].0) by {}
        lemma_record_chunks(tags);
        let pos = q + 13 * i;
        assert(x.subrange(pos, pos + 13) =~= records(tags).subrange(13 * i, 13 * i + 13));
        lemma_record_fields(x, pos, tiles[i].0, tile_tag(tiles[i].1));
        assert(tile_of(tile_tag(tiles[i].1)) == Some(tiles[i].1));
        let key = (field(x, pos, 5) as i8, field(x, pos + 5, 4) as i8);
        assert(key == tiles[i].0);
        assert forall|j: int| 0 <= j < tiles.take(i).len() implies #[trigger] tiles.take(i)[j].0
            != tiles[i].0 by {
            assert(tiles.take(i)[j] == tiles[j]);
        }
        lemma_inserted_new(tiles.take(i), tiles[i].0, tiles[i].1);
        assert(tiles.take(i).push((tiles[i].0, tiles[i].1)) =~= tiles.take(i + 1));
        lemma_parse_tiles(x, q, tiles, placed, i + 1);
    }
}

proof fn lemma_parse_items(
    x: Seq<bool>,
    q: int,
    tiles: Seq<((i8, i8), Tile)>,
    placed: Seq<((i8, i8), Veggie)>,
    i: int,
)
    requires
        0 <= q,
        on_grid(placed),
        distinct_cells(placed),
        0 <= i <= placed.len(),
        q + 13 * placed.len() <= x.len(),
        x.subrange(q, q + 13 * placed.len()) == records(veggie_tags(placed)),
    ensures
        parse_cells(x, q + 13 * i, tiles, placed.take(i)) == parse_cells(
            x,
            q + 13 * placed.len(),
            tiles,
            placed,
        ),
    decreases placed.len() - i,
{
    if i == placed.len() {
        assert(placed.take(i) =~= placed);
    } else {
        let tags = veggie_tags(placed);
        assert forall|j: int| 0 <= j < tags.len() implies in_grid(#[trigger] tags[j].0) by {}
        lemma_record_chunks(tags);
        let pos = q + 13 * i;
        assert(x.subrange(pos, pos + 13) =~= records(tags).subrange(13 * i, 13 * i + 13));
        lemma_record_fields(x, pos, placed[i].0, veggie_tag(placed[i].1));
        assert(tile_of(veggie_tag(placed[i].1)) is None);
        assert(veggie_of(veggie_tag(placed[i].1)) == Some(placed[i].1));
        let key = (field(x, pos, 5) as i8, field(x, pos + 5, 4) as i8);
        assert(key == placed[i].0);
        assert forall|j: int| 0 <= j < placed.take(i).len() implies #[trigger] placed.take(i)[j].0
            != placed[i].0 by {
            assert(placed.take(i)[j] == placed[j]);
        }
        lemma_inserted_new(placed.take(i), placed[i].0, placed[i].1);
        assert(placed.take(i).push((placed[i].0, placed[i].1)) =~= placed.take(i + 1));
        lemma_parse_items(x, q, tiles, placed, i + 1);
    }
}

proof fn lemma_front(s: Seq<bool>, t: Seq<bool>, i: int, j: int)
    requires
        0 <= i <= j <= s.len(),
    ensures
        (s + t).subrange(i, j) == s.subrange(i, j),
{
    assert((s + t).subrange(i, j) =~= s.subrange(i, j));
}

proof fn lemma_back(s: Seq<bool>, t: Seq<bool>)
    ensures
        (s + t).subrange(s.len() as int, (s.len() + t.len()) as int) == t,
{
    assert((s + t).subrange(s.len() as int, (s.len() + t.len()) as int) =~= t);
}

/// Where each field of a level's bits sits.
#[verifier::rlimit(30)]
proof fn lemma_layout(p: PuzzleModel)
    requires
        on_grid(p.tiles),
        on_grid(p.placed),
    ensures
        ({
            let a = shown_author(p.author);
            let x = padded(puzzle_bits(p));
            let la = 5 * a.len() as int;
            let r = la + 14 + 13 * p.tiles.len();
            let end = r + 13 * p.placed.len();
            &&& x.len() % 8 == 0
            &&& end <= x.len() < end + 8
            &&& x.subrange(0, la) == author_bits(a)
            &&& x.subrange(la, la + 5) == zeros(5)
            &&& x.subrange(la + 5, la + 10) == bits_of(p.size.0 as nat, 5)
            &&& x.subrange(la + 10, la + 14) == bits_of(p.size.1 as nat, 4)
            &&& x.subrange(la + 14, r) == records(tile_tags(p.tiles))
            &&& x.subrange(r, end) == records(veggie_tags(p.placed))
        }),
{
    let a = shown_author(p.author);
    let tags_t = tile_tags(p.tiles);
    let tags_v = veggie_tags(p.placed);
    lemma_author_chunks(a);
    lemma_bits_of_len(p.size.0 as nat, 5);
    lemma_bits_of_len(p.size.1 as nat, 4);
    assert forall|j: int| 0 <= j < tags_t.len() implies in_grid(#[trigger] tags_t[j].0) by {}
    assert forall|j: int| 0 <= j < tags_v.len() implies in_grid(#[trigger] tags_v[j].0) by {}
    lemma_record_chunks(tags_t);
    lemma_record_chunks(tags_v);
    let s1 = author_bits(a);
    let s2 = s1 + zeros(5);
    let s3 = s2 + bits_of(p.size.0 as nat, 5);
    let s4 = s3 + bits_of(p.size.1 as nat, 4);
    let s5 = s4 + records(tags_t);
    let b = s5 + records(tags_v);
    assert(b == puzzle_bits(p));
    let x = padded(b);
    let pad = zeros(((8 - b.len() % 8) % 8) as nat);
    assert(x == b + pad);
    let la = 5 * a.len() as int;
    let r = la + 14 + 13 * p.tiles.len();
    let end = r + 13 * p.placed.len();
    lemma_back(s5, records(tags_v));
    lemma_front(b, pad, r, end);
    lemma_back(s4, records(tags_t));
    lemma_front(s5, records(tags_v), la + 14, r);
    lemma_front(b, pad, la + 14, r);
    lemma_back(s3, bits_of(p.size.1 as nat, 4));
    lemma_front(s4, records(tags_t), la + 10, la + 14);
    lemma_front(s5, records(tags_v), la + 10, la + 14);
    lemma_front(b, pad, la + 10, la + 14);
    lemma_back(s2, bits_of(p.size.0 as nat, 5));
    lemma_front(s3, bits_of(p.size.1 as nat, 4), la + 5, la + 10);
    lemma_front(s4, records(tags_t), la + 5, la + 10);
    lemma_front(s5, records(tags_v), la + 5, la + 10);
    lemma_front(b, pad, la + 5, la + 10);
    lemma_back(s1, zeros(5));
    lemma_front(s2, bits_of(p.size.0 as nat, 5), la, la + 5);
    lemma_front(s3, bits_of(p.size.1 as nat, 4), la, la + 5);
    lemma_front(s4, records(tags_t), la, la + 5);
    lemma_front(s5, records(tags_v), la, la + 5);
    lemma_front(b, pad, la, la + 5);
    assert(s1.subrange(0, la) =~= s1);
    lemma_front(s1, zeros(5), 0, la);
    lemma_front(s2, bits_of(p.size.0 as nat, 5), 0, la);
    lemma_front(s3, bits_of(p.size.1 as nat, 4), 0, la);
    lemma_front(s4, records(tags_t), 0, la);
    lemma_front(s5, records(tags_v), 0, la);
    lemma_front(b, pad, 0, la);
}

/// Round trip: the bytes of a valid level whose kept author letters are
/// lowercase and whose cells lie on the grid (and which is well formed, as
/// decoding and editing keep it) read back as that level with its author cut
/// to nine letters, and that level is valid. Together with `encode_bytes` and
/// `encode_puzzle`, whose text decodes to `level_bytes`, and `decode_bytes` and
/// `decode_puzzle`, which rebuild the requirement list from the items, this is
/// decoding what encoding wrote.
#[verifier::rlimit(30)]
pub proof fn lemma_round_trip(p: PuzzleModel)
    requires
        p.valid(),
        lowercase(shown_author(p.author)),
        on_grid(p.tiles),
        on_grid(p.placed),
        p.wf(),
    ensures
        parse_level(bits_of_bytes(level_bytes(p))) == Some(
            PuzzleModel { author: shown_author(p.author), veggies: Seq::empty(), ..p },
        ),
        parse_level(bits_of_bytes(level_bytes(p)))->0.valid(),
{
    let a = shown_author(p.author);
    let x = padded(puzzle_bits(p));
    lemma_layout(p);
    lemma_bits_of_bytes_of(x);
    assert(bits_of_bytes(level_bytes(p)) == x);
    let la = 5 * a.len() as int;
    let q = la + 14;
    let r = q + 13 * p.tiles.len();
    let end = r + 13 * p.placed.len();
    lemma_parse_author_from(x, a, 0);
    assert(a.take(0) =~= Seq::<char>::empty());
    lemma_pow2_small();
    let wb = bits_of(p.size.0 as nat, 5);
    let hb = bits_of(p.size.1 as nat, 4);
    lemma_bits_of_len(p.size.0 as nat, 5);
    lemma_bits_of_len(p.size.1 as nat, 4);
    assert(wb.subrange(0, 5) =~= wb);
    assert(hb.subrange(0, 4) =~= hb);
    lemma_field_in(x, la + 5, wb, 0, p.size.0 as nat, 5);
    lemma_field_in(x, la + 10, hb, 0, p.size.1 as nat, 4);
    lemma_parse_tiles(x, q, p.tiles, Seq::empty(), 0);
    assert(p.tiles.take(0) =~= Seq::<((i8, i8), Tile)>::empty());
    lemma_parse_items(x, r, p.tiles, p.placed, 0);
    assert(p.placed.take(0) =~= Seq::<((i8, i8), Veggie)>::empty());
    assert(parse_cells(x, end, p.tiles, p.placed) == Some((p.tiles, p.placed)));
}

/// A record with a tag outside 1 to 9 makes the cell records unreadable.
pub proof fn lemma_unknown_tag_rejected(
    bits: Seq<bool>,
    pos: int,
    tiles: Seq<((i8, i8), Tile)>,
    placed: Seq<((i8, i8), Veggie)>,
)
    requires
        0 <= pos,
        pos + 13 <= bits.len(),
        !(1 <= field(bits, pos + 9, 4) <= 9),
    ensures
        parse_cells(bits, pos, tiles, placed) is None,
{
}

/// An item of any kind next to an Apple has neither condition met.
pub proof fn lemma_apple_excludes(
    v: Veggie,
    p: (int, int),
    tiles: Seq<((i8, i8), Tile)>,
    placed: Seq<((i8, i8), Veggie)>,
)
    requires
        adjacent_spec(p, placed).contains(Veggie::Apple),
    ensures
        happiness(v, p, tiles, placed) == (false, false),
{
    assert(incompatible(v)[0] == Veggie::Apple);
    assert(shocked(v, adjacent_spec(p, placed)));
}

/// A Cherry's first condition holds with exactly one Cherry next to it (and
/// no Apple there), and fails with none or several; its second condition
/// fails whenever an Apple shares its row or column, however far away.
pub proof fn lemma_cherry(
    p: (int, int),
    tiles: Seq<((i8, i8), Tile)>,
    placed: Seq<((i8, i8), Veggie)>,
)
    ensures
        occurrences(adjacent_spec(p, placed), Veggie::Cherry) != 1 ==> !happiness(
            Veggie::Cherry,
            p,
            tiles,
            placed,
        ).0,
        occurrences(adjacent_spec(p, placed), Veggie::Cherry) == 1 && !adjacent_spec(
            p,
            placed,
        ).contains(Veggie::Apple) ==> happiness(Veggie::Cherry, p, tiles, placed).0,
        apple_in_line(p, placed) ==> !happiness(Veggie::Cherry, p, tiles, placed).1,
{
    let near = adjacent_spec(p, placed);
    if shocked(Veggie::Cherry, near) {
        let i = choose|i: int|
            0 <= i < incompatible(Veggie::Cherry).len() && near.contains(
                #[trigger] incompatible(Veggie::Cherry)[i],
            );
        assert(incompatible(Veggie::Cherry)[i] == Veggie::Apple);
    }
}

/// In a list that names each cell once, each entry is what the list holds at its cell.
proof fn lemma_lookup_entry<A>(cells: Seq<((i8, i8), A)>, i: int)
    requires
        distinct_cells(cells),
        0 <= i < cells.len(),
    ensures
        lookup(cells, coord(cells[i].0)) == Some(cells[i].1),
    decreases cells.len(),
{
    if i > 0 {
        let rest = cells.drop_first();
        assert forall|a: int, b: int| 0 <= a < b < rest.len() implies #[trigger] rest[a].0
            != #[trigger] rest[b].0 by {
            assert(rest[a] == cells[a + 1]);
            assert(rest[b] == cells[b + 1]);
        }
        assert(cells[0].0 != cells[i].0);
        assert(coord(cells[0].0) != coord(cells[i].0));
        assert(rest[i - 1] == cells[i]);
        lemma_lookup_entry(rest, i - 1);
    }
}

/// What a list holds at a cell is held by one of its entries for that cell.
proof fn lemma_lookup_found<A>(cells: Seq<((i8, i8), A)>, q: (int, int))
    requires
        lookup(cells, q) is Some,
    ensures
        exists|i: int|
            0 <= i < cells.len() && coord(#[trigger] cells[i].0) == q && cells[i].1 == lookup(
                cells,
                q,
            )->0,
    decreases cells.len(),
{
    if coord(cells[0].0) != q {
        let rest = cells.drop_first();
        lemma_lookup_found(rest, q);
        let i = choose|i: int|
            0 <= i < rest.len() && coord(#[trigger] rest[i].0) == q && rest[i].1 == lookup(
                rest,
                q,
            )->0;
        assert(cells[i + 1] == rest[i]);
    }
}

/// The second condition of a Cherry, over the cells of a list that names
/// each cell once: it fails exactly when some cell in its row or column
/// holds an Apple, however far away, or an Apple stands next to it.
pub proof fn lemma_cherry_line(
    p: (int, int),
    tiles: Seq<((i8, i8), Tile)>,
    placed: Seq<((i8, i8), Veggie)>,
)
    requires
        distinct_cells(placed),
    ensures
        happiness(Veggie::Cherry, p, tiles, placed).1 <==> !(exists|q: (int, int)|
            lookup(placed, q) == Some(Veggie::Apple) && (q.0 == p.0 || q.1 == p.1))
            && !adjacent_spec(p, placed).contains(Veggie::Apple),
{
    let near = adjacent_spec(p, placed);
    if shocked(Veggie::Cherry, near) {
        let i = choose|i: int|
            0 <= i < incompatible(Veggie::Cherry).len() && near.contains(
                #[trigger] incompatible(Veggie::Cherry)[i],
            );
        assert(incompatible(Veggie::Cherry)[i] == Veggie::Apple);
    }
    if near.contains(Veggie::Apple) {
        assert(incompatible(Veggie::Cherry)[0] == Veggie::Apple);
    }
    if apple_in_line(p, placed) {
        let i = choose|i: int|
            0 <= i < placed.len() && #[trigger] placed[i].1 == Veggie::Apple && (coord(
                placed[i].0,
            ).0 == p.0 || coord(placed[i].0).1 == p.1);
        lemma_lookup_entry(placed, i);
        let q = coord(placed[i].0);
        assert(lookup(placed, q) == Some(Veggie::Apple) && (q.0 == p.0 || q.1 == p.1));
    }
    if exists|q: (int, int)|
        lookup(placed, q) == Some(Veggie::Apple) && (q.0 == p.0 || q.1 == p.1) {
        let q = choose|q: (int, int)|
            lookup(placed, q) == Some(Veggie::Apple) && (q.0 == p.0 || q.1 == p.1);
        lemma_lookup_found(placed, q);
        let i = choose|i: int|
            0 <= i < placed.len() && coord(#[trigger] placed[i].0) == q && placed[i].1 == lookup(
                placed,
                q,
            )->0;
        assert(placed[i].1 == Veggie::Apple);
        assert(apple_in_line(p, placed));
    }
}

} // verus!
