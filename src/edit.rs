use crate::data::MAX_AUTHOR;
use crate::puzzle::{Puzzle, PuzzleModel, MAX_H, MAX_W};
use crate::rules::{cell_at, coord, distinct_cells, lookup};
use crate::text::push_char;
use vstd::prelude::*;

verus! {

/// The character that erases the last letter of the author name.
pub const ERASE: char = '<';

/// A cell list without the entries for `k`.
pub open spec fn without_cell<A>(cells: Seq<((i8, i8), A)>, k: (i8, i8)) -> Seq<((i8, i8), A)>
    decreases cells.len(),
{
    if cells.len() == 0 {
        Seq::empty()
    } else {
        let rest = without_cell(cells.drop_last(), k);
        if cells.last().0 == k {
            rest
        } else {
            rest.push(cells.last())
        }
    }
}

/// The cell lies in row `line` (or column `line` when `rows` is false), within
/// the first `len` cells of it.
pub open spec fn on_line(k: (i8, i8), rows: bool, line: i8, len: i8) -> bool {
    if rows {
        0 <= k.0 < len && k.1 == line
    } else {
        0 <= k.1 < len && k.0 == line
    }
}

/// A cell list without the entries on a line of the grid.
pub open spec fn off_line<A>(cells: Seq<((i8, i8), A)>, rows: bool, line: i8, len: i8) -> Seq<
    ((i8, i8), A),
>
    decreases cells.len(),
{
    if cells.len() == 0 {
        Seq::empty()
    } else {
        let rest = off_line(cells.drop_last(), rows, line, len);
        if on_line(cells.last().0, rows, line, len) {
            rest
        } else {
            rest.push(cells.last())
        }
    }
}

/// The grid may grow or shrink by one row (or column) from `size`.
pub open spec fn can_resize(size: (i8, i8), expand: bool, rows: bool) -> bool {
    if expand {
        if rows {
            size.1 < MAX_H
        } else {
            size.0 < MAX_W
        }
    } else {
        if rows {
            size.1 > 1
        } else {
            size.0 > 1
        }
    }
}

/// The puzzle after one row (or column) is added or taken away at the far
/// edge: a taken line takes its obstacles and items with it.
pub open spec fn resized(m: PuzzleModel, expand: bool, rows: bool) -> PuzzleModel {
    if expand {
        if rows {
            PuzzleModel { size: (m.size.0, (m.size.1 + 1) as i8), ..m }
        } else {
            PuzzleModel { size: ((m.size.0 + 1) as i8, m.size.1), ..m }
        }
    } else if rows {
        let h = (m.size.1 - 1) as i8;
        PuzzleModel {
            size: (m.size.0, h),
            tiles: off_line(m.tiles, true, h, m.size.0),
            placed: off_line(m.placed, true, h, m.size.0),
            ..m
        }
    } else {
        let w = (m.size.0 - 1) as i8;
        PuzzleModel {
            size: (w, m.size.1),
            tiles: off_line(m.tiles, false, w, m.size.1),
            placed: off_line(m.placed, false, w, m.size.1),
            ..m
        }
    }
}

/// The author name after one key of the name field: the erase key takes the
/// last letter away, another letter is added while the name is short enough.
pub open spec fn typed(author: Seq<char>, key: char) -> Seq<char> {
    if key == ERASE {
        if author.len() > 0 {
            author.drop_last()
        } else {
            author
        }
    } else if author.len() < MAX_AUTHOR {
        author.push(key)
    } else {
        author
    }
}

/// Dropping entries keeps a list that names each cell once that way.
pub proof fn lemma_without_cell_distinct<A>(cells: Seq<((i8, i8), A)>, k: (i8, i8))
    requires
        distinct_cells(cells),
    ensures
        distinct_cells(without_cell(cells, k)),
        forall|j: int|
            0 <= j < without_cell(cells, k).len() ==> exists|i: int|
                0 <= i < cells.len() && cells[i] == #[trigger] without_cell(cells, k)[j],
    decreases cells.len(),
{
    if cells.len() > 0 {
        let front = cells.drop_last();
        assert forall|i: int, j: int| 0 <= i < j < front.len() implies #[trigger] front[i].0
            != #[trigger] front[j].0 by {
            assert(front[i] == cells[i]);
            assert(front[j] == cells[j]);
        }
        lemma_without_cell_distinct(front, k);
        let o = without_cell(front, k);
        let r = without_cell(cells, k);
        assert forall|j: int| 0 <= j < o.len() implies exists|i: int|
            0 <= i < cells.len() - 1 && cells[i] == #[trigger] o[j] by {
            let i = choose|i: int| 0 <= i < front.len() && front[i] == o[j];
            assert(cells[i] == front[i]);
        }
        if r != o {
            assert(r == o.push(cells.last()));
            assert forall|j: int| 0 <= j < r.len() implies exists|i: int|
                0 <= i < cells.len() && cells[i] == #[trigger] r[j] by {
                if j < o.len() {
                    assert(r[j] == o[j]);
                } else {
                    assert(cells[cells.len() - 1] == r[j]);
                }
            }
            assert forall|i: int, j: int| 0 <= i < j < r.len() implies #[trigger] r[i].0
                != #[trigger] r[j].0 by {
                assert(r[i] == o[i]);
                if j < o.len() {
                    assert(r[j] == o[j]);
                } else {
                    let m = choose|m: int| 0 <= m < cells.len() - 1 && cells[m] == o[i];
                    assert(cells[m].0 != cells[cells.len() - 1].0);
                }
            }
        }
    }
}

/// Dropping entries keeps a list that names each cell once that way.
pub proof fn lemma_off_line_distinct<A>(cells: Seq<((i8, i8), A)>, rows: bool, line: i8, len: i8)
    requires
        distinct_cells(cells),
    ensures
        distinct_cells(off_line(cells, rows, line, len)),
        forall|j: int|
            0 <= j < off_line(cells, rows, line, len).len() ==> exists|i: int|
                0 <= i < cells.len() && cells[i] == #[trigger] off_line(cells, rows, line, len)[j],
    decreases cells.len(),
{
    if cells.len() > 0 {
        let front = cells.drop_last();
        assert forall|i: int, j: int| 0 <= i < j < front.len() implies #[trigger] front[i].0
            != #[trigger] front[j].0 by {
            assert(front[i] == cells[i]);
            assert(front[j] == cells[j]);
        }
        lemma_off_line_distinct(front, rows, line, len);
        let o = off_line(front, rows, line, len);
        let r = off_line(cells, rows, line, len);
        assert forall|j: int| 0 <= j < o.len() implies exists|i: int|
            0 <= i < cells.len() - 1 && cells[i] == #[trigger] o[j] by {
            let i = choose|i: int| 0 <= i < front.len() && front[i] == o[j];
            assert(cells[i] == front[i]);
        }
        if r != o {
            assert(r == o.push(cells.last()));
            assert forall|j: int| 0 <= j < r.len() implies exists|i: int|
                0 <= i < cells.len() && cells[i] == #[trigger] r[j] by {
                if j < o.len() {
                    assert(r[j] == o[j]);
                } else {
                    assert(cells[cells.len() - 1] == r[j]);
                }
            }
            assert forall|i: int, j: int| 0 <= i < j < r.len() implies #[trigger] r[i].0
                != #[trigger] r[j].0 by {
                assert(r[i] == o[i]);
                if j < o.len() {
                    assert(r[j] == o[j]);
                } else {
                    let m = choose|m: int| 0 <= m < cells.len() - 1 && cells[m] == o[i];
                    assert(cells[m].0 != cells[cells.len() - 1].0);
                }
            }
        }
    }
}

/// Takes the entries for `key` out of a cell list.
pub fn remove_cell<A: Copy>(cells: &mut Vec<((i8, i8), A)>, key: (i8, i8))
    ensures
        final(cells)@ == without_cell(old(cells)@, key),
        distinct_cells(old(cells)@) ==> distinct_cells(final(cells)@),
{
    proof {
        if distinct_cells(cells@) {
            lemma_without_cell_distinct(cells@, key);
        }
    }
    let mut kept: Vec<((i8, i8), A)> = Vec::new();
    let mut i: usize = 0;
    while i < cells.len()
        invariant
            i <= cells@.len(),
            cells@ == old(cells)@,
            kept@ == without_cell(cells@.take(i as int), key),
        decreases cells.len() - i,
    {
        let entry = cells[i];
        proof {
            assert(cells@.take(i + 1).drop_last() =~= cells@.take(i as int));
        }
        if !(entry.0.0 == key.0 && entry.0.1 == key.1) {
            kept.push(entry);
        }
        i = i + 1;
    }
    proof {
        assert(cells@.take(i as int) =~= cells@);
    }
    *cells = kept;
}

fn remove_line<A: Copy>(cells: &mut Vec<((i8, i8), A)>, rows: bool, line: i8, len: i8)
    ensures
        final(cells)@ == off_line(old(cells)@, rows, line, len),
        distinct_cells(old(cells)@) ==> distinct_cells(final(cells)@),
{
    proof {
        if distinct_cells(cells@) {
            lemma_off_line_distinct(cells@, rows, line, len);
        }
    }
    let mut kept: Vec<((i8, i8), A)> = Vec::new();
    let mut i: usize = 0;
    while i < cells.len()
        invariant
            i <= cells@.len(),
            cells@ == old(cells)@,
            kept@ == off_line(cells@.take(i as int), rows, line, len),
        decreases cells.len() - i,
    {
        let entry = cells[i];
        proof {
            assert(cells@.take(i + 1).drop_last() =~= cells@.take(i as int));
        }
        let k = entry.0;
        let hit = if rows {
            0 <= k.0 && k.0 < len && k.1 == line
        } else {
            0 <= k.1 && k.1 < len && k.0 == line
        };
        if !hit {
            kept.push(entry);
        }
        i = i + 1;
    }
    proof {
        assert(cells@.take(i as int) =~= cells@);
    }
    *cells = kept;
}

impl Puzzle {
    /// Adds or takes away one row (`rows`) or column at the far edge of the
    /// grid, unless that would leave the allowed sizes; whether it did.
    pub fn resize(&mut self, expand: bool, rows: bool) -> (r: bool)
        ensures
            r == can_resize(old(self).size, expand, rows),
            final(self)@ == if r {
                resized(old(self)@, expand, rows)
            } else {
                old(self)@
            },
            old(self)@.wf() ==> final(self)@.wf(),
    {
        if expand {
            if rows {
                if self.size.1 >= MAX_H {
                    return false;
                }
                self.size.1 = self.size.1 + 1;
            } else {
                if self.size.0 >= MAX_W {
                    return false;
                }
                self.size.0 = self.size.0 + 1;
            }
        } else if rows {
            if self.size.1 <= 1 {
                return false;
            }
            self.size.1 = self.size.1 - 1;
            let (w, h) = self.size;
            remove_line(&mut self.tiles, true, h, w);
            remove_line(&mut self.placed, true, h, w);
        } else {
            if self.size.0 <= 1 {
                return false;
            }
            self.size.0 = self.size.0 - 1;
            let (w, h) = self.size;
            remove_line(&mut self.tiles, false, w, h);
            remove_line(&mut self.placed, false, w, h);
        }
        true
    }

    /// Where a piece dropped on `cell` lands: there if the cell is free, else
    /// back where it came from, if it came from the grid.
    pub fn drop_destination(&self, cell: (i8, i8), previous: Option<(i8, i8)>) -> (r: Option<
        (i8, i8),
    >)
        ensures
            r == if lookup(self.placed@, coord(cell)) is None && lookup(
                self.tiles@,
                coord(cell),
            ) is None {
                Some(cell)
            } else {
                previous
            },
    {
        let item = cell_at(&self.placed, cell.0 as i16, cell.1 as i16);
        let tile = cell_at(&self.tiles, cell.0 as i16, cell.1 as i16);
        if item.is_none() && tile.is_none() {
            Some(cell)
        } else {
            previous
        }
    }

    /// Applies one key of the author name field.
    pub fn type_author(&mut self, key: char)
        ensures
            final(self)@ == (PuzzleModel { author: typed(old(self)@.author, key), ..old(self)@ }),
    {
        let n = self.author.as_str().unicode_len();
        if key == ERASE {
            if n > 0 {
                let mut shorter = String::new();
                let mut i: usize = 0;
                while i < n - 1
                    invariant
                        n == self.author@.len(),
                        n > 0,
                        i <= n - 1,
                        shorter@ == self.author@.take(i as int),
                    decreases n - 1 - i,
                {
                    let c = self.author.as_str().get_char(i);
                    push_char(&mut shorter, c);
                    proof {
                        assert(self.author@.take(i + 1) =~= self.author@.take(i as int).push(c));
                    }
                    i = i + 1;
                }
                proof {
                    assert(self.author@.take(i as int) =~= self.author@.drop_last());
                }
                self.author = shorter;
            }
        } else if n < MAX_AUTHOR {
            push_char(&mut self.author, key);
        }
    }
}

} // verus!
