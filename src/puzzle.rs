use crate::rules::{coord, distinct_cells, happiness, occurrences};
use crate::veggie::Veggie;
use vstd::prelude::*;

pub use crate::rules::{adjacent, is_happy, unhappy_adjacent, Tile};

verus! {

/// The widest grid a puzzle may have.
pub const MAX_W: i8 = 10;

/// The tallest grid a puzzle may have.
pub const MAX_H: i8 = 7;

/// What `remaining_veggie` answers in the editor, where nothing is counted.
pub const UNLIMITED: usize = 99;

/// A level: its author, its grid size, the obstacles on the grid, the items
/// placed on it, and how many items of each kind a player must place.
///
/// `tiles` and `placed` stand for maps from cells: `PuzzleModel::wf` says that
/// each names a cell at most once. Decoding and every edit keep that, and
/// lookups take the first entry for a cell. `veggies` lists one entry per kind
/// that the level requires.
pub struct Puzzle {
    pub author: String,
    pub size: (i8, i8),
    pub veggies: Vec<(Veggie, usize)>,
    pub tiles: Vec<((i8, i8), Tile)>,
    pub placed: Vec<((i8, i8), Veggie)>,
}

/// The mathematical value of a `Puzzle`.
pub struct PuzzleModel {
    pub author: Seq<char>,
    pub size: (i8, i8),
    pub veggies: Seq<(Veggie, usize)>,
    pub tiles: Seq<((i8, i8), Tile)>,
    pub placed: Seq<((i8, i8), Veggie)>,
}

impl View for Puzzle {
    type V = PuzzleModel;

    open spec fn view(&self) -> PuzzleModel {
        PuzzleModel {
            author: self.author@,
            size: self.size,
            veggies: self.veggies@,
            tiles: self.tiles@,
            placed: self.placed@,
        }
    }
}

/// The kinds of the items in a cell list, in order.
pub open spec fn kinds(placed: Seq<((i8, i8), Veggie)>) -> Seq<Veggie> {
    placed.map_values(|c: ((i8, i8), Veggie)| c.1)
}

/// How many items of kind `v` a cell list holds.
pub open spec fn placed_count(placed: Seq<((i8, i8), Veggie)>, v: Veggie) -> nat {
    occurrences(kinds(placed), v)
}

/// The count that a requirement list gives for `v`: the first entry for `v` decides.
pub open spec fn requirement(veggies: Seq<(Veggie, usize)>, v: Veggie) -> Option<usize>
    decreases veggies.len(),
{
    if veggies.len() == 0 {
        None
    } else if veggies[0].0 == v {
        Some(veggies[0].1)
    } else {
        requirement(veggies.drop_first(), v)
    }
}

/// `veggies` lists each kind of `placed` once, with the number of its items there.
pub open spec fn counts_of(veggies: Seq<(Veggie, usize)>, placed: Seq<((i8, i8), Veggie)>) -> bool {
    &&& forall|i: int|
        0 <= i < veggies.len() ==> #[trigger] veggies[i].1 == placed_count(placed, veggies[i].0)
            && veggies[i].1 > 0
    &&& forall|i: int, j: int|
        0 <= i < veggies.len() && 0 <= j < veggies.len() && i != j ==> #[trigger] veggies[i].0
            != #[trigger] veggies[j].0
    &&& forall|v: Veggie|
        #[trigger] placed_count(placed, v) > 0 ==> exists|i: int|
            0 <= i < veggies.len() && #[trigger] veggies[i].0 == v
}

impl PuzzleModel {
    pub open spec fn fits_max(self) -> bool {
        self.size.0 <= MAX_W && self.size.1 <= MAX_H
    }

    pub open spec fn fits_min(self) -> bool {
        self.size.0 >= 1 && self.size.1 >= 1
    }

    /// Every placed item has both of its conditions met.
    pub open spec fn all_happy(self) -> bool {
        forall|i: int|
            0 <= i < self.placed.len() ==> happiness(
                #[trigger] self.placed[i].1,
                coord(self.placed[i].0),
                self.tiles,
                self.placed,
            ) == (true, true)
    }

    /// Each list names a cell at most once, as a map from cells would.
    pub open spec fn wf(self) -> bool {
        distinct_cells(self.tiles) && distinct_cells(self.placed)
    }

    pub open spec fn valid(self) -> bool {
        self.fits_max() && self.fits_min() && self.all_happy() && self.placed.len() > 0
    }

    /// Why the puzzle is not valid: the first check that fails decides.
    pub open spec fn invalid_reason(self) -> Seq<char> {
        if !self.fits_max() {
            "The grid is too large!"@
        } else if !self.fits_min() {
            "The grid is too small!"@
        } else if !self.all_happy() {
            "The veggies should be happy!"@
        } else {
            "The puzzle is empty!"@
        }
    }

    /// How many more items of kind `v` a player may place.
    pub open spec fn remaining(self, v: Veggie, in_editor: bool) -> nat {
        if in_editor {
            UNLIMITED as nat
        } else {
            match requirement(self.veggies, v) {
                Some(c) => if c >= placed_count(self.placed, v) {
                    (c - placed_count(self.placed, v)) as nat
                } else {
                    0
                },
                None => 0,
            }
        }
    }

    /// Every required kind has all of its items placed, and the puzzle is valid.
    pub open spec fn solved(self) -> bool {
        &&& forall|i: int|
            0 <= i < self.veggies.len() ==> self.remaining(#[trigger] self.veggies[i].0, false)
                == 0
        &&& self.valid()
    }
}

/// How many items of kind `v` the cell list holds.
pub fn count_placed(placed: &Vec<((i8, i8), Veggie)>, v: Veggie) -> (r: usize)
    ensures
        r == placed_count(placed@, v),
{
    let mut n: usize = 0;
    let mut i: usize = 0;
    while i < placed.len()
        invariant
            i <= placed@.len(),
            n == placed_count(placed@.take(i as int), v),
            n <= i,
        decreases placed.len() - i,
    {
        proof {
            assert(kinds(placed@.take(i + 1)).drop_last() =~= kinds(placed@.take(i as int)));
        }
        if placed[i].1 == v {
            n = n + 1;
        }
        i = i + 1;
    }
    proof {
        assert(placed@.take(i as int) =~= placed@);
    }
    n
}

fn find_requirement(veggies: &Vec<(Veggie, usize)>, v: Veggie) -> (r: Option<usize>)
    ensures
        r == requirement(veggies@, v),
{
    let mut i: usize = 0;
    assert(veggies@.skip(0) =~= veggies@);
    while i < veggies.len()
        invariant
            i <= veggies@.len(),
            requirement(veggies@, v) == requirement(veggies@.skip(i as int), v),
        decreases veggies.len() - i,
    {
        proof {
            assert(veggies@.skip(i as int).drop_first() =~= veggies@.skip(i as int + 1));
            assert(veggies@.skip(i as int)[0] == veggies@[i as int]);
        }
        if veggies[i].0 == v {
            return Some(veggies[i].1);
        }
        i = i + 1;
    }
    None
}

fn position_of_kind(veggies: &Vec<(Veggie, usize)>, v: Veggie) -> (j: usize)
    ensures
        j <= veggies@.len(),
        forall|i: int| 0 <= i < j ==> #[trigger] veggies@[i].0 != v,
        j < veggies@.len() ==> veggies@[j as int].0 == v,
{
    let mut j: usize = 0;
    while j < veggies.len()
        invariant
            j <= veggies@.len(),
            forall|i: int| 0 <= i < j ==> #[trigger] veggies@[i].0 != v,
        decreases veggies.len() - j,
    {
        if veggies[j].0 == v {
            return j;
        }
        j = j + 1;
    }
    j
}

/// The requirement list of a solution: each kind of `placed` once, in the
/// order of its first item, with the number of its items.
pub fn count_veggies(placed: &Vec<((i8, i8), Veggie)>) -> (r: Vec<(Veggie, usize)>)
    ensures
        counts_of(r@, placed@),
{
    let mut r: Vec<(Veggie, usize)> = Vec::new();
    let mut k: usize = 0;
    while k < placed.len()
        invariant
            k <= placed@.len(),
            counts_of(r@, placed@.take(k as int)),
            forall|i: int| 0 <= i < r@.len() ==> #[trigger] r@[i].1 <= k,
        decreases placed.len() - k,
    {
        let v = placed[k].1;
        let ghost before = placed@.take(k as int);
        let ghost after = placed@.take(k + 1);
        proof {
            assert(kinds(after).drop_last() =~= kinds(before));
            assert forall|w: Veggie| #[trigger]
                placed_count(after, w) == placed_count(before, w) + if w == v {
                    1nat
                } else {
                    0nat
                } by {
                assert(kinds(after).last() == v);
            }
        }
        let j = position_of_kind(&r, v);
        let ghost old_r = r@;
        if j < r.len() {
            let c = r[j].1;
            r.set(j, (v, c + 1));
            proof {
                assert forall|i: int| 0 <= i < r@.len() implies #[trigger] r@[i].0 == old_r[i].0 by {}
                assert forall|i: int| 0 <= i < r@.len() implies #[trigger] r@[i].1 == placed_count(
                    after,
                    r@[i].0,
                ) && r@[i].1 > 0 by {
                    if i != j {
                        assert(old_r[i].0 != old_r[j as int].0);
                        assert(r@[i] == old_r[i]);
                    }
                }
                assert forall|a: int, b: int|
                    0 <= a < r@.len() && 0 <= b < r@.len() && a != b implies #[trigger] r@[a].0
                    != #[trigger] r@[b].0 by {
                    assert(r@[a].0 == old_r[a].0);
                    assert(r@[b].0 == old_r[b].0);
                }
                assert forall|w: Veggie| #[trigger] placed_count(after, w) > 0 implies exists|i: int|
                    0 <= i < r@.len() && #[trigger] r@[i].0 == w by {
                    if w == v {
                        assert(r@[j as int].0 == w);
                    } else {
                        let i = choose|i: int| 0 <= i < old_r.len() && #[trigger] old_r[i].0 == w;
                        assert(r@[i].0 == w);
                    }
                }
            }
        } else {
            proof {
                if placed_count(before, v) > 0 {
                    let i = choose|i: int| 0 <= i < old_r.len() && #[trigger] old_r[i].0 == v;
                    assert(false);
                }
            }
            r.push((v, 1));
            proof {
                assert(r@[old_r.len() as int].0 == v);
                assert forall|i: int| 0 <= i < old_r.len() implies #[trigger] r@[i] == old_r[i] by {}
                assert forall|i: int| 0 <= i < r@.len() implies #[trigger] r@[i].1 == placed_count(
                    after,
                    r@[i].0,
                ) && r@[i].1 > 0 by {
                    if i < old_r.len() {
                        assert(r@[i] == old_r[i]);
                    }
                }
                assert forall|a: int, b: int|
                    0 <= a < r@.len() && 0 <= b < r@.len() && a != b implies #[trigger] r@[a].0
                    != #[trigger] r@[b].0 by {
                    if a < old_r.len() {
                        assert(r@[a] == old_r[a]);
                    }
                    if b < old_r.len() {
                        assert(r@[b] == old_r[b]);
                    }
                }
                assert forall|w: Veggie| #[trigger] placed_count(after, w) > 0 implies exists|i: int|
                    0 <= i < r@.len() && #[trigger] r@[i].0 == w by {
                    if w != v {
                        let i = choose|i: int| 0 <= i < old_r.len() && #[trigger] old_r[i].0 == w;
                        assert(r@[i] == old_r[i]);
                    }
                }
            }
        }
        k = k + 1;
    }
    proof {
        assert(placed@.take(k as int) =~= placed@);
    }
    r
}

impl Puzzle {
    /// How many more items of kind `veggie` a player may place: unlimited in
    /// the editor, else what the level requires less what is placed, and never
    /// below zero.
    pub fn remaining_veggie(&self, veggie: &Veggie, in_editor: bool) -> (r: usize)
        ensures
            r as nat == self@.remaining(*veggie, in_editor),
            in_editor ==> r == UNLIMITED,
    {
        if in_editor {
            return UNLIMITED;
        }
        match find_requirement(&self.veggies, *veggie) {
            Some(count) => {
                let n = count_placed(&self.placed, *veggie);
                if count >= n {
                    count - n
                } else {
                    0
                }
            },
            None => 0,
        }
    }

    /// Whether the grid size is in bounds, every placed item is happy and one
    /// item at least is placed; the error says which check failed first.
    pub fn is_valid(&self) -> (r: Result<(), String>)
        ensures
            r is Ok <==> self@.valid(),
            r matches Err(e) ==> e@ == self@.invalid_reason(),
    {
        if !(self.size.0 <= MAX_W && self.size.1 <= MAX_H) {
            return Err(String::from_str("The grid is too large!"));
        }
        if !(self.size.0 >= 1 && self.size.1 >= 1) {
            return Err(String::from_str("The grid is too small!"));
        }
        let mut i: usize = 0;
        while i < self.placed.len()
            invariant
                i <= self.placed@.len(),
                self@.fits_max(),
                self@.fits_min(),
                forall|j: int|
                    0 <= j < i ==> happiness(
                        #[trigger] self.placed@[j].1,
                        coord(self.placed@[j].0),
                        self.tiles@,
                        self.placed@,
                    ) == (true, true),
            decreases self.placed.len() - i,
        {
            let (pos, v) = self.placed[i];
            let (c1, c2) = is_happy(&v, pos, &self.tiles, &self.placed);
            if !(c1 && c2) {
                assert(!self@.all_happy()) by {
                    assert(self@.placed[i as int] == (pos, v));
                }
                return Err(String::from_str("The veggies should be happy!"));
            }
            i = i + 1;
        }
        if self.placed.len() == 0 {
            return Err(String::from_str("The puzzle is empty!"));
        }
        Ok(())
    }

    /// Takes the items off the grid, keeping what the level requires.
    pub fn prepare(&mut self)
        ensures
            final(self)@ == (PuzzleModel { placed: Seq::empty(), ..old(self)@ }),
            old(self)@.wf() ==> final(self)@.wf(),
    {
        self.placed = Vec::new();
    }

    /// Whether a player has placed every required item and the puzzle is valid.
    pub fn is_solved(&self) -> (r: bool)
        ensures
            r == self@.solved(),
    {
        let mut i: usize = 0;
        while i < self.veggies.len()
            invariant
                i <= self.veggies@.len(),
                forall|j: int|
                    0 <= j < i ==> self@.remaining(#[trigger] self.veggies@[j].0, false) == 0,
            decreases self.veggies.len() - i,
        {
            if self.remaining_veggie(&self.veggies[i].0, false) != 0 {
                return false;
            }
            i = i + 1;
        }
        self.is_valid().is_ok()
    }
}

impl Default for Puzzle {
    /// An empty five by three grid with no author.
    fn default() -> (r: Puzzle)
        ensures
            r@.author == Seq::<char>::empty(),
            r@.size == (5i8, 3i8),
            r@.veggies == Seq::<(Veggie, usize)>::empty(),
            r@.tiles == Seq::<((i8, i8), Tile)>::empty(),
            r@.placed == Seq::<((i8, i8), Veggie)>::empty(),
            r@.wf(),
    {
        Puzzle {
            author: String::new(),
            size: (5, 3),
            veggies: Vec::new(),
            tiles: Vec::new(),
            placed: Vec::new(),
        }
    }
}

} // verus!
