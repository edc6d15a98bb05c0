//! A bounded spatial occupancy index over a rectangular region of cells.

use std::collections::HashSet;
use std::hash::Hash;
use vstd::arithmetic::div_mod::lemma_div_is_ordered;
use vstd::arithmetic::div_mod::lemma_hoist_over_denominator;
use vstd::arithmetic::div_mod::lemma_remainder_lower;
use vstd::laws_eq::obeys_concrete_eq;
use vstd::prelude::*;
use vstd::std_specs::hash::obeys_key_model;

verus! {

/// Number of occupants one cell can hold.
pub const FIXED_ARRAY_SIZE: usize = 3;

/// A bucket of at most `FIXED_ARRAY_SIZE` occupants, kept in insertion order.
#[derive(Clone, Copy)]
pub struct Array3e<T> {
    data: [T; FIXED_ARRAY_SIZE],
    size: usize,
}

impl<T> View for Array3e<T> {
    type V = Seq<T>;

    closed spec fn view(&self) -> Seq<T> {
        self.data@.take(self.size as int)
    }
}

impl<T: Default + Copy + PartialEq> Array3e<T> {
    /// The bucket never holds more than its capacity.
    pub closed spec fn wf(&self) -> bool {
        self.size <= FIXED_ARRAY_SIZE
    }

    pub proof fn lemma_len_bounded(&self)
        requires
            self.wf(),
        ensures
            self@.len() <= FIXED_ARRAY_SIZE,
    {
    }

    pub fn new() -> (r: Self)
        ensures
            r.wf(),
            r@ == Seq::<T>::empty(),
    {
        Array3e { data: [T::default();FIXED_ARRAY_SIZE], size: 0 }
    }

    /// Appends `element`, or refuses when the bucket is full.
    pub fn insert(&mut self, element: T) -> (r: Result<(), ()>)
        requires
            old(self).wf(),
        ensures
            final(self).wf(),
            r is Err <==> old(self)@.len() == FIXED_ARRAY_SIZE,
            r is Err ==> final(self)@ == old(self)@,
            r is Ok ==> final(self)@ == old(self)@.push(element),
    {
        if self.size == FIXED_ARRAY_SIZE {
            return Err(());
        }
        self.data[self.size] = element;
        self.size += 1;
        assert(self@ =~= old(self)@.push(element));
        Ok(())
    }

    /// Removes the occupant at `index`, closing the gap.
    pub fn remove(&mut self, index: usize) -> (r: Result<(), ()>)
        requires
            old(self).wf(),
        ensures
            final(self).wf(),
            r is Err <==> index >= old(self)@.len(),
            r is Err ==> final(self)@ == old(self)@,
            r is Ok ==> final(self)@ == old(self)@.remove(index as int),
    {
        if index >= self.size {
            return Err(());
        }
        let mut i: usize = index;
        while i + 1 < self.size
            invariant
                index <= i < self.size,
                self.size == old(self).size,
                self.size <= FIXED_ARRAY_SIZE,
                forall|j: int| 0 <= j < index ==> self.data@[j] == old(self).data@[j],
                forall|j: int| index <= j < i ==> self.data@[j] == old(self).data@[j + 1],
                forall|j: int| i <= j < self.size ==> self.data@[j] == old(self).data@[j],
            decreases self.size - i,
        {
            self.data[i] = self.data[i + 1];
            i += 1;
        }
        self.size -= 1;
        assert(self@ =~= old(self)@.remove(index as int));
        Ok(())
    }

    /// Removes the first occupant equal to `element`.
    pub fn remove_element(&mut self, element: &T) -> (r: Result<(), ()>)
        requires
            old(self).wf(),
            obeys_concrete_eq::<T>(),
        ensures
            final(self).wf(),
            r is Err <==> !old(self)@.contains(*element),
            final(self)@ == old(self)@.remove_value(*element),
    {
        let mut i: usize = 0;
        while i < self.size
            invariant
                i <= self.size <= FIXED_ARRAY_SIZE,
                *self == *old(self),
                obeys_concrete_eq::<T>(),
                forall|j: int| 0 <= j < i ==> self@[j] != *element,
            decreases self.size - i,
        {
            proof {
                reveal(obeys_concrete_eq);
            }
            if self.data[i] == *element {
                proof {
                    assert(self@[i as int] == *element);
                    self@.index_of_first_ensures(*element);
                    let first = self@.index_of_first(*element).unwrap();
                    assert(first == i) by {
                        if first < i {
                            assert(self@[first] != *element);
                        }
                    }
                }
                return self.remove(i);
            }
            i += 1;
        }
        proof {
            self@.index_of_first_ensures(*element);
        }
        Err(())
    }

    /// Whether some occupant equals `element`.
    pub fn contains(&self, element: &T) -> (r: bool)
        requires
            self.wf(),
            obeys_concrete_eq::<T>(),
        ensures
            r == self@.contains(*element),
    {
        let mut i: usize = 0;
        while i < self.size
            invariant
                i <= self.size <= FIXED_ARRAY_SIZE,
                obeys_concrete_eq::<T>(),
                forall|j: int| 0 <= j < i ==> self@[j] != *element,
            decreases self.size - i,
        {
            proof {
                reveal(obeys_concrete_eq);
            }
            if self.data[i] == *element {
                assert(self@[i as int] == *element);
                return true;
            }
            i += 1;
        }
        false
    }

    /// Drops the most recent occupant.
    pub fn remove_end(&mut self) -> (r: Result<(), ()>)
        requires
            old(self).wf(),
        ensures
            final(self).wf(),
            r is Err <==> old(self)@.len() == 0,
            r is Err ==> final(self)@ == old(self)@,
            r is Ok ==> final(self)@ == old(self)@.drop_last(),
    {
        if self.size == 0 {
            return Err(());
        }
        self.size -= 1;
        assert(self@ =~= old(self)@.drop_last());
        Ok(())
    }

    pub fn is_empty(&self) -> (r: bool)
        requires
            self.wf(),
        ensures
            r == (self@.len() == 0),
    {
        self.size == 0
    }

    /// Number of occupants.
    pub fn len(&self) -> (r: usize)
        requires
            self.wf(),
        ensures
            r == self@.len(),
    {
        self.size
    }

    /// The occupant at `index`.
    pub fn index(&self, index: usize) -> (r: T)
        requires
            self.wf(),
            index < self@.len(),
        ensures
            r == self@[index as int],
    {
        self.data[index]
    }
}


/// An axis-aligned rectangle with inclusive corners, in pixels or in cells.
pub struct Rect {
    pub left: int,
    pub top: int,
    pub right: int,
    pub bottom: int,
}

impl Rect {
    pub open spec fn holds(self, x: int, y: int) -> bool {
        self.left <= x <= self.right && self.top <= y <= self.bottom
    }

    pub open spec fn meets(self, other: Rect) -> bool {
        exists|x: int, y: int| self.holds(x, y) && other.holds(x, y)
    }
}

/// The rectangle of the given size centred on `center`.
pub open spec fn rect_of(center: (i32, i32), dims: (u32, u32)) -> Rect {
    let left = center.0 - dims.0 / 2;
    let top = center.1 - dims.1 / 2;
    Rect { left, top, right: left + dims.0, bottom: top + dims.1 }
}

/// A region can be gridded when it is not inverted, cells have a side, and
/// the number of columns and of rows can be counted on this machine.
pub open spec fn region_valid(screen_space: ((i32, i32), (i32, i32)), ds: u16) -> bool {
    &&& ds > 0
    &&& screen_space.0.0 <= screen_space.1.0
    &&& screen_space.0.1 <= screen_space.1.1
    &&& (screen_space.1.0 - screen_space.0.0) / (ds as int) + 1 <= usize::MAX
    &&& (screen_space.1.1 - screen_space.0.1) / (ds as int) + 1 <= usize::MAX
}

/// Why a grid operation was refused. A refused operation changes nothing.
#[verifier::reject_recursive_types(T)]
pub enum GridError<T> {
    /// The rectangle or point lies outside the region the grid covers.
    OutOfBounds,
    /// Covered cells are occupied; carries every occupant that is in the way.
    Collision(HashSet<T>),
    /// The key is already present in the grid.
    DuplicateKey,
    /// Nothing occupies the cell a move starts from.
    Vacant,
    /// The bucket of the cell is full.
    CellFull,
    /// The region is inverted or the cell side is zero.
    InvalidRegion,
}

/// What a grid holds: the occupants of every cell, column by column, the set
/// of keys present, the pixel region covered and the cell side.
#[verifier::reject_recursive_types(T)]
pub struct GridView<T> {
    pub cells: Seq<Seq<Seq<T>>>,
    pub keys: Set<T>,
    pub bounds: Rect,
    pub ds: int,
}

/// How inserting a rectangle ends.
#[verifier::reject_recursive_types(T)]
pub enum InsertOutcome<T> {
    OutOfBounds,
    Collision(Set<T>),
    DuplicateKey,
    Placed(GridView<T>),
}

/// How moving a rectangle ends.
#[verifier::reject_recursive_types(T)]
pub enum MoveOutcome<T> {
    OutOfBounds,
    Vacant,
    Collision(Set<T>),
    Moved(GridView<T>),
}

impl<T> GridView<T> {
    pub open spec fn columns(self) -> int {
        (self.bounds.right - self.bounds.left) / self.ds + 1
    }

    pub open spec fn rows(self) -> int {
        (self.bounds.bottom - self.bounds.top) / self.ds + 1
    }

    pub open spec fn wf(self) -> bool {
        &&& self.ds > 0
        &&& self.bounds.left <= self.bounds.right
        &&& self.bounds.top <= self.bounds.bottom
        &&& self.cells.len() == self.columns()
        &&& forall|x: int| 0 <= x < self.cells.len() ==> (#[trigger] self.cells[x]).len() == self.rows()
        &&& forall|x: int, y: int|
            0 <= x < self.columns() && 0 <= y < self.rows() ==> (#[trigger] self.cells[x][y]).len()
                <= FIXED_ARRAY_SIZE
    }

    /// The pixel rectangle lies within the covered region.
    pub open spec fn encloses(self, r: Rect) -> bool {
        &&& self.bounds.left <= r.left <= r.right <= self.bounds.right
        &&& self.bounds.top <= r.top <= r.bottom <= self.bounds.bottom
    }

    /// The cells that a pixel rectangle covers.
    pub open spec fn span(self, r: Rect) -> Rect {
        Rect {
            left: (r.left - self.bounds.left) / self.ds,
            top: (r.top - self.bounds.top) / self.ds,
            right: (r.right - self.bounds.left) / self.ds,
            bottom: (r.bottom - self.bounds.top) / self.ds,
        }
    }

    /// Every key found in a cell of `span`.
    pub open spec fn occupants(self, span: Rect) -> Set<T> {
        Set::new(
            |k: T|
                exists|x: int, y: int|
                    span.holds(x, y) && 0 <= x < self.cells.len() && 0 <= y < self.cells[x].len()
                        && (#[trigger] self.cells[x][y]).contains(k),
        )
    }

    /// The cells after `key` was put into every cell of `span` that lacked it.
    pub open spec fn with_key(self, span: Rect, key: T) -> Seq<Seq<Seq<T>>> {
        Seq::new(
            self.cells.len(),
            |x: int|
                Seq::new(
                    self.cells[x].len(),
                    |y: int|
                        if span.holds(x, y) && !self.cells[x][y].contains(key) {
                            self.cells[x][y].push(key)
                        } else {
                            self.cells[x][y]
                        },
                ),
        )
    }

    /// The cells after the first `key` was taken out of every cell of `span`.
    pub open spec fn without_key(self, span: Rect, key: T) -> Seq<Seq<Seq<T>>> {
        Seq::new(
            self.cells.len(),
            |x: int|
                Seq::new(
                    self.cells[x].len(),
                    |y: int|
                        if span.holds(x, y) {
                            self.cells[x][y].remove_value(key)
                        } else {
                            self.cells[x][y]
                        },
                ),
        )
    }

    /// The grid over the given region in which every cell is empty.
    pub open spec fn blank(screen_space: ((i32, i32), (i32, i32)), ds: int) -> GridView<T> {
        let columns = (screen_space.1.0 - screen_space.0.0) / ds + 1;
        let rows = (screen_space.1.1 - screen_space.0.1) / ds + 1;
        GridView {
            cells: Seq::new(
                columns as nat,
                |x: int| Seq::new(rows as nat, |y: int| Seq::<T>::empty()),
            ),
            keys: Set::<T>::empty(),
            bounds: Rect {
                left: screen_space.0.0 as int,
                top: screen_space.0.1 as int,
                right: screen_space.1.0 as int,
                bottom: screen_space.1.1 as int,
            },
            ds,
        }
    }

    pub open spec fn insert_outcome(self, r: Rect, key: T) -> InsertOutcome<T> {
        if !self.encloses(r) {
            InsertOutcome::OutOfBounds
        } else if !self.occupants(self.span(r)).is_empty() {
            InsertOutcome::Collision(self.occupants(self.span(r)))
        } else if self.keys.contains(key) {
            InsertOutcome::DuplicateKey
        } else {
            InsertOutcome::Placed(
                GridView {
                    cells: self.with_key(self.span(r), key),
                    keys: self.keys.insert(key),
                    ..self
                },
            )
        }
    }

    /// The grid after `key` left the cells that `r` covers, if `r` is in bounds.
    pub open spec fn remove_outcome(self, r: Rect, key: T) -> Option<GridView<T>> {
        if !self.encloses(r) {
            None
        } else {
            Some(
                GridView {
                    cells: self.without_key(self.span(r), key),
                    keys: self.keys.remove(key),
                    ..self
                },
            )
        }
    }

    /// The first occupant of the cell that holds pixel `p`, if there is one.
    pub open spec fn occupant_at(self, p: Rect) -> Option<T> {
        let cell = self.span(p);
        if self.encloses(p) && self.cells[cell.left][cell.top].len() > 0 {
            Some(self.cells[cell.left][cell.top][0])
        } else {
            None
        }
    }

    /// How moving what occupies the cell of pixel `anchor` from the cells of
    /// `from` to the cells of `to` ends.
    pub open spec fn move_outcome(self, from: Rect, anchor: Rect, to: Rect) -> MoveOutcome<T> {
        if !self.encloses(from) || !self.encloses(to) {
            MoveOutcome::OutOfBounds
        } else {
            match self.occupant_at(anchor) {
                None => MoveOutcome::Vacant,
                Some(key) => {
                    let blockers = self.occupants(self.span(to)).remove(key);
                    if !blockers.is_empty() {
                        MoveOutcome::Collision(blockers)
                    } else {
                        let lifted = GridView { cells: self.without_key(self.span(from), key), ..self };
                        MoveOutcome::Moved(
                            GridView { cells: lifted.with_key(self.span(to), key), ..self },
                        )
                    }
                },
            }
        }
    }

    /// The grid after `key` was appended to the bucket of the cell of pixel
    /// `p`; `None` where the pixel is outside the region or the bucket full.
    pub open spec fn put_at(self, p: Rect, key: T) -> Option<GridView<T>> {
        let cell = self.span(p);
        if !self.encloses(p) || self.cells[cell.left][cell.top].len() >= FIXED_ARRAY_SIZE {
            None
        } else {
            Some(
                GridView {
                    cells: self.cells.update(
                        cell.left,
                        self.cells[cell.left].update(cell.top, self.cells[cell.left][cell.top].push(key)),
                    ),
                    ..self
                },
            )
        }
    }

    /// Cells to add in front of `edge` so that `wanted` is covered.
    pub open spec fn lead(edge: int, wanted: int, ds: int) -> int {
        if wanted < edge {
            (edge - wanted + ds - 1) / ds
        } else {
            0
        }
    }

    /// The numbers of columns and of rows can be counted on this machine.
    pub open spec fn countable(self) -> bool {
        self.columns() <= usize::MAX && self.rows() <= usize::MAX
    }

    /// The grid stretched to cover the two given pixels as well. Columns and
    /// rows are added whole, so every occupant keeps the pixels it covered.
    pub open spec fn grown(self, top_left: (i32, i32), bottom_right: (i32, i32)) -> GridView<T> {
        let dx = Self::lead(self.bounds.left, top_left.0 as int, self.ds);
        let dy = Self::lead(self.bounds.top, top_left.1 as int, self.ds);
        let bounds = Rect {
            left: self.bounds.left - dx * self.ds,
            top: self.bounds.top - dy * self.ds,
            right: if bottom_right.0 > self.bounds.right {
                bottom_right.0 as int
            } else {
                self.bounds.right
            },
            bottom: if bottom_right.1 > self.bounds.bottom {
                bottom_right.1 as int
            } else {
                self.bounds.bottom
            },
        };
        let columns = (bounds.right - bounds.left) / self.ds + 1;
        let rows = (bounds.bottom - bounds.top) / self.ds + 1;
        GridView {
            cells: Seq::new(
                columns as nat,
                |x: int|
                    Seq::new(
                        rows as nat,
                        |y: int|
                            if dx <= x < dx + self.columns() && dy <= y < dy + self.rows() {
                                self.cells[x - dx][y - dy]
                            } else {
                                Seq::<T>::empty()
                            },
                    ),
            ),
            bounds,
            ..self
        }
    }
}


/// Occupancy index over a rectangular pixel region cut into square cells.
///
/// Cell `(x, y)` covers the pixels from `left + x * ds` and `top + y * ds`
/// on; the region's last column and row may reach past its right and bottom.
#[verifier::reject_recursive_types(T)]
pub struct HashGrid<T> {
    grid: Vec<Vec<Array3e<T>>>,
    data: HashSet<T>,
    left: i64,
    top: i64,
    right: i64,
    bottom: i64,
    ds: u16,
}

/// Smallest coordinate a region edge can take.
pub const MIN_EDGE: i64 = -0x8001_0000;

/// Largest coordinate a region edge can take.
pub const MAX_EDGE: i64 = 0x7fff_ffff;

impl<T: Default + Copy + Eq + Hash> View for HashGrid<T> {
    type V = GridView<T>;

    closed spec fn view(&self) -> GridView<T> {
        GridView {
            cells: Seq::new(
                self.grid@.len(),
                |x: int| Seq::new(self.grid@[x]@.len(), |y: int| self.grid@[x]@[y]@),
            ),
            keys: self.data@,
            bounds: Rect {
                left: self.left as int,
                top: self.top as int,
                right: self.right as int,
                bottom: self.bottom as int,
            },
            ds: self.ds as int,
        }
    }
}

impl<T: Default + Copy + Eq + Hash> HashGrid<T> {
    /// The grid is rectangular, matches its region, and no bucket overflows.
    pub closed spec fn wf(&self) -> bool {
        &&& self.ds > 0
        &&& MIN_EDGE <= self.left <= self.right <= MAX_EDGE
        &&& MIN_EDGE <= self.top <= self.bottom <= MAX_EDGE
        &&& self.grid@.len() == (self.right - self.left) / (self.ds as int) + 1
        &&& forall|x: int|
            0 <= x < self.grid@.len() ==> (#[trigger] self.grid@[x])@.len() == (self.bottom
                - self.top) / (self.ds as int) + 1
        &&& forall|x: int, y: int|
            0 <= x < self.grid@.len() && 0 <= y < self.grid@[x]@.len() ==> (#[trigger] self.grid@[x]@[y]).wf()
        &&& obeys_key_model::<T>()
        &&& obeys_concrete_eq::<T>()
    }

    /// A well-formed grid has a well-formed view.
    pub proof fn lemma_wf_view(&self)
        requires
            self.wf(),
        ensures
            self@.wf(),
    {
        broadcast use vstd::std_specs::hash::group_hash_axioms;
        assert(self@.cells.len() == self@.columns());
        assert forall|x: int| 0 <= x < self@.cells.len() implies (#[trigger] self@.cells[x]).len()
            == self@.rows() by {
            assert(self.grid@[x]@.len() == self@.rows());
        }
        assert forall|x: int, y: int| 0 <= x < self@.columns() && 0 <= y < self@.rows() implies (
        #[trigger] self@.cells[x][y]).len() <= FIXED_ARRAY_SIZE by {
            assert(self.grid@[x]@.len() == self@.rows());
            self.grid@[x]@[y].lemma_len_bounded();
        }
    }

    /// The occupants of cell `(x, y)`.
    spec fn bucket(&self, x: int, y: int) -> Seq<T> {
        self.grid@[x]@[y]@
    }

    /// Same region, cell side, keys and shape as `other`.
    spec fn same_frame(&self, other: &Self) -> bool {
        &&& self.data == other.data
        &&& self.left == other.left
        &&& self.top == other.top
        &&& self.right == other.right
        &&& self.bottom == other.bottom
        &&& self.ds == other.ds
        &&& self.grid@.len() == other.grid@.len()
        &&& forall|x: int|
            0 <= x < self.grid@.len() ==> (#[trigger] self.grid@[x])@.len() == other.grid@[x]@.len()
    }

    /// A column of `rows` empty buckets.
    fn empty_column(rows: usize) -> (col: Vec<Array3e<T>>)
        ensures
            col@.len() == rows,
            forall|y: int| 0 <= y < rows ==> (#[trigger] col@[y]).wf() && col@[y]@.len() == 0,
    {
        let mut col: Vec<Array3e<T>> = Vec::new();
        let mut y: usize = 0;
        while y < rows
            invariant
                y <= rows,
                col@.len() == y,
                forall|j: int| 0 <= j < y ==> (#[trigger] col@[j]).wf() && col@[j]@.len() == 0,
            decreases rows - y,
        {
            col.push(Array3e::new());
            y += 1;
        }
        col
    }

    /// An empty grid over the region from `screen_space.0` to `screen_space.1`
    /// with cells of side `ds`.
    pub fn new(screen_space: ((i32, i32), (i32, i32)), ds: u16) -> (r: Result<Self, GridError<T>>)
        requires
            obeys_key_model::<T>(),
            obeys_concrete_eq::<T>(),
        ensures
            r is Ok <==> region_valid(screen_space, ds),
            r matches Err(e) ==> e is InvalidRegion,
            r matches Ok(g) ==> g.wf() && g@ == GridView::<T>::blank(screen_space, ds as int),
    {
        let ((tx, ty), (bx, by)) = screen_space;
        let inverted: bool = tx > bx || ty > by;
        if ds == 0 || inverted {
            return Err(GridError::InvalidRegion);
        }
        let width: u64 = (bx as i64 - tx as i64) as u64;
        let height: u64 = (by as i64 - ty as i64) as u64;
        let columns: u64 = width / (ds as u64) + 1;
        let rows: u64 = height / (ds as u64) + 1;
        let too_large: bool = columns > usize::MAX as u64 || rows > usize::MAX as u64;
        if too_large {
            return Err(GridError::InvalidRegion);
        }
        let mut grid: Vec<Vec<Array3e<T>>> = Vec::new();
        let mut x: usize = 0;
        while x < columns as usize
            invariant
                x <= columns,
                columns <= usize::MAX,
                rows <= usize::MAX,
                grid@.len() == x,
                forall|i: int| 0 <= i < x ==> (#[trigger] grid@[i])@.len() == rows,
                forall|i: int, j: int|
                    0 <= i < x && 0 <= j < rows ==> (#[trigger] grid@[i]@[j]).wf() && grid@[i]@[j]@.len()
                        == 0,
            decreases columns - x,
        {
            let col = Self::empty_column(rows as usize);
            grid.push(col);
            x += 1;
        }
        let g = HashGrid {
            grid,
            data: HashSet::new(),
            left: tx as i64,
            top: ty as i64,
            right: bx as i64,
            bottom: by as i64,
            ds,
        };
        proof {
            assert(g@.cells =~~= GridView::<T>::blank(screen_space, ds as int).cells);
            assert(g@.keys =~= Set::<T>::empty());
        }
        Ok(g)
    }
}


/// An inclusive range of cells.
struct Span {
    x0: usize,
    y0: usize,
    x1: usize,
    y1: usize,
}

impl Span {
    spec fn rect(&self) -> Rect {
        Rect { left: self.x0 as int, top: self.y0 as int, right: self.x1 as int, bottom: self.y1 as int }
    }
}

proof fn lemma_cell_index(offset: int, extent: int, ds: int)
    requires
        0 <= offset <= extent,
        0 < ds,
    ensures
        0 <= offset / ds <= extent / ds,
{
    lemma_div_is_ordered(0, offset, ds);
    lemma_div_is_ordered(offset, extent, ds);
    assert(0int / ds == 0) by (nonlinear_arith)
        requires
            0 < ds,
    ;
}

impl<T: Default + Copy + Eq + Hash> HashGrid<T> {
    /// The cells that the rectangle covers, if it lies within the region.
    fn span_of(&self, center: (i32, i32), dims: (u32, u32)) -> (r: Option<Span>)
        requires
            self.wf(),
        ensures
            r is Some <==> self@.encloses(rect_of(center, dims)),
            r matches Some(s) ==> {
                &&& s.rect() == self@.span(rect_of(center, dims))
                &&& s.x0 <= s.x1 < self.grid@.len()
                &&& s.y0 <= s.y1 < self@.rows()
            },
    {
        let left: i64 = center.0 as i64 - (dims.0 / 2) as i64;
        let top: i64 = center.1 as i64 - (dims.1 / 2) as i64;
        let right: i64 = left + dims.0 as i64;
        let bottom: i64 = top + dims.1 as i64;
        let inside_x: bool = self.left <= left && right <= self.right;
        let inside_y: bool = self.top <= top && bottom <= self.bottom;
        if !inside_x || !inside_y {
            return None;
        }
        let ds: u64 = self.ds as u64;
        proof {
            lemma_cell_index(left - self.left, right - self.left, ds as int);
            lemma_cell_index(right - self.left, self.right - self.left, ds as int);
            lemma_cell_index(top - self.top, bottom - self.top, ds as int);
            lemma_cell_index(bottom - self.top, self.bottom - self.top, ds as int);
        }
        let x0: u64 = (left - self.left) as u64 / ds;
        let x1: u64 = (right - self.left) as u64 / ds;
        let y0: u64 = (top - self.top) as u64 / ds;
        let y1: u64 = (bottom - self.top) as u64 / ds;
        assert(x0 <= x1 < self.grid@.len() == self.grid.len());
        assert(y0 <= y1 < self.grid@[0]@.len() == self.grid@[0].len());
        Some(Span { x0: x0 as usize, y0: y0 as usize, x1: x1 as usize, y1: y1 as usize })
    }

    /// Adds the occupants of cell `(x, y)` to `found`.
    fn gather_cell(&self, x: usize, y: usize, found: &mut HashSet<T>)
        requires
            self.wf(),
            x < self.grid@.len(),
            y < self.grid@[x as int]@.len(),
        ensures
            forall|k: T|
                final(found)@.contains(k) <==> old(found)@.contains(k) || self.bucket(
                    x as int,
                    y as int,
                ).contains(k),
    {
        let n: usize = self.grid[x][y].len();
        let mut i: usize = 0;
        while i < n
            invariant
                self.wf(),
                x < self.grid@.len(),
                y < self.grid@[x as int]@.len(),
                i <= n == self.bucket(x as int, y as int).len(),
                forall|k: T|
                    found@.contains(k) <==> old(found)@.contains(k) || exists|j: int|
                        0 <= j < i && self.bucket(x as int, y as int)[j] == k,
            decreases n - i,
        {
            let k: T = self.grid[x][y].index(i);
            found.insert(k);
            i += 1;
        }
    }

    /// Adds the occupants of cells `(x, y0)` to `(x, y1)` to `found`.
    fn gather_column(&self, x: usize, y0: usize, y1: usize, found: &mut HashSet<T>)
        requires
            self.wf(),
            x < self.grid@.len(),
            y1 < self.grid@[x as int]@.len(),
        ensures
            forall|k: T|
                final(found)@.contains(k) <==> old(found)@.contains(k) || exists|y: int|
                    y0 <= y <= y1 && self.bucket(x as int, y).contains(k),
    {
        let mut y: usize = y0;
        while y <= y1
            invariant
                self.wf(),
                x < self.grid@.len(),
                y1 < self.grid@[x as int].len(),
                y0 <= y,
                forall|k: T|
                    found@.contains(k) <==> old(found)@.contains(k) || exists|j: int|
                        y0 <= j < y && j <= y1 && self.bucket(x as int, j).contains(k),
            decreases y1 + 1 - y,
        {
            self.gather_cell(x, y, found);
            y += 1;
        }
    }

    /// Every key found in a cell of `s`.
    fn gather(&self, s: &Span) -> (found: HashSet<T>)
        requires
            self.wf(),
            s.x1 < self.grid@.len(),
            s.y1 < self@.rows(),
        ensures
            found@ == self@.occupants(s.rect()),
    {
        let mut found: HashSet<T> = HashSet::new();
        let mut x: usize = s.x0;
        while x <= s.x1
            invariant
                self.wf(),
                s.x1 < self.grid.len(),
                s.y1 < self@.rows(),
                s.x0 <= x,
                forall|k: T|
                    found@.contains(k) <==> exists|i: int, j: int|
                        s.x0 <= i < x && i <= s.x1 && s.y0 <= j <= s.y1 && self.bucket(i, j).contains(k),
            decreases s.x1 + 1 - x,
        {
            self.gather_column(x, s.y0, s.y1, &mut found);
            x += 1;
        }
        proof {
            let span = s.rect();
            assert forall|k: T| found@.contains(k) implies self@.occupants(span).contains(k) by {
                let (i, j) = choose|i: int, j: int|
                    s.x0 <= i < x && i <= s.x1 && s.y0 <= j <= s.y1 && self.bucket(i, j).contains(k);
                assert(span.holds(i, j) && self@.cells[i][j].contains(k));
            }
            assert forall|k: T| self@.occupants(span).contains(k) implies found@.contains(k) by {
                let (i, j) = choose|i: int, j: int|
                    span.holds(i, j) && 0 <= i < self@.cells.len() && 0 <= j < self@.cells[i].len() && (
                    #[trigger] self@.cells[i][j]).contains(k);
                assert(self.bucket(i, j).contains(k));
            }
            assert(found@ =~= self@.occupants(span));
        }
        found
    }
}


/// What a bucket holds after `key` was put into it (unless it was there) or
/// after the first `key` was taken out of it.
pub open spec fn cell_after<T>(b: Seq<T>, key: T, put: bool) -> Seq<T> {
    if put {
        if b.contains(key) {
            b
        } else {
            b.push(key)
        }
    } else {
        b.remove_value(key)
    }
}

/// Taking a value out of a sequence leaves only values that were in it.
pub proof fn lemma_remove_value_subset<T>(b: Seq<T>, key: T, k: T)
    requires
        b.remove_value(key).contains(k),
    ensures
        b.contains(k),
{
    b.index_of_first_ensures(key);
    match b.index_of_first(key) {
        Some(i) => {
            let j = choose|j: int| 0 <= j < b.remove(i).len() && b.remove(i)[j] == k;
            if j < i {
                assert(b[j] == k);
            } else {
                assert(b[j + 1] == k);
            }
        },
        None => {},
    }
}

impl<T: Default + Copy + Eq + Hash> HashGrid<T> {
    /// Against `before`, exactly the cells of `span` changed, each by `cell_after`.
    spec fn settled(&self, before: &Self, span: Rect, key: T, put: bool) -> bool {
        forall|cx: int, cy: int|
            0 <= cx < before.grid@.len() && 0 <= cy < before.grid@[cx]@.len() ==> #[trigger] self.bucket(
                cx,
                cy,
            ) == if span.holds(cx, cy) {
                cell_after(before.bucket(cx, cy), key, put)
            } else {
                before.bucket(cx, cy)
            }
    }

    /// Every cell of `span` holds `key` or has room for it.
    spec fn roomy(&self, span: Rect, key: T) -> bool {
        forall|x: int, y: int|
            span.holds(x, y) ==> (#[trigger] self.bucket(x, y)).contains(key) || self.bucket(x, y).len()
                < FIXED_ARRAY_SIZE
    }

    /// Puts `key` into, or takes it out of, the cells `(x, y0)` to `(x, y1)`.
    fn settle_column(&mut self, x: usize, y0: usize, y1: usize, key: T, put: bool)
        requires
            old(self).wf(),
            x < old(self).grid.len(),
            y1 < old(self).grid@[x as int].len(),
            put ==> old(self).roomy(
                Rect { left: x as int, top: y0 as int, right: x as int, bottom: y1 as int },
                key,
            ),
        ensures
            final(self).wf(),
            final(self).same_frame(old(self)),
            final(self).settled(
                old(self),
                Rect { left: x as int, top: y0 as int, right: x as int, bottom: y1 as int },
                key,
                put,
            ),
    {
        let ghost column = Rect { left: x as int, top: y0 as int, right: x as int, bottom: y1 as int };
        let mut y: usize = y0;
        while y <= y1
            invariant
                self.wf(),
                self.same_frame(old(self)),
                x < self.grid.len(),
                y1 < self.grid@[x as int].len(),
                y0 <= y,
                column == (Rect { left: x as int, top: y0 as int, right: x as int, bottom: y1 as int }),
                put ==> old(self).roomy(column, key),
                forall|cx: int, cy: int|
                    0 <= cx < self.grid@.len() && 0 <= cy < self.grid@[cx]@.len() ==> #[trigger] self.bucket(
                        cx,
                        cy,
                    ) == if column.holds(cx, cy) && cy < y {
                        cell_after(old(self).bucket(cx, cy), key, put)
                    } else {
                        old(self).bucket(cx, cy)
                    },
            decreases y1 + 1 - y,
        {
            let ghost before = *self;
            assert(self.bucket(x as int, y as int) == old(self).bucket(x as int, y as int));
            assert(column.holds(x as int, y as int));
            if put {
                if !self.grid[x][y].contains(&key) {
                    let _ = self.grid[x][y].insert(key);
                }
            } else {
                let _ = self.grid[x][y].remove_element(&key);
            }
            assert(self.bucket(x as int, y as int) == cell_after(
                before.bucket(x as int, y as int),
                key,
                put,
            ));
            assert forall|cx: int, cy: int|
                0 <= cx < self.grid@.len() && 0 <= cy < self.grid@[cx]@.len() && !(cx == x && cy
                    == y) implies #[trigger] self.bucket(cx, cy) == before.bucket(cx, cy) by {
                assert(self.grid@[cx]@[cy] == before.grid@[cx]@[cy]);
            }
            y += 1;
        }
    }

    /// Puts `key` into, or takes it out of, every cell of `s`.
    fn settle(&mut self, s: &Span, key: T, put: bool)
        requires
            old(self).wf(),
            s.x1 < old(self).grid.len(),
            s.y1 < old(self)@.rows(),
            put ==> old(self).roomy(s.rect(), key),
        ensures
            final(self).wf(),
            final(self).same_frame(old(self)),
            final(self).settled(old(self), s.rect(), key, put),
    {
        let mut x: usize = s.x0;
        while x <= s.x1
            invariant
                self.wf(),
                self.same_frame(old(self)),
                s.x1 < self.grid.len(),
                s.y1 < self@.rows(),
                s.x0 <= x,
                put ==> old(self).roomy(s.rect(), key),
                forall|cx: int, cy: int|
                    0 <= cx < self.grid@.len() && 0 <= cy < self.grid@[cx]@.len() ==> #[trigger] self.bucket(
                        cx,
                        cy,
                    ) == if s.rect().holds(cx, cy) && cx < x {
                        cell_after(old(self).bucket(cx, cy), key, put)
                    } else {
                        old(self).bucket(cx, cy)
                    },
            decreases s.x1 + 1 - x,
        {
            let ghost before = *self;
            let ghost column = Rect {
                left: x as int,
                top: s.y0 as int,
                right: x as int,
                bottom: s.y1 as int,
            };
            assert(self.grid@[x as int]@.len() == self@.rows());
            if put {
                assert forall|i: int, j: int| column.holds(i, j) implies (#[trigger] self.bucket(
                    i,
                    j,
                )).contains(key) || self.bucket(i, j).len() < FIXED_ARRAY_SIZE by {
                    assert(s.rect().holds(i, j));
                    assert(self.bucket(i, j) == old(self).bucket(i, j));
                }
            }
            self.settle_column(x, s.y0, s.y1, key, put);
            assert forall|cx: int, cy: int|
                0 <= cx < self.grid@.len() && 0 <= cy < self.grid@[cx]@.len() implies #[trigger] self.bucket(
                cx,
                cy,
            ) == if s.rect().holds(cx, cy) && cx < x + 1 {
                cell_after(old(self).bucket(cx, cy), key, put)
            } else {
                old(self).bucket(cx, cy)
            } by {
                assert(before.bucket(cx, cy) == if s.rect().holds(cx, cy) && cx < x {
                    cell_after(old(self).bucket(cx, cy), key, put)
                } else {
                    old(self).bucket(cx, cy)
                });
                assert(column.holds(cx, cy) <==> s.rect().holds(cx, cy) && cx == x);
            }
            x += 1;
        }
    }
}


/// How the result and the grid after an insertion answer to its outcome.
pub open spec fn insert_ends<T>(
    before: GridView<T>,
    outcome: InsertOutcome<T>,
    r: Result<(), GridError<T>>,
    after: GridView<T>,
) -> bool {
    match outcome {
        InsertOutcome::OutOfBounds => r matches Err(GridError::OutOfBounds) && after == before,
        InsertOutcome::Collision(c) => r matches Err(GridError::Collision(f)) && f@ == c && after == before,
        InsertOutcome::DuplicateKey => r matches Err(GridError::DuplicateKey) && after == before,
        InsertOutcome::Placed(g) => r is Ok && after == g,
    }
}

/// How the result and the grid after a move answer to its outcome.
pub open spec fn move_ends<T>(
    before: GridView<T>,
    outcome: MoveOutcome<T>,
    r: Result<(), GridError<T>>,
    after: GridView<T>,
) -> bool {
    match outcome {
        MoveOutcome::OutOfBounds => r matches Err(GridError::OutOfBounds) && after == before,
        MoveOutcome::Vacant => r matches Err(GridError::Vacant) && after == before,
        MoveOutcome::Collision(c) => r matches Err(GridError::Collision(f)) && f@ == c && after == before,
        MoveOutcome::Moved(g) => r is Ok && after == g,
    }
}

/// The rectangle that holds the single pixel `p`.
pub open spec fn point(p: (i32, i32)) -> Rect {
    Rect { left: p.0 as int, top: p.1 as int, right: p.0 as int, bottom: p.1 as int }
}

impl<T: Default + Copy + Eq + Hash> HashGrid<T> {
    proof fn lemma_settled_view(&self, before: &Self, span: Rect, key: T, put: bool)
        requires
            self.same_frame(before),
            self.settled(before, span, key, put),
        ensures
            self@ == (GridView {
                cells: if put {
                    before@.with_key(span, key)
                } else {
                    before@.without_key(span, key)
                },
                ..before@
            }),
    {
        let cells = if put {
            before@.with_key(span, key)
        } else {
            before@.without_key(span, key)
        };
        assert forall|x: int, y: int| 0 <= x < self@.cells.len() && 0 <= y < self@.cells[x].len() implies
            self@.cells[x][y] == cells[x][y] by {
            assert(self.bucket(x, y) == self@.cells[x][y]);
        }
        assert(self@.cells =~~= cells);
    }

    /// `goal` has `columns` by `rows` cells: those of `self`, moved `dx`
    /// columns and `dy` rows on, and empty cells around them.
    spec fn framed_in(&self, goal: GridView<T>, columns: int, rows: int, dx: int, dy: int) -> bool {
        &&& goal.cells.len() == columns
        &&& forall|i: int| 0 <= i < columns ==> (#[trigger] goal.cells[i]).len() == rows
        &&& forall|i: int, j: int|
            0 <= i < columns && 0 <= j < rows ==> #[trigger] goal.cells[i][j] == if dx <= i < dx
                + self.grid@.len() && dy <= j < dy + self@.rows() {
                self.bucket(i - dx, j - dy)
            } else {
                Seq::<T>::empty()
            }
    }

    /// A span without occupants is one whose cells are all empty.
    proof fn lemma_vacant(&self, s: &Span)
        requires
            self.wf(),
            s.x1 < self.grid@.len(),
            s.y1 < self@.rows(),
            self@.occupants(s.rect()).is_empty(),
        ensures
            forall|x: int, y: int| s.rect().holds(x, y) ==> (#[trigger] self.bucket(x, y)).len() == 0,
    {
        assert forall|x: int, y: int| s.rect().holds(x, y) implies (#[trigger] self.bucket(x, y)).len()
            == 0 by {
            if self.bucket(x, y).len() > 0 {
                let k = self.bucket(x, y)[0];
                assert(self.grid@[x]@.len() == self@.rows());
                assert(self@.cells[x][y].contains(k));
                assert(self@.occupants(s.rect()).contains(k));
            }
        }
    }

    /// Marks the cells that the rectangle covers as occupied by `item`.
    ///
    /// Nothing changes unless the rectangle lies within the region, every
    /// covered cell is empty and `item` is not yet present.
    pub fn insert_rectangle(&mut self, coord: (i32, i32), dimensions: (u32, u32), item: &T) -> (r:
        Result<(), GridError<T>>)
        requires
            old(self).wf(),
        ensures
            final(self).wf(),
            insert_ends(
                old(self)@,
                old(self)@.insert_outcome(rect_of(coord, dimensions), *item),
                r,
                final(self)@,
            ),
    {
        broadcast use vstd::std_specs::hash::group_hash_axioms;

        let s = match self.span_of(coord, dimensions) {
            None => { return Err(GridError::OutOfBounds); },
            Some(s) => s,
        };
        let found = self.gather(&s);
        if !found.is_empty() {
            return Err(GridError::Collision(found));
        }
        if self.data.contains(item) {
            return Err(GridError::DuplicateKey);
        }
        proof {
            self.lemma_vacant(&s);
        }
        let ghost before = *self;
        self.settle(&s, *item, true);
        proof {
            self.lemma_settled_view(&before, s.rect(), *item, true);
        }
        self.data.insert(*item);
        Ok(())
    }

    /// Takes `element` out of the cells that the rectangle covers, whoever
    /// else occupies them, and out of the set of keys.
    pub fn remove_rectangle(&mut self, coord: (i32, i32), dimensions: (u32, u32), element: &T) -> (r:
        Result<(), GridError<T>>)
        requires
            old(self).wf(),
        ensures
            final(self).wf(),
            match old(self)@.remove_outcome(rect_of(coord, dimensions), *element) {
                Some(g) => r is Ok && final(self)@ == g,
                None => r matches Err(GridError::OutOfBounds) && final(self)@ == old(self)@,
            },
    {
        broadcast use vstd::std_specs::hash::group_hash_axioms;

        let s = match self.span_of(coord, dimensions) {
            None => { return Err(GridError::OutOfBounds); },
            Some(s) => s,
        };
        let ghost before = *self;
        self.settle(&s, *element, false);
        proof {
            self.lemma_settled_view(&before, s.rect(), *element, false);
        }
        self.data.remove(element);
        Ok(())
    }
}


impl<T: Default + Copy + Eq + Hash> HashGrid<T> {
    /// The cell that holds pixel `coord`, if the pixel lies within the region.
    fn coord_to_index(&self, coord: (i32, i32)) -> (r: Option<(usize, usize)>)
        requires
            self.wf(),
        ensures
            r is Some <==> self@.encloses(point(coord)),
            r matches Some(c) ==> {
                &&& c.0 == self@.span(point(coord)).left
                &&& c.1 == self@.span(point(coord)).top
                &&& c.0 < self.grid@.len()
                &&& c.1 < self.grid@[c.0 as int]@.len()
            },
    {
        match self.span_of(coord, (0, 0)) {
            None => None,
            Some(s) => {
                assert(self.grid@[s.x0 as int]@.len() == self@.rows());
                Some((s.x0, s.y0))
            },
        }
    }

    /// Whether `key` is among the keys present.
    pub fn contains_key(&self, key: &T) -> (r: bool)
        requires
            self.wf(),
        ensures
            r == self@.keys.contains(*key),
    {
        broadcast use vstd::std_specs::hash::group_hash_axioms;

        self.data.contains(key)
    }

    /// The first occupant of the cell that holds pixel `coord`.
    pub fn get_element(&self, coord: (i32, i32)) -> (r: Option<T>)
        requires
            self.wf(),
        ensures
            r == self@.occupant_at(point(coord)),
    {
        match self.coord_to_index(coord) {
            None => None,
            Some((x, y)) => {
                if self.grid[x][y].is_empty() {
                    None
                } else {
                    Some(self.grid[x][y].index(0))
                }
            },
        }
    }

    /// Appends `item` to the bucket of the cell that holds pixel `coord`.
    /// The set of keys is left alone.
    pub fn insert_element(&mut self, coord: (i32, i32), item: &T) -> (r: Result<(), GridError<T>>)
        requires
            old(self).wf(),
        ensures
            final(self).wf(),
            match old(self)@.put_at(point(coord), *item) {
                Some(g) => r is Ok && final(self)@ == g,
                None => final(self)@ == old(self)@ && match r {
                    Ok(_) => false,
                    Err(e) => if old(self)@.encloses(point(coord)) {
                        e is CellFull
                    } else {
                        e is OutOfBounds
                    },
                },
            },
    {
        let (x, y) = match self.coord_to_index(coord) {
            None => { return Err(GridError::OutOfBounds); },
            Some(c) => c,
        };
        if self.grid[x][y].len() >= FIXED_ARRAY_SIZE {
            return Err(GridError::CellFull);
        }
        let ghost before = *self;
        let _ = self.grid[x][y].insert(*item);
        proof {
            assert forall|cx: int, cy: int|
                0 <= cx < self.grid@.len() && 0 <= cy < self.grid@[cx]@.len() && !(cx == x && cy
                    == y) implies #[trigger] self.bucket(cx, cy) == before.bucket(cx, cy) by {
                assert(self.grid@[cx]@[cy] == before.grid@[cx]@[cy]);
            }
            assert(self.bucket(x as int, y as int) == before.bucket(x as int, y as int).push(*item));
            assert(self@.cells =~~= before@.put_at(point(coord), *item).unwrap().cells);
        }
        Ok(())
    }

    /// Moves what occupies the cell of pixel `from_coord` from the cells of
    /// the rectangle about `from_coord` to those of the rectangle about
    /// `to_coord`.
    ///
    /// Nothing changes unless both rectangles lie within the region, the
    /// starting cell is occupied and no other key occupies a cell of the
    /// destination.
    pub fn move_rectangle(&mut self, from_coord: (i32, i32), dimensions: (u32, u32), to_coord: (i32, i32)) -> (r:
        Result<(), GridError<T>>)
        requires
            old(self).wf(),
        ensures
            final(self).wf(),
            move_ends(
                old(self)@,
                old(self)@.move_outcome(
                    rect_of(from_coord, dimensions),
                    point(from_coord),
                    rect_of(to_coord, dimensions),
                ),
                r,
                final(self)@,
            ),
    {
        broadcast use vstd::std_specs::hash::group_hash_axioms;

        let from = match self.span_of(from_coord, dimensions) {
            None => { return Err(GridError::OutOfBounds); },
            Some(s) => s,
        };
        let to = match self.span_of(to_coord, dimensions) {
            None => { return Err(GridError::OutOfBounds); },
            Some(s) => s,
        };
        let key = match self.get_element(from_coord) {
            None => { return Err(GridError::Vacant); },
            Some(k) => k,
        };
        let mut found = self.gather(&to);
        found.remove(&key);
        if !found.is_empty() {
            return Err(GridError::Collision(found));
        }
        let ghost before = *self;
        self.settle(&from, key, false);
        let ghost lifted = *self;
        proof {
            lifted.lemma_settled_view(&before, from.rect(), key, false);
            assert forall|x: int, y: int| to.rect().holds(x, y) implies (#[trigger] lifted.bucket(
                x,
                y,
            )).contains(key) || lifted.bucket(x, y).len() < FIXED_ARRAY_SIZE by {
                assert(before.grid@[x]@.len() == before@.rows());
                if lifted.bucket(x, y).len() > 0 {
                    let k = lifted.bucket(x, y)[0];
                    assert(lifted.bucket(x, y).contains(k));
                    if from.rect().holds(x, y) {
                        lemma_remove_value_subset(before.bucket(x, y), key, k);
                    }
                    assert(before@.cells[x][y].contains(k));
                    assert(before@.occupants(to.rect()).contains(k));
                    assert(!before@.occupants(to.rect()).remove(key).contains(k));
                }
            }
        }
        self.settle(&to, key, true);
        proof {
            self.lemma_settled_view(&lifted, to.rect(), key, true);
        }
        Ok(())
    }
}


/// Cells to add in front of `edge` so that `wanted` is covered, and the edge
/// that results.
fn stretch_low(edge: i64, wanted: i32, ds: u16) -> (r: (u64, i64))
    requires
        MIN_EDGE <= edge <= MAX_EDGE,
        ds > 0,
    ensures
        r.0 == GridView::<u8>::lead(edge as int, wanted as int, ds as int),
        r.1 == edge - r.0 * ds,
        MIN_EDGE <= r.1 <= edge,
        r.1 <= wanted,
        r.0 <= 0x1_0002_0000,
{
    if (wanted as i64) < edge {
        let gap: u64 = (edge - wanted as i64 + (ds as i64 - 1)) as u64;
        let cells: u64 = gap / (ds as u64);
        proof {
            lemma_remainder_lower(gap as int, ds as int);
            lemma_div_is_ordered(0, gap as int, ds as int);
            assert(cells * ds <= gap);
            assert(gap < (cells + 1) * ds) by (nonlinear_arith)
                requires
                    cells == gap as int / ds as int,
                    ds > 0,
                    gap >= 0,
            ;
            assert((cells + 1) * ds == cells * ds + ds) by (nonlinear_arith);
            assert(cells <= cells * ds) by (nonlinear_arith)
                requires
                    ds >= 1,
                    cells >= 0,
            ;
        }
        let width: u64 = cells * (ds as u64);
        (cells, edge - width as i64)
    } else {
        (0, edge)
    }
}

/// The larger of an edge and a wanted coordinate.
fn stretch_high(edge: i64, wanted: i32) -> (r: i64)
    ensures
        r == if wanted > edge {
            wanted as int
        } else {
            edge as int
        },
{
    if wanted as i64 > edge {
        wanted as i64
    } else {
        edge
    }
}

impl<T: Default + Copy + Eq + Hash> HashGrid<T> {
    /// Stretches the region so that it covers the pixels `top_left` and
    /// `bottom_right` too. Whole columns and rows are added, in front where
    /// needed, and every occupant keeps the pixels it covered.
    pub fn grid_dimensions(&mut self, top_left: (i32, i32), bottom_right: (i32, i32)) -> (r: Result<
        (),
        GridError<T>,
    >)
        requires
            old(self).wf(),
        ensures
            final(self).wf(),
            r is Ok <==> old(self)@.grown(top_left, bottom_right).countable(),
            r is Ok ==> final(self)@ == old(self)@.grown(top_left, bottom_right),
            r matches Err(e) ==> e is InvalidRegion && final(self)@ == old(self)@,
    {
        let (dx, left) = stretch_low(self.left, top_left.0, self.ds);
        let (dy, top) = stretch_low(self.top, top_left.1, self.ds);
        let right = stretch_high(self.right, bottom_right.0);
        let bottom = stretch_high(self.bottom, bottom_right.1);
        let ds: u64 = self.ds as u64;
        let columns: u64 = (right - left) as u64 / ds + 1;
        let rows: u64 = (bottom - top) as u64 / ds + 1;
        let too_large: bool = columns > usize::MAX as u64 || rows > usize::MAX as u64;
        if too_large {
            return Err(GridError::InvalidRegion);
        }
        let old_columns: usize = self.grid.len();
        let old_rows: usize = self.grid[0].len();
        proof {
            lemma_hoist_over_denominator(right - self.left, dx as int, ds as nat);
            lemma_div_is_ordered(self.right - self.left, right - self.left, ds as int);
            lemma_hoist_over_denominator(bottom - self.top, dy as int, ds as nat);
            lemma_div_is_ordered(self.bottom - self.top, bottom - self.top, ds as int);
            assert(dx + old_columns <= columns);
            assert(dy + old_rows <= rows);
        }
        let ghost goal = self@.grown(top_left, bottom_right);
        proof {
            assert forall|i: int, j: int| 0 <= i < columns && 0 <= j < rows implies #[trigger] goal.cells[i][j]
                == if dx <= i < dx + self.grid@.len() && dy <= j < dy + self@.rows() {
                self.bucket(i - dx, j - dy)
            } else {
                Seq::<T>::empty()
            } by {
                if dx <= i < dx + self.grid@.len() && dy <= j < dy + self@.rows() {
                    assert(self.grid@[i - dx]@.len() == self@.rows());
                }
            }
            assert(self.framed_in(goal, columns as int, rows as int, dx as int, dy as int));
        }
        let mut grid: Vec<Vec<Array3e<T>>> = Vec::new();
        let mut x: usize = 0;
        while x < columns as usize
            invariant
                self.wf(),
                *self == *old(self),
                x <= columns <= usize::MAX,
                rows <= usize::MAX,
                old_columns == self.grid@.len(),
                old_rows == self@.rows(),
                dx + old_columns <= columns,
                dy + old_rows <= rows,
                self.framed_in(goal, columns as int, rows as int, dx as int, dy as int),
                grid@.len() == x,
                forall|i: int| 0 <= i < x ==> (#[trigger] grid@[i])@.len() == rows,
                forall|i: int, j: int|
                    0 <= i < x && 0 <= j < rows ==> (#[trigger] grid@[i]@[j]).wf() && grid@[i]@[j]@
                        == goal.cells[i][j],
            decreases columns - x,
        {
            let mut col: Vec<Array3e<T>> = Vec::new();
            let mut y: usize = 0;
            while y < rows as usize
                invariant
                    self.wf(),
                    x < columns <= usize::MAX,
                    y <= rows <= usize::MAX,
                    old_columns == self.grid@.len(),
                    old_rows == self@.rows(),
                    dx + old_columns <= columns,
                    dy + old_rows <= rows,
                    self.framed_in(goal, columns as int, rows as int, dx as int, dy as int),
                    col@.len() == y,
                    forall|j: int|
                        0 <= j < y ==> (#[trigger] col@[j]).wf() && col@[j]@ == goal.cells[x as int][j],
                decreases rows - y,
            {
                let in_x: bool = dx <= x as u64 && (x as u64) < dx + old_columns as u64;
                let in_y: bool = dy <= y as u64 && (y as u64) < dy + old_rows as u64;
                if in_x && in_y {
                    let cx: usize = (x as u64 - dx) as usize;
                    let cy: usize = (y as u64 - dy) as usize;
                    assert(self.grid@[cx as int]@.len() == self@.rows());
                    let b: Array3e<T> = self.grid[cx][cy];
                    assert(b@ == self.bucket(cx as int, cy as int));
                    col.push(b);
                } else {
                    col.push(Array3e::new());
                }
                assert(col@[y as int]@ == goal.cells[x as int][y as int]);
                y += 1;
            }
            grid.push(col);
            x += 1;
        }
        self.grid = grid;
        self.left = left;
        self.top = top;
        self.right = right;
        self.bottom = bottom;
        proof {
            assert(self@.cells =~~= goal.cells);
        }
        Ok(())
    }
}


impl<T> GridView<T> {
    /// The cells of a rectangle within the region are cells of the grid.
    pub proof fn lemma_span_in_grid(self, r: Rect)
        requires
            self.wf(),
            self.encloses(r),
        ensures
            0 <= self.span(r).left <= self.span(r).right < self.columns(),
            0 <= self.span(r).top <= self.span(r).bottom < self.rows(),
    {
        lemma_cell_index(r.left - self.bounds.left, r.right - self.bounds.left, self.ds);
        lemma_cell_index(r.right - self.bounds.left, self.bounds.right - self.bounds.left, self.ds);
        lemma_cell_index(r.top - self.bounds.top, r.bottom - self.bounds.top, self.ds);
        lemma_cell_index(r.bottom - self.bounds.top, self.bounds.bottom - self.bounds.top, self.ds);
    }

    /// After a rectangle was placed, its key is the one occupant of every
    /// cell it covers, and the key is present.
    pub proof fn lemma_placed_occupies(self, r: Rect, key: T)
        requires
            self.wf(),
            self.insert_outcome(r, key) is Placed,
        ensures
            ({
                let placed = self.insert_outcome(r, key)->Placed_0;
                &&& placed.wf()
                &&& placed.keys.contains(key)
                &&& forall|x: int, y: int|
                    #![trigger placed.cells[x][y]]
                    0 <= x < self.columns() && 0 <= y < self.rows() ==> placed.cells[x][y] == if self.span(
                        r,
                    ).holds(x, y) {
                        seq![key]
                    } else {
                        self.cells[x][y]
                    }
            }),
    {
        let placed = self.insert_outcome(r, key)->Placed_0;
        let span = self.span(r);
        self.lemma_span_in_grid(r);
        assert forall|x: int, y: int|
            #![trigger placed.cells[x][y]]
            0 <= x < self.columns() && 0 <= y < self.rows() implies placed.cells[x][y] == if span.holds(
            x,
            y,
        ) {
            seq![key]
        } else {
            self.cells[x][y]
        } by {
            assert(self.cells[x].len() == self.rows());
            if span.holds(x, y) {
                if self.cells[x][y].len() > 0 {
                    let k = self.cells[x][y][0];
                    assert(self.cells[x][y].contains(k));
                    assert(self.occupants(span).contains(k));
                }
                assert(self.cells[x][y] =~= Seq::<T>::empty());
                assert(self.cells[x][y].push(key) =~= seq![key]);
            }
        }
        assert forall|x: int, y: int|
            0 <= x < placed.columns() && 0 <= y < placed.rows() implies (#[trigger] placed.cells[x][y]).len()
            <= FIXED_ARRAY_SIZE by {
            assert(self.cells[x][y].len() <= FIXED_ARRAY_SIZE);
        }
        assert forall|x: int| 0 <= x < placed.cells.len() implies (#[trigger] placed.cells[x]).len()
            == placed.rows() by {
            assert(self.cells[x].len() == self.rows());
        }
    }

    /// Placing a rectangle and then removing it with the same centre, size
    /// and key gives back the grid as it was before: every cell that was
    /// touched is empty again, and the key has left the set of keys.
    pub proof fn lemma_insert_then_remove(self, r: Rect, key: T)
        requires
            self.wf(),
            self.insert_outcome(r, key) is Placed,
        ensures
            ({
                let placed = self.insert_outcome(r, key)->Placed_0;
                &&& placed.remove_outcome(r, key) matches Some(after)
                &&& after == self
                &&& !after.keys.contains(key)
                &&& forall|x: int, y: int|
                    0 <= x < self.columns() && 0 <= y < self.rows() && self.span(r).holds(x, y) ==> (
                    #[trigger] after.cells[x][y]).len() == 0
            }),
    {
        let placed = self.insert_outcome(r, key)->Placed_0;
        let span = self.span(r);
        self.lemma_placed_occupies(r, key);
        let after = placed.remove_outcome(r, key).unwrap();
        assert forall|x: int, y: int| 0 <= x < self.cells.len() && 0 <= y < self.cells[x].len() implies
            after.cells[x][y] == self.cells[x][y] by {
            assert(self.cells[x].len() == self.rows());
            if span.holds(x, y) {
                assert(placed.cells[x][y] == seq![key]);
                seq![key].index_of_first_ensures(key);
                assert(seq![key][0] == key);
                assert(seq![key].remove_value(key) =~= Seq::<T>::empty());
                if self.cells[x][y].len() > 0 {
                    let k = self.cells[x][y][0];
                    assert(self.cells[x][y].contains(k));
                    assert(self.occupants(span).contains(k));
                }
                assert(self.cells[x][y] =~= Seq::<T>::empty());
            }
        }
        assert(after.cells =~~= self.cells);
        assert(after.keys =~= self.keys);
        assert forall|x: int, y: int|
            0 <= x < self.columns() && 0 <= y < self.rows() && span.holds(x, y) implies (
        #[trigger] after.cells[x][y]).len() == 0 by {
            assert(self.cells[x].len() == self.rows());
            if self.cells[x][y].len() > 0 {
                let k = self.cells[x][y][0];
                assert(self.cells[x][y].contains(k));
                assert(self.occupants(span).contains(k));
            }
        }
    }

    /// Once a rectangle is placed, a second rectangle within the region that
    /// covers one of its cells is refused as a collision, and the occupants
    /// named hold the key of the first.
    pub proof fn lemma_overlap_collides(self, first: Rect, k1: T, second: Rect, k2: T)
        requires
            self.wf(),
            self.insert_outcome(first, k1) is Placed,
            self.encloses(second),
            self.span(first).meets(self.span(second)),
        ensures
            ({
                let placed = self.insert_outcome(first, k1)->Placed_0;
                &&& placed.insert_outcome(second, k2) matches InsertOutcome::Collision(found)
                &&& found.contains(k1)
            }),
    {
        let placed = self.insert_outcome(first, k1)->Placed_0;
        self.lemma_placed_occupies(first, k1);
        self.lemma_span_in_grid(first);
        let a = self.span(first);
        let b = self.span(second);
        let (x, y) = choose|x: int, y: int| a.holds(x, y) && b.holds(x, y);
        assert(placed.cells[x][y] == seq![k1]);
        assert(seq![k1][0] == k1);
        assert(placed.cells[x][y].contains(k1));
        assert(self.cells[x].len() == self.rows());
        assert(placed.occupants(b).contains(k1));
    }
}

/// A stretched edge lies at or before the wanted coordinate, by whole cells.
proof fn lemma_lead(edge: int, wanted: int, ds: int)
    requires
        ds > 0,
    ensures
        GridView::<u8>::lead(edge, wanted, ds) >= 0,
        edge - GridView::<u8>::lead(edge, wanted, ds) * ds <= wanted || wanted >= edge,
        edge - GridView::<u8>::lead(edge, wanted, ds) * ds <= edge,
{
    let n = GridView::<u8>::lead(edge, wanted, ds);
    if wanted < edge {
        let gap = edge - wanted + ds - 1;
        lemma_div_is_ordered(0, gap, ds);
        assert(0int / ds == 0) by (nonlinear_arith)
            requires
                ds > 0,
        ;
        assert(gap < (gap / ds + 1) * ds) by (nonlinear_arith)
            requires
                ds > 0,
                gap >= 0,
        ;
        assert((gap / ds + 1) * ds == (gap / ds) * ds + ds) by (nonlinear_arith);
        assert(n * ds >= 0) by (nonlinear_arith)
            requires
                n >= 0,
                ds > 0,
        ;
    } else {
        assert(n * ds == 0) by (nonlinear_arith)
            requires
                n == 0,
        ;
    }
}

impl<T> GridView<T> {
    /// A stretched grid is well formed, covers the region it had and the two
    /// pixels it was stretched to, and holds every occupant at the pixels
    /// where it was: the cell of a pixel of the old region has moved on by
    /// the columns and rows added in front, with its occupants.
    pub proof fn lemma_grown(self, top_left: (i32, i32), bottom_right: (i32, i32), x: int, y: int)
        requires
            self.wf(),
            self.bounds.left <= x <= self.bounds.right,
            self.bounds.top <= y <= self.bounds.bottom,
        ensures
            ({
                let g = self.grown(top_left, bottom_right);
                let p = Rect { left: x, top: y, right: x, bottom: y };
                &&& g.wf()
                &&& g.keys == self.keys
                &&& g.ds == self.ds
                &&& g.bounds.left <= self.bounds.left && self.bounds.right <= g.bounds.right
                &&& g.bounds.top <= self.bounds.top && self.bounds.bottom <= g.bounds.bottom
                &&& g.bounds.left <= top_left.0 && bottom_right.0 <= g.bounds.right
                &&& g.bounds.top <= top_left.1 && bottom_right.1 <= g.bounds.bottom
                &&& g.encloses(p)
                &&& g.cells[g.span(p).left][g.span(p).top] == self.cells[self.span(p).left][self.span(p).top]
                &&& g.occupant_at(p) == self.occupant_at(p)
            }),
    {
        let g = self.grown(top_left, bottom_right);
        let p = Rect { left: x, top: y, right: x, bottom: y };
        let ds = self.ds;
        let dx = Self::lead(self.bounds.left, top_left.0 as int, ds);
        let dy = Self::lead(self.bounds.top, top_left.1 as int, ds);
        lemma_lead(self.bounds.left, top_left.0 as int, ds);
        lemma_lead(self.bounds.top, top_left.1 as int, ds);
        lemma_hoist_over_denominator(x - self.bounds.left, dx, ds as nat);
        lemma_hoist_over_denominator(y - self.bounds.top, dy, ds as nat);
        lemma_hoist_over_denominator(g.bounds.right - self.bounds.left, dx, ds as nat);
        lemma_hoist_over_denominator(g.bounds.bottom - self.bounds.top, dy, ds as nat);
        lemma_div_is_ordered(self.bounds.right - self.bounds.left, g.bounds.right - self.bounds.left, ds);
        lemma_div_is_ordered(self.bounds.bottom - self.bounds.top, g.bounds.bottom - self.bounds.top, ds);
        lemma_cell_index(x - self.bounds.left, self.bounds.right - self.bounds.left, ds);
        lemma_cell_index(y - self.bounds.top, self.bounds.bottom - self.bounds.top, ds);
        let cx = (x - self.bounds.left) / ds;
        let cy = (y - self.bounds.top) / ds;
        assert(g.span(p).left == cx + dx);
        assert(g.span(p).top == cy + dy);
        assert(self.cells[cx].len() == self.rows());
        assert(dx + self.columns() <= g.columns());
        assert(dy + self.rows() <= g.rows());
        assert(g.cells[cx + dx][cy + dy] == self.cells[cx][cy]);
        assert forall|i: int, j: int| 0 <= i < g.columns() && 0 <= j < g.rows() implies (
        #[trigger] g.cells[i][j]).len() <= FIXED_ARRAY_SIZE by {
            if dx <= i < dx + self.columns() && dy <= j < dy + self.rows() {
                assert(self.cells[i - dx].len() == self.rows());
                assert(self.cells[i - dx][j - dy].len() <= FIXED_ARRAY_SIZE);
            }
        }
    }
}

} // verus!
