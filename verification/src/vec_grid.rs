//! A grid of optional values with a variable width and height, stored row by
//! row in vectors.

use vstd::prelude::*;

verus! {

/// A grid with a variable width and height that stores values using `Vec`s.
///
/// Every cell holds an `Option`: an absent value is part of the grid's normal
/// vocabulary here, unlike in the plain rectangular grid.
#[derive(Debug)]
pub struct VecGrid<T> {
    cells: Vec<Vec<Option<T>>>,
}

impl<T> View for VecGrid<T> {
    type V = Seq<Seq<Option<T>>>;

    closed spec fn view(&self) -> Seq<Seq<Option<T>>> {
        self.cells@.map_values(|r: Vec<Option<T>>| r@)
    }
}

impl<T> VecGrid<T> {
    /// Number of columns of a grid value: the length of the first row, or zero.
    pub open spec fn spec_width(&self) -> int {
        if self@.len() == 0 {
            0
        } else {
            self@[0].len() as int
        }
    }

    /// Number of rows of a grid value.
    pub open spec fn spec_height(&self) -> int {
        self@.len() as int
    }

    /// A grid is well formed when every row has the same length.
    pub open spec fn wf(&self) -> bool {
        forall|j: int| 0 <= j < self@.len() ==> (#[trigger] self@[j]).len() == self.spec_width()
    }

    /// Creates a new empty grid
    pub fn new(width: usize, height: usize) -> (r: Self)
        ensures
            r.wf(),
            r.spec_height() == height,
            height > 0 ==> r.spec_width() == width,
            height == 0 ==> r.spec_width() == 0,
            forall|j: int, i: int|
                0 <= j < height && 0 <= i < width ==> #[trigger] r@[j][i] is None,
    {
        let mut cells: Vec<Vec<Option<T>>> = Vec::new();
        let mut j: usize = 0;
        while j < height
            invariant
                0 <= j <= height,
                cells@.len() == j,
                forall|k: int| 0 <= k < j ==> (#[trigger] cells@[k])@.len() == width,
                forall|k: int, i: int|
                    0 <= k < j && 0 <= i < width ==> #[trigger] cells@[k]@[i] is None,
            decreases height - j,
        {
            let mut row: Vec<Option<T>> = Vec::new();
            let mut i: usize = 0;
            while i < width
                invariant
                    0 <= i <= width,
                    row@.len() == i,
                    forall|k: int| 0 <= k < i ==> #[trigger] row@[k] is None,
                decreases width - i,
            {
                row.push(None);
                i = i + 1;
            }
            cells.push(row);
            j = j + 1;
        }
        let r = VecGrid { cells };
        proof {
            assert(forall|k: int| 0 <= k < height ==> r@[k] =~= cells@[k]@);
        }
        r
    }

    /// Resizes the grid to the provided dimensions: kept cells stay where
    /// they were, new cells start absent.
    pub fn resize(&mut self, width: usize, height: usize)
        requires
            old(self).wf(),
        ensures
            final(self).wf(),
            final(self)@.len() == height,
            height > 0 ==> final(self).spec_width() == width,
            forall|j: int, i: int|
                0 <= j < height && 0 <= i < width ==> #[trigger] final(self)@[j][i] == if j < old(
                    self,
                )@.len() && i < old(self).spec_width() {
                    old(self)@[j][i]
                } else {
                    None
                },
    {
        let ghost oldg = *old(self);
        let old_height = self.cells.len();
        // cut or extend every existing row
        let mut j: usize = 0;
        while j < old_height
            invariant
                old_height == oldg@.len(),
                self@.len() == old_height,
                oldg.wf(),
                0 <= j <= old_height,
                forall|k: int| j <= k < old_height ==> self@[k] == oldg@[k],
                forall|k: int| 0 <= k < j ==> (#[trigger] self@[k]).len() == width,
                forall|k: int, i: int|
                    0 <= k < j && 0 <= i < width ==> #[trigger] self@[k][i] == if i
                        < oldg.spec_width() {
                        oldg@[k][i]
                    } else {
                        None
                    },
            decreases old_height - j,
        {
            let ghost prev = self@;
            let mut row = self.cells.remove(j);
            let ghost row0 = row@;
            if width <= row.len() {
                row.truncate(width);
                proof {
                    assert(row@ =~= row0.subrange(0, width as int));
                }
            } else {
                while row.len() < width
                    invariant
                        row0.len() <= row@.len() <= width,
                        row@.subrange(0, row0.len() as int) == row0,
                        forall|i: int|
                            row0.len() <= i < row@.len() ==> #[trigger] row@[i] is None,
                    decreases width - row@.len(),
                {
                    row.push(None);
                    proof {
                        assert(row@.subrange(0, row0.len() as int) =~= row0);
                    }
                }
            }
            self.cells.insert(j, row);
            proof {
                assert(self@ =~= prev.update(j as int, self@[j as int]));
                assert(self@[j as int].len() == width);
                assert forall|i: int|
                    0 <= i < width implies #[trigger] self@[j as int][i] == if i
                        < oldg.spec_width() {
                    oldg@[j as int][i]
                } else {
                    None
                } by {
                    assert(row0 == oldg@[j as int]);
                    assert(row0.len() == oldg.spec_width());
                    if i < row0.len() {
                        assert(self@[j as int][i] == row0[i]);
                    }
                }
            }
            j = j + 1;
        }
        // cut or extend the list of rows
        if height <= self.cells.len() {
            let ghost before = self@;
            self.cells.truncate(height);
            proof {
                assert(self@ =~= before.subrange(0, height as int));
            }
        } else {
            while self.cells.len() < height
                invariant
                    old_height <= self.cells@.len() <= height,
                    self@.len() == self.cells@.len(),
                    old_height == oldg@.len(),
                    oldg.wf(),
                    forall|k: int| 0 <= k < old_height ==> (#[trigger] self@[k]).len() == width,
                    forall|k: int, i: int|
                        0 <= k < old_height && 0 <= i < width ==> #[trigger] self@[k][i] == if i
                            < oldg.spec_width() {
                            oldg@[k][i]
                        } else {
                            None
                        },
                    forall|k: int|
                        old_height <= k < self@.len() ==> (#[trigger] self@[k]).len() == width && (
                        forall|i: int| 0 <= i < width ==> self@[k][i] is None),
                decreases height - self.cells@.len(),
            {
                let ghost prev = self@;
                let mut row: Vec<Option<T>> = Vec::new();
                let mut i: usize = 0;
                while i < width
                    invariant
                        0 <= i <= width,
                        row@.len() == i,
                        forall|k: int| 0 <= k < i ==> #[trigger] row@[k] is None,
                    decreases width - i,
                {
                    row.push(None);
                    i = i + 1;
                }
                self.cells.push(row);
                proof {
                    assert(self@ =~= prev.push(self@[prev.len() as int]));
                }
            }
        }
        proof {
            assert forall|k: int| 0 <= k < self@.len() implies (#[trigger] self@[k]).len()
                == width by {}
            assert forall|j2: int, i: int|
                0 <= j2 < height && 0 <= i < width implies #[trigger] self@[j2][i] == if j2
                    < oldg@.len() && i < oldg.spec_width() {
                oldg@[j2][i]
            } else {
                None
            } by {}
        }
    }

    /// Returns the size of the grid as a (width, height) pair.
    pub fn size(&self) -> (r: (usize, usize))
        ensures
            r.0 == self.spec_width(),
            r.1 == self.spec_height(),
    {
        let height = self.cells.len();
        let width = if height > 0 {
            self.cells[0].len()
        } else {
            0
        };
        (width, height)
    }

    /// Returns the width of the grid
    pub fn width(&self) -> (r: usize)
        ensures
            r == self.spec_width(),
    {
        self.size().0
    }

    /// Returns the height of the grid
    pub fn height(&self) -> (r: usize)
        ensures
            r == self.spec_height(),
    {
        self.size().1
    }

    /// Returns the total capacity of the grid
    pub fn capacity(&self) -> (r: usize)
        requires
            self.spec_width() * self.spec_height() <= usize::MAX,
        ensures
            r == self.spec_width() * self.spec_height(),
    {
        self.width() * self.height()
    }

    /// Returns `true` if the grid contains the provided index
    pub fn contains_index(&self, index: (usize, usize)) -> (r: bool)
        ensures
            r == (index.0 < self.spec_width() && index.1 < self.spec_height()),
    {
        index.0 < self.width() && index.1 < self.height()
    }

    /// Returns a reference to the value at the provided index
    pub fn get(&self, index: (usize, usize)) -> (r: Option<&T>)
        requires
            self.wf(),
        ensures
            index.0 < self.spec_width() && index.1 < self.spec_height() ==> r == match self@[index.1 as int][index.0 as int] {
                Some(ref v) => Some(v),
                None => None::<&T>,
            },
            !(index.0 < self.spec_width() && index.1 < self.spec_height()) ==> r is None,
    {
        if self.contains_index(index) {
            proof {
                assert(self@[index.1 as int] == self.cells@[index.1 as int]@);
                assert(self@[index.1 as int].len() == self.spec_width());
            }
            self.cells[index.1][index.0].as_ref()
        } else {
            None
        }
    }

    /// Inserts the given value into the provided index, returning the old value
    pub fn insert(&mut self, index: (usize, usize), value: T) -> (r: Option<T>)
        requires
            old(self).wf(),
        ensures
            final(self).wf(),
            index.0 < old(self).spec_width() && index.1 < old(self).spec_height() ==> {
                &&& r == old(self)@[index.1 as int][index.0 as int]
                &&& final(self)@ == old(self)@.update(
                    index.1 as int,
                    old(self)@[index.1 as int].update(index.0 as int, Some(value)),
                )
            },
            !(index.0 < old(self).spec_width() && index.1 < old(self).spec_height()) ==> r is None
                && final(self)@ == old(self)@,
    {
        if self.contains_index(index) {
            proof {
                assert(self@[index.1 as int] == self.cells@[index.1 as int]@);
                assert(self@[index.1 as int].len() == self.spec_width());
            }
            let mut row = self.cells.remove(index.1);
            let ghost row0 = row@;
            let old_value = row.remove(index.0);
            row.insert(index.0, Some(value));
            proof {
                assert(row@ =~= row0.update(index.0 as int, Some(value)));
            }
            self.cells.insert(index.1, row);
            proof {
                assert(self.cells@ =~= old(self).cells@.update(index.1 as int, self.cells@[index.1 as int]));
                assert(self@ =~= old(self)@.update(
                    index.1 as int,
                    old(self)@[index.1 as int].update(index.0 as int, Some(value)),
                ));
                assert(self.spec_width() == old(self).spec_width());
            }
            old_value
        } else {
            None
        }
    }

    /// Removes the value at the provided index, returning it
    pub fn remove(&mut self, index: (usize, usize)) -> (r: Option<T>)
        requires
            old(self).wf(),
        ensures
            final(self).wf(),
            index.0 < old(self).spec_width() && index.1 < old(self).spec_height() ==> {
                &&& r == old(self)@[index.1 as int][index.0 as int]
                &&& final(self)@ == old(self)@.update(
                    index.1 as int,
                    old(self)@[index.1 as int].update(index.0 as int, None),
                )
            },
            !(index.0 < old(self).spec_width() && index.1 < old(self).spec_height()) ==> r is None
                && final(self)@ == old(self)@,
    {
        if self.contains_index(index) {
            proof {
                assert(self@[index.1 as int] == self.cells@[index.1 as int]@);
                assert(self@[index.1 as int].len() == self.spec_width());
            }
            let mut row = self.cells.remove(index.1);
            let ghost row0 = row@;
            let old_value = row.remove(index.0);
            row.insert(index.0, None);
            proof {
                assert(row@ =~= row0.update(index.0 as int, None));
            }
            self.cells.insert(index.1, row);
            proof {
                assert(self.cells@ =~= old(self).cells@.update(index.1 as int, self.cells@[index.1 as int]));
                assert(self@ =~= old(self)@.update(
                    index.1 as int,
                    old(self)@[index.1 as int].update(index.0 as int, None),
                ));
                assert(self.spec_width() == old(self).spec_width());
            }
            old_value
        } else {
            None
        }
    }

    /// Returns a list of every possible index within the grid, row by row
    pub fn indexes(&self) -> (r: Vec<(usize, usize)>)
        ensures
            forall|k: int|
                0 <= k < r@.len() ==> (#[trigger] r@[k]).0 < self.spec_width() && r@[k].1
                    < self.spec_height(),
            forall|p: (usize, usize)|
                p.0 < self.spec_width() && p.1 < self.spec_height() ==> r@.contains(p),
    {
        let width = self.width();
        let height = self.height();
        let mut r: Vec<(usize, usize)> = Vec::new();
        let mut y: usize = 0;
        while y < height
            invariant
                width == self.spec_width(),
                height == self.spec_height(),
                0 <= y <= height,
                forall|k: int|
                    0 <= k < r@.len() ==> (#[trigger] r@[k]).0 < width && r@[k].1 < height,
                forall|p: (usize, usize)| p.0 < width && p.1 < y ==> r@.contains(p),
            decreases height - y,
        {
            let mut x: usize = 0;
            while x < width
                invariant
                    width == self.spec_width(),
                    height == self.spec_height(),
                    0 <= y < height,
                    0 <= x <= width,
                    forall|k: int|
                        0 <= k < r@.len() ==> (#[trigger] r@[k]).0 < width && r@[k].1 < height,
                    forall|p: (usize, usize)| p.0 < width && p.1 < y ==> r@.contains(p),
                    forall|p: (usize, usize)| p.0 < x && p.1 == y ==> r@.contains(p),
                decreases width - x,
            {
                let ghost prev = r@;
                r.push((x, y));
                proof {
                    assert(r@[r@.len() - 1] == (x, y));
                    assert forall|p: (usize, usize)|
                        (p.0 < width && p.1 < y) || (p.0 < x + 1 && p.1 == y) implies r@.contains(
                        p,
                    ) by {
                        if p == (x, y) {
                        } else {
                            assert(prev.contains(p));
                            let k = choose|k: int| 0 <= k < prev.len() && prev[k] == p;
                            assert(r@[k] == p);
                        }
                    }
                }
                x = x + 1;
            }
            y = y + 1;
        }
        r
    }

    /// Reverses each row of the grid
    pub fn flip_x(&mut self)
        ensures
            final(self)@.len() == old(self)@.len(),
            forall|j: int|
                0 <= j < old(self)@.len() ==> final(self)@[j] == crate::grid::rev_seq(
                    #[trigger] old(self)@[j],
                ),
    {
        let h = self.cells.len();
        let mut j: usize = 0;
        while j < h
            invariant
                h == self.cells@.len(),
                h == old(self)@.len(),
                0 <= j <= h,
                forall|k: int|
                    0 <= k < j ==> self@[k] == crate::grid::rev_seq(#[trigger] old(self)@[k]),
                forall|k: int| j <= k < h ==> self@[k] == old(self)@[k],
            decreases h - j,
        {
            let row = self.cells.remove(j);
            let rr = reverse_cells(row);
            self.cells.insert(j, rr);
            j = j + 1;
        }
    }

    /// Reverses each column of the grid
    pub fn flip_y(&mut self)
        ensures
            final(self)@ == crate::grid::rev_seq(old(self)@),
    {
        let mut rows: Vec<Vec<Option<T>>> = Vec::new();
        std::mem::swap(&mut rows, &mut self.cells);
        let rr = reverse_cells(rows);
        self.cells = rr;
        proof {
            assert(self@ =~= crate::grid::rev_seq(old(self)@));
        }
    }

    /// Shifts the grid to the left by the specified number of cells.
    ///
    /// Any number higher than the grid's width will be ignored.
    pub fn shift_left(&mut self, cells: usize)
        ensures
            final(self)@.len() == old(self)@.len(),
            forall|j: int|
                0 <= j < old(self)@.len() ==> {
                    let c = if cells < (#[trigger] old(self)@[j]).len() {
                        cells as int
                    } else {
                        old(self)@[j].len() as int
                    };
                    final(self)@[j] == old(self)@[j].subrange(c, old(self)@[j].len() as int) + old(
                        self,
                    )@[j].subrange(0, c)
                },
    {
        let h = self.cells.len();
        let mut j: usize = 0;
        while j < h
            invariant
                h == self.cells@.len(),
                h == old(self)@.len(),
                0 <= j <= h,
                forall|k: int|
                    0 <= k < j ==> {
                        let c = if cells < (#[trigger] old(self)@[k]).len() {
                            cells as int
                        } else {
                            old(self)@[k].len() as int
                        };
                        self@[k] == old(self)@[k].subrange(c, old(self)@[k].len() as int) + old(
                            self,
                        )@[k].subrange(0, c)
                    },
                forall|k: int| j <= k < h ==> self@[k] == old(self)@[k],
            decreases h - j,
        {
            let mut row = self.cells.remove(j);
            let at = if cells < row.len() {
                cells
            } else {
                row.len()
            };
            let mut tail = row.split_off(at);
            tail.append(&mut row);
            self.cells.insert(j, tail);
            j = j + 1;
        }
    }

    /// Shifts the grid to the right by the specified number of cells.
    ///
    /// Any number higher than the grid's width will be ignored.
    pub fn shift_right(&mut self, cells: usize)
        ensures
            final(self)@.len() == old(self)@.len(),
            forall|j: int|
                0 <= j < old(self)@.len() ==> {
                    let c = if cells < (#[trigger] old(self)@[j]).len() {
                        cells as int
                    } else {
                        old(self)@[j].len() as int
                    };
                    final(self)@[j] == old(self)@[j].subrange(
                        old(self)@[j].len() - c,
                        old(self)@[j].len() as int,
                    ) + old(self)@[j].subrange(0, old(self)@[j].len() - c)
                },
    {
        let h = self.cells.len();
        let mut j: usize = 0;
        while j < h
            invariant
                h == self.cells@.len(),
                h == old(self)@.len(),
                0 <= j <= h,
                forall|k: int|
                    0 <= k < j ==> {
                        let c = if cells < (#[trigger] old(self)@[k]).len() {
                            cells as int
                        } else {
                            old(self)@[k].len() as int
                        };
                        self@[k] == old(self)@[k].subrange(
                            old(self)@[k].len() - c,
                            old(self)@[k].len() as int,
                        ) + old(self)@[k].subrange(0, old(self)@[k].len() - c)
                    },
                forall|k: int| j <= k < h ==> self@[k] == old(self)@[k],
            decreases h - j,
        {
            let mut row = self.cells.remove(j);
            let c = if cells < row.len() {
                cells
            } else {
                row.len()
            };
            let at = row.len() - c;
            let mut tail = row.split_off(at);
            tail.append(&mut row);
            self.cells.insert(j, tail);
            j = j + 1;
        }
    }

    /// Shifts the grid upwards by the specified number of cells.
    ///
    /// Any number higher than the grid's height will be ignored.
    pub fn shift_up(&mut self, cells: usize)
        ensures
            ({
                let c = if cells < old(self)@.len() {
                    cells as int
                } else {
                    old(self)@.len() as int
                };
                final(self)@ == old(self)@.subrange(c, old(self)@.len() as int) + old(
                    self,
                )@.subrange(0, c)
            }),
    {
        let mut head: Vec<Vec<Option<T>>> = Vec::new();
        std::mem::swap(&mut head, &mut self.cells);
        let at = if cells < head.len() {
            cells
        } else {
            head.len()
        };
        let mut tail = head.split_off(at);
        tail.append(&mut head);
        self.cells = tail;
        proof {
            let c = if cells < old(self)@.len() {
                cells as int
            } else {
                old(self)@.len() as int
            };
            assert(self@ =~= old(self)@.subrange(c, old(self)@.len() as int) + old(
                self,
            )@.subrange(0, c));
        }
    }

    /// Shifts the grid downwards by the specified number of cells.
    ///
    /// Any number higher than the grid's height will be ignored.
    pub fn shift_down(&mut self, cells: usize)
        ensures
            ({
                let c = if cells < old(self)@.len() {
                    cells as int
                } else {
                    old(self)@.len() as int
                };
                final(self)@ == old(self)@.subrange(old(self)@.len() - c, old(self)@.len() as int)
                    + old(self)@.subrange(0, old(self)@.len() - c)
            }),
    {
        let mut head: Vec<Vec<Option<T>>> = Vec::new();
        std::mem::swap(&mut head, &mut self.cells);
        let c = if cells < head.len() {
            cells
        } else {
            head.len()
        };
        let at = head.len() - c;
        let mut tail = head.split_off(at);
        tail.append(&mut head);
        self.cells = tail;
        proof {
            let cc = if cells < old(self)@.len() {
                cells as int
            } else {
                old(self)@.len() as int
            };
            assert(self@ =~= old(self)@.subrange(old(self)@.len() - cc, old(self)@.len() as int)
                + old(self)@.subrange(0, old(self)@.len() - cc));
        }
    }
}

/// Reverses a vector of rows by moving its values.
fn reverse_cells<T>(v: Vec<T>) -> (r: Vec<T>)
    ensures
        r@ == crate::grid::rev_seq(v@),
{
    let mut v = v;
    let mut r: Vec<T> = Vec::new();
    let ghost orig = v@;
    while v.len() > 0
        invariant
            v@ == orig.take(v@.len() as int),
            r@.len() + v@.len() == orig.len(),
            forall|k: int| 0 <= k < r@.len() ==> r@[k] == orig[orig.len() - 1 - k],
        decreases v@.len(),
    {
        let x = match v.pop() {
            Some(x) => x,
            None => {
                proof {
                    assert(false);
                }
                return r;
            },
        };
        r.push(x);
        proof {
            assert(v@ =~= orig.take(v@.len() as int));
        }
    }
    proof {
        assert(r@ =~= crate::grid::rev_seq(orig));
    }
    r
}

impl<T: Clone> VecGrid<T> {
    /// Creates a new grid filled with the provided value through cloning
    pub fn new_with(width: usize, height: usize, value: T) -> (r: Self)
        ensures
            r.wf(),
            r.spec_height() == height,
            height > 0 ==> r.spec_width() == width,
            height == 0 ==> r.spec_width() == 0,
            forall|j: int, i: int|
                0 <= j < height && 0 <= i < width ==> #[trigger] r@[j][i] is Some && cloned(
                    value,
                    r@[j][i].unwrap(),
                ),
    {
        let mut cells: Vec<Vec<Option<T>>> = Vec::new();
        let mut j: usize = 0;
        while j < height
            invariant
                0 <= j <= height,
                cells@.len() == j,
                forall|k: int| 0 <= k < j ==> (#[trigger] cells@[k])@.len() == width,
                forall|k: int, i: int|
                    0 <= k < j && 0 <= i < width ==> #[trigger] cells@[k]@[i] is Some && cloned(
                        value,
                        cells@[k]@[i].unwrap(),
                    ),
            decreases height - j,
        {
            let mut row: Vec<Option<T>> = Vec::new();
            let mut i: usize = 0;
            while i < width
                invariant
                    0 <= i <= width,
                    row@.len() == i,
                    forall|k: int|
                        0 <= k < i ==> #[trigger] row@[k] is Some && cloned(
                            value,
                            row@[k].unwrap(),
                        ),
                decreases width - i,
            {
                row.push(Some(value.clone()));
                i = i + 1;
            }
            cells.push(row);
            j = j + 1;
        }
        let r = VecGrid { cells };
        proof {
            assert(forall|k: int| 0 <= k < height ==> r@[k] =~= cells@[k]@);
        }
        r
    }
}

} // verus!
