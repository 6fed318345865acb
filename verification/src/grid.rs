//! A rectangular two-dimensional container backed by a vector of rows.

use vstd::prelude::*;
use vstd::std_specs::cmp::PartialEqSpec;

verus! {

/// Contains errors that can be encountered while working with the grid
#[derive(Clone, Copy, Debug, PartialEq, Eq, Structural)]
pub enum Error {
    OutOfBounds(usize, usize),
}

/// A rectangular grid of values, stored row by row; cell `(x, y)` is the
/// `x`-th entry of the `y`-th row.
#[derive(Clone, Debug, PartialEq, Eq)]
pub struct Grid<T> {
    rows: Vec<Vec<T>>,
}

impl<T> View for Grid<T> {
    type V = Seq<Seq<T>>;

    closed spec fn view(&self) -> Seq<Seq<T>> {
        self.rows@.map_values(|r: Vec<T>| r@)
    }
}

impl<T> Grid<T> {
    /// Number of columns of a grid value: the length of the first row, or zero.
    pub open spec fn spec_width(&self) -> int {
        if self@.len() == 0 {
            0
        } else {
            self@[0].len() as int
        }
    }

    /// Number of rows of a grid value.
    pub open spec fn spec_height(&self) -> int {
        self@.len() as int
    }

    /// A grid is well formed when every row has the same length and a grid
    /// with rows has columns: the width is zero exactly when the height is.
    pub open spec fn wf(&self) -> bool {
        &&& forall|j: int|
            0 <= j < self@.len() ==> (#[trigger] self@[j]).len() == self.spec_width()
        &&& (self.spec_width() == 0 <==> self.spec_height() == 0)
    }

    /// Returns the grid's total horizontal capacity
    pub fn width(&self) -> (r: usize)
        ensures
            r == self.spec_width(),
    {
        if self.rows.len() == 0 {
            0
        } else {
            self.rows[0].len()
        }
    }

    /// Returns the grid's total vertical capacity
    pub fn height(&self) -> (r: usize)
        ensures
            r == self.spec_height(),
    {
        self.rows.len()
    }

    /// Returns the grid's total capacity
    pub fn capacity(&self) -> (r: usize)
        requires
            self.spec_width() * self.spec_height() <= usize::MAX,
        ensures
            r == self.spec_width() * self.spec_height(),
    {
        self.width() * self.height()
    }

    /// Returns `true` if the provided coordinates are within the grid
    pub fn contains_coords(&self, x: usize, y: usize) -> (r: bool)
        ensures
            r == (x < self.spec_width() && y < self.spec_height()),
    {
        x < self.width() && y < self.height()
    }

    /// Returns a reference to the grid as a vector
    pub fn as_vec(&self) -> (r: &Vec<Vec<T>>)
        ensures
            r@.map_values(|row: Vec<T>| row@) == self@,
    {
        &self.rows
    }

    /// Returns a mutable reference to the grid as a vector
    pub fn as_vec_mut(&mut self) -> (r: &mut Vec<Vec<T>>)
        ensures
            r@.map_values(|row: Vec<T>| row@) == old(self)@,
            final(self)@ == final(r)@.map_values(|row: Vec<T>| row@),
    {
        &mut self.rows
    }

    /// Returns a reference to the value at the provided coordinates
    pub fn get(&self, x: usize, y: usize) -> (r: Result<&T, Error>)
        requires
            self.wf(),
        ensures
            x < self.spec_width() && y < self.spec_height() ==> r == Ok::<&T, Error>(
                &self@[y as int][x as int],
            ),
            !(x < self.spec_width() && y < self.spec_height()) ==> r == Err::<&T, Error>(
                Error::OutOfBounds(x, y),
            ),
    {
        if self.contains_coords(x, y) {
            assert(self@[y as int] == self.rows@[y as int]@);
            assert(self@[y as int].len() == self.spec_width());
            Ok(&self.rows[y][x])
        } else {
            Err(Error::OutOfBounds(x, y))
        }
    }

    /// Returns a mutable reference to the value at the provided coordinates
    pub fn get_mut(&mut self, x: usize, y: usize) -> (r: Result<&mut T, Error>)
        requires
            old(self).wf(),
            x < old(self).spec_width(),
            y < old(self).spec_height(),
        ensures
            r matches Ok(m) && *m == old(self)@[y as int][x as int] && final(self)@ == old(
                self,
            )@.update(y as int, old(self)@[y as int].update(x as int, *final(m))),
    {
        proof {
            assert(self@[y as int] == self.rows@[y as int]@);
            assert(self@[y as int].len() == self.spec_width());
        }
        let row = &mut self.rows[y];
        let cell = &mut row[x];
        Ok(cell)
    }

    /// Sets the provided coordinates to the given value
    pub fn set(&mut self, x: usize, y: usize, value: T) -> (r: Result<(), Error>)
        requires
            old(self).wf(),
        ensures
            final(self).wf(),
            x < old(self).spec_width() && y < old(self).spec_height() ==> {
                &&& r == Ok::<(), Error>(())
                &&& final(self)@ == old(self)@.update(
                    y as int,
                    old(self)@[y as int].update(x as int, value),
                )
            },
            !(x < old(self).spec_width() && y < old(self).spec_height()) ==> {
                &&& r == Err::<(), Error>(Error::OutOfBounds(x, y))
                &&& final(self)@ == old(self)@
            },
    {
        if self.contains_coords(x, y) {
            assert(self@[y as int] == self.rows@[y as int]@);
            assert(self@[y as int].len() == self.spec_width());
            let row = &mut self.rows[y];
            row.set(x, value);
            assert(self@ =~= old(self)@.update(
                y as int,
                old(self)@[y as int].update(x as int, value),
            ));
            assert(self.spec_width() == old(self).spec_width());
            Ok(())
        } else {
            Err(Error::OutOfBounds(x, y))
        }
    }
}

impl<T: Clone> Grid<T> {
    /// Creates a new grid. A zero width or height yields the empty grid, so
    /// that the width is zero exactly when the height is.
    pub fn new(width: usize, height: usize, fill: T) -> (r: Self)
        ensures
            r.wf(),
            width > 0 && height > 0 ==> r.spec_height() == height && r.spec_width() == width,
            width == 0 || height == 0 ==> r@ == Seq::<Seq<T>>::empty(),
            forall|j: int, i: int|
                0 <= j < r.spec_height() && 0 <= i < r.spec_width() ==> cloned(
                    fill,
                    #[trigger] r@[j][i],
                ),
    {
        if width == 0 || height == 0 {
            let r = Grid { rows: Vec::new() };
            proof {
                assert(r@ =~= Seq::<Seq<T>>::empty());
            }
            return r;
        }
        let mut rows: Vec<Vec<T>> = Vec::new();
        for _j in 0..height
            invariant
                rows@.len() == _j,
                forall|j: int| 0 <= j < _j ==> (#[trigger] rows@[j])@.len() == width,
                forall|j: int, i: int|
                    0 <= j < _j && 0 <= i < width ==> cloned(fill, #[trigger] rows@[j]@[i]),
        {
            let mut row: Vec<T> = Vec::new();
            for _i in 0..width
                invariant
                    row@.len() == _i,
                    forall|i: int| 0 <= i < _i ==> cloned(fill, #[trigger] row@[i]),
            {
                row.push(fill.clone());
            }
            rows.push(row);
        }
        let r = Grid { rows };
        assert(forall|j: int| 0 <= j < height ==> r@[j] =~= rows@[j]@);
        r
    }
}


/// A sequence read back to front.
pub open spec fn rev_seq<A>(s: Seq<A>) -> Seq<A> {
    Seq::new(s.len(), |i: int| s[s.len() - 1 - i])
}

/// Reverses a vector by moving its values.
fn reverse_vec<T>(v: Vec<T>) -> (r: Vec<T>)
    ensures
        r@ == rev_seq(v@),
{
    let mut v = v;
    let mut r: Vec<T> = Vec::new();
    let ghost orig = v@;
    while v.len() > 0
        invariant
            v@ == orig.take(v@.len() as int),
            r@.len() + v@.len() == orig.len(),
            forall|k: int| 0 <= k < r@.len() ==> r@[k] == orig[orig.len() - 1 - k],
        decreases v@.len(),
    {
        let x = match v.pop() {
            Some(x) => x,
            None => {
                proof {
                    assert(false);
                }
                return r;
            },
        };
        r.push(x);
        proof {
            assert(v@ =~= orig.take(v@.len() as int));
        }
    }
    proof {
        assert(r@ =~= rev_seq(orig));
    }
    r
}

impl<T> Grid<T> {
    /// Flips the grid horizontally: every row reads back to front.
    pub fn flip_x(&mut self)
        ensures
            final(self)@.len() == old(self)@.len(),
            forall|j: int|
                0 <= j < old(self)@.len() ==> final(self)@[j] == rev_seq(#[trigger] old(
                    self,
                )@[j]),
    {
        let h = self.rows.len();
        let mut j: usize = 0;
        while j < h
            invariant
                h == self.rows@.len(),
                h == old(self)@.len(),
                0 <= j <= h,
                forall|k: int| 0 <= k < j ==> self@[k] == rev_seq(#[trigger] old(self)@[k]),
                forall|k: int| j <= k < h ==> self@[k] == old(self)@[k],
            decreases h - j,
        {
            let row = self.rows.remove(j);
            let rr = reverse_vec(row);
            self.rows.insert(j, rr);
            proof {
                assert forall|k: int| 0 <= k < j + 1 implies self@[k] == rev_seq(
                    #[trigger] old(self)@[k],
                ) by {}
            }
            j = j + 1;
        }
    }

    /// Flips the grid vertically: the rows trade places top to bottom.
    pub fn flip_y(&mut self)
        ensures
            final(self)@ == rev_seq(old(self)@),
    {
        let mut rows: Vec<Vec<T>> = Vec::new();
        std::mem::swap(&mut rows, &mut self.rows);
        let rr = reverse_vec(rows);
        self.rows = rr;
        proof {
            assert(self@ =~= rev_seq(old(self)@));
        }
    }

    /// Shifts the grid to the left by the given number of values
    pub fn shift_left(&mut self, by: usize) -> (r: Result<(), Error>)
        ensures
            by < old(self).spec_width() ==> {
                &&& r == Ok::<(), Error>(())
                &&& final(self)@.len() == old(self)@.len()
                &&& forall|j: int|
                    0 <= j < old(self)@.len() && (#[trigger] old(self)@[j]).len() >= by
                        ==> final(self)@[j] == old(self)@[j].subrange(
                        by as int,
                        old(self)@[j].len() as int,
                    ) + old(self)@[j].subrange(0, by as int)
            },
            !(by < old(self).spec_width()) ==> r == Err::<(), Error>(Error::OutOfBounds(by, 0))
                && final(self)@ == old(self)@,
    {
        if by < self.width() {
            let h = self.rows.len();
            let mut j: usize = 0;
            while j < h
                invariant
                    h == self.rows@.len(),
                    h == old(self)@.len(),
                    0 <= j <= h,
                    forall|k: int|
                        0 <= k < j && (#[trigger] old(self)@[k]).len() >= by ==> self@[k] == old(
                            self,
                        )@[k].subrange(by as int, old(self)@[k].len() as int) + old(
                            self,
                        )@[k].subrange(0, by as int),
                    forall|k: int|
                        0 <= k < j && (#[trigger] old(self)@[k]).len() < by ==> self@[k] == old(
                            self,
                        )@[k],
                    forall|k: int| j <= k < h ==> self@[k] == old(self)@[k],
                decreases h - j,
            {
                let mut row = self.rows.remove(j);
                if by <= row.len() {
                    let mut tail = row.split_off(by);
                    tail.append(&mut row);
                    self.rows.insert(j, tail);
                } else {
                    self.rows.insert(j, row);
                }
                j = j + 1;
            }
            Ok(())
        } else {
            Err(Error::OutOfBounds(by, 0))
        }
    }

    /// Shifts the grid to the right by the given number of values
    pub fn shift_right(&mut self, by: usize) -> (r: Result<(), Error>)
        ensures
            by < old(self).spec_width() ==> {
                &&& r == Ok::<(), Error>(())
                &&& final(self)@.len() == old(self)@.len()
                &&& forall|j: int|
                    0 <= j < old(self)@.len() && (#[trigger] old(self)@[j]).len() >= by
                        ==> final(self)@[j] == old(self)@[j].subrange(
                        old(self)@[j].len() - by,
                        old(self)@[j].len() as int,
                    ) + old(self)@[j].subrange(0, old(self)@[j].len() - by)
            },
            !(by < old(self).spec_width()) ==> r == Err::<(), Error>(Error::OutOfBounds(by, 0))
                && final(self)@ == old(self)@,
    {
        if by < self.width() {
            let h = self.rows.len();
            let mut j: usize = 0;
            while j < h
                invariant
                    h == self.rows@.len(),
                    h == old(self)@.len(),
                    0 <= j <= h,
                    forall|k: int|
                        0 <= k < j && (#[trigger] old(self)@[k]).len() >= by ==> self@[k] == old(
                            self,
                        )@[k].subrange(old(self)@[k].len() - by, old(self)@[k].len() as int) + old(
                            self,
                        )@[k].subrange(0, old(self)@[k].len() - by),
                    forall|k: int|
                        0 <= k < j && (#[trigger] old(self)@[k]).len() < by ==> self@[k] == old(
                            self,
                        )@[k],
                    forall|k: int| j <= k < h ==> self@[k] == old(self)@[k],
                decreases h - j,
            {
                let mut row = self.rows.remove(j);
                if by <= row.len() {
                    let at = row.len() - by;
                    let mut tail = row.split_off(at);
                    tail.append(&mut row);
                    self.rows.insert(j, tail);
                } else {
                    self.rows.insert(j, row);
                }
                j = j + 1;
            }
            Ok(())
        } else {
            Err(Error::OutOfBounds(by, 0))
        }
    }

    /// Shifts the grid upwards by the given number of values
    pub fn shift_up(&mut self, by: usize) -> (r: Result<(), Error>)
        ensures
            by < old(self).spec_height() ==> {
                &&& r == Ok::<(), Error>(())
                &&& final(self)@ == old(self)@.subrange(by as int, old(self)@.len() as int) + old(
                    self,
                )@.subrange(0, by as int)
            },
            !(by < old(self).spec_height()) ==> r == Err::<(), Error>(Error::OutOfBounds(0, by))
                && final(self)@ == old(self)@,
    {
        if by < self.height() {
            let mut head: Vec<Vec<T>> = Vec::new();
            std::mem::swap(&mut head, &mut self.rows);
            let mut tail = head.split_off(by);
            tail.append(&mut head);
            self.rows = tail;
            proof {
                assert(self@ =~= old(self)@.subrange(by as int, old(self)@.len() as int) + old(
                    self,
                )@.subrange(0, by as int));
            }
            Ok(())
        } else {
            Err(Error::OutOfBounds(0, by))
        }
    }

    /// Shifts the grid downwards by the given number of values
    pub fn shift_down(&mut self, by: usize) -> (r: Result<(), Error>)
        ensures
            by < old(self).spec_height() ==> {
                &&& r == Ok::<(), Error>(())
                &&& final(self)@ == old(self)@.subrange(
                    old(self)@.len() - by,
                    old(self)@.len() as int,
                ) + old(self)@.subrange(0, old(self)@.len() - by)
            },
            !(by < old(self).spec_height()) ==> r == Err::<(), Error>(Error::OutOfBounds(0, by))
                && final(self)@ == old(self)@,
    {
        if by < self.height() {
            let mut head: Vec<Vec<T>> = Vec::new();
            std::mem::swap(&mut head, &mut self.rows);
            let at = head.len() - by;
            let mut tail = head.split_off(at);
            tail.append(&mut head);
            self.rows = tail;
            proof {
                assert(self@ =~= old(self)@.subrange(old(self)@.len() - by, old(self)@.len() as int)
                    + old(self)@.subrange(0, old(self)@.len() - by));
            }
            Ok(())
        } else {
            Err(Error::OutOfBounds(0, by))
        }
    }
}

impl<T: Clone> Grid<T> {
    /// Returns the grid's cells with their coordinates, row by row.
    pub fn iter(&self) -> (r: Vec<((usize, usize), T)>)
        requires
            self.wf(),
            self.spec_width() * self.spec_height() <= usize::MAX,
        ensures
            r@.len() == self.spec_width() * self.spec_height(),
            forall|k: int|
                0 <= k < r@.len() ==> {
                    let ((x, y), v) = #[trigger] r@[k];
                    &&& x < self.spec_width()
                    &&& y < self.spec_height()
                    &&& k == y * self.spec_width() + x
                    &&& cloned(self@[y as int][x as int], v)
                },
    {
        let width = self.width();
        let height = self.height();
        let mut r: Vec<((usize, usize), T)> = Vec::new();
        let mut y: usize = 0;
        while y < height
            invariant
                self.wf(),
                width == self.spec_width(),
                height == self.spec_height(),
                0 <= y <= height,
                r@.len() == y * width,
                y * width <= usize::MAX,
                width * height <= usize::MAX,
                forall|k: int|
                    0 <= k < r@.len() ==> {
                        let ((x2, y2), v) = #[trigger] r@[k];
                        &&& x2 < self.spec_width()
                        &&& y2 < self.spec_height()
                        &&& k == y2 * self.spec_width() + x2
                        &&& cloned(self@[y2 as int][x2 as int], v)
                    },
            decreases height - y,
        {
            let mut x: usize = 0;
            proof {
                assert((y + 1) * width == y * width + width) by (nonlinear_arith);
                assert((y + 1) * width <= height * width) by (nonlinear_arith)
                    requires
                        0 <= width,
                        y + 1 <= height,
                ;
                assert(height * width == width * height) by (nonlinear_arith);
            }
            while x < width
                invariant
                    self.wf(),
                    width == self.spec_width(),
                    height == self.spec_height(),
                    0 <= y < height,
                    0 <= x <= width,
                    r@.len() == y * width + x,
                    y * width + width <= usize::MAX,
                    width * height <= usize::MAX,
                    forall|k: int|
                        0 <= k < r@.len() ==> {
                            let ((x2, y2), v) = #[trigger] r@[k];
                            &&& x2 < self.spec_width()
                            &&& y2 < self.spec_height()
                            &&& k == y2 * self.spec_width() + x2
                            &&& cloned(self@[y2 as int][x2 as int], v)
                        },
                decreases width - x,
            {
                let cell = match self.get(x, y) {
                    Ok(c) => c,
                    Err(_) => {
                        proof {
                            assert(false);
                        }
                        return r;
                    },
                };
                r.push(((x, y), cell.clone()));
                x = x + 1;
            }
            proof {
                assert((y + 1) * width == y * width + width) by (nonlinear_arith);
            }
            y = y + 1;
        }
        proof {
            assert(height * width == width * height) by (nonlinear_arith);
        }
        r
    }

    /// Transposes the grid (swaps columns and rows)
    pub fn transpose(&mut self)
        requires
            old(self).wf(),
        ensures
            final(self).wf(),
            final(self)@.len() == old(self).spec_width(),
            final(self).spec_width() == if old(self).spec_width() > 0 {
                old(self).spec_height()
            } else {
                0int
            },
            forall|a: int, b: int|
                0 <= a < old(self).spec_width() && 0 <= b < old(self).spec_height() ==> cloned(
                    old(self)@[b][a],
                    #[trigger] final(self)@[a][b],
                ),
    {
        let width = self.width();
        let height = self.height();
        let mut rows: Vec<Vec<T>> = Vec::new();
        let mut a: usize = 0;
        while a < width
            invariant
                self.wf(),
                self@ == old(self)@,
                width == self.spec_width(),
                height == self.spec_height(),
                0 <= a <= width,
                rows@.len() == a,
                forall|k: int| 0 <= k < a ==> (#[trigger] rows@[k])@.len() == height,
                forall|k: int, b: int|
                    0 <= k < a && 0 <= b < height ==> cloned(
                        self@[b][k],
                        #[trigger] rows@[k]@[b],
                    ),
            decreases width - a,
        {
            let mut row: Vec<T> = Vec::new();
            let mut b: usize = 0;
            while b < height
                invariant
                    self.wf(),
                    self@ == old(self)@,
                    width == self.spec_width(),
                    height == self.spec_height(),
                    0 <= a < width,
                    0 <= b <= height,
                    row@.len() == b,
                    forall|k: int| 0 <= k < b ==> cloned(self@[k][a as int], #[trigger] row@[k]),
                decreases height - b,
            {
                let cell = match self.get(a, b) {
                    Ok(c) => c,
                    Err(_) => {
                        proof {
                            assert(false);
                        }
                        return ;
                    },
                };
                row.push(cell.clone());
                b = b + 1;
            }
            rows.push(row);
            a = a + 1;
        }
        self.rows = rows;
        proof {
            assert(self@.len() == width);
            assert forall|k: int| 0 <= k < self@.len() implies (#[trigger] self@[k]).len()
                == self.spec_width() by {}
        }
    }

    /// Rotates the grid 90 degrees counter-clockwise: the transpose with its
    /// rows then reversed top to bottom.
    pub fn rotate_left(&mut self)
        requires
            old(self).wf(),
        ensures
            final(self).wf(),
            final(self)@.len() == old(self).spec_width(),
            final(self).spec_width() == if old(self).spec_width() > 0 {
                old(self).spec_height()
            } else {
                0int
            },
            forall|a: int, b: int|
                0 <= a < old(self).spec_width() && 0 <= b < old(self).spec_height() ==> cloned(
                    old(self)@[b][old(self).spec_width() - 1 - a],
                    #[trigger] final(self)@[a][b],
                ),
    {
        self.transpose();
        let ghost mid = *self;
        self.flip_y();
        proof {
            assert forall|k: int| 0 <= k < self@.len() implies (#[trigger] self@[k]).len()
                == self.spec_width() by {
                assert(self@[k] == mid@[mid@.len() - 1 - k]);
                if self@.len() > 0 {
                    assert(self@[0] == mid@[mid@.len() - 1]);
                }
            }
            assert forall|a: int, b: int|
                0 <= a < old(self).spec_width() && 0 <= b < old(self).spec_height() implies cloned(
                old(self)@[b][old(self).spec_width() - 1 - a],
                #[trigger] final(self)@[a][b],
            ) by {
                assert(final(self)@[a] == mid@[mid@.len() - 1 - a]);
            }
        }
    }

    /// Rotates the grid 90 degrees clockwise: the transpose with each of its
    /// rows then read back to front.
    pub fn rotate_right(&mut self)
        requires
            old(self).wf(),
        ensures
            final(self).wf(),
            final(self)@.len() == old(self).spec_width(),
            final(self).spec_width() == if old(self).spec_width() > 0 {
                old(self).spec_height()
            } else {
                0int
            },
            forall|a: int, b: int|
                0 <= a < old(self).spec_width() && 0 <= b < old(self).spec_height() ==> cloned(
                    old(self)@[old(self).spec_height() - 1 - b][a],
                    #[trigger] final(self)@[a][b],
                ),
    {
        self.transpose();
        let ghost mid = *self;
        self.flip_x();
        proof {
            assert forall|k: int| 0 <= k < self@.len() implies (#[trigger] self@[k]).len()
                == self.spec_width() by {
                assert(self@[k] == rev_seq(mid@[k]));
                if self@.len() > 0 {
                    assert(self@[0] == rev_seq(mid@[0]));
                }
            }
            assert forall|a: int, b: int|
                0 <= a < old(self).spec_width() && 0 <= b < old(self).spec_height() implies cloned(
                old(self)@[old(self).spec_height() - 1 - b][a],
                #[trigger] final(self)@[a][b],
            ) by {
                assert(final(self)@[a] == rev_seq(mid@[a]));
                assert(final(self)@[a][b] == mid@[a][mid@[a].len() - 1 - b]);
            }
        }
    }

    /// Rotates the grid 180 degrees
    pub fn rotate_twice(&mut self)
        ensures
            final(self)@.len() == old(self)@.len(),
            forall|j: int|
                0 <= j < old(self)@.len() ==> final(self)@[j] == rev_seq(
                    #[trigger] old(self)@[old(self)@.len() - 1 - j],
                ),
    {
        self.flip_x();
        self.flip_y();
    }

    /// Fills the grid with the provided value
    pub fn fill(&mut self, value: T)
        requires
            old(self).wf(),
        ensures
            final(self).wf(),
            final(self)@.len() == old(self)@.len(),
            final(self).spec_width() == old(self).spec_width(),
            forall|j: int, i: int|
                0 <= j < final(self)@.len() && 0 <= i < final(self).spec_width() ==> cloned(
                    value,
                    #[trigger] final(self)@[j][i],
                ),
    {
        let w = self.width();
        let h = self.height();
        let fresh = Grid::new(w, h, value);
        *self = fresh;
    }

    /// Returns a copy of the grid with values that have been converted to another type
    pub fn map<U, F: Fn(&T) -> U>(&self, f: F) -> (r: Grid<U>)
        requires
            self.wf(),
            forall|t: &T| #[trigger] f.requires((t,)),
        ensures
            r.wf(),
            r@.len() == self.spec_height(),
            r.spec_width() == if self.spec_height() > 0 {
                self.spec_width()
            } else {
                0int
            },
            forall|j: int, i: int|
                0 <= j < self.spec_height() && 0 <= i < self.spec_width() ==> call_ensures(
                    f,
                    (&self@[j][i],),
                    #[trigger] r@[j][i],
                ),
    {
        let width = self.width();
        let height = self.height();
        let mut rows: Vec<Vec<U>> = Vec::new();
        let mut y: usize = 0;
        while y < height
            invariant
                self.wf(),
                width == self.spec_width(),
                height == self.spec_height(),
                forall|t: &T| #[trigger] f.requires((t,)),
                0 <= y <= height,
                rows@.len() == y,
                forall|k: int| 0 <= k < y ==> (#[trigger] rows@[k])@.len() == width,
                forall|k: int, i: int|
                    0 <= k < y && 0 <= i < width ==> call_ensures(
                        f,
                        (&self@[k][i],),
                        #[trigger] rows@[k]@[i],
                    ),
            decreases height - y,
        {
            let mut row: Vec<U> = Vec::new();
            let mut x: usize = 0;
            while x < width
                invariant
                    self.wf(),
                    width == self.spec_width(),
                    height == self.spec_height(),
                    forall|t: &T| #[trigger] f.requires((t,)),
                    0 <= y < height,
                    0 <= x <= width,
                    row@.len() == x,
                    forall|i: int|
                        0 <= i < x ==> call_ensures(
                            f,
                            (&self@[y as int][i],),
                            #[trigger] row@[i],
                        ),
                decreases width - x,
            {
                let cell = match self.get(x, y) {
                    Ok(c) => c,
                    Err(_) => {
                        proof {
                            assert(false);
                        }
                        return Grid { rows: Vec::new() };
                    },
                };
                row.push(f(cell));
                x = x + 1;
            }
            rows.push(row);
            y = y + 1;
        }
        let r = Grid { rows };
        proof {
            assert forall|k: int| 0 <= k < r@.len() implies (#[trigger] r@[k]).len()
                == r.spec_width() by {}
        }
        r
    }
}

impl<T: PartialEq> Grid<T> {
    /// Returns `true` if the grid contains the provided value
    pub fn has(&self, value: &T) -> (r: bool)
        requires
            self.wf(),
        ensures
            <T as vstd::std_specs::cmp::PartialEqSpec>::obeys_eq_spec() ==> r == exists|
                j: int,
                i: int,
            |
                0 <= j < self.spec_height() && 0 <= i < self.spec_width() && (
                #[trigger] self@[j][i]).eq_spec(value),
    {
        let width = self.width();
        let height = self.height();
        let mut y: usize = 0;
        while y < height
            invariant
                self.wf(),
                width == self.spec_width(),
                height == self.spec_height(),
                0 <= y <= height,
                <T as vstd::std_specs::cmp::PartialEqSpec>::obeys_eq_spec() ==> forall|
                    j: int,
                    i: int,
                |
                    0 <= j < y && 0 <= i < width ==> !(#[trigger] self@[j][i]).eq_spec(value),
            decreases height - y,
        {
            let mut x: usize = 0;
            while x < width
                invariant
                    self.wf(),
                    width == self.spec_width(),
                    height == self.spec_height(),
                    0 <= y < height,
                    0 <= x <= width,
                    <T as vstd::std_specs::cmp::PartialEqSpec>::obeys_eq_spec() ==> forall|
                        j: int,
                        i: int,
                    |
                        0 <= j < y && 0 <= i < width ==> !(#[trigger] self@[j][i]).eq_spec(value),
                    <T as vstd::std_specs::cmp::PartialEqSpec>::obeys_eq_spec() ==> forall|i: int|
                        0 <= i < x ==> !(#[trigger] self@[y as int][i]).eq_spec(value),
                decreases width - x,
            {
                let cell = match self.get(x, y) {
                    Ok(c) => c,
                    Err(_) => {
                        proof {
                            assert(false);
                        }
                        return false;
                    },
                };
                if cell == value {
                    return true;
                }
                x = x + 1;
            }
            y = y + 1;
        }
        false
    }

    /// Returns the coordinates of the provided value, if present
    pub fn find(&self, value: &T) -> (r: Option<(usize, usize)>)
        requires
            self.wf(),
        ensures
            <T as vstd::std_specs::cmp::PartialEqSpec>::obeys_eq_spec() ==> match r {
                Some((x, y)) => x < self.spec_width() && y < self.spec_height()
                    && self@[y as int][x as int].eq_spec(value),
                None => forall|j: int, i: int|
                    0 <= j < self.spec_height() && 0 <= i < self.spec_width() ==> !(
                    #[trigger] self@[j][i]).eq_spec(value),
            },
    {
        let width = self.width();
        let height = self.height();
        let mut y: usize = 0;
        while y < height
            invariant
                self.wf(),
                width == self.spec_width(),
                height == self.spec_height(),
                0 <= y <= height,
                <T as vstd::std_specs::cmp::PartialEqSpec>::obeys_eq_spec() ==> forall|
                    j: int,
                    i: int,
                |
                    0 <= j < y && 0 <= i < width ==> !(#[trigger] self@[j][i]).eq_spec(value),
            decreases height - y,
        {
            let mut x: usize = 0;
            while x < width
                invariant
                    self.wf(),
                    width == self.spec_width(),
                    height == self.spec_height(),
                    0 <= y < height,
                    0 <= x <= width,
                    <T as vstd::std_specs::cmp::PartialEqSpec>::obeys_eq_spec() ==> forall|
                        j: int,
                        i: int,
                    |
                        0 <= j < y && 0 <= i < width ==> !(#[trigger] self@[j][i]).eq_spec(value),
                    <T as vstd::std_specs::cmp::PartialEqSpec>::obeys_eq_spec() ==> forall|i: int|
                        0 <= i < x ==> !(#[trigger] self@[y as int][i]).eq_spec(value),
                decreases width - x,
            {
                let cell = match self.get(x, y) {
                    Ok(c) => c,
                    Err(_) => {
                        proof {
                            assert(false);
                        }
                        return None;
                    },
                };
                if cell == value {
                    return Some((x, y));
                }
                x = x + 1;
            }
            y = y + 1;
        }
        None
    }
}

} // verus!
