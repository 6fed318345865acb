//! A grid of optional values whose width and height are fixed in its type,
//! with value-taking accessors.

use vstd::prelude::*;
use vstd::std_specs::cmp::PartialEqSpec;

verus! {

/// A grid with a fixed width and height that stores values by position.
///
/// This keeps the stricter interface of the fixed-size grids: an index
/// outside the rectangle yields nothing rather than an error.
#[derive(Debug)]
pub struct ArrayGrid<T, const W: usize, const H: usize> {
    cells: Vec<Vec<Option<T>>>,
}

impl<T, const W: usize, const H: usize> View for ArrayGrid<T, W, H> {
    type V = Seq<Seq<Option<T>>>;

    closed spec fn view(&self) -> Seq<Seq<Option<T>>> {
        self.cells@.map_values(|r: Vec<Option<T>>| r@)
    }
}

impl<T, const W: usize, const H: usize> ArrayGrid<T, W, H> {
    /// An array grid is well formed when it holds exactly its type's number
    /// of rows and columns.
    pub open spec fn wf(&self) -> bool {
        &&& self@.len() == H as int
        &&& forall|j: int| 0 <= j < self@.len() ==> (#[trigger] self@[j]).len() == W as int
    }

    /// Creates a new empty grid
    pub fn new() -> (r: Self)
        ensures
            r.wf(),
            forall|j: int, i: int|
                0 <= j < H as int && 0 <= i < W as int ==> #[trigger] r@[j][i] is None,
    {
        let mut cells: Vec<Vec<Option<T>>> = Vec::new();
        let mut j: usize = 0;
        while j < H
            invariant
                0 <= j <= H,
                cells@.len() == j,
                forall|k: int| 0 <= k < j ==> (#[trigger] cells@[k])@.len() == W as int,
                forall|k: int, i: int|
                    0 <= k < j && 0 <= i < W as int ==> #[trigger] cells@[k]@[i] is None,
            decreases H - j,
        {
            let mut row: Vec<Option<T>> = Vec::new();
            let mut i: usize = 0;
            while i < W
                invariant
                    0 <= i <= W,
                    row@.len() == i,
                    forall|k: int| 0 <= k < i ==> #[trigger] row@[k] is None,
                decreases W - i,
            {
                row.push(None);
                i = i + 1;
            }
            cells.push(row);
            j = j + 1;
        }
        let r = ArrayGrid { cells };
        proof {
            assert(forall|k: int| 0 <= k < H as int ==> r@[k] =~= cells@[k]@);
        }
        r
    }

    /// Returns the array grid's size as a (width, height) pair
    pub fn size(&self) -> (r: (usize, usize))
        requires
            self.wf(),
        ensures
            H > 0 ==> r == (W, H),
            H == 0 ==> r == (0usize, H),
    {
        (self.width(), self.height())
    }

    /// Returns the grid's height
    pub fn height(&self) -> (r: usize)
        requires
            self.wf(),
        ensures
            r == H,
    {
        self.cells.len()
    }

    /// Returns the grid's width: zero when the grid has no rows at all.
    pub fn width(&self) -> (r: usize)
        requires
            self.wf(),
        ensures
            H > 0 ==> r == W,
            H == 0 ==> r == 0,
    {
        if self.cells.len() > 0 {
            proof {
                assert(self@[0] == self.cells@[0]@);
            }
            self.cells[0].len()
        } else {
            0
        }
    }

    /// Returns the grid's capacity
    pub fn capacity(&self) -> (r: usize)
        requires
            self.wf(),
            W * H <= usize::MAX,
        ensures
            r == W * H,
    {
        let r = self.width() * self.height();
        proof {
            if H == 0 {
                assert(W * H == 0) by (nonlinear_arith)
                    requires
                        H == 0,
                ;
            }
        }
        r
    }

    /// Returns `true` if the grid contains the provided index
    pub fn includes(&self, index: (usize, usize)) -> (r: bool)
        ensures
            r == (index.0 < W && index.1 < H),
    {
        index.0 < W && index.1 < H
    }

    /// Returns a reference to the value at the given index, if present
    pub fn get(&self, index: (usize, usize)) -> (r: Option<&T>)
        requires
            self.wf(),
        ensures
            index.0 < W && index.1 < H ==> r == match self@[index.1 as int][index.0 as int] {
                Some(ref v) => Some(v),
                None => None::<&T>,
            },
            !(index.0 < W && index.1 < H) ==> r is None,
    {
        if self.includes(index) {
            proof {
                assert(self@[index.1 as int] == self.cells@[index.1 as int]@);
                assert(self@[index.1 as int].len() == W as int);
            }
            self.cells[index.1][index.0].as_ref()
        } else {
            None
        }
    }

    /// Sets the value at the given index to the provided value, returning the previous value if present
    pub fn insert(&mut self, index: (usize, usize), value: T) -> (r: Option<T>)
        requires
            old(self).wf(),
        ensures
            final(self).wf(),
            index.0 < W && index.1 < H ==> {
                &&& r == old(self)@[index.1 as int][index.0 as int]
                &&& final(self)@ == old(self)@.update(
                    index.1 as int,
                    old(self)@[index.1 as int].update(index.0 as int, Some(value)),
                )
            },
            !(index.0 < W && index.1 < H) ==> r is None && final(self)@ == old(self)@,
    {
        if self.includes(index) {
            proof {
                assert(self@[index.1 as int] == self.cells@[index.1 as int]@);
                assert(self@[index.1 as int].len() == W as int);
            }
            let mut row = self.cells.remove(index.1);
            let ghost row0 = row@;
            let old_value = row.remove(index.0);
            row.insert(index.0, Some(value));
            proof {
                assert(row@ =~= row0.update(index.0 as int, Some(value)));
            }
            self.cells.insert(index.1, row);
            proof {
                assert(self@ =~= old(self)@.update(
                    index.1 as int,
                    old(self)@[index.1 as int].update(index.0 as int, Some(value)),
                ));
            }
            old_value
        } else {
            None
        }
    }

    /// Removes the value from the given index and returns it, if present
    pub fn remove(&mut self, index: (usize, usize)) -> (r: Option<T>)
        requires
            old(self).wf(),
        ensures
            final(self).wf(),
            index.0 < W && index.1 < H ==> {
                &&& r == old(self)@[index.1 as int][index.0 as int]
                &&& final(self)@ == old(self)@.update(
                    index.1 as int,
                    old(self)@[index.1 as int].update(index.0 as int, None),
                )
            },
            !(index.0 < W && index.1 < H) ==> r is None && final(self)@ == old(self)@,
    {
        if self.includes(index) {
            proof {
                assert(self@[index.1 as int] == self.cells@[index.1 as int]@);
                assert(self@[index.1 as int].len() == W as int);
            }
            let mut row = self.cells.remove(index.1);
            let ghost row0 = row@;
            let old_value = row.remove(index.0);
            row.insert(index.0, None);
            proof {
                assert(row@ =~= row0.update(index.0 as int, None));
            }
            self.cells.insert(index.1, row);
            proof {
                assert(self@ =~= old(self)@.update(
                    index.1 as int,
                    old(self)@[index.1 as int].update(index.0 as int, None),
                ));
            }
            old_value
        } else {
            None
        }
    }

    /// Reverses each row of the grid
    pub fn flip_x(&mut self)
        requires
            old(self).wf(),
        ensures
            final(self).wf(),
            forall|j: int|
                0 <= j < H as int ==> final(self)@[j] == crate::grid::rev_seq(
                    #[trigger] old(self)@[j],
                ),
    {
        let h = self.cells.len();
        let mut j: usize = 0;
        while j < h
            invariant
                h == self.cells@.len(),
                h == old(self)@.len(),
                old(self).wf(),
                0 <= j <= h,
                forall|k: int|
                    0 <= k < j ==> self@[k] == crate::grid::rev_seq(#[trigger] old(self)@[k]),
                forall|k: int| j <= k < h ==> self@[k] == old(self)@[k],
            decreases h - j,
        {
            let row = self.cells.remove(j);
            let rr = reverse_list(row);
            self.cells.insert(j, rr);
            j = j + 1;
        }
        proof {
            assert forall|k: int| 0 <= k < self@.len() implies (#[trigger] self@[k]).len() == W
                as int by {
                assert(self@[k] == crate::grid::rev_seq(old(self)@[k]));
            }
        }
    }

    /// Reverses each column of the grid
    pub fn flip_y(&mut self)
        requires
            old(self).wf(),
        ensures
            final(self).wf(),
            final(self)@ == crate::grid::rev_seq(old(self)@),
    {
        let mut rows: Vec<Vec<Option<T>>> = Vec::new();
        std::mem::swap(&mut rows, &mut self.cells);
        let rr = reverse_list(rows);
        self.cells = rr;
        proof {
            assert(self@ =~= crate::grid::rev_seq(old(self)@));
            assert forall|k: int| 0 <= k < self@.len() implies (#[trigger] self@[k]).len() == W
                as int by {
                assert(self@[k] == old(self)@[H as int - 1 - k]);
            }
        }
    }

    /// Shifts the grid to the left by the specified number of cells. Any number higher than the grid's width will be ignored
    pub fn shift_left(&mut self, cells: usize)
        requires
            old(self).wf(),
        ensures
            final(self).wf(),
            forall|j: int|
                0 <= j < H as int ==> {
                    let c = if cells < W {
                        cells as int
                    } else {
                        W as int
                    };
                    final(self)@[j] == (#[trigger] old(self)@[j]).subrange(c, W as int) + old(
                        self,
                    )@[j].subrange(0, c)
                },
    {
        let h = self.cells.len();
        let mut j: usize = 0;
        while j < h
            invariant
                h == self.cells@.len(),
                h == old(self)@.len(),
                old(self).wf(),
                self@.len() == old(self)@.len(),
                0 <= j <= h,
                forall|k: int|
                    0 <= k < j ==> {
                        let c = if cells < W {
                            cells as int
                        } else {
                            W as int
                        };
                        self@[k] == (#[trigger] old(self)@[k]).subrange(c, W as int) + old(
                            self,
                        )@[k].subrange(0, c)
                    },
                forall|k: int| j <= k < h ==> self@[k] == old(self)@[k],
            decreases h - j,
        {
            let mut row = self.cells.remove(j);
            let at = if cells < row.len() {
                cells
            } else {
                row.len()
            };
            let mut tail = row.split_off(at);
            tail.append(&mut row);
            self.cells.insert(j, tail);
            j = j + 1;
        }
        proof {
            assert forall|k: int| 0 <= k < self@.len() implies (#[trigger] self@[k]).len() == W
                as int by {
                assert(old(self)@[k].len() == W as int);
            }
        }
    }

    /// Shifts the grid to the right by the specified number of cells. Any number higher than the grid's width will be ignored
    pub fn shift_right(&mut self, cells: usize)
        requires
            old(self).wf(),
        ensures
            final(self).wf(),
            forall|j: int|
                0 <= j < H as int ==> {
                    let c = if cells < W {
                        cells as int
                    } else {
                        W as int
                    };
                    final(self)@[j] == (#[trigger] old(self)@[j]).subrange(W as int - c, W as int)
                        + old(self)@[j].subrange(0, W as int - c)
                },
    {
        let h = self.cells.len();
        let mut j: usize = 0;
        while j < h
            invariant
                h == self.cells@.len(),
                h == old(self)@.len(),
                old(self).wf(),
                self@.len() == old(self)@.len(),
                0 <= j <= h,
                forall|k: int|
                    0 <= k < j ==> {
                        let c = if cells < W {
                            cells as int
                        } else {
                            W as int
                        };
                        self@[k] == (#[trigger] old(self)@[k]).subrange(W as int - c, W as int)
                            + old(self)@[k].subrange(0, W as int - c)
                    },
                forall|k: int| j <= k < h ==> self@[k] == old(self)@[k],
            decreases h - j,
        {
            let mut row = self.cells.remove(j);
            let c = if cells < row.len() {
                cells
            } else {
                row.len()
            };
            let at = row.len() - c;
            let mut tail = row.split_off(at);
            tail.append(&mut row);
            self.cells.insert(j, tail);
            j = j + 1;
        }
        proof {
            assert forall|k: int| 0 <= k < self@.len() implies (#[trigger] self@[k]).len() == W
                as int by {
                assert(old(self)@[k].len() == W as int);
            }
        }
    }

    /// Shifts the grid upwards by the specified number of cells. Any number higher than the grid's height will be ignored
    pub fn shift_up(&mut self, cells: usize)
        requires
            old(self).wf(),
        ensures
            final(self).wf(),
            ({
                let c = if cells < H {
                    cells as int
                } else {
                    H as int
                };
                final(self)@ == old(self)@.subrange(c, H as int) + old(self)@.subrange(0, c)
            }),
    {
        let mut head: Vec<Vec<Option<T>>> = Vec::new();
        std::mem::swap(&mut head, &mut self.cells);
        let at = if cells < head.len() {
            cells
        } else {
            head.len()
        };
        let mut tail = head.split_off(at);
        tail.append(&mut head);
        self.cells = tail;
        proof {
            let c = if cells < H {
                cells as int
            } else {
                H as int
            };
            assert(self@ =~= old(self)@.subrange(c, H as int) + old(self)@.subrange(0, c));
            assert forall|k: int| 0 <= k < self@.len() implies (#[trigger] self@[k]).len() == W
                as int by {}
        }
    }

    /// Shifts the grid downwards by the specified number of cells. Any number higher than the grid's height will be ignored
    pub fn shift_down(&mut self, cells: usize)
        requires
            old(self).wf(),
        ensures
            final(self).wf(),
            ({
                let c = if cells < H {
                    cells as int
                } else {
                    H as int
                };
                final(self)@ == old(self)@.subrange(H as int - c, H as int) + old(self)@.subrange(
                    0,
                    H as int - c,
                )
            }),
    {
        let mut head: Vec<Vec<Option<T>>> = Vec::new();
        std::mem::swap(&mut head, &mut self.cells);
        let c = if cells < head.len() {
            cells
        } else {
            head.len()
        };
        let at = head.len() - c;
        let mut tail = head.split_off(at);
        tail.append(&mut head);
        self.cells = tail;
        proof {
            let cc = if cells < H {
                cells as int
            } else {
                H as int
            };
            assert(self@ =~= old(self)@.subrange(H as int - cc, H as int) + old(self)@.subrange(
                0,
                H as int - cc,
            ));
            assert forall|k: int| 0 <= k < self@.len() implies (#[trigger] self@[k]).len() == W
                as int by {}
        }
    }

}

impl<T: Clone, const W: usize, const H: usize> ArrayGrid<T, W, H> {
    /// Returns an iterator over the grid that also contains each value's position
    pub fn enumerate(&self) -> (r: Vec<((usize, usize), Option<T>)>)
        requires
            self.wf(),
            W * H <= usize::MAX,
        ensures
            r@.len() == W * H,
            forall|k: int|
                0 <= k < r@.len() ==> {
                    let ((x, y), v) = #[trigger] r@[k];
                    &&& x < W
                    &&& y < H
                    &&& k == y * W + x
                    &&& (v is Some <==> self@[y as int][x as int] is Some)
                    &&& (v is Some ==> cloned(
                        self@[y as int][x as int].unwrap(),
                        v.unwrap(),
                    ))
                },
    {
        let mut r: Vec<((usize, usize), Option<T>)> = Vec::new();
        let mut y: usize = 0;
        while y < H
            invariant
                self.wf(),
                W * H <= usize::MAX,
                0 <= y <= H,
                r@.len() == y * W,
                y * W + W <= usize::MAX || y == H,
                forall|k: int|
                    0 <= k < r@.len() ==> {
                        let ((x2, y2), v) = #[trigger] r@[k];
                        &&& x2 < W
                        &&& y2 < H
                        &&& k == y2 * W + x2
                        &&& (v is Some <==> self@[y2 as int][x2 as int] is Some)
                        &&& (v is Some ==> cloned(
                            self@[y2 as int][x2 as int].unwrap(),
                            v.unwrap(),
                        ))
                    },
            decreases H - y,
        {
            proof {
                assert((y + 1) * W == y * W + W) by (nonlinear_arith);
                assert((y + 1) * W <= H * W) by (nonlinear_arith)
                    requires
                        0 <= W,
                        y + 1 <= H,
                ;
                assert(H * W == W * H) by (nonlinear_arith);
            }
            let mut x: usize = 0;
            while x < W
                invariant
                    self.wf(),
                    W * H <= usize::MAX,
                    0 <= y < H,
                    0 <= x <= W,
                    r@.len() == y * W + x,
                    y * W + W <= usize::MAX,
                    forall|k: int|
                        0 <= k < r@.len() ==> {
                            let ((x2, y2), v) = #[trigger] r@[k];
                            &&& x2 < W
                            &&& y2 < H
                            &&& k == y2 * W + x2
                            &&& (v is Some <==> self@[y2 as int][x2 as int] is Some)
                            &&& (v is Some ==> cloned(
                                self@[y2 as int][x2 as int].unwrap(),
                                v.unwrap(),
                            ))
                        },
                decreases W - x,
            {
                let cell = match self.get((x, y)) {
                    Some(v) => Some(v.clone()),
                    None => None,
                };
                r.push(((x, y), cell));
                x = x + 1;
            }
            proof {
                assert((y + 1) * W == y * W + W) by (nonlinear_arith);
                if y + 1 < H {
                    assert((y + 2) * W <= H * W) by (nonlinear_arith)
                        requires
                            0 <= W,
                            y + 2 <= H,
                    ;
                    assert((y + 2) * W == (y + 1) * W + W) by (nonlinear_arith);
                    assert(H * W == W * H) by (nonlinear_arith);
                }
            }
            y = y + 1;
        }
        proof {
            assert(H * W == W * H) by (nonlinear_arith);
        }
        r
    }

    /// Returns the grid's rows, each as a list of its optional values
    pub fn rows(&self) -> (r: Vec<Vec<Option<T>>>)
        requires
            self.wf(),
        ensures
            r@.len() == H,
            forall|j: int| 0 <= j < H as int ==> (#[trigger] r@[j])@.len() == W as int,
            forall|j: int, i: int|
                0 <= j < H as int && 0 <= i < W as int ==> ((#[trigger] r@[j]@[i]) is Some
                    <==> self@[j][i] is Some),
    {
        let mut r: Vec<Vec<Option<T>>> = Vec::new();
        let mut y: usize = 0;
        while y < H
            invariant
                self.wf(),
                0 <= y <= H,
                r@.len() == y,
                forall|j: int| 0 <= j < y ==> (#[trigger] r@[j])@.len() == W as int,
                forall|j: int, i: int|
                    0 <= j < y && 0 <= i < W as int ==> ((#[trigger] r@[j]@[i]) is Some
                        <==> self@[j][i] is Some),
            decreases H - y,
        {
            let mut row: Vec<Option<T>> = Vec::new();
            let mut x: usize = 0;
            while x < W
                invariant
                    self.wf(),
                    0 <= y < H,
                    0 <= x <= W,
                    row@.len() == x,
                    forall|i: int|
                        0 <= i < x ==> ((#[trigger] row@[i]) is Some <==> self@[y as int][i]
                            is Some),
                decreases W - x,
            {
                match self.get((x, y)) {
                    Some(v) => row.push(Some(v.clone())),
                    None => row.push(None),
                }
                x = x + 1;
            }
            r.push(row);
            y = y + 1;
        }
        r
    }

    /// Returns the grid's columns, each as a list of its optional values
    pub fn columns(&self) -> (r: Vec<Vec<Option<T>>>)
        requires
            self.wf(),
        ensures
            r@.len() == W,
            forall|i: int| 0 <= i < W as int ==> (#[trigger] r@[i])@.len() == H as int,
            forall|i: int, j: int|
                0 <= i < W as int && 0 <= j < H as int ==> ((#[trigger] r@[i]@[j]) is Some
                    <==> self@[j][i] is Some),
    {
        let mut r: Vec<Vec<Option<T>>> = Vec::new();
        let mut x: usize = 0;
        while x < W
            invariant
                self.wf(),
                0 <= x <= W,
                r@.len() == x,
                forall|i: int| 0 <= i < x ==> (#[trigger] r@[i])@.len() == H as int,
                forall|i: int, j: int|
                    0 <= i < x && 0 <= j < H as int ==> ((#[trigger] r@[i]@[j]) is Some
                        <==> self@[j][i] is Some),
            decreases W - x,
        {
            let mut col: Vec<Option<T>> = Vec::new();
            let mut y: usize = 0;
            while y < H
                invariant
                    self.wf(),
                    0 <= x < W,
                    0 <= y <= H,
                    col@.len() == y,
                    forall|j: int|
                        0 <= j < y ==> ((#[trigger] col@[j]) is Some <==> self@[j][x as int]
                            is Some),
                decreases H - y,
            {
                match self.get((x, y)) {
                    Some(v) => col.push(Some(v.clone())),
                    None => col.push(None),
                }
                y = y + 1;
            }
            r.push(col);
            x = x + 1;
        }
        r
    }

    /// Returns the grid's cells in row order
    pub fn iter(&self) -> (r: Vec<Option<T>>)
        requires
            self.wf(),
            W * H <= usize::MAX,
        ensures
            r@.len() == W * H,
    {
        let pairs = self.enumerate();
        let mut r: Vec<Option<T>> = Vec::new();
        let n = pairs.len();
        let mut k: usize = 0;
        while k < n
            invariant
                n == pairs@.len(),
                0 <= k <= n,
                r@.len() == k,
            decreases n - k,
        {
            match pairs[k].1.as_ref() {
                Some(v) => r.push(Some(v.clone())),
                None => r.push(None),
            }
            k = k + 1;
        }
        r
    }
}

/// Reverses a vector by moving its values.
fn reverse_list<T>(v: Vec<T>) -> (r: Vec<T>)
    ensures
        r@ == crate::grid::rev_seq(v@),
{
    let mut v = v;
    let mut r: Vec<T> = Vec::new();
    let ghost orig = v@;
    while v.len() > 0
        invariant
            v@ == orig.take(v@.len() as int),
            r@.len() + v@.len() == orig.len(),
            forall|k: int| 0 <= k < r@.len() ==> r@[k] == orig[orig.len() - 1 - k],
        decreases v@.len(),
    {
        let x = match v.pop() {
            Some(x) => x,
            None => {
                proof {
                    assert(false);
                }
                return r;
            },
        };
        r.push(x);
        proof {
            assert(v@ =~= orig.take(v@.len() as int));
        }
    }
    proof {
        assert(r@ =~= crate::grid::rev_seq(orig));
    }
    r
}

impl<T: Copy, const W: usize, const H: usize> ArrayGrid<T, W, H> {
    /// Creates a new grid filled with the provided value
    pub fn new_with(value: T) -> (r: Self)
        ensures
            r.wf(),
            forall|j: int, i: int|
                0 <= j < H as int && 0 <= i < W as int ==> #[trigger] r@[j][i] == Some(value),
    {
        let mut cells: Vec<Vec<Option<T>>> = Vec::new();
        let mut j: usize = 0;
        while j < H
            invariant
                0 <= j <= H,
                cells@.len() == j,
                forall|k: int| 0 <= k < j ==> (#[trigger] cells@[k])@.len() == W as int,
                forall|k: int, i: int|
                    0 <= k < j && 0 <= i < W as int ==> #[trigger] cells@[k]@[i] == Some(value),
            decreases H - j,
        {
            let mut row: Vec<Option<T>> = Vec::new();
            let mut i: usize = 0;
            while i < W
                invariant
                    0 <= i <= W,
                    row@.len() == i,
                    forall|k: int| 0 <= k < i ==> #[trigger] row@[k] == Some(value),
                decreases W - i,
            {
                row.push(Some(value));
                i = i + 1;
            }
            cells.push(row);
            j = j + 1;
        }
        let r = ArrayGrid { cells };
        proof {
            assert(forall|k: int| 0 <= k < H as int ==> r@[k] =~= cells@[k]@);
        }
        r
    }

    /// Transposes the grid, swapping rows and columns
    pub fn transpose(&self) -> (r: ArrayGrid<T, H, W>)
        requires
            self.wf(),
        ensures
            r.wf(),
            forall|a: int, b: int|
                0 <= a < H as int && 0 <= b < W as int ==> #[trigger] r@[b][a]
                    == self@[a][b],
    {
        let mut out: ArrayGrid<T, H, W> = ArrayGrid::new();
        let mut y: usize = 0;
        while y < H
            invariant
                self.wf(),
                out.wf(),
                0 <= y <= H,
                forall|a: int, b: int|
                    0 <= a < y && 0 <= b < W as int ==> #[trigger] out@[b][a] == self@[a][b],
                forall|a: int, b: int|
                    y <= a < H as int && 0 <= b < W as int ==> (#[trigger] out@[b][a]) is None,
            decreases H - y,
        {
            let mut x: usize = 0;
            while x < W
                invariant
                    self.wf(),
                    out.wf(),
                    0 <= y < H,
                    0 <= x <= W,
                    forall|a: int, b: int|
                        0 <= a < y && 0 <= b < W as int ==> #[trigger] out@[b][a] == self@[a][b],
                    forall|b: int| 0 <= b < x ==> #[trigger] out@[b][y as int] == self@[y as int][b],
                    forall|a: int, b: int|
                        y < a < H as int && 0 <= b < W as int ==> (#[trigger] out@[b][a]) is None,
                    forall|b: int|
                        x <= b < W as int ==> (#[trigger] out@[b][y as int]) is None,
                decreases W - x,
            {
                match self.get((x, y)) {
                    Some(v) => {
                        let value = *v;
                        let _ = out.insert((y, x), value);
                        proof {
                            assert(out@[x as int][y as int] == Some(value));
                        }
                    },
                    None => {},
                }
                proof {
                    assert(out@[x as int][y as int] == self@[y as int][x as int]);
                }
                x = x + 1;
            }
            y = y + 1;
        }
        out
    }

    /// Rotates the grid to the left
    pub fn rotate_left(self) -> (r: ArrayGrid<T, H, W>)
        requires
            self.wf(),
        ensures
            r.wf(),
            forall|a: int, b: int|
                0 <= a < H as int && 0 <= b < W as int ==> #[trigger] r@[b][a] == self@[a][W
                    as int - 1 - b],
    {
        let mut s = self;
        s.flip_x();
        s.transpose()
    }

    /// Rotates the grid to the right
    pub fn rotate_right(self) -> (r: ArrayGrid<T, H, W>)
        requires
            self.wf(),
        ensures
            r.wf(),
            forall|a: int, b: int|
                0 <= a < H as int && 0 <= b < W as int ==> #[trigger] r@[b][a] == self@[H as int
                    - 1 - a][b],
    {
        let mut s = self;
        s.flip_y();
        s.transpose()
    }
}

impl<T: PartialEq, const W: usize, const H: usize> ArrayGrid<T, W, H> {
    /// Returns `true` if the grid contains the provided value
    pub fn contains(&self, value: &T) -> (r: bool)
        requires
            self.wf(),
        ensures
            <T as PartialEqSpec>::obeys_eq_spec() ==> r == exists|j: int, i: int|
                0 <= j < H as int && 0 <= i < W as int && (#[trigger] self@[j][i]) is Some
                    && self@[j][i].unwrap().eq_spec(value),
    {
        let mut y: usize = 0;
        while y < H
            invariant
                self.wf(),
                0 <= y <= H,
                <T as PartialEqSpec>::obeys_eq_spec() ==> forall|j: int, i: int|
                    0 <= j < y && 0 <= i < W as int ==> !((#[trigger] self@[j][i]) is Some
                        && self@[j][i].unwrap().eq_spec(value)),
            decreases H - y,
        {
            let mut x: usize = 0;
            while x < W
                invariant
                    self.wf(),
                    0 <= y < H,
                    0 <= x <= W,
                    <T as PartialEqSpec>::obeys_eq_spec() ==> forall|j: int, i: int|
                        0 <= j < y && 0 <= i < W as int ==> !((#[trigger] self@[j][i]) is Some
                            && self@[j][i].unwrap().eq_spec(value)),
                    <T as PartialEqSpec>::obeys_eq_spec() ==> forall|i: int|
                        0 <= i < x ==> !((#[trigger] self@[y as int][i]) is Some
                            && self@[y as int][i].unwrap().eq_spec(value)),
                decreases W - x,
            {
                match self.get((x, y)) {
                    Some(v) => {
                        if v == value {
                            return true;
                        }
                    },
                    None => {},
                }
                x = x + 1;
            }
            y = y + 1;
        }
        false
    }
}

} // verus!
