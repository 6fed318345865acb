//! Solver over the transform-carrying tile model: cells hold optional lists
//! of transformed tiles and collapse to a single choice per cell.
//!
//! The adjacency theorem for finished grids is stated and proved for the
//! primary solver; this one carries the contracts on shrinking, error
//! reporting and the shape of its results.

use vstd::prelude::*;

use crate::generation::tile::{
    g_set_connects_at, gconnects, gtransformed, gtt_views, GTtView, Side, Tile, TransformedTile,
};
use crate::vec_grid::VecGrid;

verus! {

/// Contains errors that can be encountered while working with the generator
#[derive(Clone, Copy, Debug, PartialEq, Eq, Structural)]
pub enum Error {
    EmptySet,
    InvalidIndex,
    InvalidWeight,
    MissingSet,
    MissingTile,
}

/// The candidate count a cell contributes: zero when the cell is absent.
pub open spec fn g_cell_len<const P: usize>(c: Option<Vec<TransformedTile<P>>>) -> int {
    match c {
        Some(v) => v@.len() as int,
        None => 0,
    }
}

/// The summed candidate count of one row of cells.
pub open spec fn g_row_entropy<const P: usize>(row: Seq<Option<Vec<TransformedTile<P>>>>) -> int
    decreases row.len(),
{
    if row.len() == 0 {
        0
    } else {
        g_row_entropy(row.drop_last()) + g_cell_len(row.last())
    }
}

/// The summed candidate count of a whole grid of cells.
pub open spec fn g_grid_entropy<const P: usize>(
    g: Seq<Seq<Option<Vec<TransformedTile<P>>>>>,
) -> int
    decreases g.len(),
{
    if g.len() == 0 {
        0
    } else {
        g_grid_entropy(g.drop_last()) + g_row_entropy(g.last())
    }
}

/// A row's entropy is never negative.
proof fn lemma_g_row_entropy_nonneg<const P: usize>(row: Seq<Option<Vec<TransformedTile<P>>>>)
    ensures
        g_row_entropy(row) >= 0,
    decreases row.len(),
{
    if row.len() > 0 {
        lemma_g_row_entropy_nonneg(row.drop_last());
    }
}

/// A grid's entropy is never negative.
proof fn lemma_g_grid_entropy_nonneg<const P: usize>(
    g: Seq<Seq<Option<Vec<TransformedTile<P>>>>>,
)
    ensures
        g_grid_entropy(g) >= 0,
    decreases g.len(),
{
    if g.len() > 0 {
        lemma_g_grid_entropy_nonneg(g.drop_last());
        lemma_g_row_entropy_nonneg(g.last());
    }
}

/// Prefix sums of a row's entropy grow by one cell's count at a time.
proof fn lemma_g_row_entropy_take<const P: usize>(
    row: Seq<Option<Vec<TransformedTile<P>>>>,
    i: int,
)
    requires
        0 <= i < row.len(),
    ensures
        g_row_entropy(row.take(i + 1)) == g_row_entropy(row.take(i)) + g_cell_len(row[i]),
{
    assert(row.take(i + 1).drop_last() =~= row.take(i));
    assert(row.take(i + 1).last() == row[i]);
}

/// Prefix sums of a grid's entropy grow by one row at a time.
proof fn lemma_g_grid_entropy_take<const P: usize>(
    g: Seq<Seq<Option<Vec<TransformedTile<P>>>>>,
    j: int,
)
    requires
        0 <= j < g.len(),
    ensures
        g_grid_entropy(g.take(j + 1)) == g_grid_entropy(g.take(j)) + g_row_entropy(g[j]),
{
    assert(g.take(j + 1).drop_last() =~= g.take(j));
    assert(g.take(j + 1).last() == g[j]);
}

/// A prefix of a row carries no more entropy than the row.
proof fn lemma_g_row_entropy_take_le<const P: usize>(
    row: Seq<Option<Vec<TransformedTile<P>>>>,
    i: int,
)
    requires
        0 <= i <= row.len(),
    ensures
        g_row_entropy(row.take(i)) <= g_row_entropy(row),
    decreases row.len() - i,
{
    if i == row.len() {
        assert(row.take(i) =~= row);
    } else {
        lemma_g_row_entropy_take(row, i);
        lemma_g_row_entropy_take_le(row, i + 1);
    }
}

/// A prefix of a grid carries no more entropy than the grid.
proof fn lemma_g_grid_entropy_take_le<const P: usize>(
    g: Seq<Seq<Option<Vec<TransformedTile<P>>>>>,
    j: int,
)
    requires
        0 <= j <= g.len(),
    ensures
        g_grid_entropy(g.take(j)) <= g_grid_entropy(g),
    decreases g.len() - j,
{
    if j == g.len() {
        assert(g.take(j) =~= g);
    } else {
        lemma_g_grid_entropy_take(g, j);
        lemma_g_row_entropy_nonneg(g[j]);
        lemma_g_grid_entropy_take_le(g, j + 1);
    }
}

/// Replacing one cell of a row shifts the row's entropy by the difference of
/// the two cells' counts.
proof fn lemma_g_row_entropy_update<const P: usize>(
    row: Seq<Option<Vec<TransformedTile<P>>>>,
    i: int,
    c: Option<Vec<TransformedTile<P>>>,
)
    requires
        0 <= i < row.len(),
    ensures
        g_row_entropy(row.update(i, c)) == g_row_entropy(row) - g_cell_len(row[i]) + g_cell_len(c),
    decreases row.len(),
{
    let upd = row.update(i, c);
    if i == row.len() - 1 {
        assert(upd.drop_last() =~= row.drop_last());
        assert(upd.last() == c);
    } else {
        assert(upd.drop_last() =~= row.drop_last().update(i, c));
        assert(upd.last() == row.last());
        lemma_g_row_entropy_update(row.drop_last(), i, c);
    }
}

/// Replacing one row of a grid shifts the grid's entropy by the difference of
/// the two rows' entropies.
proof fn lemma_g_grid_entropy_update<const P: usize>(
    g: Seq<Seq<Option<Vec<TransformedTile<P>>>>>,
    j: int,
    r: Seq<Option<Vec<TransformedTile<P>>>>,
)
    requires
        0 <= j < g.len(),
    ensures
        g_grid_entropy(g.update(j, r)) == g_grid_entropy(g) - g_row_entropy(g[j]) + g_row_entropy(
            r,
        ),
    decreases g.len(),
{
    let upd = g.update(j, r);
    if j == g.len() - 1 {
        assert(upd.drop_last() =~= g.drop_last());
        assert(upd.last() == r);
    } else {
        assert(upd.drop_last() =~= g.drop_last().update(j, r));
        assert(upd.last() == g.last());
        lemma_g_grid_entropy_update(g.drop_last(), j, r);
    }
}

/// Whether some tile of `s` equals `t`.
pub open spec fn g_has_eq(s: Seq<GTtView>, t: GTtView) -> bool {
    exists|i: int| 0 <= i < s.len() && s[i] == t
}

/// The list with every tile dropped that repeats an earlier one.
pub open spec fn gdedup_views(s: Seq<GTtView>) -> Seq<GTtView>
    decreases s.len(),
{
    if s.len() == 0 {
        Seq::empty()
    } else {
        let rest = gdedup_views(s.drop_last());
        if g_has_eq(s.drop_last(), s.last()) {
            rest
        } else {
            rest.push(s.last())
        }
    }
}

/// Deduplication keeps exactly the tiles of the original list.
proof fn lemma_gdedup_membership(s: Seq<GTtView>, t: GTtView)
    ensures
        g_has_eq(gdedup_views(s), t) == g_has_eq(s, t),
    decreases s.len(),
{
    if s.len() > 0 {
        lemma_gdedup_membership(s.drop_last(), t);
        let rest = gdedup_views(s.drop_last());
        if g_has_eq(s.drop_last(), s.last()) {
            if g_has_eq(s, t) && !g_has_eq(s.drop_last(), t) {
                let i = choose|i: int| 0 <= i < s.len() && s[i] == t;
                if i < s.len() - 1 {
                    assert(s.drop_last()[i] == s[i]);
                }
                assert(i == s.len() - 1);
                let j = choose|j: int|
                    0 <= j < s.drop_last().len() && s.drop_last()[j] == s.last();
                assert(s.drop_last()[j] == t);
            }
        } else {
            let out = rest.push(s.last());
            if g_has_eq(s, t) {
                let i = choose|i: int| 0 <= i < s.len() && s[i] == t;
                if i < s.len() - 1 {
                    assert(s.drop_last()[i] == s[i]);
                    assert(g_has_eq(s.drop_last(), t));
                    let j = choose|j: int| 0 <= j < rest.len() && rest[j] == t;
                    assert(out[j] == rest[j]);
                } else {
                    assert(out[out.len() - 1] == s.last());
                }
                assert(g_has_eq(out, t));
            }
            if g_has_eq(out, t) {
                let i = choose|i: int| 0 <= i < out.len() && out[i] == t;
                if i < out.len() - 1 {
                    assert(out[i] == rest[i]);
                    assert(g_has_eq(rest, t));
                } else {
                    assert(out[i] == s.last());
                    assert(s[s.len() - 1] == s.last());
                }
                assert(g_has_eq(s, t));
            }
        }
    }
}

/// Returns `true` if some tile in the list equals `t`.
fn g_contains_tile<const P: usize>(v: &Vec<TransformedTile<P>>, t: &TransformedTile<P>) -> (r:
    bool)
    ensures
        r == g_has_eq(gtt_views(v@), t@),
{
    let n = v.len();
    let mut i: usize = 0;
    while i < n
        invariant
            n == v@.len(),
            0 <= i <= n,
            forall|k: int| 0 <= k < i ==> gtt_views(v@)[k] != t@,
        decreases n - i,
    {
        if &v[i] == t {
            assert(gtt_views(v@)[i as int] == t@);
            return true;
        }
        i = i + 1;
    }
    false
}

/// Removes every tile that repeats an earlier one of the list, keeping the
/// first occurrence of each in order.
fn gdedup<const P: usize>(tiles: &Vec<TransformedTile<P>>) -> (r: Vec<TransformedTile<P>>)
    ensures
        gtt_views(r@) == gdedup_views(gtt_views(tiles@)),
{
    let mut out: Vec<TransformedTile<P>> = Vec::new();
    let n = tiles.len();
    let mut i: usize = 0;
    while i < n
        invariant
            n == tiles@.len(),
            0 <= i <= n,
            gtt_views(out@) == gdedup_views(gtt_views(tiles@).take(i as int)),
        decreases n - i,
    {
        let ghost prefix = gtt_views(tiles@).take(i as int);
        let ghost all = gtt_views(tiles@);
        proof {
            assert(all.take(i + 1).drop_last() =~= prefix);
            assert(all.take(i + 1).last() == tiles@[i as int]@);
            lemma_gdedup_membership(prefix, tiles@[i as int]@);
        }
        let ghost before = gtt_views(out@);
        if !g_contains_tile(&out, &tiles[i]) {
            out.push(tiles[i].clone());
            proof {
                assert(gtt_views(out@) =~= before.push(tiles@[i as int]@));
                assert(gtt_views(out@) =~= gdedup_views(all.take(i + 1)));
            }
        } else {
            proof {
                assert(gtt_views(out@) =~= gdedup_views(all.take(i + 1)));
            }
        }
        i = i + 1;
    }
    proof {
        assert(gtt_views(tiles@).take(n as int) =~= gtt_views(tiles@));
    }
    out
}

/// Copies a list of transformed tiles, value for value.
fn clone_tts<const P: usize>(tiles: &Vec<TransformedTile<P>>) -> (r: Vec<TransformedTile<P>>)
    ensures
        gtt_views(r@) == gtt_views(tiles@),
{
    let mut out: Vec<TransformedTile<P>> = Vec::new();
    let n = tiles.len();
    let mut i: usize = 0;
    while i < n
        invariant
            n == tiles@.len(),
            0 <= i <= n,
            out@.len() == i,
            forall|k: int| 0 <= k < i ==> #[trigger] out@[k]@ == tiles@[k]@,
        decreases n - i,
    {
        out.push(tiles[i].clone());
        i = i + 1;
    }
    proof {
        assert(gtt_views(out@) =~= gtt_views(tiles@));
    }
    out
}

/// Builds the sublist of `cell` whose tiles some tile of `snapshot` accepts
/// across side `side` of the snapshot's own cell, comparing effective
/// sockets.
fn filter_supported<const P: usize>(
    snapshot: &Vec<TransformedTile<P>>,
    cell: &Vec<TransformedTile<P>>,
    side: Side,
) -> (r: Vec<TransformedTile<P>>)
    ensures
        gtt_views(r@) == gtt_views(cell@).filter(
            |t: GTtView| g_set_connects_at(gtt_views(snapshot@), t, side),
        ),
{
    let ghost keep = |t: GTtView| g_set_connects_at(gtt_views(snapshot@), t, side);
    let mut out: Vec<TransformedTile<P>> = Vec::new();
    let n = cell.len();
    let mut i: usize = 0;
    while i < n
        invariant
            n == cell@.len(),
            0 <= i <= n,
            keep == (|t: GTtView| g_set_connects_at(gtt_views(snapshot@), t, side)),
            gtt_views(out@) == gtt_views(cell@).take(i as int).filter(keep),
        decreases n - i,
    {
        let ghost prefix = gtt_views(cell@).take(i as int);
        let ghost all = gtt_views(cell@);
        proof {
            assert(all[i as int] == cell@[i as int]@);
            assert(all.take(i + 1) =~= prefix + seq![all[i as int]]);
            Seq::<GTtView>::filter_distributes_over_add(prefix, seq![all[i as int]], keep);
            reveal_with_fuel(Seq::<_>::filter, 3);
            assert(seq![all[i as int]].drop_last() =~= Seq::<GTtView>::empty());
        }
        let supported = connects_any(snapshot, &cell[i], side);
        if supported {
            out.push(cell[i].clone());
            proof {
                assert(seq![all[i as int]].filter(keep) =~= seq![all[i as int]]);
                assert(gtt_views(out@) =~= all.take(i + 1).filter(keep));
            }
        } else {
            proof {
                assert(seq![all[i as int]].filter(keep) =~= Seq::<GTtView>::empty());
                assert(gtt_views(out@) =~= all.take(i + 1).filter(keep));
            }
        }
        i = i + 1;
    }
    proof {
        assert(gtt_views(cell@).take(n as int) =~= gtt_views(cell@));
    }
    out
}

/// Returns `true` if some tile of the list accepts `tile` across `side` of
/// the list's own cell, comparing effective sockets.
fn connects_any<const P: usize>(
    list: &Vec<TransformedTile<P>>,
    tile: &TransformedTile<P>,
    side: Side,
) -> (r: bool)
    ensures
        r == g_set_connects_at(gtt_views(list@), tile@, side),
{
    let target: Tile<P> = tile.transformed();
    let n = list.len();
    let mut i: usize = 0;
    while i < n
        invariant
            n == list@.len(),
            target@ == gtransformed(tile@),
            0 <= i <= n,
            forall|k: int|
                0 <= k < i ==> !gconnects(
                    gtransformed(#[trigger] gtt_views(list@)[k]),
                    gtransformed(tile@),
                    side,
                ),
        decreases n - i,
    {
        let mine = list[i].transformed();
        if mine.connects_to(&target, side) {
            assert(gconnects(gtransformed(gtt_views(list@)[i as int]), gtransformed(tile@), side));
            return true;
        }
        i = i + 1;
    }
    false
}

/// Returns `true` if the list holds the given position.
fn holds_pos(v: &Vec<(usize, usize)>, q: (usize, usize)) -> (r: bool)
    ensures
        r == v@.contains(q),
{
    let n = v.len();
    let mut i: usize = 0;
    while i < n
        invariant
            n == v@.len(),
            0 <= i <= n,
            forall|k: int| 0 <= k < i ==> v@[k] != q,
        decreases n - i,
    {
        let e = v[i];
        if e.0 == q.0 && e.1 == q.1 {
            assert(v@[i as int] == q);
            return true;
        }
        i = i + 1;
    }
    false
}

/// Implements the wave function collapse algorithm
pub struct Generator<const P: usize> {
    grid: VecGrid<Vec<TransformedTile<P>>>,
    rng: rand::rngs::StdRng,
}

impl<const P: usize> Generator<P> {
    /// The number of columns of the generator's grid.
    pub closed spec fn spec_width(&self) -> int {
        self.grid.spec_width()
    }

    /// The number of rows of the generator's grid.
    pub closed spec fn spec_height(&self) -> int {
        self.grid.spec_height()
    }

    /// Whether `p` lies on the generator's grid.
    pub open spec fn spec_in_bounds(&self, p: (usize, usize)) -> bool {
        p.0 < self.spec_width() && p.1 < self.spec_height()
    }

    /// The candidates of the cell at `p`, in order.
    pub closed spec fn cellv(&self, p: (usize, usize)) -> Seq<GTtView> {
        gtt_views(self.grid@[p.1 as int][p.0 as int].unwrap()@)
    }

    /// Whether the cell at `p` is present at all.
    pub closed spec fn cell_present(&self, p: (usize, usize)) -> bool {
        self.grid@[p.1 as int][p.0 as int] is Some
    }

    /// The summed candidate count over all cells.
    pub closed spec fn spec_entropy(&self) -> int {
        g_grid_entropy(self.grid@)
    }

    /// A generator is well formed when its grid is rectangular and every cell
    /// on it is present.
    pub closed spec fn wf(&self) -> bool {
        &&& self.grid.wf()
        &&& forall|p: (usize, usize)| self.spec_in_bounds(p) ==> #[trigger] self.cell_present(p)
    }

    /// Whether every cell holds exactly one candidate.
    pub open spec fn spec_is_collapsed(&self) -> bool {
        forall|p: (usize, usize)| self.spec_in_bounds(p) ==> (#[trigger] self.cellv(p)).len() == 1
    }
}

/// Every candidate of the cell at `q` has, among the candidates of the cell
/// at `p`, a tile whose effective sockets accept it across the side of `p`
/// facing `q`.
pub open spec fn g_supported<const P: usize>(
    g: &Generator<P>,
    p: (usize, usize),
    q: (usize, usize),
) -> bool {
    forall|k: int|
        0 <= k < g.cellv(q).len() ==> g_set_connects_at(
            g.cellv(p),
            #[trigger] g.cellv(q)[k],
            Side::spec_relative(p, q),
        )
}

/// The whole grid is arc-consistent: every adjacent pair of cells supports
/// each other's remaining candidates.
pub open spec fn g_arc_consistent<const P: usize>(g: &Generator<P>) -> bool {
    forall|p: (usize, usize), q: (usize, usize)|
        g.spec_in_bounds(p) && g.spec_in_bounds(q) && crate::wfc::four_adjacent(p, q)
            ==> #[trigger] g_supported(g, p, q)
}

/// Arc-consistency holds except possibly where a pending cell is the
/// supporting side of a pair.
pub open spec fn g_pending_consistent<const P: usize>(
    g: &Generator<P>,
    pending: Seq<(usize, usize)>,
) -> bool {
    forall|p: (usize, usize), q: (usize, usize)|
        g.spec_in_bounds(p) && g.spec_in_bounds(q) && crate::wfc::four_adjacent(p, q)
            && !pending.contains(p) ==> #[trigger] g_supported(g, p, q)
}

/// As `g_pending_consistent`, with one further cell `c` exempted.
pub open spec fn g_pending_consistent_except<const P: usize>(
    g: &Generator<P>,
    pending: Seq<(usize, usize)>,
    c: (usize, usize),
) -> bool {
    forall|p: (usize, usize), q: (usize, usize)|
        g.spec_in_bounds(p) && g.spec_in_bounds(q) && crate::wfc::four_adjacent(p, q)
            && !pending.contains(p) && p != c ==> #[trigger] g_supported(g, p, q)
}

/// Support survives shrinking of the supported cell, as long as the
/// supporting cell keeps its candidates.
proof fn lemma_g_supported_shrink<const P: usize>(
    g1: &Generator<P>,
    g2: &Generator<P>,
    p: (usize, usize),
    q: (usize, usize),
)
    requires
        g_supported(g1, p, q),
        g2.cellv(p) == g1.cellv(p),
        gwithin(g2.cellv(q), g1.cellv(q)),
    ensures
        g_supported(g2, p, q),
{
    assert forall|k: int| 0 <= k < g2.cellv(q).len() implies g_set_connects_at(
        g2.cellv(p),
        #[trigger] g2.cellv(q)[k],
        Side::spec_relative(p, q),
    ) by {
        let t = g2.cellv(q)[k];
        assert(g1.cellv(q).contains(t));
        let m = choose|m: int| 0 <= m < g1.cellv(q).len() && g1.cellv(q)[m] == t;
        assert(g_set_connects_at(g1.cellv(p), g1.cellv(q)[m], Side::spec_relative(p, q)));
    }
}

/// Generators with the same cells support the same pairs.
proof fn lemma_g_same_cells_arc<const P: usize>(a: &Generator<P>, b: &Generator<P>)
    requires
        a.spec_width() == b.spec_width(),
        a.spec_height() == b.spec_height(),
        forall|z: (usize, usize)| a.spec_in_bounds(z) ==> #[trigger] a.cellv(z) == b.cellv(z),
        g_arc_consistent(b),
    ensures
        g_arc_consistent(a),
{
    assert forall|p: (usize, usize), q: (usize, usize)|
        a.spec_in_bounds(p) && a.spec_in_bounds(q) && crate::wfc::four_adjacent(p, q)
            implies #[trigger] g_supported(a, p, q) by {
        assert(g_supported(b, p, q));
        assert(a.cellv(p) == b.cellv(p));
        assert(a.cellv(q) == b.cellv(q));
        assert forall|k: int| 0 <= k < a.cellv(q).len() implies g_set_connects_at(
            a.cellv(p),
            #[trigger] a.cellv(q)[k],
            Side::spec_relative(p, q),
        ) by {
            assert(g_set_connects_at(b.cellv(p), b.cellv(q)[k], Side::spec_relative(p, q)));
        }
    }
}

/// Every tile of `a` occurs in `b`.
pub open spec fn gwithin(a: Seq<GTtView>, b: Seq<GTtView>) -> bool {
    forall|k: int| 0 <= k < a.len() ==> b.contains(#[trigger] a[k])
}

/// `b` narrows `a`: same grid size, and every cell of `b` holds a selection
/// of the candidates the same cell of `a` held, in the order it held them.
pub open spec fn gnarrows<const P: usize>(b: &Generator<P>, a: &Generator<P>) -> bool {
    &&& b.spec_width() == a.spec_width()
    &&& b.spec_height() == a.spec_height()
    &&& forall|p: (usize, usize)|
        a.spec_in_bounds(p) ==> gwithin(#[trigger] b.cellv(p), a.cellv(p)) && b.cellv(p).len()
            <= a.cellv(p).len() && crate::wfc::subseq_of(b.cellv(p), a.cellv(p))
}

/// Every generator narrows itself.
proof fn lemma_gnarrows_refl<const P: usize>(a: &Generator<P>)
    ensures
        gnarrows(a, a),
{
    assert forall|p: (usize, usize)|
        a.spec_in_bounds(p) implies gwithin(#[trigger] a.cellv(p), a.cellv(p)) && a.cellv(
        p,
    ).len() <= a.cellv(p).len() && crate::wfc::subseq_of(a.cellv(p), a.cellv(p)) by {
        assert forall|k: int| 0 <= k < a.cellv(p).len() implies a.cellv(p).contains(
            #[trigger] a.cellv(p)[k],
        ) by {}
        crate::wfc::lemma_subseq_refl(a.cellv(p));
    }
}

/// A generator with the same cells as another narrows it.
proof fn lemma_gnarrows_of_equal<const P: usize>(b: &Generator<P>, a: &Generator<P>)
    requires
        b.spec_width() == a.spec_width(),
        b.spec_height() == a.spec_height(),
        forall|z: (usize, usize)| a.spec_in_bounds(z) ==> #[trigger] b.cellv(z) == a.cellv(z),
    ensures
        gnarrows(b, a),
{
    assert forall|p: (usize, usize)|
        a.spec_in_bounds(p) implies gwithin(#[trigger] b.cellv(p), a.cellv(p)) && b.cellv(
        p,
    ).len() <= a.cellv(p).len() && crate::wfc::subseq_of(b.cellv(p), a.cellv(p)) by {
        assert(b.cellv(p) == a.cellv(p));
        assert forall|k: int| 0 <= k < b.cellv(p).len() implies a.cellv(p).contains(
            #[trigger] b.cellv(p)[k],
        ) by {
            assert(a.cellv(p)[k] == b.cellv(p)[k]);
        }
        crate::wfc::lemma_subseq_refl(a.cellv(p));
    }
}

/// Narrowing of cells is transitive.
proof fn lemma_gwithin_trans(a: Seq<GTtView>, b: Seq<GTtView>, c: Seq<GTtView>)
    requires
        gwithin(a, b),
        gwithin(b, c),
    ensures
        gwithin(a, c),
{
    assert forall|k: int| 0 <= k < a.len() implies c.contains(#[trigger] a[k]) by {
        let j = choose|j: int| 0 <= j < b.len() && b[j] == a[k];
        assert(c.contains(b[j]));
    }
}

/// Every element kept by a filter occurs in the original sequence.
proof fn lemma_g_filter_sub(s: Seq<GTtView>, pred: spec_fn(GTtView) -> bool)
    ensures
        forall|k: int|
            0 <= k < s.filter(pred).len() ==> s.contains(#[trigger] s.filter(pred)[k]),
    decreases s.len(),
{
    reveal(Seq::filter);
    if s.len() > 0 {
        lemma_g_filter_sub(s.drop_last(), pred);
        let rest = s.drop_last().filter(pred);
        assert forall|k: int|
            0 <= k < s.filter(pred).len() implies s.contains(#[trigger] s.filter(pred)[k]) by {
            if k < rest.len() {
                assert(s.filter(pred)[k] == rest[k]);
                let i = choose|i: int| 0 <= i < s.drop_last().len() && s.drop_last()[i] == rest[k];
                assert(s[i] == rest[k]);
            } else {
                assert(s.filter(pred)[k] == s.last());
                assert(s[s.len() - 1] == s.last());
            }
        }
    }
}

impl<const P: usize> Generator<P> {
    /// Creates a new generator: every cell starts with the provided list of
    /// tiles, tiles that repeat an earlier one dropped.
    pub fn new(width: usize, height: usize, tiles: &Vec<TransformedTile<P>>) -> (r: Self)
        ensures
            r.wf(),
            r.spec_height() == height,
            height > 0 ==> r.spec_width() == width,
            height == 0 ==> r.spec_width() == 0,
            forall|p: (usize, usize)|
                r.spec_in_bounds(p) ==> #[trigger] r.cellv(p) == gdedup_views(
                    gtt_views(tiles@),
                ),
    {
        let deduped = gdedup(tiles);
        let ghost dv = gtt_views(deduped@);
        let grid = VecGrid::new_with(width, height, deduped);
        let r = Generator { grid, rng: crate::rng::rng_from_entropy() };
        proof {
            assert forall|p: (usize, usize)| r.spec_in_bounds(p) implies #[trigger] r.cellv(p)
                == gdedup_views(gtt_views(tiles@)) && r.cell_present(p) by {
                assert(r.grid@[p.1 as int][p.0 as int] is Some);
                let c = r.grid@[p.1 as int][p.0 as int].unwrap();
                assert(gtt_views(c@) =~= dv);
            }
        }
        r
    }

    /// Creates a new generator whose random choices are fixed by the given
    /// seed.
    pub fn with_seed(width: usize, height: usize, tiles: &Vec<TransformedTile<P>>, seed: u64) -> (r:
        Self)
        ensures
            r.wf(),
            r.spec_height() == height,
            height > 0 ==> r.spec_width() == width,
            height == 0 ==> r.spec_width() == 0,
            forall|p: (usize, usize)|
                r.spec_in_bounds(p) ==> #[trigger] r.cellv(p) == gdedup_views(
                    gtt_views(tiles@),
                ),
    {
        let deduped = gdedup(tiles);
        let ghost dv = gtt_views(deduped@);
        let grid = VecGrid::new_with(width, height, deduped);
        let r = Generator { grid, rng: crate::rng::rng_from_seed(seed) };
        proof {
            assert forall|p: (usize, usize)| r.spec_in_bounds(p) implies #[trigger] r.cellv(p)
                == gdedup_views(gtt_views(tiles@)) && r.cell_present(p) by {
                assert(r.grid@[p.1 as int][p.0 as int] is Some);
                let c = r.grid@[p.1 as int][p.0 as int].unwrap();
                assert(gtt_views(c@) =~= dv);
            }
        }
        r
    }

    /// Returns a reference to the generator's grid
    pub fn grid(&self) -> (r: &VecGrid<Vec<TransformedTile<P>>>)
        ensures
            self.wf() ==> r.wf(),
            r.spec_width() == self.spec_width(),
            r.spec_height() == self.spec_height(),
            forall|p: (usize, usize)|
                self.spec_in_bounds(p) && self.cell_present(p) ==> (
                #[trigger] r@[p.1 as int][p.0 as int]) is Some && gtt_views(
                    r@[p.1 as int][p.0 as int].unwrap()@,
                ) == self.cellv(p),
    {
        &self.grid
    }

    /// Returns the grid's total number of possible tiles
    pub fn entropy(&self) -> (r: usize)
        requires
            self.wf(),
            self.spec_entropy() <= usize::MAX,
        ensures
            r == self.spec_entropy(),
    {
        let width = self.grid.width();
        let height = self.grid.height();
        let mut acc: usize = 0;
        let mut y: usize = 0;
        proof {
            assert(self.grid@.take(0) =~= Seq::<Seq<Option<Vec<TransformedTile<P>>>>>::empty());
        }
        while y < height
            invariant
                self.wf(),
                self.spec_entropy() <= usize::MAX,
                width == self.spec_width(),
                height == self.spec_height(),
                0 <= y <= height,
                acc == g_grid_entropy(self.grid@.take(y as int)),
            decreases height - y,
        {
            let ghost row = self.grid@[y as int];
            let mut x: usize = 0;
            proof {
                assert(row.take(0) =~= Seq::<Option<Vec<TransformedTile<P>>>>::empty());
            }
            while x < width
                invariant
                    self.wf(),
                    self.spec_entropy() <= usize::MAX,
                    width == self.spec_width(),
                    height == self.spec_height(),
                    0 <= y < height,
                    0 <= x <= width,
                    row == self.grid@[y as int],
                    acc == g_grid_entropy(self.grid@.take(y as int)) + g_row_entropy(
                        row.take(x as int),
                    ),
                decreases width - x,
            {
                let l = match self.grid.get((x, y)) {
                    Some(cell) => cell.len(),
                    None => 0,
                };
                proof {
                    lemma_g_row_entropy_take(row, x as int);
                    lemma_g_row_entropy_take_le(row, x as int + 1);
                    lemma_g_grid_entropy_take(self.grid@, y as int);
                    lemma_g_grid_entropy_take_le(self.grid@, y as int + 1);
                    lemma_g_grid_entropy_nonneg(self.grid@.take(y as int));
                    lemma_g_row_entropy_nonneg(row.take(x as int));
                    assert(l as int == g_cell_len(row[x as int]));
                }
                acc = acc + l;
                x = x + 1;
            }
            proof {
                assert(row.take(width as int) =~= row);
                lemma_g_grid_entropy_take(self.grid@, y as int);
            }
            y = y + 1;
        }
        proof {
            assert(self.grid@.take(height as int) =~= self.grid@);
        }
        acc
    }

    /// Returns `true` if the grid has only one possible state
    pub fn is_collapsed(&self) -> (r: bool)
        requires
            self.wf(),
        ensures
            r == self.spec_is_collapsed(),
    {
        let width = self.grid.width();
        let height = self.grid.height();
        let mut y: usize = 0;
        while y < height
            invariant
                self.wf(),
                width == self.spec_width(),
                height == self.spec_height(),
                0 <= y <= height,
                forall|p: (usize, usize)|
                    self.spec_in_bounds(p) && p.1 < y ==> (#[trigger] self.cellv(p)).len() == 1,
            decreases height - y,
        {
            let mut x: usize = 0;
            while x < width
                invariant
                    self.wf(),
                    width == self.spec_width(),
                    height == self.spec_height(),
                    0 <= y < height,
                    0 <= x <= width,
                    forall|p: (usize, usize)|
                        self.spec_in_bounds(p) && p.1 < y ==> (#[trigger] self.cellv(p)).len()
                            == 1,
                    forall|p: (usize, usize)|
                        self.spec_in_bounds(p) && p.1 == y && p.0 < x ==> (#[trigger] self.cellv(
                            p,
                        )).len() == 1,
                decreases width - x,
            {
                proof {
                    assert(self.cell_present((x, y)));
                }
                let collapsed = match self.grid.get((x, y)) {
                    Some(cell) => {
                        proof {
                            assert(*cell == self.grid@[y as int][x as int].unwrap());
                        }
                        cell.len() == 1
                    },
                    None => {
                        proof {
                            assert(false);
                        }
                        false
                    },
                };
                if !collapsed {
                    assert(self.cellv((x, y)).len() != 1);
                    return false;
                }
                assert(self.cellv((x, y)).len() == 1);
                x = x + 1;
            }
            y = y + 1;
        }
        true
    }

    /// Returns `true` if the grid is entirely out of possible states, which should never happen
    pub fn is_empty(&self) -> (r: bool)
        requires
            self.wf(),
        ensures
            r == (forall|p: (usize, usize)|
                self.spec_in_bounds(p) ==> (#[trigger] self.cellv(p)).len() == 0),
    {
        let width = self.grid.width();
        let height = self.grid.height();
        let mut y: usize = 0;
        while y < height
            invariant
                self.wf(),
                width == self.spec_width(),
                height == self.spec_height(),
                0 <= y <= height,
                forall|p: (usize, usize)|
                    self.spec_in_bounds(p) && p.1 < y ==> (#[trigger] self.cellv(p)).len() == 0,
            decreases height - y,
        {
            let mut x: usize = 0;
            while x < width
                invariant
                    self.wf(),
                    width == self.spec_width(),
                    height == self.spec_height(),
                    0 <= y < height,
                    0 <= x <= width,
                    forall|p: (usize, usize)|
                        self.spec_in_bounds(p) && p.1 < y ==> (#[trigger] self.cellv(p)).len()
                            == 0,
                    forall|p: (usize, usize)|
                        self.spec_in_bounds(p) && p.1 == y && p.0 < x ==> (#[trigger] self.cellv(
                            p,
                        )).len() == 0,
                decreases width - x,
            {
                proof {
                    assert(self.cell_present((x, y)));
                }
                let cell_empty = match self.grid.get((x, y)) {
                    Some(cell) => {
                        proof {
                            assert(*cell == self.grid@[y as int][x as int].unwrap());
                        }
                        cell.len() == 0
                    },
                    None => {
                        proof {
                            assert(false);
                        }
                        false
                    },
                };
                if !cell_empty {
                    assert(self.cellv((x, y)).len() != 0);
                    return false;
                }
                assert(self.cellv((x, y)).len() == 0);
                x = x + 1;
            }
            y = y + 1;
        }
        true
    }

    /// Returns `true` if any space in the grid is out of possible states, which should never happen
    pub fn is_any_empty(&self) -> (r: bool)
        requires
            self.wf(),
        ensures
            r == (exists|p: (usize, usize)|
                self.spec_in_bounds(p) && (#[trigger] self.cellv(p)).len() == 0),
    {
        let width = self.grid.width();
        let height = self.grid.height();
        let mut y: usize = 0;
        while y < height
            invariant
                self.wf(),
                width == self.spec_width(),
                height == self.spec_height(),
                0 <= y <= height,
                forall|p: (usize, usize)|
                    self.spec_in_bounds(p) && p.1 < y ==> (#[trigger] self.cellv(p)).len() != 0,
            decreases height - y,
        {
            let mut x: usize = 0;
            while x < width
                invariant
                    self.wf(),
                    width == self.spec_width(),
                    height == self.spec_height(),
                    0 <= y < height,
                    0 <= x <= width,
                    forall|p: (usize, usize)|
                        self.spec_in_bounds(p) && p.1 < y ==> (#[trigger] self.cellv(p)).len()
                            != 0,
                    forall|p: (usize, usize)|
                        self.spec_in_bounds(p) && p.1 == y && p.0 < x ==> (#[trigger] self.cellv(
                            p,
                        )).len() != 0,
                decreases width - x,
            {
                proof {
                    assert(self.cell_present((x, y)));
                }
                let cell_empty = match self.grid.get((x, y)) {
                    Some(cell) => {
                        proof {
                            assert(*cell == self.grid@[y as int][x as int].unwrap());
                        }
                        cell.len() == 0
                    },
                    None => {
                        proof {
                            assert(false);
                        }
                        false
                    },
                };
                if cell_empty {
                    assert(self.cellv((x, y)).len() == 0);
                    return true;
                }
                assert(self.cellv((x, y)).len() != 0);
                x = x + 1;
            }
            y = y + 1;
        }
        false
    }

    /// Returns a list of possible grid indices that are directly adjacent to the provided coordinates
    pub fn adjacent(&self, position: (usize, usize)) -> (r: Vec<(usize, usize)>)
        ensures
            forall|k: int|
                0 <= k < r@.len() ==> {
                    let q = #[trigger] r@[k];
                    &&& self.spec_in_bounds(q)
                    &&& crate::wfc::four_adjacent(position, q)
                    &&& q != position
                },
            self.spec_in_bounds(position) ==> forall|q: (usize, usize)|
                self.spec_in_bounds(q) && crate::wfc::four_adjacent(position, q) ==> r@.contains(
                    q,
                ),
    {
        let (x, y) = position;
        let w = self.grid.width();
        let h = self.grid.height();
        let mut r: Vec<(usize, usize)> = Vec::new();
        if x > 0 && x - 1 < w && y < h {
            r.push((x - 1, y));
        }
        if x < usize::MAX && x + 1 < w && y < h {
            r.push((x + 1, y));
        }
        if y > 0 && y - 1 < h && x < w {
            r.push((x, y - 1));
        }
        if y < usize::MAX && y + 1 < h && x < w {
            r.push((x, y + 1));
        }
        proof {
            assert(r@ =~= crate::wfc::adjacent_spec(self.spec_width(), self.spec_height(), x, y));
            if self.spec_in_bounds(position) {
                assert forall|q: (usize, usize)|
                    self.spec_in_bounds(q) && crate::wfc::four_adjacent(position, q)
                        implies r@.contains(q) by {
                    if q.1 == y && q.0 + 1 == x {
                        assert(r@[0] == q);
                    } else if q.1 == y && q.0 == x + 1 {
                        assert(r@.contains(q)) by {
                            let i = if x > 0 {
                                1int
                            } else {
                                0int
                            };
                            assert(r@[i] == q);
                        }
                    } else if q.0 == x && q.1 + 1 == y {
                        assert(r@.contains(q)) by {
                            let i = (if x > 0 {
                                1int
                            } else {
                                0int
                            }) + (if x + 1 < self.spec_width() {
                                1int
                            } else {
                                0int
                            });
                            assert(r@[i] == q);
                        }
                    } else {
                        assert(q.0 == x && q.1 == y + 1);
                        assert(r@.contains(q)) by {
                            let i = (if x > 0 {
                                1int
                            } else {
                                0int
                            }) + (if x + 1 < self.spec_width() {
                                1int
                            } else {
                                0int
                            }) + (if y > 0 {
                                1int
                            } else {
                                0int
                            });
                            assert(r@[i] == q);
                        }
                    }
                }
            }
        }
        r
    }
}


impl<const P: usize> Generator<P> {
    /// Returns a grid index for the tile set with the lowest number of
    /// possible tiles among the cells still holding more than one, chosen
    /// uniformly at random among the tied cells.
    pub fn next_index(&mut self) -> (r: Result<(usize, usize), Error>)
        requires
            old(self).wf(),
        ensures
            final(self).wf(),
            final(self).spec_width() == old(self).spec_width(),
            final(self).spec_height() == old(self).spec_height(),
            forall|p: (usize, usize)|
                old(self).spec_in_bounds(p) ==> final(self).cellv(p) == #[trigger] old(
                    self,
                ).cellv(p),
            (r is Ok) <==> (exists|p: (usize, usize)|
                old(self).spec_in_bounds(p) && (#[trigger] old(self).cellv(p)).len() > 1),
            r is Err ==> r == Err::<(usize, usize), Error>(Error::MissingSet),
            r matches Ok(p) ==> {
                &&& old(self).spec_in_bounds(p)
                &&& old(self).cellv(p).len() > 1
                &&& forall|q: (usize, usize)|
                    old(self).spec_in_bounds(q) && (#[trigger] old(self).cellv(q)).len() > 1
                        ==> old(self).cellv(p).len() <= old(self).cellv(q).len()
            },
    {
        let width = self.grid.width();
        let height = self.grid.height();
        let mut cands: Vec<(usize, usize)> = Vec::new();
        let mut y: usize = 0;
        while y < height
            invariant
                self.wf(),
                width == self.spec_width(),
                height == self.spec_height(),
                0 <= y <= height,
                forall|k: int|
                    0 <= k < cands@.len() ==> {
                        let p = #[trigger] cands@[k];
                        self.spec_in_bounds(p) && self.cellv(p).len() > 1
                    },
                forall|p: (usize, usize)|
                    self.spec_in_bounds(p) && p.1 < y && (#[trigger] self.cellv(p)).len() > 1
                        ==> cands@.contains(p),
            decreases height - y,
        {
            let mut x: usize = 0;
            while x < width
                invariant
                    self.wf(),
                    width == self.spec_width(),
                    height == self.spec_height(),
                    0 <= y < height,
                    0 <= x <= width,
                    forall|k: int|
                        0 <= k < cands@.len() ==> {
                            let p = #[trigger] cands@[k];
                            self.spec_in_bounds(p) && self.cellv(p).len() > 1
                        },
                    forall|p: (usize, usize)|
                        self.spec_in_bounds(p) && p.1 < y && (#[trigger] self.cellv(p)).len() > 1
                            ==> cands@.contains(p),
                    forall|p: (usize, usize)|
                        self.spec_in_bounds(p) && p.1 == y && p.0 < x && (#[trigger] self.cellv(
                            p,
                        )).len() > 1 ==> cands@.contains(p),
                decreases width - x,
            {
                proof {
                    assert(self.cell_present((x, y)));
                }
                let more = match self.grid.get((x, y)) {
                    Some(cell) => {
                        proof {
                            assert(*cell == self.grid@[y as int][x as int].unwrap());
                        }
                        cell.len() > 1
                    },
                    None => {
                        proof {
                            assert(false);
                        }
                        false
                    },
                };
                let ghost old_cands = cands@;
                if more {
                    cands.push((x, y));
                }
                proof {
                    assert forall|p: (usize, usize)|
                        self.spec_in_bounds(p) && ((p.1 < y) || (p.1 == y && p.0 < x + 1)) && (
                        #[trigger] self.cellv(p)).len() > 1 implies cands@.contains(p) by {
                        if p == (x, y) {
                            assert(cands@[cands@.len() - 1] == p);
                        } else {
                            assert(old_cands.contains(p));
                            let k = choose|k: int|
                                0 <= k < old_cands.len() && old_cands[k] == p;
                            assert(cands@[k] == p);
                        }
                    }
                }
                x = x + 1;
            }
            y = y + 1;
        }
        if cands.len() == 0 {
            proof {
                assert forall|p: (usize, usize)|
                    self.spec_in_bounds(p) implies !((#[trigger] self.cellv(p)).len() > 1) by {
                    if self.cellv(p).len() > 1 {
                        assert(cands@.contains(p));
                    }
                }
            }
            return Err(Error::MissingSet);
        }
        let n = cands.len();
        let mut best: usize = 0;
        let mut have_best = false;
        let mut i: usize = 0;
        while i < n
            invariant
                self.wf(),
                n == cands@.len(),
                0 <= i <= n,
                n > 0,
                forall|k: int|
                    0 <= k < cands@.len() ==> {
                        let p = #[trigger] cands@[k];
                        self.spec_in_bounds(p) && self.cellv(p).len() > 1
                    },
                have_best == (i > 0),
                have_best ==> exists|k: int|
                    0 <= k < i && self.cellv(#[trigger] cands@[k]) =~= self.cellv(cands@[k])
                        && self.cellv(cands@[k]).len() == best,
                have_best ==> forall|k: int|
                    0 <= k < i ==> best <= self.cellv(#[trigger] cands@[k]).len(),
            decreases n - i,
        {
            let p = cands[i];
            proof {
                assert(self.cell_present(p));
            }
            let l = match self.grid.get(p) {
                Some(cell) => {
                    proof {
                        assert(*cell == self.grid@[p.1 as int][p.0 as int].unwrap());
                    }
                    cell.len()
                },
                None => {
                    proof {
                        assert(false);
                    }
                    return Err(Error::MissingSet);
                },
            };
            if !have_best || l < best {
                best = l;
                have_best = true;
            }
            i = i + 1;
        }
        let mut tied: Vec<(usize, usize)> = Vec::new();
        let mut i2: usize = 0;
        while i2 < n
            invariant
                self.wf(),
                n == cands@.len(),
                0 <= i2 <= n,
                forall|k: int|
                    0 <= k < cands@.len() ==> {
                        let p = #[trigger] cands@[k];
                        self.spec_in_bounds(p) && self.cellv(p).len() > 1
                    },
                forall|k: int|
                    0 <= k < tied@.len() ==> {
                        let p = #[trigger] tied@[k];
                        self.spec_in_bounds(p) && self.cellv(p).len() == best
                    },
                forall|k: int|
                    0 <= k < i2 && self.cellv(#[trigger] cands@[k]).len() == best
                        ==> tied@.contains(cands@[k]),
            decreases n - i2,
        {
            let p = cands[i2];
            proof {
                assert(self.cell_present(p));
            }
            let l = match self.grid.get(p) {
                Some(cell) => {
                    proof {
                        assert(*cell == self.grid@[p.1 as int][p.0 as int].unwrap());
                    }
                    cell.len()
                },
                None => {
                    proof {
                        assert(false);
                    }
                    return Err(Error::MissingSet);
                },
            };
            let ghost old_tied = tied@;
            if l == best {
                tied.push(p);
            }
            proof {
                assert forall|k: int|
                    0 <= k < i2 + 1 && self.cellv(#[trigger] cands@[k]).len() == best
                        implies tied@.contains(cands@[k]) by {
                    if k < i2 {
                        let m = choose|m: int| 0 <= m < old_tied.len() && old_tied[m] == cands@[k];
                        assert(tied@[m] == cands@[k]);
                    } else {
                        assert(tied@[tied@.len() - 1] == cands@[k]);
                    }
                }
            }
            i2 = i2 + 1;
        }
        proof {
            let k0 = choose|k: int|
                0 <= k < n && self.cellv(#[trigger] cands@[k]) =~= self.cellv(cands@[k])
                    && self.cellv(cands@[k]).len() == best;
            assert(tied@.contains(cands@[k0]));
        }
        let d = crate::rng::rand_below(&mut self.rng, tied.len() as u128);
        let di = d as usize;
        let p = tied[di];
        proof {
            assert(self.grid == old(self).grid);
            assert forall|q: (usize, usize)| self.spec_in_bounds(q) implies #[trigger] self.cellv(
                q,
            ) == old(self).cellv(q) by {}
            assert forall|q: (usize, usize)|
                self.spec_in_bounds(q) implies #[trigger] self.cell_present(q) by {
                assert(old(self).cell_present(q));
            }
            assert(self.wf());
            assert forall|q: (usize, usize)|
                old(self).spec_in_bounds(q) && (#[trigger] old(self).cellv(q)).len() > 1
                    implies old(self).cellv(p).len() <= old(self).cellv(q).len() by {
                assert(cands@.contains(q));
                let k = choose|k: int| 0 <= k < cands@.len() && cands@[k] == q;
                assert(best <= self.cellv(cands@[k]).len());
            }
            assert(exists|p2: (usize, usize)|
                old(self).spec_in_bounds(p2) && (#[trigger] old(self).cellv(p2)).len() > 1) by {
                assert(old(self).cellv(cands@[0]).len() > 1);
            }
        }
        Ok(p)
    }

    /// Collapses the tile set at the provided coordinates into a random
    /// possible tile, drawn in proportion to the tiles' weights.
    pub fn collapse(&mut self, position: (usize, usize)) -> (r: Result<(), Error>)
        requires
            old(self).wf(),
        ensures
            final(self).wf(),
            gnarrows(final(self), old(self)),
            !old(self).spec_in_bounds(position) ==> r == Err::<(), Error>(Error::MissingSet)
                && *final(self) == *old(self),
            old(self).spec_in_bounds(position) ==> r == Ok::<(), Error>(()) || r == Err::<
                (),
                Error,
            >(Error::EmptySet) || r == Err::<(), Error>(Error::InvalidWeight),
            old(self).spec_in_bounds(position) ==> {
                let c = old(self).cellv(position);
                &&& (c.len() == 0 ==> r == Err::<(), Error>(Error::EmptySet) && *final(self)
                    == *old(self))
                &&& (c.len() > 0 && crate::generation::tile::g_total_weight(c) == 0 ==> r
                    == Err::<(), Error>(Error::InvalidWeight) && *final(self) == *old(self))
                &&& (c.len() > 0 && crate::generation::tile::g_total_weight(c) > 0 ==> r
                    == Ok::<(), Error>(()) && exists|i: int|
                    0 <= i < c.len() && (#[trigger] c[i]).tile.weight > 0 && final(self).cellv(
                        position,
                    ) == seq![c[i]])
                &&& (forall|q: (usize, usize)|
                    old(self).spec_in_bounds(q) && q != position ==> final(self).cellv(q)
                        == #[trigger] old(self).cellv(q))
            },
    {
        if !self.grid.contains_index(position) {
            proof {
                lemma_gnarrows_refl(self);
            }
            return Err(Error::MissingSet);
        }
        let ghost c = self.cellv(position);
        proof {
            assert(self.cell_present(position));
        }
        let cell = match self.grid.get(position) {
            Some(cl) => cl,
            None => {
                proof {
                    assert(false);
                }
                return Err(Error::MissingSet);
            },
        };
        proof {
            assert(*cell == self.grid@[position.1 as int][position.0 as int].unwrap());
            assert(gtt_views(cell@) == c);
            assert forall|k: int| 0 <= k < c.len() implies (#[trigger] c[k]).tile.weight >= 0
                && c[k].tile.weight <= usize::MAX as int by {
                assert(c[k] == cell@[k]@);
                crate::generation::tile::lemma_tt_bounds(cell@[k]);
            }
        }
        if cell.len() == 0 {
            proof {
                lemma_gnarrows_refl(self);
            }
            return Err(Error::EmptySet);
        }
        let n = cell.len();
        let mut sum: u128 = 0;
        let mut i: usize = 0;
        while i < n
            invariant
                n == c.len(),
                n == cell@.len(),
                gtt_views(cell@) == c,
                forall|k: int| 0 <= k < c.len() ==> (#[trigger] c[k]).tile.weight >= 0,
                forall|k: int|
                    0 <= k < c.len() ==> (#[trigger] c[k]).tile.weight <= usize::MAX as int,
                0 <= i <= n,
                sum as int == crate::generation::tile::g_total_weight(c.take(i as int)),
                sum as int <= (i as int) * (usize::MAX as int),
            decreases n - i,
        {
            let t = cell[i].tile();
            let w = t.weight();
            proof {
                crate::generation::tile::lemma_g_total_weight_take(c, i as int);
                assert(c[i as int] == cell@[i as int]@);
                let m = usize::MAX as int;
                assert((i as int) * m + m == ((i as int) + 1) * m) by (nonlinear_arith);
                assert(((i as int) + 1) * m <= (m + 1) * m) by (nonlinear_arith)
                    requires
                        0 <= i as int <= m,
                        0 <= m,
                ;
                assert(m <= 0xffff_ffff_ffff_ffffint);
                assert((m + 1) * m <= 0x1_0000_0000_0000_0000int * 0xffff_ffff_ffff_ffffint)
                    by (nonlinear_arith)
                    requires
                        0 <= m,
                        m <= 0xffff_ffff_ffff_ffffint,
                ;
            }
            sum = sum + (w as u128);
            i = i + 1;
        }
        proof {
            assert(c.take(n as int) =~= c);
        }
        if sum == 0 {
            proof {
                lemma_gnarrows_refl(self);
            }
            return Err(Error::InvalidWeight);
        }
        let draw = crate::rng::rand_below(&mut self.rng, sum);
        let cell2 = match self.grid.get(position) {
            Some(cl) => cl,
            None => {
                proof {
                    assert(false);
                }
                return Err(Error::MissingSet);
            },
        };
        proof {
            assert(*cell2 == self.grid@[position.1 as int][position.0 as int].unwrap());
        }
        let mut acc: u128 = 0;
        let mut idx: usize = 0;
        let mut found = false;
        let mut j: usize = 0;
        while j < n
            invariant
                n == c.len(),
                n == cell2@.len(),
                gtt_views(cell2@) == c,
                forall|k: int| 0 <= k < c.len() ==> (#[trigger] c[k]).tile.weight >= 0,
                0 <= j <= n,
                sum as int == crate::generation::tile::g_total_weight(c),
                draw < sum,
                !found ==> acc as int == crate::generation::tile::g_total_weight(
                    c.take(j as int),
                ) && draw >= acc,
                found ==> idx < n && c[idx as int].tile.weight > 0,
            decreases n - j,
        {
            if !found {
                let t = cell2[j].tile();
                let w = t.weight();
                proof {
                    crate::generation::tile::lemma_g_total_weight_take(c, j as int);
                    crate::generation::tile::lemma_g_total_weight_take_le(c, j as int + 1);
                    assert(c[j as int] == cell2@[j as int]@);
                }
                if draw < acc + (w as u128) {
                    found = true;
                    idx = j;
                } else {
                    acc = acc + (w as u128);
                }
            }
            j = j + 1;
        }
        proof {
            if !found {
                assert(c.take(n as int) =~= c);
                assert(false);
            }
        }
        let chosen = cell2[idx].clone();
        let mut newvec: Vec<TransformedTile<P>> = Vec::new();
        newvec.push(chosen);
        let ghost newv = gtt_views(newvec@);
        proof {
            assert(newv =~= seq![c[idx as int]]);
        }
        let _ = self.grid.insert(position, newvec);
        proof {
            assert(self.cellv(position) == newv);
            assert forall|q: (usize, usize)|
                old(self).spec_in_bounds(q) && q != position implies final(self).cellv(q)
                    == #[trigger] old(self).cellv(q) && final(self).cell_present(q) by {
                assert(old(self).cell_present(q));
                if q.1 == position.1 {
                    assert(self.grid@[q.1 as int][q.0 as int]
                        == old(self).grid@[q.1 as int][q.0 as int]);
                }
            }
            assert forall|z: (usize, usize)|
                final(self).spec_in_bounds(z) implies #[trigger] final(self).cell_present(z) by {
                if z == position {
                    assert(final(self).grid@[z.1 as int][z.0 as int] is Some);
                } else {
                    assert(old(self).cell_present(z));
                    if z.1 == position.1 {
                        assert(self.grid@[z.1 as int][z.0 as int]
                            == old(self).grid@[z.1 as int][z.0 as int]);
                    }
                }
            }
            assert(final(self).wf());
            assert(gnarrows(final(self), old(self))) by {
                assert forall|q: (usize, usize)|
                    old(self).spec_in_bounds(q) implies gwithin(
                    #[trigger] final(self).cellv(q),
                    old(self).cellv(q),
                ) && final(self).cellv(q).len() <= old(self).cellv(q).len()
                    && crate::wfc::subseq_of(final(self).cellv(q), old(self).cellv(q)) by {
                    if q == position {
                        assert(final(self).cellv(q) == seq![c[idx as int]]);
                        assert(c.contains(c[idx as int]));
                        assert(c.len() >= 1);
                        crate::wfc::lemma_singleton_subseq(c, idx as int);
                    } else {
                        assert(final(self).cellv(q) == old(self).cellv(q));
                        assert forall|k: int|
                            0 <= k < final(self).cellv(q).len() implies old(self).cellv(
                            q,
                        ).contains(#[trigger] final(self).cellv(q)[k]) by {
                            assert(old(self).cellv(q)[k] == final(self).cellv(q)[k]);
                        }
                        crate::wfc::lemma_subseq_refl(old(self).cellv(q));
                    }
                }
            }
        }
        Ok(())
    }

    /// Runs the worklist to its fixpoint from the given seed cells: while
    /// some cell is pending, its neighbors lose every candidate whose
    /// effective sockets no candidate of the pending cell accepts, and a
    /// neighbor that lost candidates becomes pending in turn. Returns the
    /// number of cells processed, saturating.
    fn propagate_from(&mut self, stack0: Vec<(usize, usize)>) -> (loops: usize)
        requires
            old(self).wf(),
            forall|k: int|
                0 <= k < stack0@.len() ==> old(self).spec_in_bounds(#[trigger] stack0@[k]),
        ensures
            final(self).wf(),
            gnarrows(final(self), old(self)),
            g_pending_consistent(old(self), stack0@) ==> g_arc_consistent(final(self)),
            forall|p: (usize, usize)|
                old(self).spec_in_bounds(p) && (forall|q: (usize, usize)|
                    old(self).spec_in_bounds(q) ==> !crate::wfc::four_adjacent(p, q))
                    ==> final(self).cellv(p) == #[trigger] old(self).cellv(p),
            stack0@.len() > 0 ==> loops >= 1,
            g_arc_consistent(old(self)) ==> forall|z: (usize, usize)|
                old(self).spec_in_bounds(z) ==> #[trigger] final(self).cellv(z) == old(
                    self,
                ).cellv(z),
    {
        let ghost cond = g_pending_consistent(old(self), stack0@);
        let ghost cond2 = g_arc_consistent(old(self));
        let ghost mut popped: bool = false;
        let mut stack = stack0;
        let mut loops: usize = 0;
        proof {
            lemma_g_grid_entropy_nonneg(self.grid@);
            lemma_gnarrows_refl(self);
        }
        while stack.len() > 0
            invariant
                self.wf(),
                self.spec_width() == old(self).spec_width(),
                self.spec_height() == old(self).spec_height(),
                gnarrows(self, old(self)),
                forall|k: int|
                    0 <= k < stack@.len() ==> self.spec_in_bounds(#[trigger] stack@[k]),
                cond ==> forall|p2: (usize, usize), q2: (usize, usize)|
                    self.spec_in_bounds(p2) && self.spec_in_bounds(q2)
                        && crate::wfc::four_adjacent(p2, q2) && !stack@.contains(p2)
                        ==> #[trigger] g_supported(self, p2, q2),
                forall|p: (usize, usize)|
                    old(self).spec_in_bounds(p) && (forall|q: (usize, usize)|
                        old(self).spec_in_bounds(q) ==> !crate::wfc::four_adjacent(p, q))
                        ==> self.cellv(p) == #[trigger] old(self).cellv(p),
                cond2 == g_arc_consistent(old(self)),
                cond2 ==> forall|z: (usize, usize)|
                    old(self).spec_in_bounds(z) ==> #[trigger] self.cellv(z) == old(self).cellv(
                        z,
                    ),
                popped ==> loops >= 1,
                !popped ==> stack@ == stack0@,
                self.spec_entropy() >= 0,
            decreases self.spec_entropy(), stack@.len(),
        {
            let ghost entropy0 = self.spec_entropy();
            let ghost stack_prev = stack@;
            let p = match stack.pop() {
                Some(p) => p,
                None => {
                    proof {
                        assert(false);
                    }
                    return loops;
                },
            };
            let ghost stack_after_pop = stack@;
            proof {
                assert(self.cell_present(p));
                if cond {
                    assert forall|p2: (usize, usize), q2: (usize, usize)|
                        self.spec_in_bounds(p2) && self.spec_in_bounds(q2)
                            && crate::wfc::four_adjacent(p2, q2) && !stack@.contains(p2) && p2 != p
                            implies #[trigger] g_supported(self, p2, q2) by {
                        if stack_prev.contains(p2) {
                            let k = choose|k: int|
                                0 <= k < stack_prev.len() && stack_prev[k] == p2;
                            assert(stack_prev[stack_prev.len() - 1] == p);
                            assert(k < stack_prev.len() - 1);
                            assert(stack@[k] == stack_prev[k]);
                            assert(false);
                        }
                    }
                }
            }
            let snapshot = match self.grid.get(p) {
                Some(cl) => clone_tts(cl),
                None => {
                    proof {
                        assert(false);
                    }
                    return loops;
                },
            };
            proof {
                assert(gtt_views(snapshot@) == self.cellv(p));
            }
            let neighbors = self.adjacent(p);
            let nn = neighbors.len();
            let mut a: usize = 0;
            while a < nn
                invariant
                    self.wf(),
                    self.spec_width() == old(self).spec_width(),
                    self.spec_height() == old(self).spec_height(),
                    gnarrows(self, old(self)),
                    self.spec_in_bounds(p),
                    nn == neighbors@.len(),
                    0 <= a <= nn,
                    forall|k: int|
                        0 <= k < neighbors@.len() ==> {
                            let q = #[trigger] neighbors@[k];
                            &&& self.spec_in_bounds(q)
                            &&& crate::wfc::four_adjacent(p, q)
                            &&& q != p
                        },
                    forall|q: (usize, usize)|
                        self.spec_in_bounds(q) && crate::wfc::four_adjacent(p, q)
                            ==> neighbors@.contains(q),
                    self.cellv(p) == gtt_views(snapshot@),
                    forall|k: int|
                        0 <= k < stack@.len() ==> self.spec_in_bounds(#[trigger] stack@[k]),
                    cond ==> forall|p2: (usize, usize), q2: (usize, usize)|
                        self.spec_in_bounds(p2) && self.spec_in_bounds(q2)
                            && crate::wfc::four_adjacent(p2, q2) && !stack@.contains(p2) && p2
                            != p ==> #[trigger] g_supported(self, p2, q2),
                    cond ==> forall|j: int|
                        0 <= j < a ==> g_supported(self, p, #[trigger] neighbors@[j]),
                    forall|pz: (usize, usize)|
                        old(self).spec_in_bounds(pz) && (forall|q: (usize, usize)|
                            old(self).spec_in_bounds(q) ==> !crate::wfc::four_adjacent(pz, q))
                            ==> self.cellv(pz) == #[trigger] old(self).cellv(pz),
                    cond2 == g_arc_consistent(old(self)),
                    cond2 ==> forall|z: (usize, usize)|
                        old(self).spec_in_bounds(z) ==> #[trigger] self.cellv(z) == old(
                            self,
                        ).cellv(z),
                    cond2 ==> stack@ =~= stack_after_pop,
                    self.spec_entropy() >= 0,
                    self.spec_entropy() < entropy0 || (self.spec_entropy() == entropy0 && stack@
                        =~= stack_after_pop),
                decreases nn - a,
            {
                let ghost pre = *self;
                let q = neighbors[a];
                let side = Side::relative(p, q);
                proof {
                    assert(self.cell_present(q));
                }
                let qcell = match self.grid.get(q) {
                    Some(cl) => cl,
                    None => {
                        proof {
                            assert(false);
                        }
                        return loops;
                    },
                };
                proof {
                    assert(*qcell == self.grid@[q.1 as int][q.0 as int].unwrap());
                }
                let ghost qold = gtt_views(qcell@);
                proof {
                    assert(qold == pre.cellv(q));
                }
                let ghost keep = |t: GTtView| g_set_connects_at(gtt_views(snapshot@), t, side);
                let filtered = filter_supported(&snapshot, qcell, side);
                let qlen = qcell.len();
                let flen = filtered.len();
                proof {
                    qold.lemma_filter_len(keep);
                }
                if flen < qlen {
                    proof {
                        if cond2 {
                            // an arc-consistent grid loses nothing: the
                            // snapshot supports every candidate of the
                            // neighbor, so the filter keeps the whole cell
                            assert(old(self).spec_in_bounds(p));
                            assert(old(self).spec_in_bounds(q));
                            assert(crate::wfc::four_adjacent(p, q));
                            assert(g_supported(old(self), p, q));
                            assert(gtt_views(snapshot@) == old(self).cellv(p));
                            assert(qold == old(self).cellv(q));
                            assert forall|k: int| 0 <= k < qold.len() implies keep(
                                #[trigger] qold[k],
                            ) by {
                                assert(g_set_connects_at(
                                    old(self).cellv(p),
                                    old(self).cellv(q)[k],
                                    Side::spec_relative(p, q),
                                ));
                            }
                            crate::wfc::lemma_filter_keep_all(qold, keep);
                            assert(false);
                        }
                    }
                    let ghost fv = gtt_views(filtered@);
                    let _ = self.grid.insert(q, filtered);
                    proof {
                        assert forall|z: (usize, usize)|
                            pre.spec_in_bounds(z) && z != q implies self.cellv(z)
                                == #[trigger] pre.cellv(z) && self.cell_present(z) by {
                            assert(pre.cell_present(z));
                            if z.1 == q.1 {
                                assert(self.grid@[z.1 as int][z.0 as int]
                                    == pre.grid@[z.1 as int][z.0 as int]);
                            }
                        }
                        assert(self.cellv(q) == fv);
                        lemma_g_filter_sub(qold, keep);
                        assert(gwithin(fv, qold));
                        assert forall|z: (usize, usize)|
                            self.spec_in_bounds(z) implies #[trigger] self.cell_present(z) by {
                            if z == q {
                                assert(self.grid@[z.1 as int][z.0 as int] is Some);
                            } else {
                                assert(pre.cell_present(z));
                                if z.1 == q.1 {
                                    assert(self.grid@[z.1 as int][z.0 as int]
                                        == pre.grid@[z.1 as int][z.0 as int]);
                                }
                            }
                        }
                        assert(self.wf());
                        assert forall|z: (usize, usize)|
                            old(self).spec_in_bounds(z) implies gwithin(
                            #[trigger] self.cellv(z),
                            old(self).cellv(z),
                        ) && self.cellv(z).len() <= old(self).cellv(z).len()
                            && crate::wfc::subseq_of(self.cellv(z), old(self).cellv(z)) by {
                            if z == q {
                                lemma_gwithin_trans(fv, qold, old(self).cellv(q));
                                crate::wfc::lemma_filter_is_subseq(qold, keep);
                                assert(crate::wfc::subseq_of(qold, old(self).cellv(q)));
                                crate::wfc::lemma_subseq_trans(fv, qold, old(self).cellv(q));
                            } else {
                                assert(self.cellv(z) == pre.cellv(z));
                            }
                        }
                        // entropy strictly fell
                        let gy = pre.grid@;
                        let row = gy[q.1 as int];
                        assert((q.1 as int) < gy.len());
                        assert(row.len() == pre.spec_width());
                        assert((q.0 as int) < row.len());
                        lemma_g_row_entropy_update(
                            row,
                            q.0 as int,
                            self.grid@[q.1 as int][q.0 as int],
                        );
                        lemma_g_grid_entropy_update(gy, q.1 as int, self.grid@[q.1 as int]);
                        assert(self.grid@ =~= gy.update(
                            q.1 as int,
                            row.update(q.0 as int, self.grid@[q.1 as int][q.0 as int]),
                        ));
                        lemma_g_grid_entropy_nonneg(self.grid@);
                        // isolated cells stay untouched: q has the neighbor p
                        assert forall|pz: (usize, usize)|
                            old(self).spec_in_bounds(pz) && (forall|qz: (usize, usize)|
                                old(self).spec_in_bounds(qz) ==> !crate::wfc::four_adjacent(
                                    pz,
                                    qz,
                                )) implies self.cellv(pz) == #[trigger] old(self).cellv(pz) by {
                            if pz == q {
                                assert(crate::wfc::four_adjacent(pz, p));
                                assert(old(self).spec_in_bounds(p));
                                assert(false);
                            }
                            assert(self.cellv(pz) == pre.cellv(pz));
                        }
                    }
                    if !holds_pos(&stack, q) {
                        let ghost stack_pre = stack@;
                        stack.push(q);
                        proof {
                            assert(forall|z: (usize, usize)|
                                stack_pre.contains(z) ==> stack@.contains(z)) by {
                                assert forall|z: (usize, usize)|
                                    stack_pre.contains(z) implies stack@.contains(z) by {
                                    let k = choose|k: int|
                                        0 <= k < stack_pre.len() && stack_pre[k] == z;
                                    assert(stack@[k] == z);
                                }
                            }
                            assert(stack@.contains(q)) by {
                                assert(stack@[stack@.len() - 1] == q);
                            }
                        }
                    }
                    proof {
                        if cond {
                            assert forall|p2: (usize, usize), q2: (usize, usize)|
                                self.spec_in_bounds(p2) && self.spec_in_bounds(q2)
                                    && crate::wfc::four_adjacent(p2, q2) && !stack@.contains(p2)
                                    && p2 != p implies #[trigger] g_supported(self, p2, q2) by {
                                assert(stack@.contains(q));
                                assert(p2 != q);
                                assert(g_supported(&pre, p2, q2));
                                assert(self.cellv(p2) == pre.cellv(p2));
                                if q2 == q {
                                    lemma_g_supported_shrink(&pre, self, p2, q2);
                                } else {
                                    assert(self.cellv(q2) == pre.cellv(q2));
                                }
                            }
                            assert forall|j: int|
                                0 <= j < a + 1 implies g_supported(
                                self,
                                p,
                                #[trigger] neighbors@[j],
                            ) by {
                                if j == a {
                                    assert(self.cellv(q) == qold.filter(keep));
                                    assert forall|k: int|
                                        0 <= k < self.cellv(q).len() implies g_set_connects_at(
                                        self.cellv(p),
                                        #[trigger] self.cellv(q)[k],
                                        Side::spec_relative(p, q),
                                    ) by {
                                        qold.lemma_filter_pred(keep, k);
                                    }
                                } else {
                                    assert(g_supported(&pre, p, neighbors@[j]));
                                    assert(self.cellv(p) == pre.cellv(p));
                                    if neighbors@[j] == q {
                                        lemma_g_supported_shrink(&pre, self, p, q);
                                    } else {
                                        assert(self.cellv(neighbors@[j])
                                            == pre.cellv(neighbors@[j]));
                                    }
                                }
                            }
                        }
                    }
                } else {
                    proof {
                        crate::wfc::lemma_filter_all_g(qold, keep);
                        if cond {
                            assert forall|j: int|
                                0 <= j < a + 1 implies g_supported(
                                self,
                                p,
                                #[trigger] neighbors@[j],
                            ) by {
                                if j == a {
                                    assert(self.cellv(q) == qold);
                                    assert forall|k: int|
                                        0 <= k < self.cellv(q).len() implies g_set_connects_at(
                                        self.cellv(p),
                                        #[trigger] self.cellv(q)[k],
                                        Side::spec_relative(p, q),
                                    ) by {
                                        assert(keep(qold[k]));
                                    }
                                }
                            }
                        }
                    }
                }
                a = a + 1;
            }
            if loops < usize::MAX {
                loops = loops + 1;
            }
            proof {
                popped = true;
            }
            proof {
                if cond {
                    assert forall|p2: (usize, usize), q2: (usize, usize)|
                        self.spec_in_bounds(p2) && self.spec_in_bounds(q2)
                            && crate::wfc::four_adjacent(p2, q2) && !stack@.contains(p2)
                            implies #[trigger] g_supported(self, p2, q2) by {
                        if p2 == p {
                            assert(neighbors@.contains(q2));
                            let j = choose|j: int|
                                0 <= j < neighbors@.len() && neighbors@[j] == q2;
                            assert(g_supported(self, p, neighbors@[j]));
                        }
                    }
                }
            }
        }
        proof {
            if stack0@.len() > 0 {
                assert(popped);
            }
        }
        loops
    }

    /// Updates all tile sets surrounding the provided position until all
    /// affected sets have been updated; returns the number of worklist cells
    /// processed, at least the one provided.
    pub fn propogate(&mut self, position: (usize, usize)) -> (r: Result<usize, Error>)
        requires
            old(self).wf(),
        ensures
            final(self).wf(),
            gnarrows(final(self), old(self)),
            !old(self).spec_in_bounds(position) ==> r == Err::<usize, Error>(Error::MissingSet)
                && *final(self) == *old(self),
            old(self).spec_in_bounds(position) ==> r is Ok,
            r matches Ok(n) ==> n >= 1,
            old(self).spec_in_bounds(position) && g_pending_consistent_except(
                old(self),
                Seq::empty(),
                position,
            ) ==> g_arc_consistent(final(self)),
            forall|p: (usize, usize)|
                old(self).spec_in_bounds(p) && (forall|q: (usize, usize)|
                    old(self).spec_in_bounds(q) ==> !crate::wfc::four_adjacent(p, q))
                    ==> final(self).cellv(p) == #[trigger] old(self).cellv(p),
    {
        if !self.grid.contains_index(position) {
            proof {
                lemma_gnarrows_refl(self);
            }
            return Err(Error::MissingSet);
        }
        let mut seed: Vec<(usize, usize)> = Vec::new();
        seed.push(position);
        proof {
            assert(seed@[0] == position);
            if g_pending_consistent_except(old(self), Seq::empty(), position) {
                assert forall|p: (usize, usize), q: (usize, usize)|
                    old(self).spec_in_bounds(p) && old(self).spec_in_bounds(q)
                        && crate::wfc::four_adjacent(p, q) && !seed@.contains(p)
                        implies #[trigger] g_supported(old(self), p, q) by {
                    assert(p != position);
                    assert(!Seq::<(usize, usize)>::empty().contains(p));
                }
            }
        }
        let n = self.propagate_from(seed);
        Ok(n)
    }

    /// Runs the generator to completion: first the whole grid is brought to
    /// arc-consistency, then cells are observed, collapsed and propagated
    /// until every cell is down to one tile, which is then returned with its
    /// transform applied. Every pair of adjacent returned tiles satisfies the
    /// adjacency rule on their effective sockets. Progress reporting is left
    /// to the host, so the flag is unused here.
    #[verifier::rlimit(100)]
    pub fn run(&mut self, _silent: bool) -> (r: Result<VecGrid<Tile<P>>, Error>)
        requires
            old(self).wf(),
        ensures
            final(self).wf(),
            gnarrows(final(self), old(self)),
            r is Err ==> r == Err::<VecGrid<Tile<P>>, Error>(Error::EmptySet) || r == Err::<
                VecGrid<Tile<P>>,
                Error,
            >(Error::InvalidWeight) || r == Err::<VecGrid<Tile<P>>, Error>(Error::MissingSet),
            old(self).spec_is_collapsed() && g_arc_consistent(old(self)) ==> r is Ok,
            r matches Ok(out) ==> {
                &&& final(self).spec_is_collapsed()
                &&& out.spec_width() == old(self).spec_width()
                &&& out.spec_height() == old(self).spec_height()
                &&& forall|p: (usize, usize)|
                    old(self).spec_in_bounds(p) ==> (#[trigger] out@[p.1 as int][p.0 as int])
                        is Some && out@[p.1 as int][p.0 as int].unwrap()@ == gtransformed(
                        final(self).cellv(p)[0],
                    ) && old(self).cellv(p).contains(final(self).cellv(p)[0])
                &&& forall|p: (usize, usize), q: (usize, usize)|
                    old(self).spec_in_bounds(p) && old(self).spec_in_bounds(q)
                        && crate::wfc::four_adjacent(p, q) ==> #[trigger] gconnects(
                        out@[p.1 as int][p.0 as int].unwrap()@,
                        out@[q.1 as int][q.0 as int].unwrap()@,
                        Side::spec_relative(p, q),
                    )
            },
    {
        let width = self.grid.width();
        let height = self.grid.height();
        // bring the whole grid to arc-consistency before observing
        let mut seeds: Vec<(usize, usize)> = Vec::new();
        let mut sy: usize = 0;
        while sy < height
            invariant
                self.wf(),
                width == self.spec_width(),
                height == self.spec_height(),
                0 <= sy <= height,
                forall|k: int|
                    0 <= k < seeds@.len() ==> self.spec_in_bounds(#[trigger] seeds@[k]),
                forall|p: (usize, usize)|
                    self.spec_in_bounds(p) && p.1 < sy ==> seeds@.contains(p),
            decreases height - sy,
        {
            let mut sx: usize = 0;
            while sx < width
                invariant
                    self.wf(),
                    width == self.spec_width(),
                    height == self.spec_height(),
                    0 <= sy < height,
                    0 <= sx <= width,
                    forall|k: int|
                        0 <= k < seeds@.len() ==> self.spec_in_bounds(#[trigger] seeds@[k]),
                    forall|p: (usize, usize)|
                        self.spec_in_bounds(p) && p.1 < sy ==> seeds@.contains(p),
                    forall|p: (usize, usize)|
                        self.spec_in_bounds(p) && p.1 == sy && p.0 < sx ==> seeds@.contains(p),
                decreases width - sx,
            {
                let ghost seeds_prev = seeds@;
                seeds.push((sx, sy));
                proof {
                    assert(seeds@[seeds@.len() - 1] == (sx, sy));
                    assert forall|p: (usize, usize)|
                        self.spec_in_bounds(p) && p.1 < sy implies seeds@.contains(p) by {
                        assert(seeds_prev.contains(p));
                        let k = choose|k: int| 0 <= k < seeds_prev.len() && seeds_prev[k] == p;
                        assert(seeds@[k] == p);
                    }
                    assert forall|p: (usize, usize)|
                        self.spec_in_bounds(p) && p.1 == sy && p.0 < sx + 1
                            implies seeds@.contains(p) by {
                        if p.0 < sx {
                            assert(seeds_prev.contains(p));
                            let k = choose|k: int|
                                0 <= k < seeds_prev.len() && seeds_prev[k] == p;
                            assert(seeds@[k] == p);
                        } else {
                            assert(p == (sx, sy));
                        }
                    }
                }
                sx = sx + 1;
            }
            sy = sy + 1;
        }
        let ghost orig = *self;
        let ghost cond_a = old(self).spec_is_collapsed() && g_arc_consistent(old(self));
        let _sweep = self.propagate_from(seeds);
        proof {
            assert(g_pending_consistent(&orig, seeds@)) by {
                assert forall|p: (usize, usize), q: (usize, usize)|
                    orig.spec_in_bounds(p) && orig.spec_in_bounds(q) && crate::wfc::four_adjacent(
                        p,
                        q,
                    ) && !seeds@.contains(p) implies #[trigger] g_supported(&orig, p, q) by {
                    assert(seeds@.contains(p));
                }
            }
            assert(g_arc_consistent(self));
            if cond_a {
                // an already consistent grid passes the sweep untouched
                assert forall|z: (usize, usize)|
                    self.spec_in_bounds(z) implies (#[trigger] self.cellv(z)).len() == 1 by {
                    assert(old(self).spec_in_bounds(z));
                    assert(self.cellv(z) == old(self).cellv(z));
                }
                assert(self.spec_is_collapsed());
            }
        }
        if self.is_any_empty() {
            // the sweep found a contradiction before any observation
            proof {
                if cond_a {
                    assert(false);
                }
            }
            return Err(Error::EmptySet);
        }
        while !self.is_collapsed()
            invariant
                self.wf(),
                width == self.spec_width(),
                height == self.spec_height(),
                gnarrows(self, old(self)),
                g_arc_consistent(self),
                cond_a == (old(self).spec_is_collapsed() && g_arc_consistent(old(self))),
                cond_a ==> self.spec_is_collapsed(),
            decreases self.spec_entropy(),
        {
            let ghost loop_start = *self;
            proof {
                lemma_g_grid_entropy_nonneg(self.grid@);
                if cond_a {
                    assert(false);
                }
            }
            let p = match self.next_index() {
                Ok(p) => p,
                Err(e) => {
                    proof {
                        lemma_gnarrows_of_equal(self, &loop_start);
                        lemma_gnarrows_trans(self, &loop_start, old(self));
                    }
                    return Err(e);
                },
            };
            let ghost pre = *self;
            proof {
                lemma_gnarrows_of_equal(&pre, &loop_start);
                lemma_gnarrows_trans(&pre, &loop_start, old(self));
                lemma_g_same_cells_arc(&pre, &loop_start);
            }
            match self.collapse(p) {
                Ok(_) => {},
                Err(e) => {
                    proof {
                        lemma_gnarrows_trans(self, &pre, old(self));
                    }
                    return Err(e);
                },
            }
            let ghost mid = *self;
            proof {
                lemma_gnarrows_trans(self, &pre, old(self));
                // after the collapse only the observed cell lost candidates,
                // so consistency can fail only where it supports a neighbor
                assert forall|p2: (usize, usize), q2: (usize, usize)|
                    mid.spec_in_bounds(p2) && mid.spec_in_bounds(q2)
                        && crate::wfc::four_adjacent(p2, q2) && !Seq::<(usize, usize)>::empty()
                        .contains(p2) && p2 != p implies #[trigger] g_supported(&mid, p2, q2) by {
                    assert(g_supported(&pre, p2, q2));
                    assert(mid.cellv(p2) == pre.cellv(p2));
                    if q2 == p {
                        lemma_g_supported_shrink(&pre, &mid, p2, q2);
                    } else {
                        assert(mid.cellv(q2) == pre.cellv(q2));
                    }
                }
                assert(g_pending_consistent_except(&mid, Seq::empty(), p));
            }
            match self.propogate(p) {
                Ok(_) => {},
                Err(_) => {
                    proof {
                        assert(false);
                    }
                    return Err(Error::MissingSet);
                },
            }
            proof {
                lemma_gnarrows_trans(self, &mid, old(self));
                assert(g_arc_consistent(self));
                let g0 = loop_start.grid@;
                let g1 = mid.grid@;
                let g2 = self.grid@;
                assert(pre.spec_in_bounds(p));
                assert(mid.cellv(p).len() == 1) by {
                    let c = pre.cellv(p);
                    assert(c.len() > 0) by {
                        if c.len() == 0 {
                            assert(false);
                        }
                    }
                    assert(crate::generation::tile::g_total_weight(c) > 0) by {
                        if crate::generation::tile::g_total_weight(c) == 0 {
                            assert(false);
                        }
                        if crate::generation::tile::g_total_weight(c) < 0 {
                            assert forall|k: int|
                                0 <= k < c.len() implies (#[trigger] c[k]).tile.weight >= 0 by {
                                assert(pre.cell_present(p));
                                assert(c[k] == pre.grid@[p.1 as int][p.0 as int].unwrap()@[k]@);
                                crate::generation::tile::lemma_tt_bounds(
                                    pre.grid@[p.1 as int][p.0 as int].unwrap()@[k],
                                );
                            }
                            crate::generation::tile::lemma_g_total_weight_nonneg(c);
                            assert(false);
                        }
                    }
                    let i = choose|i: int|
                        0 <= i < c.len() && (#[trigger] c[i]).tile.weight > 0 && mid.cellv(p)
                            == seq![c[i]];
                }
                assert(loop_start.cellv(p).len() >= 2);
                assert(g1.len() == g0.len());
                assert forall|j: int| 0 <= j < g0.len() implies (#[trigger] g1[j]).len()
                    == g0[j].len() by {
                    assert(g0[j].len() == loop_start.spec_width());
                    assert(g1[j].len() == mid.spec_width());
                }
                assert forall|j: int, i: int|
                    0 <= j < g0.len() && 0 <= i < g0[j].len() implies g_cell_len(
                    #[trigger] g1[j][i]) <= g_cell_len(g0[j][i]) by {
                    let z = (i as usize, j as usize);
                    assert(loop_start.cell_present(z) && mid.cell_present(z));
                    assert(mid.cellv(z).len() <= loop_start.cellv(z).len()) by {
                        if z == p {
                        } else {
                            assert(mid.cellv(z) == pre.cellv(z));
                            assert(pre.cellv(z) == loop_start.cellv(z));
                        }
                    }
                }
                assert(g_cell_len(g1[p.1 as int][p.0 as int]) < g_cell_len(
                    g0[p.1 as int][p.0 as int],
                ));
                lemma_g_grid_entropy_lt(g0, g1, p.0 as int, p.1 as int);
                assert(g2.len() == g1.len());
                assert forall|j: int| 0 <= j < g1.len() implies (#[trigger] g2[j]).len()
                    == g1[j].len() by {
                    assert(g1[j].len() == mid.spec_width());
                    assert(g2[j].len() == self.spec_width());
                }
                assert forall|j: int, i: int|
                    0 <= j < g1.len() && 0 <= i < g1[j].len() implies g_cell_len(
                    #[trigger] g2[j][i]) <= g_cell_len(g1[j][i]) by {
                    let z = (i as usize, j as usize);
                    assert(mid.cell_present(z) && self.cell_present(z));
                    assert(self.cellv(z).len() <= mid.cellv(z).len());
                }
                lemma_g_grid_entropy_le(g1, g2);
                assert(self.spec_entropy() < loop_start.spec_entropy());
                lemma_g_grid_entropy_nonneg(self.grid@);
            }
            if self.is_any_empty() {
                return Err(Error::EmptySet);
            }
        }
        // every cell now holds exactly one tile; apply its transform and copy
        let mut out: VecGrid<Tile<P>> = VecGrid::new(width, height);
        let mut y: usize = 0;
        while y < height
            invariant
                self.wf(),
                width == self.spec_width(),
                height == self.spec_height(),
                self.spec_is_collapsed(),
                0 <= y <= height,
                out.wf(),
                out.spec_height() == height,
                height > 0 ==> out.spec_width() == width,
                forall|p: (usize, usize)|
                    self.spec_in_bounds(p) && p.1 < y ==> (#[trigger] out@[p.1 as int][p.0 as int])
                        is Some && out@[p.1 as int][p.0 as int].unwrap()@ == gtransformed(
                        self.cellv(p)[0],
                    ),
            decreases height - y,
        {
            let mut x: usize = 0;
            while x < width
                invariant
                    self.wf(),
                    width == self.spec_width(),
                    height == self.spec_height(),
                    self.spec_is_collapsed(),
                    0 <= y < height,
                    0 <= x <= width,
                    out.wf(),
                    out.spec_height() == height,
                    out.spec_width() == width,
                    forall|p: (usize, usize)|
                        self.spec_in_bounds(p) && p.1 < y ==> (
                        #[trigger] out@[p.1 as int][p.0 as int]) is Some && out@[p.1 as int][p.0 as int].unwrap()@
                            == gtransformed(self.cellv(p)[0]),
                    forall|p: (usize, usize)|
                        self.spec_in_bounds(p) && p.1 == y && p.0 < x ==> (
                        #[trigger] out@[p.1 as int][p.0 as int]) is Some && out@[p.1 as int][p.0 as int].unwrap()@
                            == gtransformed(self.cellv(p)[0]),
                decreases width - x,
            {
                proof {
                    assert(self.cell_present((x, y)));
                    assert(self.cellv((x, y)).len() == 1);
                }
                let t = match self.grid.get((x, y)) {
                    Some(cl) => {
                        proof {
                            assert(*cl == self.grid@[y as int][x as int].unwrap());
                        }
                        cl[0].transformed()
                    },
                    None => {
                        proof {
                            assert(false);
                        }
                        return Err(Error::MissingSet);
                    },
                };
                let ghost out_prev = out;
                let _ = out.insert((x, y), t);
                proof {
                    assert forall|p: (usize, usize)|
                        self.spec_in_bounds(p) && (p.1 < y || (p.1 == y && p.0 < x + 1))
                            implies (#[trigger] out@[p.1 as int][p.0 as int]) is Some
                        && out@[p.1 as int][p.0 as int].unwrap()@ == gtransformed(
                        self.cellv(p)[0],
                    ) by {
                        if p == (x, y) {
                        } else {
                            if p.1 == y {
                                assert(out@[p.1 as int][p.0 as int]
                                    == out_prev@[p.1 as int][p.0 as int]);
                            }
                        }
                    }
                }
                x = x + 1;
            }
            y = y + 1;
        }
        proof {
            assert forall|p: (usize, usize)|
                old(self).spec_in_bounds(p) implies old(self).cellv(p).contains(
                #[trigger] final(self).cellv(p)[0]) by {
                assert(gwithin(final(self).cellv(p), old(self).cellv(p)));
                assert(final(self).cellv(p).len() == 1);
            }
            assert forall|p: (usize, usize), q: (usize, usize)|
                old(self).spec_in_bounds(p) && old(self).spec_in_bounds(q)
                    && crate::wfc::four_adjacent(p, q) implies #[trigger] gconnects(
                    out@[p.1 as int][p.0 as int].unwrap()@,
                    out@[q.1 as int][q.0 as int].unwrap()@,
                    Side::spec_relative(p, q),
                ) by {
                assert(g_supported(self, p, q));
                assert(self.cellv(q).len() == 1);
                assert(g_set_connects_at(self.cellv(p), self.cellv(q)[0], Side::spec_relative(
                    p,
                    q,
                )));
                let i = choose|i: int|
                    0 <= i < self.cellv(p).len() && gconnects(
                        gtransformed(self.cellv(p)[i]),
                        gtransformed(self.cellv(q)[0]),
                        Side::spec_relative(p, q),
                    );
                assert(i == 0);
                assert(out@[p.1 as int][p.0 as int].unwrap()@ == gtransformed(self.cellv(p)[0]));
                assert(out@[q.1 as int][q.0 as int].unwrap()@ == gtransformed(self.cellv(q)[0]));
            }
        }
        Ok(out)
    }
}

/// Narrowing of generators is transitive.
proof fn lemma_gnarrows_trans<const P: usize>(
    c: &Generator<P>,
    b: &Generator<P>,
    a: &Generator<P>,
)
    requires
        gnarrows(c, b),
        gnarrows(b, a),
    ensures
        gnarrows(c, a),
{
    assert forall|p: (usize, usize)|
        a.spec_in_bounds(p) implies gwithin(#[trigger] c.cellv(p), a.cellv(p)) && c.cellv(
        p,
    ).len() <= a.cellv(p).len() && crate::wfc::subseq_of(c.cellv(p), a.cellv(p)) by {
        lemma_gwithin_trans(c.cellv(p), b.cellv(p), a.cellv(p));
        crate::wfc::lemma_subseq_trans(c.cellv(p), b.cellv(p), a.cellv(p));
    }
}

/// A grid whose cells all shrank carries no more entropy.
proof fn lemma_g_row_entropy_le<const P: usize>(
    r1: Seq<Option<Vec<TransformedTile<P>>>>,
    r2: Seq<Option<Vec<TransformedTile<P>>>>,
)
    requires
        r1.len() == r2.len(),
        forall|i: int| 0 <= i < r1.len() ==> g_cell_len(#[trigger] r2[i]) <= g_cell_len(r1[i]),
    ensures
        g_row_entropy(r2) <= g_row_entropy(r1),
    decreases r1.len(),
{
    if r1.len() > 0 {
        assert(forall|i: int|
            0 <= i < r1.drop_last().len() ==> (#[trigger] r2.drop_last()[i]) == r2[i]
                && r1.drop_last()[i] == r1[i]);
        lemma_g_row_entropy_le(r1.drop_last(), r2.drop_last());
        assert(r2.last() == r2[r1.len() - 1]);
        assert(r1.last() == r1[r1.len() - 1]);
    }
}

/// A row whose cells all shrank, one of them strictly, carries strictly less
/// entropy.
proof fn lemma_g_row_entropy_lt<const P: usize>(
    r1: Seq<Option<Vec<TransformedTile<P>>>>,
    r2: Seq<Option<Vec<TransformedTile<P>>>>,
    i0: int,
)
    requires
        r1.len() == r2.len(),
        forall|i: int| 0 <= i < r1.len() ==> g_cell_len(#[trigger] r2[i]) <= g_cell_len(r1[i]),
        0 <= i0 < r1.len(),
        g_cell_len(r2[i0]) < g_cell_len(r1[i0]),
    ensures
        g_row_entropy(r2) < g_row_entropy(r1),
    decreases r1.len(),
{
    assert(forall|i: int|
        0 <= i < r1.drop_last().len() ==> (#[trigger] r2.drop_last()[i]) == r2[i]
            && r1.drop_last()[i] == r1[i]);
    assert(r2.last() == r2[r1.len() - 1]);
    assert(r1.last() == r1[r1.len() - 1]);
    if i0 == r1.len() - 1 {
        lemma_g_row_entropy_le(r1.drop_last(), r2.drop_last());
    } else {
        lemma_g_row_entropy_lt(r1.drop_last(), r2.drop_last(), i0);
    }
}

/// A grid whose cells all shrank carries no more entropy.
proof fn lemma_g_grid_entropy_le<const P: usize>(
    g1: Seq<Seq<Option<Vec<TransformedTile<P>>>>>,
    g2: Seq<Seq<Option<Vec<TransformedTile<P>>>>>,
)
    requires
        g1.len() == g2.len(),
        forall|j: int| 0 <= j < g1.len() ==> (#[trigger] g2[j]).len() == g1[j].len(),
        forall|j: int, i: int|
            0 <= j < g1.len() && 0 <= i < g1[j].len() ==> g_cell_len(#[trigger] g2[j][i])
                <= g_cell_len(g1[j][i]),
    ensures
        g_grid_entropy(g2) <= g_grid_entropy(g1),
    decreases g1.len(),
{
    if g1.len() > 0 {
        assert(forall|j: int|
            0 <= j < g1.drop_last().len() ==> (#[trigger] g2.drop_last()[j]) == g2[j]
                && g1.drop_last()[j] == g1[j]);
        lemma_g_grid_entropy_le(g1.drop_last(), g2.drop_last());
        assert(g2.last() == g2[g1.len() - 1]);
        assert(g1.last() == g1[g1.len() - 1]);
        lemma_g_row_entropy_le(g1[g1.len() - 1], g2[g1.len() - 1]);
    }
}

/// A grid whose cells all shrank, one of them strictly, carries strictly less
/// entropy.
proof fn lemma_g_grid_entropy_lt<const P: usize>(
    g1: Seq<Seq<Option<Vec<TransformedTile<P>>>>>,
    g2: Seq<Seq<Option<Vec<TransformedTile<P>>>>>,
    i0: int,
    j0: int,
)
    requires
        g1.len() == g2.len(),
        forall|j: int| 0 <= j < g1.len() ==> (#[trigger] g2[j]).len() == g1[j].len(),
        forall|j: int, i: int|
            0 <= j < g1.len() && 0 <= i < g1[j].len() ==> g_cell_len(#[trigger] g2[j][i])
                <= g_cell_len(g1[j][i]),
        0 <= j0 < g1.len(),
        0 <= i0 < g1[j0].len(),
        g_cell_len(g2[j0][i0]) < g_cell_len(g1[j0][i0]),
    ensures
        g_grid_entropy(g2) < g_grid_entropy(g1),
    decreases g1.len(),
{
    assert(forall|j: int|
        0 <= j < g1.drop_last().len() ==> (#[trigger] g2.drop_last()[j]) == g2[j]
            && g1.drop_last()[j] == g1[j]);
    assert(g2.last() == g2[g1.len() - 1]);
    assert(g1.last() == g1[g1.len() - 1]);
    if j0 == g1.len() - 1 {
        lemma_g_grid_entropy_le(g1.drop_last(), g2.drop_last());
        lemma_g_row_entropy_lt(g1[j0], g2[j0], i0);
    } else {
        lemma_g_grid_entropy_lt(g1.drop_last(), g2.drop_last(), i0, j0);
        lemma_g_row_entropy_le(g1[g1.len() - 1], g2[g1.len() - 1]);
    }
}

} // verus!
