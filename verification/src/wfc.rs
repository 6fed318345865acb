//! The wave function collapse core: tiles, sockets, candidate sets, and the solver.
//!
//! A tile is a square with four edge sockets; a socket is a fixed-length
//! sequence of symbols. Two tiles may sit next to each other only when the
//! sockets along their shared edge are equal position for position and the
//! tiles carry the same layer tag. The solver collapses a grid of candidate
//! sets down to one tile per cell while keeping that adjacency rule.

use vstd::prelude::*;

verus! {

/// Contains errors that can be encountered while working with the generator
#[derive(Clone, Copy, Debug, PartialEq, Eq, Structural)]
pub enum Error {
    EmptySet,
    InvalidConfig,
    InvalidWeight,
    MissingSet,
    MissingTile,
    NoValidSet,
    SizeMismatch,
}

/// Represents one side of a tile
#[derive(Clone, Copy, Debug, PartialEq, Eq, Structural)]
pub enum Side {
    Left,
    Top,
    Right,
    Bottom,
}

impl Side {
    /// The side opposite to the given one.
    pub open spec fn spec_opposite(self) -> Side {
        match self {
            Side::Left => Side::Right,
            Side::Top => Side::Bottom,
            Side::Right => Side::Left,
            Side::Bottom => Side::Top,
        }
    }

    /// The side of the cell at `start` that faces the cell at `end`, for cells
    /// that differ by one in exactly one axis.
    pub open spec fn spec_relative(start: (usize, usize), end: (usize, usize)) -> Side {
        if start.0 == end.0 {
            if start.1 > end.1 {
                Side::Top
            } else {
                Side::Bottom
            }
        } else {
            if start.0 > end.0 {
                Side::Left
            } else {
                Side::Right
            }
        }
    }

    /// Returns the side opposite to this one
    pub fn opposite(self) -> (r: Self)
        ensures
            r == self.spec_opposite(),
    {
        match self {
            Self::Left => Self::Right,
            Self::Top => Self::Bottom,
            Self::Right => Self::Left,
            Self::Bottom => Self::Top,
        }
    }

    /// Returns `Self::Left` or `Self::Right` depending on whether start is greater than end
    pub fn relative_x(start: usize, end: usize) -> (r: Self)
        ensures
            r == if start > end {
                Side::Left
            } else {
                Side::Right
            },
    {
        if start > end {
            Self::Left
        } else {
            Self::Right
        }
    }

    /// Returns `Self::Top` or `Self::Bottom` depending on whether start is greater than end
    pub fn relative_y(start: usize, end: usize) -> (r: Self)
        ensures
            r == if start > end {
                Side::Top
            } else {
                Side::Bottom
            },
    {
        if start > end {
            Self::Top
        } else {
            Self::Bottom
        }
    }

    /// Returns a side depending on the direction of movement from one position to the other
    pub fn relative(start: (usize, usize), end: (usize, usize)) -> (r: Self)
        ensures
            r == Side::spec_relative(start, end),
    {
        if start.0 == end.0 {
            Self::relative_y(start.1, end.1)
        } else {
            Self::relative_x(start.0, end.0)
        }
    }

    /// Returns a list of all possible sides
    pub fn iter() -> (r: Vec<Side>)
        ensures
            r@ == seq![Side::Left, Side::Top, Side::Right, Side::Bottom],
    {
        let r = vec![Self::Left, Self::Top, Self::Right, Self::Bottom];
        proof {
            assert(r@ =~= seq![Side::Left, Side::Top, Side::Right, Side::Bottom]);
        }
        r
    }
}

/// Two cells are 4-adjacent when they differ by exactly one in exactly one axis.
pub open spec fn four_adjacent(a: (usize, usize), b: (usize, usize)) -> bool {
    ||| (a.0 == b.0 && (a.1 + 1 == b.1 || b.1 + 1 == a.1))
    ||| (a.1 == b.1 && (a.0 + 1 == b.0 || b.0 + 1 == a.0))
}

/// Taking the opposite side twice returns to the original side.
pub proof fn lemma_opposite_involutive(s: Side)
    ensures
        s.spec_opposite().spec_opposite() == s,
{
}

/// For 4-adjacent cells the relative directions of the two cells face each
/// other: the side of `a` that faces `b` is opposite to the side of `b` that
/// faces `a`.
pub proof fn lemma_relative_antisymmetric(a: (usize, usize), b: (usize, usize))
    requires
        four_adjacent(a, b),
    ensures
        Side::spec_relative(a, b) == Side::spec_relative(b, a).spec_opposite(),
{
}

/// Represents all possible rotations of a tile
#[derive(Clone, Copy, Debug, PartialEq, Eq, Structural)]
pub enum Rotation {
    D0,
    D90,
    D180,
    D270,
}

impl Rotation {
    /// Returns a list of all possible rotations
    pub fn iter() -> (r: Vec<Rotation>)
        ensures
            r@ == seq![Rotation::D0, Rotation::D90, Rotation::D180, Rotation::D270],
    {
        let r = vec![Self::D0, Self::D90, Self::D180, Self::D270];
        proof {
            assert(r@ =~= seq![Rotation::D0, Rotation::D90, Rotation::D180, Rotation::D270]);
        }
        r
    }
}

/// The mirror image of a socket's symbol sequence.
pub open spec fn rev(s: Seq<usize>) -> Seq<usize> {
    Seq::new(s.len(), |i: int| s[s.len() - 1 - i])
}

/// Reversing a symbol sequence twice yields the original sequence. This is the
/// round-trip law behind `Socket::reversed`.
pub proof fn lemma_rev_involutive(s: Seq<usize>)
    ensures
        rev(rev(s)) == s,
{
    assert(rev(rev(s)) =~= s);
}

/// The four socket edge sequences of a tile, one per side.
#[verifier::ext_equal]
pub ghost struct SocketQuad {
    pub left: Seq<usize>,
    pub top: Seq<usize>,
    pub right: Seq<usize>,
    pub bottom: Seq<usize>,
}

/// The abstract value of a tile: identity, layer, weight, base sockets and the
/// transform still to be applied to them.
#[verifier::ext_equal]
pub ghost struct TileView {
    pub id: int,
    pub layer: int,
    pub weight: int,
    pub quad: SocketQuad,
    pub rotation: Rotation,
    pub flip_x: bool,
    pub flip_y: bool,
}

/// The socket on the given side of a quad.
pub open spec fn quad_on(q: SocketQuad, s: Side) -> Seq<usize> {
    match s {
        Side::Left => q.left,
        Side::Top => q.top,
        Side::Right => q.right,
        Side::Bottom => q.bottom,
    }
}

/// A quad mirrored across the vertical axis: left and right trade places and
/// the horizontal edges read backwards.
pub open spec fn flip_x_quad(q: SocketQuad) -> SocketQuad {
    SocketQuad { left: q.right, top: rev(q.top), right: q.left, bottom: rev(q.bottom) }
}

/// A quad mirrored across the horizontal axis: top and bottom trade places and
/// the vertical edges read backwards.
pub open spec fn flip_y_quad(q: SocketQuad) -> SocketQuad {
    SocketQuad { left: rev(q.left), top: q.bottom, right: rev(q.right), bottom: q.top }
}

/// A quad turned one quarter turn clockwise: the socket that was on the left
/// comes to the top, and so on around the tile.
pub open spec fn rot_cw_quad(q: SocketQuad) -> SocketQuad {
    SocketQuad { left: q.bottom, top: q.left, right: q.top, bottom: q.right }
}

/// A quad turned clockwise by the given number of quarter turns.
pub open spec fn rot_quad(q: SocketQuad, r: Rotation) -> SocketQuad {
    match r {
        Rotation::D0 => q,
        Rotation::D90 => rot_cw_quad(q),
        Rotation::D180 => rot_cw_quad(rot_cw_quad(q)),
        Rotation::D270 => rot_cw_quad(rot_cw_quad(rot_cw_quad(q))),
    }
}

/// A quad with the requested flips applied, horizontal before vertical.
pub open spec fn flips_quad(q: SocketQuad, fx: bool, fy: bool) -> SocketQuad {
    let q1 = if fx {
        flip_x_quad(q)
    } else {
        q
    };
    if fy {
        flip_y_quad(q1)
    } else {
        q1
    }
}

/// The effective socket quad of a tile: its base sockets with the flips
/// applied first and the rotation after them.
pub open spec fn transformed_quad(t: TileView) -> SocketQuad {
    rot_quad(flips_quad(t.quad, t.flip_x, t.flip_y), t.rotation)
}

/// The effective socket of a tile on the given side.
pub open spec fn tsock(t: TileView, s: Side) -> Seq<usize> {
    quad_on(transformed_quad(t), s)
}

/// Variant equality: two tiles count as the same variant when their effective
/// socket quads, layer and weight agree; the id and the way the quad was
/// reached play no part.
pub open spec fn teq(a: TileView, b: TileView) -> bool {
    &&& a.layer == b.layer
    &&& a.weight == b.weight
    &&& transformed_quad(a) == transformed_quad(b)
}

/// The adjacency rule: `a` accepts `b` across side `s` of `a` when the layers
/// agree and `a`'s effective socket on `s` equals `b`'s effective socket on
/// the side facing it.
pub open spec fn connects_spec(a: TileView, b: TileView, s: Side) -> bool {
    &&& a.layer == b.layer
    &&& tsock(a, s) == tsock(b, s.spec_opposite())
}

/// Mirroring a quad across the vertical axis twice yields the original quad.
pub proof fn lemma_flip_x_involutive(q: SocketQuad)
    ensures
        flip_x_quad(flip_x_quad(q)) == q,
{
    lemma_rev_involutive(q.top);
    lemma_rev_involutive(q.bottom);
    assert(flip_x_quad(flip_x_quad(q)) =~= q);
}

/// Mirroring a quad across the horizontal axis twice yields the original quad.
pub proof fn lemma_flip_y_involutive(q: SocketQuad)
    ensures
        flip_y_quad(flip_y_quad(q)) == q,
{
    lemma_rev_involutive(q.left);
    lemma_rev_involutive(q.right);
    assert(flip_y_quad(flip_y_quad(q)) =~= q);
}

/// Four quarter turns return a quad to its original position.
pub proof fn lemma_rotate_four_times_identity(q: SocketQuad)
    ensures
        rot_cw_quad(rot_cw_quad(rot_cw_quad(rot_cw_quad(q)))) == q,
{
    assert(rot_cw_quad(rot_cw_quad(rot_cw_quad(rot_cw_quad(q)))) =~= q);
}

/// Stores data for one side of a tile, used for ensuring that two tiles can fit together
#[derive(Debug)]
pub struct Socket<const P: usize> {
    nodes: Vec<usize>,
}

impl<const P: usize> View for Socket<P> {
    type V = Seq<usize>;

    closed spec fn view(&self) -> Seq<usize> {
        self.nodes@
    }
}

impl<const P: usize> Socket<P> {
    /// A socket is well formed when it holds exactly `P` symbols.
    pub open spec fn wf(&self) -> bool {
        self@.len() == P as int
    }

    /// Creates a new socket
    pub fn new(nodes: Vec<usize>) -> (r: Self)
        requires
            nodes@.len() == P as int,
        ensures
            r@ == nodes@,
            r.wf(),
    {
        Socket { nodes }
    }

    /// Creates a new socket from a sequence of any length: up to `P` leading
    /// symbols are copied and a shorter input is padded with zeros.
    pub fn from_nodes(nodes: &Vec<usize>) -> (r: Self)
        ensures
            r.wf(),
            forall|i: int|
                0 <= i < P as int ==> #[trigger] r@[i] == if i < nodes@.len() {
                    nodes@[i]
                } else {
                    0usize
                },
    {
        let mut out: Vec<usize> = Vec::new();
        for i in 0..P
            invariant
                out@.len() == i,
                forall|k: int|
                    0 <= k < i ==> #[trigger] out@[k] == if k < nodes@.len() {
                        nodes@[k]
                    } else {
                        0usize
                    },
        {
            if i < nodes.len() {
                out.push(nodes[i]);
            } else {
                out.push(0);
            }
        }
        Socket { nodes: out }
    }

    /// Returns a reference to the socket's nodes
    pub fn nodes(&self) -> (r: &Vec<usize>)
        ensures
            r@ == self@,
    {
        &self.nodes
    }

    /// Returns a flipped copy of the socket
    pub fn flipped(&self) -> (r: Self)
        ensures
            r@ == rev(self@),
            self.wf() ==> r.wf(),
    {
        let mut out: Vec<usize> = Vec::new();
        let n = self.nodes.len();
        for i in 0..n
            invariant
                n == self.nodes@.len(),
                out@.len() == i,
                forall|k: int| 0 <= k < i ==> #[trigger] out@[k] == self.nodes@[n - 1 - k],
        {
            out.push(self.nodes[n - 1 - i]);
        }
        let r = Socket { nodes: out };
        proof {
            assert(r@ =~= rev(self@));
        }
        r
    }

    /// Returns `true` if the socket is symmetrical
    pub fn symmetrical(&self) -> (r: bool)
        ensures
            r == (self@ == rev(self@)),
    {
        let f = self.flipped();
        *self == f
    }
}

impl<const P: usize> Clone for Socket<P> {
    /// Cloning a socket keeps its symbols.
    fn clone(&self) -> (r: Self)
        ensures
            r@ == self@,
    {
        Socket { nodes: self.nodes.clone() }
    }
}

impl<const P: usize> PartialEq for Socket<P> {
    fn eq(&self, other: &Self) -> (r: bool) {
        let r = self.nodes == other.nodes;
        proof {
            if r {
                assert(self@ =~= other@);
            }
        }
        r
    }
}

impl<const P: usize> vstd::std_specs::cmp::PartialEqSpecImpl for Socket<P> {
    open spec fn obeys_eq_spec() -> bool {
        true
    }

    open spec fn eq_spec(&self, other: &Self) -> bool {
        self@ == other@
    }
}


/// Represents one possible state within the generator's grid
#[derive(Debug)]
pub struct Tile<const P: usize> {
    id: usize,
    layer: usize,
    weight: usize,
    left: Socket<P>,
    top: Socket<P>,
    right: Socket<P>,
    bottom: Socket<P>,
    rotation: Rotation,
    flip: (bool, bool),
}

impl<const P: usize> View for Tile<P> {
    type V = TileView;

    closed spec fn view(&self) -> TileView {
        TileView {
            id: self.id as int,
            layer: self.layer as int,
            weight: self.weight as int,
            quad: SocketQuad {
                left: self.left@,
                top: self.top@,
                right: self.right@,
                bottom: self.bottom@,
            },
            rotation: self.rotation,
            flip_x: self.flip.0,
            flip_y: self.flip.1,
        }
    }
}

impl<const P: usize> Tile<P> {
    /// Creates a new tile; the sockets are given in the side order left, top,
    /// right, bottom.
    pub fn new(
        id: usize,
        layer: usize,
        weight: usize,
        sockets: Vec<Socket<P>>,
        rotation: Rotation,
        flip: (bool, bool),
    ) -> (r: Self)
        requires
            sockets@.len() == 4,
        ensures
            r@ == (TileView {
                id: id as int,
                layer: layer as int,
                weight: weight as int,
                quad: SocketQuad {
                    left: sockets@[0]@,
                    top: sockets@[1]@,
                    right: sockets@[2]@,
                    bottom: sockets@[3]@,
                },
                rotation,
                flip_x: flip.0,
                flip_y: flip.1,
            }),
    {
        let mut s = sockets;
        let left = s.remove(0);
        let top = s.remove(0);
        let right = s.remove(0);
        let bottom = s.remove(0);
        Tile { id, layer, weight, left, top, right, bottom, rotation, flip }
    }

    /// Returns the tile's identifier
    pub fn id(&self) -> (r: usize)
        ensures
            r as int == self@.id,
    {
        self.id
    }

    /// Returns the tile's layer identifier
    pub fn layer(&self) -> (r: usize)
        ensures
            r as int == self@.layer,
    {
        self.layer
    }

    /// Returns the tile's weight
    pub fn weight(&self) -> (r: usize)
        ensures
            r as int == self@.weight,
    {
        self.weight
    }

    /// Returns the tile's rotation
    pub fn rotation(&self) -> (r: Rotation)
        ensures
            r == self@.rotation,
    {
        self.rotation
    }

    /// Returns `true` if the tile is flipped horizontally
    pub fn x_flipped(&self) -> (r: bool)
        ensures
            r == self@.flip_x,
    {
        self.flip.0
    }

    /// Returns `true` if the tile is flipped vertically
    pub fn y_flipped(&self) -> (r: bool)
        ensures
            r == self@.flip_y,
    {
        self.flip.1
    }

    /// Returns the tile's sockets, in the side order left, top, right, bottom
    pub fn sockets(&self) -> (r: Vec<Socket<P>>)
        ensures
            r@.len() == 4,
            r@[0]@ == self@.quad.left,
            r@[1]@ == self@.quad.top,
            r@[2]@ == self@.quad.right,
            r@[3]@ == self@.quad.bottom,
    {
        let mut r: Vec<Socket<P>> = Vec::new();
        r.push(self.left.clone());
        r.push(self.top.clone());
        r.push(self.right.clone());
        r.push(self.bottom.clone());
        r
    }

    /// Returns the tile's socket on the given side
    pub fn socket(&self, side: Side) -> (r: Socket<P>)
        ensures
            r@ == quad_on(self@.quad, side),
    {
        match side {
            Side::Left => self.left.clone(),
            Side::Top => self.top.clone(),
            Side::Right => self.right.clone(),
            Side::Bottom => self.bottom.clone(),
        }
    }

    /// Returns a copy of the tile that has been rotated if necessary
    pub fn rotated(&self) -> (r: Self)
        ensures
            r@ == (TileView {
                quad: rot_quad(self@.quad, self@.rotation),
                rotation: Rotation::D0,
                ..self@
            }),
    {
        let q = match self.rotation {
            Rotation::D0 => (
                self.left.clone(),
                self.top.clone(),
                self.right.clone(),
                self.bottom.clone(),
            ),
            Rotation::D90 => (
                self.bottom.clone(),
                self.left.clone(),
                self.top.clone(),
                self.right.clone(),
            ),
            Rotation::D180 => (
                self.right.clone(),
                self.bottom.clone(),
                self.left.clone(),
                self.top.clone(),
            ),
            Rotation::D270 => (
                self.top.clone(),
                self.right.clone(),
                self.bottom.clone(),
                self.left.clone(),
            ),
        };
        let r = Tile {
            id: self.id,
            layer: self.layer,
            weight: self.weight,
            left: q.0,
            top: q.1,
            right: q.2,
            bottom: q.3,
            rotation: Rotation::D0,
            flip: self.flip,
        };
        proof {
            assert(r@.quad =~= rot_quad(self@.quad, self@.rotation));
            assert(r@ =~= (TileView {
                quad: rot_quad(self@.quad, self@.rotation),
                rotation: Rotation::D0,
                ..self@
            }));
        }
        r
    }

    /// Returns a copy of the tile that has been flipped if necessary; the
    /// horizontal flip is applied before the vertical one.
    pub fn flipped(&self) -> (r: Self)
        ensures
            r@ == (TileView {
                quad: flips_quad(self@.quad, self@.flip_x, self@.flip_y),
                flip_x: false,
                flip_y: false,
                ..self@
            }),
    {
        let t1 = if self.flip.0 {
            Tile {
                id: self.id,
                layer: self.layer,
                weight: self.weight,
                left: self.right.clone(),
                top: self.top.flipped(),
                right: self.left.clone(),
                bottom: self.bottom.flipped(),
                rotation: self.rotation,
                flip: (false, self.flip.1),
            }
        } else {
            Tile {
                id: self.id,
                layer: self.layer,
                weight: self.weight,
                left: self.left.clone(),
                top: self.top.clone(),
                right: self.right.clone(),
                bottom: self.bottom.clone(),
                rotation: self.rotation,
                flip: (false, self.flip.1),
            }
        };
        let r = if t1.flip.1 {
            Tile {
                id: t1.id,
                layer: t1.layer,
                weight: t1.weight,
                left: t1.left.flipped(),
                top: t1.bottom.clone(),
                right: t1.right.flipped(),
                bottom: t1.top.clone(),
                rotation: t1.rotation,
                flip: (false, false),
            }
        } else {
            t1
        };
        proof {
            assert(r@.quad =~= flips_quad(self@.quad, self@.flip_x, self@.flip_y));
            assert(r@ =~= (TileView {
                quad: flips_quad(self@.quad, self@.flip_x, self@.flip_y),
                flip_x: false,
                flip_y: false,
                ..self@
            }));
        }
        r
    }

    /// Returns a copy of the tile that has been transformed if necessary: the
    /// flips are applied first and the rotation after them.
    pub fn transformed(&self) -> (r: Self)
        ensures
            r@ == (TileView {
                quad: transformed_quad(self@),
                rotation: Rotation::D0,
                flip_x: false,
                flip_y: false,
                ..self@
            }),
    {
        let r = self.flipped().rotated();
        proof {
            assert(r@ =~= (TileView {
                quad: transformed_quad(self@),
                rotation: Rotation::D0,
                flip_x: false,
                flip_y: false,
                ..self@
            }));
        }
        r
    }

    /// Returns `true` if the provided tile is compatible with the current tile on the given side
    pub fn connects(&self, tile: &Self, side: Side) -> (r: bool)
        ensures
            r == connects_spec(self@, tile@, side),
    {
        let facing = side.opposite();
        let this = self.transformed().socket(side);
        let other = tile.transformed().socket(facing);
        self.layer() == tile.layer() && this == other
    }
}

impl<const P: usize> Clone for Tile<P> {
    /// Cloning a tile keeps its whole abstract value.
    fn clone(&self) -> (r: Self)
        ensures
            r@ == self@,
    {
        let r = Tile {
            id: self.id,
            layer: self.layer,
            weight: self.weight,
            left: self.left.clone(),
            top: self.top.clone(),
            right: self.right.clone(),
            bottom: self.bottom.clone(),
            rotation: self.rotation,
            flip: self.flip,
        };
        proof {
            assert(r@ =~= self@);
        }
        r
    }
}

impl<const P: usize> PartialEq for Tile<P> {
    fn eq(&self, other: &Self) -> (r: bool) {
        let a = self.transformed();
        let b = other.transformed();
        let r = self.layer == other.layer && self.weight == other.weight && a.left == b.left
            && a.top == b.top && a.right == b.right && a.bottom == b.bottom;
        proof {
            if r {
                assert(transformed_quad(self@) =~= transformed_quad(other@));
            }
        }
        r
    }
}

impl<const P: usize> vstd::std_specs::cmp::PartialEqSpecImpl for Tile<P> {
    open spec fn obeys_eq_spec() -> bool {
        true
    }

    open spec fn eq_spec(&self, other: &Self) -> bool {
        teq(self@, other@)
    }
}

/// The abstract values of a list of tiles, in order.
pub open spec fn tile_views<const P: usize>(s: Seq<Tile<P>>) -> Seq<TileView> {
    s.map_values(|t: Tile<P>| t@)
}

/// Whether some tile of `s` is the same variant as `t`.
pub open spec fn has_teq(s: Seq<TileView>, t: TileView) -> bool {
    exists|i: int| 0 <= i < s.len() && teq(s[i], t)
}

/// Whether no two tiles of `s` are the same variant.
pub open spec fn no_dup_views(s: Seq<TileView>) -> bool {
    forall|i: int, j: int| 0 <= i < j < s.len() ==> !teq(s[i], s[j])
}

/// The list with every tile dropped that repeats an earlier variant.
pub open spec fn dedup_views(s: Seq<TileView>) -> Seq<TileView>
    decreases s.len(),
{
    if s.len() == 0 {
        Seq::empty()
    } else {
        let rest = dedup_views(s.drop_last());
        if has_teq(s.drop_last(), s.last()) {
            rest
        } else {
            rest.push(s.last())
        }
    }
}

/// Deduplication keeps exactly the variants of the original list.
pub proof fn lemma_dedup_membership(s: Seq<TileView>, t: TileView)
    ensures
        has_teq(dedup_views(s), t) == has_teq(s, t),
    decreases s.len(),
{
    if s.len() > 0 {
        lemma_dedup_membership(s.drop_last(), t);
        let rest = dedup_views(s.drop_last());
        if has_teq(s.drop_last(), s.last()) {
            if has_teq(s, t) && !has_teq(s.drop_last(), t) {
                let i = choose|i: int| 0 <= i < s.len() && teq(s[i], t);
                if i < s.len() - 1 {
                    assert(s.drop_last()[i] == s[i]);
                }
                assert(i == s.len() - 1);
                let j = choose|j: int| 0 <= j < s.drop_last().len() && teq(s.drop_last()[j], s.last());
                assert(teq(s.drop_last()[j], t));
            }
        } else {
            let out = rest.push(s.last());
            if has_teq(s, t) {
                let i = choose|i: int| 0 <= i < s.len() && teq(s[i], t);
                if i < s.len() - 1 {
                    assert(s.drop_last()[i] == s[i]);
                    assert(has_teq(s.drop_last(), t));
                    let j = choose|j: int| 0 <= j < rest.len() && teq(rest[j], t);
                    assert(out[j] == rest[j]);
                } else {
                    assert(out[out.len() - 1] == s.last());
                }
                assert(has_teq(out, t));
            }
            if has_teq(out, t) {
                let i = choose|i: int| 0 <= i < out.len() && teq(out[i], t);
                if i < out.len() - 1 {
                    assert(out[i] == rest[i]);
                    assert(has_teq(rest, t));
                } else {
                    assert(out[i] == s.last());
                    assert(s[s.len() - 1] == s.last());
                }
                assert(has_teq(s, t));
            }
        }
    }
}

/// Deduplication leaves no two tiles of the same variant.
pub proof fn lemma_dedup_no_dups(s: Seq<TileView>)
    ensures
        no_dup_views(dedup_views(s)),
    decreases s.len(),
{
    if s.len() > 0 {
        lemma_dedup_no_dups(s.drop_last());
        let rest = dedup_views(s.drop_last());
        if !has_teq(s.drop_last(), s.last()) {
            lemma_dedup_membership(s.drop_last(), s.last());
            let out = rest.push(s.last());
            assert forall|i: int, j: int| 0 <= i < j < out.len() implies !teq(out[i], out[j]) by {
                if j < out.len() - 1 {
                    assert(out[i] == rest[i] && out[j] == rest[j]);
                } else {
                    assert(out[i] == rest[i]);
                    if teq(rest[i], s.last()) {
                        assert(has_teq(rest, s.last()));
                    }
                }
            }
        }
    }
}

/// A list without duplicate variants deduplicates to itself.
pub proof fn lemma_dedup_of_nodup(s: Seq<TileView>)
    requires
        no_dup_views(s),
    ensures
        dedup_views(s) == s,
    decreases s.len(),
{
    if s.len() == 0 {
        assert(dedup_views(s) =~= s);
    } else {
        assert(no_dup_views(s.drop_last()));
        lemma_dedup_of_nodup(s.drop_last());
        if has_teq(s.drop_last(), s.last()) {
            let i = choose|i: int| 0 <= i < s.drop_last().len() && teq(s.drop_last()[i], s.last());
            assert(teq(s[i], s[s.len() - 1]));
            assert(false);
        }
        assert(dedup_views(s) =~= s);
    }
}

/// The variant deduplication is idempotent: running it twice yields the same
/// catalog as running it once.
pub proof fn lemma_dedup_idempotent(s: Seq<TileView>)
    ensures
        dedup_views(dedup_views(s)) == dedup_views(s),
{
    lemma_dedup_no_dups(s);
    lemma_dedup_of_nodup(dedup_views(s));
}

/// Returns `true` if some tile in the list is the same variant as `t`.
fn contains_tile<const P: usize>(v: &Vec<Tile<P>>, t: &Tile<P>) -> (r: bool)
    ensures
        r == has_teq(tile_views(v@), t@),
{
    let mut i: usize = 0;
    let n = v.len();
    while i < n
        invariant
            n == v@.len(),
            0 <= i <= n,
            forall|k: int| 0 <= k < i ==> !teq(tile_views(v@)[k], t@),
        decreases n - i,
    {
        if &v[i] == t {
            assert(teq(tile_views(v@)[i as int], t@));
            return true;
        }
        i = i + 1;
    }
    false
}

/// Removes every tile that repeats an earlier variant of the list, keeping the
/// first occurrence of each variant in order.
pub fn dedup_tiles<const P: usize>(tiles: Vec<Tile<P>>) -> (r: Vec<Tile<P>>)
    ensures
        tile_views(r@) == dedup_views(tile_views(tiles@)),
        no_dup_views(tile_views(r@)),
{
    let mut out: Vec<Tile<P>> = Vec::new();
    let n = tiles.len();
    let mut i: usize = 0;
    while i < n
        invariant
            n == tiles@.len(),
            0 <= i <= n,
            tile_views(out@) == dedup_views(tile_views(tiles@).take(i as int)),
        decreases n - i,
    {
        let ghost prefix = tile_views(tiles@).take(i as int);
        let ghost all = tile_views(tiles@);
        proof {
            assert(all.take(i + 1).drop_last() =~= prefix);
            assert(all.take(i + 1).last() == tiles@[i as int]@);
            lemma_dedup_membership(prefix, tiles@[i as int]@);
        }
        if !contains_tile(&out, &tiles[i]) {
            out.push(tiles[i].clone());
            proof {
                assert(tile_views(out@) =~= dedup_views(all.take(i + 1)));
            }
        } else {
            proof {
                assert(tile_views(out@) =~= dedup_views(all.take(i + 1)));
            }
        }
        i = i + 1;
    }
    proof {
        assert(tile_views(tiles@).take(n as int) =~= tile_views(tiles@));
        lemma_dedup_no_dups(tile_views(tiles@));
    }
    out
}


/// Whether some tile of the set `s` accepts `t` across side `side` of the set's
/// own cell.
pub open spec fn set_connects(s: Seq<TileView>, t: TileView, side: Side) -> bool {
    exists|i: int| 0 <= i < s.len() && connects_spec(s[i], t, side)
}

/// Builds the sublist of `v` whose tiles are the same variant as `tile`
/// (`keep_equal` set) or are not (`keep_equal` unset).
fn retain_teq<const P: usize>(v: &Vec<Tile<P>>, tile: &Tile<P>, keep_equal: bool) -> (r: Vec<
    Tile<P>,
>)
    ensures
        keep_equal ==> tile_views(r@) == tile_views(v@).filter(|t: TileView| teq(t, tile@)),
        !keep_equal ==> tile_views(r@) == tile_views(v@).filter(|t: TileView| !teq(t, tile@)),
{
    let ghost keep = if keep_equal {
        |t: TileView| teq(t, tile@)
    } else {
        |t: TileView| !teq(t, tile@)
    };
    let mut out: Vec<Tile<P>> = Vec::new();
    let n = v.len();
    let mut i: usize = 0;
    while i < n
        invariant
            n == v@.len(),
            0 <= i <= n,
            keep == if keep_equal {
                |t: TileView| teq(t, tile@)
            } else {
                |t: TileView| !teq(t, tile@)
            },
            tile_views(out@) == tile_views(v@).take(i as int).filter(keep),
        decreases n - i,
    {
        let ghost prefix = tile_views(v@).take(i as int);
        let ghost all = tile_views(v@);
        proof {
            assert(all.take(i + 1) =~= prefix + seq![all[i as int]]);
            Seq::<TileView>::filter_distributes_over_add(prefix, seq![all[i as int]], keep);
            reveal_with_fuel(Seq::<_>::filter, 3);
            assert(seq![all[i as int]].drop_last() =~= Seq::<TileView>::empty());
        }
        let eq_here = &v[i] == tile;
        if eq_here == keep_equal {
            out.push(v[i].clone());
            proof {
                assert(tile_views(out@) =~= prefix.filter(keep).push(all[i as int]));
                assert(seq![all[i as int]].filter(keep) =~= seq![all[i as int]]);
                assert(tile_views(out@) =~= all.take(i + 1).filter(keep));
            }
        } else {
            proof {
                assert(seq![all[i as int]].filter(keep) =~= Seq::<TileView>::empty());
                assert(tile_views(out@) =~= all.take(i + 1).filter(keep));
            }
        }
        i = i + 1;
    }
    proof {
        assert(tile_views(v@).take(n as int) =~= tile_views(v@));
    }
    out
}

/// Contains a list of all possible tiles for a specific position within the generator's grid
#[derive(Debug)]
pub struct TileSet<const P: usize> {
    tiles: Vec<Tile<P>>,
}

impl<const P: usize> View for TileSet<P> {
    type V = Seq<TileView>;

    closed spec fn view(&self) -> Seq<TileView> {
        tile_views(self.tiles@)
    }
}

impl<const P: usize> TileSet<P> {
    /// Creates a new tile set
    pub fn new(tiles: Vec<Tile<P>>) -> (r: Self)
        ensures
            r@ == tile_views(tiles@),
    {
        TileSet { tiles }
    }

    /// Returns a reference to the tile set's possible tiles
    pub fn tiles(&self) -> (r: &Vec<Tile<P>>)
        ensures
            tile_views(r@) == self@,
    {
        &self.tiles
    }

    /// Returns a mutable reference to the tile set's possible tiles
    pub fn tiles_mut(&mut self) -> (r: &mut Vec<Tile<P>>)
        ensures
            tile_views(r@) == old(self)@,
            final(self)@ == tile_views(final(r)@),
    {
        &mut self.tiles
    }

    /// Returns the total number of possible tiles within the tile set
    pub fn len(&self) -> (r: usize)
        ensures
            r == self@.len(),
    {
        self.tiles.len()
    }

    /// Returns `true` if the total number of possible tiles is exactly one
    pub fn is_collapsed(&self) -> (r: bool)
        ensures
            r == (self@.len() == 1),
    {
        self.len() == 1
    }

    /// Returns `true` if the tile set does not contain any possible tiles
    pub fn is_empty(&self) -> (r: bool)
        ensures
            r == (self@.len() == 0),
    {
        self.len() == 0
    }

    /// Returns `true` if the provided tile is compatible with any of the tile set's possible tiles on the given side
    pub fn connects(&self, tile: &Tile<P>, side: Side) -> (r: bool)
        ensures
            r == set_connects(self@, tile@, side),
    {
        let n = self.tiles.len();
        let mut i: usize = 0;
        while i < n
            invariant
                n == self@.len(),
                0 <= i <= n,
                forall|k: int| 0 <= k < i ==> !connects_spec(self@[k], tile@, side),
            decreases n - i,
        {
            if self.tiles[i].connects(tile, side) {
                assert(connects_spec(self@[i as int], tile@, side));
                return true;
            }
            i = i + 1;
        }
        false
    }

    /// Removes the provided tile from the tile set's list of possible tiles:
    /// every tile of the same variant is dropped.
    pub fn remove(&mut self, tile: &Tile<P>)
        ensures
            final(self)@ == old(self)@.filter(|t: TileView| !teq(t, tile@)),
    {
        let kept = retain_teq(&self.tiles, tile, false);
        self.tiles = kept;
    }

    /// Collapses the tile set into the provided tile: only tiles of the same
    /// variant remain.
    pub fn collapse(&mut self, tile: &Tile<P>)
        ensures
            final(self)@ == old(self)@.filter(|t: TileView| teq(t, tile@)),
    {
        let kept = retain_teq(&self.tiles, tile, true);
        self.tiles = kept;
    }
}

impl<const P: usize> Clone for TileSet<P> {
    /// Cloning a tile set keeps the abstract values of its tiles.
    fn clone(&self) -> (r: Self)
        ensures
            r@ == self@,
    {
        let mut tiles: Vec<Tile<P>> = Vec::new();
        let n = self.tiles.len();
        let mut i: usize = 0;
        while i < n
            invariant
                n == self.tiles@.len(),
                0 <= i <= n,
                tiles@.len() == i,
                forall|k: int| 0 <= k < i ==> #[trigger] tiles@[k]@ == self.tiles@[k]@,
            decreases n - i,
        {
            tiles.push(self.tiles[i].clone());
            i = i + 1;
        }
        let r = TileSet { tiles };
        proof {
            assert(r@ =~= self@);
        }
        r
    }
}


/// Every element kept by a filter occurs in the original sequence.
pub proof fn lemma_filter_sub(s: Seq<TileView>, pred: spec_fn(TileView) -> bool)
    ensures
        forall|k: int|
            0 <= k < s.filter(pred).len() ==> s.contains(#[trigger] s.filter(pred)[k]),
    decreases s.len(),
{
    reveal(Seq::filter);
    if s.len() > 0 {
        lemma_filter_sub(s.drop_last(), pred);
        let rest = s.drop_last().filter(pred);
        assert forall|k: int|
            0 <= k < s.filter(pred).len() implies s.contains(#[trigger] s.filter(pred)[k]) by {
            if k < rest.len() {
                assert(s.filter(pred)[k] == rest[k]);
                let i = choose|i: int| 0 <= i < s.drop_last().len() && s.drop_last()[i] == rest[k];
                assert(s[i] == rest[k]);
            } else {
                assert(s.filter(pred)[k] == s.last());
                assert(s[s.len() - 1] == s.last());
            }
        }
    }
}

/// Filtering a list without duplicate variants leaves a list without
/// duplicate variants.
pub proof fn lemma_filter_no_dup(s: Seq<TileView>, pred: spec_fn(TileView) -> bool)
    requires
        no_dup_views(s),
    ensures
        no_dup_views(s.filter(pred)),
    decreases s.len(),
{
    reveal(Seq::filter);
    if s.len() > 0 {
        assert(no_dup_views(s.drop_last()));
        lemma_filter_no_dup(s.drop_last(), pred);
        lemma_filter_sub(s.drop_last(), pred);
        let rest = s.drop_last().filter(pred);
        if pred(s.last()) {
            let out = rest.push(s.last());
            assert forall|i: int, j: int| 0 <= i < j < out.len() implies !teq(out[i], out[j]) by {
                if j < out.len() - 1 {
                    assert(out[i] == rest[i] && out[j] == rest[j]);
                } else {
                    assert(out[i] == rest[i]);
                    assert(s.drop_last().contains(rest[i]));
                    let m = choose|m: int|
                        0 <= m < s.drop_last().len() && s.drop_last()[m] == rest[i];
                    assert(s[m] == rest[i]);
                    assert(out[j] == s[s.len() - 1]);
                }
            }
        }
    }
}

/// A filter that keeps the whole length keeps the whole sequence, and then
/// every element satisfies the predicate.
pub proof fn lemma_filter_all(s: Seq<TileView>, pred: spec_fn(TileView) -> bool)
    requires
        s.filter(pred).len() == s.len(),
    ensures
        s.filter(pred) == s,
        forall|k: int| 0 <= k < s.len() ==> pred(#[trigger] s[k]),
    decreases s.len(),
{
    reveal(Seq::filter);
    if s.len() > 0 {
        s.drop_last().lemma_filter_len(pred);
        if !pred(s.last()) {
            assert(s.filter(pred).len() <= s.len() - 1);
        }
        lemma_filter_all(s.drop_last(), pred);
        assert(s.filter(pred) =~= s);
        assert forall|k: int| 0 <= k < s.len() implies pred(#[trigger] s[k]) by {
            if k < s.len() - 1 {
                assert(s.drop_last()[k] == s[k]);
            }
        }
    }
}

/// In a list without duplicate variants, the tiles of one variant number one
/// when the variant occurs and zero when it does not.
pub proof fn lemma_filter_teq_count(s: Seq<TileView>, t: TileView)
    requires
        no_dup_views(s),
    ensures
        s.filter(|v: TileView| teq(v, t)).len() == if has_teq(s, t) {
            1int
        } else {
            0int
        },
    decreases s.len(),
{
    reveal(Seq::filter);
    let pred = |v: TileView| teq(v, t);
    if s.len() > 0 {
        assert(no_dup_views(s.drop_last()));
        lemma_filter_teq_count(s.drop_last(), t);
        if pred(s.last()) {
            assert(teq(s[s.len() - 1], t));
            assert(has_teq(s, t));
            if has_teq(s.drop_last(), t) {
                let j = choose|j: int| 0 <= j < s.drop_last().len() && teq(s.drop_last()[j], t);
                assert(teq(s[j], s[s.len() - 1]));
                assert(false);
            }
        } else {
            if has_teq(s, t) {
                let j = choose|j: int| 0 <= j < s.len() && teq(s[j], t);
                assert(j < s.len() - 1);
                assert(s.drop_last()[j] == s[j]);
                assert(has_teq(s.drop_last(), t));
            }
            if has_teq(s.drop_last(), t) {
                let j = choose|j: int| 0 <= j < s.drop_last().len() && teq(s.drop_last()[j], t);
                assert(teq(s[j], t));
                assert(has_teq(s, t));
            }
        }
    }
}

/// The summed weight of a list of tiles.
pub open spec fn total_weight(s: Seq<TileView>) -> int
    decreases s.len(),
{
    if s.len() == 0 {
        0
    } else {
        total_weight(s.drop_last()) + s.last().weight
    }
}

/// Prefix sums of weights grow by one tile's weight at a time.
pub proof fn lemma_total_weight_take(s: Seq<TileView>, i: int)
    requires
        0 <= i < s.len(),
    ensures
        total_weight(s.take(i + 1)) == total_weight(s.take(i)) + s[i].weight,
{
    assert(s.take(i + 1).drop_last() =~= s.take(i));
    assert(s.take(i + 1).last() == s[i]);
}

/// A list whose tiles all carry non-negative weight, at least one of them
/// positive, has positive total weight.
pub proof fn lemma_total_weight_pos(s: Seq<TileView>)
    requires
        forall|k: int| 0 <= k < s.len() ==> (#[trigger] s[k]).weight >= 0,
        exists|k: int| 0 <= k < s.len() && (#[trigger] s[k]).weight > 0,
    ensures
        total_weight(s) > 0,
    decreases s.len(),
{
    lemma_total_weight_nonneg(s.drop_last());
    let k = choose|k: int| 0 <= k < s.len() && (#[trigger] s[k]).weight > 0;
    if k == s.len() - 1 {
        assert(s.last() == s[k]);
    } else {
        assert(forall|m: int|
            0 <= m < s.drop_last().len() ==> (#[trigger] s.drop_last()[m]) == s[m]);
        assert(s.drop_last()[k].weight > 0);
        lemma_total_weight_pos(s.drop_last());
    }
}

/// A list whose tiles all carry non-negative weight has non-negative total
/// weight.
pub proof fn lemma_total_weight_nonneg(s: Seq<TileView>)
    requires
        forall|k: int| 0 <= k < s.len() ==> (#[trigger] s[k]).weight >= 0,
    ensures
        total_weight(s) >= 0,
    decreases s.len(),
{
    if s.len() > 0 {
        assert(forall|m: int|
            0 <= m < s.drop_last().len() ==> (#[trigger] s.drop_last()[m]) == s[m]);
        lemma_total_weight_nonneg(s.drop_last());
    }
}

/// `f` lists, in strictly increasing order, a position in `b` for every
/// element of `a` holding the same value: it embeds `a` into `b`.
pub open spec fn embeds_via<A>(a: Seq<A>, b: Seq<A>, f: Seq<int>) -> bool {
    &&& f.len() == a.len()
    &&& forall|k: int| 0 <= k < f.len() ==> 0 <= #[trigger] f[k] < b.len() && a[k] == b[f[k]]
    &&& forall|k: int| 0 <= k < f.len() - 1 ==> #[trigger] f[k] < f[k + 1]
}

/// `a` is a subsequence of `b`: its elements occur in `b` in the same order.
pub open spec fn subseq_of<A>(a: Seq<A>, b: Seq<A>) -> bool {
    exists|f: Seq<int>| embeds_via(a, b, f)
}

/// Every sequence is a subsequence of itself.
pub proof fn lemma_subseq_refl<A>(a: Seq<A>)
    ensures
        subseq_of(a, a),
{
    let f = Seq::new(a.len(), |k: int| k);
    assert(embeds_via(a, a, f));
}

/// Positions that grow step by step grow between any two indices.
proof fn lemma_increasing_map(f: Seq<int>, i: int, j: int)
    requires
        forall|k: int| 0 <= k < f.len() - 1 ==> #[trigger] f[k] < f[k + 1],
        0 <= i < j < f.len(),
    ensures
        f[i] < f[j],
    decreases j - i,
{
    if i + 1 < j {
        lemma_increasing_map(f, i + 1, j);
    }
}

/// Being a subsequence is transitive.
pub proof fn lemma_subseq_trans<A>(a: Seq<A>, b: Seq<A>, c: Seq<A>)
    requires
        subseq_of(a, b),
        subseq_of(b, c),
    ensures
        subseq_of(a, c),
{
    let f = choose|f: Seq<int>| embeds_via(a, b, f);
    let g = choose|g: Seq<int>| embeds_via(b, c, g);
    let h = Seq::new(f.len(), |k: int| g[f[k]]);
    assert forall|k: int| 0 <= k < h.len() - 1 implies #[trigger] h[k] < h[k + 1] by {
        lemma_increasing_map(g, f[k], f[k + 1]);
    }
    assert(embeds_via(a, c, h));
}

/// What a filter keeps is a subsequence of what it was given.
pub proof fn lemma_filter_is_subseq<A>(s: Seq<A>, pred: spec_fn(A) -> bool)
    ensures
        subseq_of(s.filter(pred), s),
    decreases s.len(),
{
    reveal(Seq::filter);
    if s.len() == 0 {
        assert(embeds_via(s.filter(pred), s, Seq::<int>::empty()));
    } else {
        lemma_filter_is_subseq(s.drop_last(), pred);
        let rest = s.drop_last().filter(pred);
        let f = choose|f: Seq<int>| embeds_via(rest, s.drop_last(), f);
        if pred(s.last()) {
            let g = f.push(s.len() - 1);
            assert forall|k: int|
                0 <= k < g.len() implies 0 <= #[trigger] g[k] < s.len() && s.filter(pred)[k]
                    == s[g[k]] by {
                if k < g.len() - 1 {
                    assert(s.filter(pred)[k] == rest[k]);
                    assert(s.drop_last()[f[k]] == s[f[k]]);
                }
            }
            assert(embeds_via(s.filter(pred), s, g));
        } else {
            assert forall|k: int|
                0 <= k < f.len() implies 0 <= #[trigger] f[k] < s.len() && s.filter(pred)[k]
                    == s[f[k]] by {
                assert(s.drop_last()[f[k]] == s[f[k]]);
            }
            assert(embeds_via(s.filter(pred), s, f));
        }
    }
}

/// A lone element of a sequence is a subsequence of it.
pub proof fn lemma_singleton_subseq<A>(b: Seq<A>, i: int)
    requires
        0 <= i < b.len(),
    ensures
        subseq_of(seq![b[i]], b),
{
    let f = seq![i];
    assert(embeds_via(seq![b[i]], b, f));
}

/// Every tile of `a` occurs in `b`.
pub open spec fn cell_within(a: Seq<TileView>, b: Seq<TileView>) -> bool {
    forall|k: int| 0 <= k < a.len() ==> b.contains(#[trigger] a[k])
}

/// Containment of cell contents is transitive.
pub proof fn lemma_cell_within_trans(a: Seq<TileView>, b: Seq<TileView>, c: Seq<TileView>)
    requires
        cell_within(a, b),
        cell_within(b, c),
    ensures
        cell_within(a, c),
{
    assert forall|k: int| 0 <= k < a.len() implies c.contains(#[trigger] a[k]) by {
        let j = choose|j: int| 0 <= j < b.len() && b[j] == a[k];
        assert(c.contains(b[j]));
    }
}


/// Implements the wave function collapse algorithm
pub struct Generator<const P: usize> {
    grid: crate::grid::Grid<TileSet<P>>,
    rng: rand::rngs::StdRng,
}

/// The summed candidate count of one row of cells.
pub open spec fn row_entropy<const P: usize>(row: Seq<TileSet<P>>) -> int
    decreases row.len(),
{
    if row.len() == 0 {
        0
    } else {
        row_entropy(row.drop_last()) + row.last()@.len()
    }
}

/// The summed candidate count of a whole grid of cells.
pub open spec fn grid_entropy<const P: usize>(g: Seq<Seq<TileSet<P>>>) -> int
    decreases g.len(),
{
    if g.len() == 0 {
        0
    } else {
        grid_entropy(g.drop_last()) + row_entropy(g.last())
    }
}

/// A row's entropy is never negative.
pub proof fn lemma_row_entropy_nonneg<const P: usize>(row: Seq<TileSet<P>>)
    ensures
        row_entropy(row) >= 0,
    decreases row.len(),
{
    if row.len() > 0 {
        lemma_row_entropy_nonneg(row.drop_last());
    }
}

/// A grid's entropy is never negative.
pub proof fn lemma_grid_entropy_nonneg<const P: usize>(g: Seq<Seq<TileSet<P>>>)
    ensures
        grid_entropy(g) >= 0,
    decreases g.len(),
{
    if g.len() > 0 {
        lemma_grid_entropy_nonneg(g.drop_last());
        lemma_row_entropy_nonneg(g.last());
    }
}

/// Prefix sums of a row's entropy grow by one cell's count at a time.
pub proof fn lemma_row_entropy_take<const P: usize>(row: Seq<TileSet<P>>, i: int)
    requires
        0 <= i < row.len(),
    ensures
        row_entropy(row.take(i + 1)) == row_entropy(row.take(i)) + row[i]@.len(),
{
    assert(row.take(i + 1).drop_last() =~= row.take(i));
    assert(row.take(i + 1).last() == row[i]);
}

/// Prefix sums of a grid's entropy grow by one row at a time.
pub proof fn lemma_grid_entropy_take<const P: usize>(g: Seq<Seq<TileSet<P>>>, j: int)
    requires
        0 <= j < g.len(),
    ensures
        grid_entropy(g.take(j + 1)) == grid_entropy(g.take(j)) + row_entropy(g[j]),
{
    assert(g.take(j + 1).drop_last() =~= g.take(j));
    assert(g.take(j + 1).last() == g[j]);
}

/// Replacing one cell of a row shifts the row's entropy by the difference of
/// the two cells' counts.
pub proof fn lemma_row_entropy_update<const P: usize>(row: Seq<TileSet<P>>, i: int, c: TileSet<P>)
    requires
        0 <= i < row.len(),
    ensures
        row_entropy(row.update(i, c)) == row_entropy(row) - row[i]@.len() + c@.len(),
    decreases row.len(),
{
    let upd = row.update(i, c);
    if i == row.len() - 1 {
        assert(upd.drop_last() =~= row.drop_last());
        assert(upd.last() == c);
    } else {
        assert(upd.drop_last() =~= row.drop_last().update(i, c));
        assert(upd.last() == row.last());
        lemma_row_entropy_update(row.drop_last(), i, c);
    }
}

/// Replacing one row of a grid shifts the grid's entropy by the difference of
/// the two rows' entropies.
pub proof fn lemma_grid_entropy_update<const P: usize>(
    g: Seq<Seq<TileSet<P>>>,
    j: int,
    r: Seq<TileSet<P>>,
)
    requires
        0 <= j < g.len(),
    ensures
        grid_entropy(g.update(j, r)) == grid_entropy(g) - row_entropy(g[j]) + row_entropy(r),
    decreases g.len(),
{
    let upd = g.update(j, r);
    if j == g.len() - 1 {
        assert(upd.drop_last() =~= g.drop_last());
        assert(upd.last() == r);
    } else {
        assert(upd.drop_last() =~= g.drop_last().update(j, r));
        assert(upd.last() == g.last());
        lemma_grid_entropy_update(g.drop_last(), j, r);
    }
}

/// A prefix of a row carries no more entropy than the row.
pub proof fn lemma_row_entropy_take_le<const P: usize>(row: Seq<TileSet<P>>, i: int)
    requires
        0 <= i <= row.len(),
    ensures
        row_entropy(row.take(i)) <= row_entropy(row),
    decreases row.len() - i,
{
    if i == row.len() {
        assert(row.take(i) =~= row);
    } else {
        lemma_row_entropy_take(row, i);
        lemma_row_entropy_take_le(row, i + 1);
    }
}

/// A prefix of a grid carries no more entropy than the grid.
pub proof fn lemma_grid_entropy_take_le<const P: usize>(g: Seq<Seq<TileSet<P>>>, j: int)
    requires
        0 <= j <= g.len(),
    ensures
        grid_entropy(g.take(j)) <= grid_entropy(g),
    decreases g.len() - j,
{
    if j == g.len() {
        assert(g.take(j) =~= g);
    } else {
        lemma_grid_entropy_take(g, j);
        lemma_row_entropy_nonneg(g[j]);
        lemma_grid_entropy_take_le(g, j + 1);
    }
}

impl<const P: usize> Generator<P> {
    /// The number of columns of the generator's grid.
    pub closed spec fn spec_width(&self) -> int {
        self.grid.spec_width()
    }

    /// The number of rows of the generator's grid.
    pub closed spec fn spec_height(&self) -> int {
        self.grid.spec_height()
    }

    /// The candidate variants of the cell at `p`, in order.
    pub closed spec fn cell_at(&self, p: (usize, usize)) -> Seq<TileView> {
        self.grid@[p.1 as int][p.0 as int]@
    }

    /// Whether `p` lies on the generator's grid.
    pub open spec fn spec_in_bounds(&self, p: (usize, usize)) -> bool {
        p.0 < self.spec_width() && p.1 < self.spec_height()
    }

    /// The summed candidate count over all cells.
    pub closed spec fn spec_entropy(&self) -> int {
        grid_entropy(self.grid@)
    }

    /// A generator is well formed when its grid is rectangular and non-empty
    /// and no cell lists the same variant twice.
    pub closed spec fn wf(&self) -> bool {
        &&& self.grid.wf()
        &&& self.grid.spec_width() > 0
        &&& self.grid.spec_height() > 0
        &&& forall|p: (usize, usize)| self.spec_in_bounds(p) ==> no_dup_views(#[trigger] self.cell_at(p))
    }

    /// Whether every cell of the generator holds exactly one candidate.
    pub open spec fn spec_is_collapsed(&self) -> bool {
        forall|p: (usize, usize)| self.spec_in_bounds(p) ==> (#[trigger] self.cell_at(p)).len() == 1
    }

    /// Whether some cell of the generator holds no candidate at all.
    pub open spec fn spec_any_empty(&self) -> bool {
        exists|p: (usize, usize)| self.spec_in_bounds(p) && (#[trigger] self.cell_at(p)).len() == 0
    }
}

/// Two generators cover a grid of the same size.
pub open spec fn same_dims<const P: usize>(a: &Generator<P>, b: &Generator<P>) -> bool {
    a.spec_width() == b.spec_width() && a.spec_height() == b.spec_height()
}

/// Two generators hold cell for cell the same candidates.
pub open spec fn same_cells<const P: usize>(a: &Generator<P>, b: &Generator<P>) -> bool {
    &&& same_dims(a, b)
    &&& forall|p: (usize, usize)| a.spec_in_bounds(p) ==> a.cell_at(p) == b.cell_at(p)
}

/// `b` narrows `a`: the grids match in size and every cell of `b` holds a
/// selection of the candidates the same cell of `a` held, in the order they
/// held them and never more of them.
pub open spec fn narrows<const P: usize>(b: &Generator<P>, a: &Generator<P>) -> bool {
    &&& same_dims(b, a)
    &&& forall|p: (usize, usize)|
        a.spec_in_bounds(p) ==> cell_within(#[trigger] b.cell_at(p), a.cell_at(p))
            && b.cell_at(p).len() <= a.cell_at(p).len() && subseq_of(
            b.cell_at(p),
            a.cell_at(p),
        )
}

/// Narrowing is transitive.
pub proof fn lemma_narrows_trans<const P: usize>(c: &Generator<P>, b: &Generator<P>, a: &Generator<P>)
    requires
        narrows(c, b),
        narrows(b, a),
    ensures
        narrows(c, a),
{
    assert forall|p: (usize, usize)|
        a.spec_in_bounds(p) implies cell_within(#[trigger] c.cell_at(p), a.cell_at(p))
            && c.cell_at(p).len() <= a.cell_at(p).len() && subseq_of(
            c.cell_at(p),
            a.cell_at(p),
        ) by {
        lemma_cell_within_trans(c.cell_at(p), b.cell_at(p), a.cell_at(p));
        lemma_subseq_trans(c.cell_at(p), b.cell_at(p), a.cell_at(p));
    }
}

/// Every generator narrows itself.
pub proof fn lemma_narrows_refl<const P: usize>(a: &Generator<P>)
    ensures
        narrows(a, a),
{
    assert forall|p: (usize, usize)|
        a.spec_in_bounds(p) implies cell_within(#[trigger] a.cell_at(p), a.cell_at(p))
            && a.cell_at(p).len() <= a.cell_at(p).len() && subseq_of(
            a.cell_at(p),
            a.cell_at(p),
        ) by {
        assert forall|k: int| 0 <= k < a.cell_at(p).len() implies a.cell_at(p).contains(
            #[trigger] a.cell_at(p)[k],
        ) by {}
        lemma_subseq_refl(a.cell_at(p));
    }
}

/// Every candidate of the cell at `q` has, among the candidates of the cell at
/// `p`, a tile that accepts it across the side of `p` facing `q`.
pub open spec fn supported<const P: usize>(
    g: &Generator<P>,
    p: (usize, usize),
    q: (usize, usize),
) -> bool {
    forall|k: int|
        0 <= k < g.cell_at(q).len() ==> set_connects(
            g.cell_at(p),
            #[trigger] g.cell_at(q)[k],
            Side::spec_relative(p, q),
        )
}

/// The whole grid is arc-consistent: every adjacent pair of cells supports
/// each other's remaining candidates.
pub open spec fn arc_consistent<const P: usize>(g: &Generator<P>) -> bool {
    forall|p: (usize, usize), q: (usize, usize)|
        g.spec_in_bounds(p) && g.spec_in_bounds(q) && four_adjacent(p, q) ==> #[trigger] supported(
            g,
            p,
            q,
        )
}

/// The grid is arc-consistent except possibly where the cell at `c` is the
/// supporting side of a pair.
pub open spec fn arc_consistent_except<const P: usize>(g: &Generator<P>, c: (usize, usize)) -> bool {
    forall|p: (usize, usize), q: (usize, usize)|
        g.spec_in_bounds(p) && g.spec_in_bounds(q) && four_adjacent(p, q) && p != c
            ==> #[trigger] supported(g, p, q)
}


/// A non-empty tile list deduplicates to a non-empty catalog.
pub proof fn lemma_dedup_nonempty(s: Seq<TileView>)
    requires
        s.len() > 0,
    ensures
        dedup_views(s).len() > 0,
    decreases s.len(),
{
    if s.len() > 1 {
        lemma_dedup_nonempty(s.drop_last());
    }
}

/// The in-bounds 4-neighbors of `(x, y)` on a `w` by `h` grid, in the probe
/// order left, right, above, below.
pub open spec fn adjacent_spec(w: int, h: int, x: usize, y: usize) -> Seq<(usize, usize)> {
    let a: Seq<(usize, usize)> = if x > 0 && x - 1 < w && y < h {
        seq![(((x - 1) as usize), y)]
    } else {
        Seq::empty()
    };
    let b: Seq<(usize, usize)> = if x < usize::MAX && x + 1 < w && y < h {
        seq![(((x + 1) as usize), y)]
    } else {
        Seq::empty()
    };
    let c: Seq<(usize, usize)> = if y > 0 && y - 1 < h && x < w {
        seq![(x, ((y - 1) as usize))]
    } else {
        Seq::empty()
    };
    let d: Seq<(usize, usize)> = if y < usize::MAX && y + 1 < h && x < w {
        seq![(x, ((y + 1) as usize))]
    } else {
        Seq::empty()
    };
    a + b + c + d
}

impl<const P: usize> Generator<P> {
    /// Builds the generator around the given pseudo-random generator.
    fn build(width: usize, height: usize, tiles: Vec<Tile<P>>, rng: rand::rngs::StdRng) -> (r:
        Result<Self, Error>)
        ensures
            (width == 0 || height == 0 || tiles@.len() == 0) ==> r == Err::<Self, Error>(
                Error::InvalidConfig,
            ),
            (width > 0 && height > 0 && tiles@.len() > 0) ==> {
                &&& r is Ok
                &&& {
                    let g = r.unwrap();
                    &&& g.wf()
                    &&& g.spec_width() == width
                    &&& g.spec_height() == height
                    &&& forall|p: (usize, usize)|
                        g.spec_in_bounds(p) ==> #[trigger] g.cell_at(p) == dedup_views(
                            tile_views(tiles@),
                        )
                }
            },
    {
        let ghost dv = dedup_views(tile_views(tiles@));
        let deduped = dedup_tiles(tiles);
        if width == 0 || height == 0 || deduped.len() == 0 {
            proof {
                if width > 0 && height > 0 && tile_views(tiles@).len() > 0 {
                    lemma_dedup_nonempty(tile_views(tiles@));
                }
            }
            return Err(Error::InvalidConfig);
        }
        let fill = TileSet::new(deduped);
        let grid = crate::grid::Grid::new(width, height, fill);
        let g = Generator { grid, rng };
        proof {
            assert forall|p: (usize, usize)| g.spec_in_bounds(p) implies #[trigger] g.cell_at(p)
                == dv by {
                assert(cloned(fill, g.grid@[p.1 as int][p.0 as int]));
            }
            lemma_dedup_no_dups(tile_views(tiles@));
        }
        Ok(g)
    }

    /// Creates a new generator whose random choices are seeded from the
    /// operating system. After success every cell holds the deduplicated
    /// catalog, whole and in order.
    pub fn new(width: usize, height: usize, tiles: Vec<Tile<P>>) -> (r: Result<Self, Error>)
        ensures
            (width == 0 || height == 0 || tiles@.len() == 0) ==> r == Err::<Self, Error>(
                Error::InvalidConfig,
            ),
            (width > 0 && height > 0 && tiles@.len() > 0) ==> {
                &&& r is Ok
                &&& {
                    let g = r.unwrap();
                    &&& g.wf()
                    &&& g.spec_width() == width
                    &&& g.spec_height() == height
                    &&& forall|p: (usize, usize)|
                        g.spec_in_bounds(p) ==> #[trigger] g.cell_at(p) == dedup_views(
                            tile_views(tiles@),
                        )
                }
            },
    {
        Self::build(width, height, tiles, crate::rng::rng_from_entropy())
    }

    /// Creates a new generator whose random choices are fixed by the given
    /// seed: two generators built alike from one seed make the same choices.
    pub fn with_seed(width: usize, height: usize, tiles: Vec<Tile<P>>, seed: u64) -> (r: Result<
        Self,
        Error,
    >)
        ensures
            (width == 0 || height == 0 || tiles@.len() == 0) ==> r == Err::<Self, Error>(
                Error::InvalidConfig,
            ),
            (width > 0 && height > 0 && tiles@.len() > 0) ==> {
                &&& r is Ok
                &&& {
                    let g = r.unwrap();
                    &&& g.wf()
                    &&& g.spec_width() == width
                    &&& g.spec_height() == height
                    &&& forall|p: (usize, usize)|
                        g.spec_in_bounds(p) ==> #[trigger] g.cell_at(p) == dedup_views(
                            tile_views(tiles@),
                        )
                }
            },
    {
        Self::build(width, height, tiles, crate::rng::rng_from_seed(seed))
    }

    /// Returns a reference to the generator's grid
    pub fn grid(&self) -> (r: &crate::grid::Grid<TileSet<P>>)
        ensures
            self.wf() ==> r.wf(),
            r.spec_width() == self.spec_width(),
            r.spec_height() == self.spec_height(),
            forall|p: (usize, usize)|
                self.spec_in_bounds(p) ==> r@[p.1 as int][p.0 as int]@ == #[trigger] self.cell_at(
                    p,
                ),
    {
        &self.grid
    }

    /// Returns the grid's total number of possible tiles
    pub fn entropy(&self) -> (r: usize)
        requires
            self.wf(),
            self.spec_entropy() <= usize::MAX,
        ensures
            r == self.spec_entropy(),
    {
        let width = self.grid.width();
        let height = self.grid.height();
        let mut acc: usize = 0;
        let mut y: usize = 0;
        proof {
            assert(self.grid@.take(0) =~= Seq::<Seq<TileSet<P>>>::empty());
        }
        while y < height
            invariant
                self.wf(),
                self.spec_entropy() <= usize::MAX,
                width == self.spec_width(),
                height == self.spec_height(),
                0 <= y <= height,
                acc == grid_entropy(self.grid@.take(y as int)),
            decreases height - y,
        {
            let ghost row = self.grid@[y as int];
            let mut x: usize = 0;
            proof {
                assert(row.take(0) =~= Seq::<TileSet<P>>::empty());
            }
            while x < width
                invariant
                    self.wf(),
                    self.spec_entropy() <= usize::MAX,
                    width == self.spec_width(),
                    height == self.spec_height(),
                    0 <= y < height,
                    0 <= x <= width,
                    row == self.grid@[y as int],
                    acc == grid_entropy(self.grid@.take(y as int)) + row_entropy(
                        row.take(x as int),
                    ),
                decreases width - x,
            {
                let cell = match self.grid.get(x, y) {
                    Ok(c) => c,
                    Err(_) => {
                        proof {
                            assert(false);
                        }
                        return 0;
                    },
                };
                proof {
                    lemma_row_entropy_take(row, x as int);
                    lemma_row_entropy_take_le(row, x as int + 1);
                    lemma_grid_entropy_take(self.grid@, y as int);
                    lemma_grid_entropy_take_le(self.grid@, y as int + 1);
                    lemma_grid_entropy_nonneg(self.grid@.take(y as int));
                    lemma_row_entropy_nonneg(row.take(x as int));
                }
                acc = acc + cell.len();
                x = x + 1;
            }
            proof {
                assert(row.take(width as int) =~= row);
                lemma_grid_entropy_take(self.grid@, y as int);
            }
            y = y + 1;
        }
        proof {
            assert(self.grid@.take(height as int) =~= self.grid@);
        }
        acc
    }

    /// Returns `true` if the grid has only one possible state
    pub fn is_collapsed(&self) -> (r: bool)
        requires
            self.wf(),
        ensures
            r == self.spec_is_collapsed(),
    {
        let width = self.grid.width();
        let height = self.grid.height();
        let mut y: usize = 0;
        while y < height
            invariant
                self.wf(),
                width == self.spec_width(),
                height == self.spec_height(),
                0 <= y <= height,
                forall|p: (usize, usize)|
                    self.spec_in_bounds(p) && p.1 < y ==> (#[trigger] self.cell_at(p)).len() == 1,
            decreases height - y,
        {
            let mut x: usize = 0;
            while x < width
                invariant
                    self.wf(),
                    width == self.spec_width(),
                    height == self.spec_height(),
                    0 <= y < height,
                    0 <= x <= width,
                    forall|p: (usize, usize)|
                        self.spec_in_bounds(p) && p.1 < y ==> (#[trigger] self.cell_at(
                            p,
                        )).len() == 1,
                    forall|p: (usize, usize)|
                        self.spec_in_bounds(p) && p.1 == y && p.0 < x ==> (
                        #[trigger] self.cell_at(p)).len() == 1,
                decreases width - x,
            {
                let cell = match self.grid.get(x, y) {
                    Ok(c) => c,
                    Err(_) => {
                        proof {
                            assert(false);
                        }
                        return false;
                    },
                };
                if !cell.is_collapsed() {
                    assert(self.cell_at((x, y)).len() != 1);
                    return false;
                }
                assert(self.cell_at((x, y)).len() == 1);
                x = x + 1;
            }
            y = y + 1;
        }
        true
    }

    /// Returns `true` if the grid is entirely empty; this should never happen
    pub fn is_empty(&self) -> (r: bool)
        requires
            self.wf(),
        ensures
            r == (forall|p: (usize, usize)|
                self.spec_in_bounds(p) ==> (#[trigger] self.cell_at(p)).len() == 0),
    {
        let width = self.grid.width();
        let height = self.grid.height();
        let mut y: usize = 0;
        while y < height
            invariant
                self.wf(),
                width == self.spec_width(),
                height == self.spec_height(),
                0 <= y <= height,
                forall|p: (usize, usize)|
                    self.spec_in_bounds(p) && p.1 < y ==> (#[trigger] self.cell_at(p)).len() == 0,
            decreases height - y,
        {
            let mut x: usize = 0;
            while x < width
                invariant
                    self.wf(),
                    width == self.spec_width(),
                    height == self.spec_height(),
                    0 <= y < height,
                    0 <= x <= width,
                    forall|p: (usize, usize)|
                        self.spec_in_bounds(p) && p.1 < y ==> (#[trigger] self.cell_at(
                            p,
                        )).len() == 0,
                    forall|p: (usize, usize)|
                        self.spec_in_bounds(p) && p.1 == y && p.0 < x ==> (
                        #[trigger] self.cell_at(p)).len() == 0,
                decreases width - x,
            {
                let cell = match self.grid.get(x, y) {
                    Ok(c) => c,
                    Err(_) => {
                        proof {
                            assert(false);
                        }
                        return false;
                    },
                };
                if !cell.is_empty() {
                    assert(self.cell_at((x, y)).len() != 0);
                    return false;
                }
                assert(self.cell_at((x, y)).len() == 0);
                x = x + 1;
            }
            y = y + 1;
        }
        true
    }

    /// Returns `true` if the grid contains any empty tile sets; this should never happen, but is more likely than `is_empty()` returning `true`
    pub fn is_any_empty(&self) -> (r: bool)
        requires
            self.wf(),
        ensures
            r == self.spec_any_empty(),
    {
        let width = self.grid.width();
        let height = self.grid.height();
        let mut y: usize = 0;
        while y < height
            invariant
                self.wf(),
                width == self.spec_width(),
                height == self.spec_height(),
                0 <= y <= height,
                forall|p: (usize, usize)|
                    self.spec_in_bounds(p) && p.1 < y ==> (#[trigger] self.cell_at(p)).len() != 0,
            decreases height - y,
        {
            let mut x: usize = 0;
            while x < width
                invariant
                    self.wf(),
                    width == self.spec_width(),
                    height == self.spec_height(),
                    0 <= y < height,
                    0 <= x <= width,
                    forall|p: (usize, usize)|
                        self.spec_in_bounds(p) && p.1 < y ==> (#[trigger] self.cell_at(
                            p,
                        )).len() != 0,
                    forall|p: (usize, usize)|
                        self.spec_in_bounds(p) && p.1 == y && p.0 < x ==> (
                        #[trigger] self.cell_at(p)).len() != 0,
                decreases width - x,
            {
                let cell = match self.grid.get(x, y) {
                    Ok(c) => c,
                    Err(_) => {
                        proof {
                            assert(false);
                        }
                        return false;
                    },
                };
                if cell.is_empty() {
                    assert(self.cell_at((x, y)).len() == 0);
                    return true;
                }
                assert(self.cell_at((x, y)).len() != 0);
                x = x + 1;
            }
            y = y + 1;
        }
        false
    }

    /// Returns a list of possible positions that are directly adjacent to the provided positon
    pub fn adjacent(&self, x: usize, y: usize) -> (r: Vec<(usize, usize)>)
        ensures
            r@ == adjacent_spec(self.spec_width(), self.spec_height(), x, y),
            forall|k: int|
                0 <= k < r@.len() ==> {
                    let q = #[trigger] r@[k];
                    &&& self.spec_in_bounds(q)
                    &&& four_adjacent((x, y), q)
                    &&& q != (x, y)
                },
            x < self.spec_width() && y < self.spec_height() ==> forall|q: (usize, usize)|
                self.spec_in_bounds(q) && four_adjacent((x, y), q) ==> r@.contains(q),
    {
        let w = self.grid.width();
        let h = self.grid.height();
        let mut r: Vec<(usize, usize)> = Vec::new();
        if x > 0 && x - 1 < w && y < h {
            r.push((x - 1, y));
        }
        if x < usize::MAX && x + 1 < w && y < h {
            r.push((x + 1, y));
        }
        if y > 0 && y - 1 < h && x < w {
            r.push((x, y - 1));
        }
        if y < usize::MAX && y + 1 < h && x < w {
            r.push((x, y + 1));
        }
        proof {
            assert(r@ =~= adjacent_spec(self.spec_width(), self.spec_height(), x, y));
            if x < self.spec_width() && y < self.spec_height() {
                assert forall|q: (usize, usize)|
                    self.spec_in_bounds(q) && four_adjacent((x, y), q) implies r@.contains(q) by {
                    if q.1 == y && q.0 + 1 == x {
                        assert(r@[0] == q);
                    } else if q.1 == y && q.0 == x + 1 {
                        assert(r@.contains(q)) by {
                            let i = if x > 0 {
                                1int
                            } else {
                                0int
                            };
                            assert(r@[i] == q);
                        }
                    } else if q.0 == x && q.1 + 1 == y {
                        assert(r@.contains(q)) by {
                            let i = (if x > 0 {
                                1int
                            } else {
                                0int
                            }) + (if x + 1 < self.spec_width() {
                                1int
                            } else {
                                0int
                            });
                            assert(r@[i] == q);
                        }
                    } else {
                        assert(q.0 == x && q.1 == y + 1);
                        assert(r@.contains(q)) by {
                            let i = (if x > 0 {
                                1int
                            } else {
                                0int
                            }) + (if x + 1 < self.spec_width() {
                                1int
                            } else {
                                0int
                            }) + (if y > 0 {
                                1int
                            } else {
                                0int
                            });
                            assert(r@[i] == q);
                        }
                    }
                }
            }
        }
        r
    }
}


/// Prefix sums of weights never pass the whole sum when weights are
/// non-negative.
pub proof fn lemma_total_weight_take_le(s: Seq<TileView>, i: int)
    requires
        0 <= i <= s.len(),
        forall|k: int| 0 <= k < s.len() ==> (#[trigger] s[k]).weight >= 0,
    ensures
        total_weight(s.take(i)) <= total_weight(s),
    decreases s.len() - i,
{
    if i == s.len() {
        assert(s.take(i) =~= s);
    } else {
        lemma_total_weight_take(s, i);
        lemma_total_weight_take_le(s, i + 1);
    }
}

impl<const P: usize> Generator<P> {
    /// Returns a position for the tile set with the lowest number of possible
    /// tiles, chosen uniformly at random among the tied cells; when every
    /// cell is already collapsed there is no valid set to pick. Only the
    /// random state changes; the grid does not.
    pub fn next_position(&mut self) -> (r: Result<(usize, usize), Error>)
        requires
            old(self).wf(),
        ensures
            final(self).wf(),
            same_cells(final(self), old(self)),
            (r is Ok) <==> !old(self).spec_is_collapsed(),
            r is Err ==> r == Err::<(usize, usize), Error>(Error::NoValidSet),
            r matches Ok(p) ==> {
                &&& old(self).spec_in_bounds(p)
                &&& old(self).cell_at(p).len() != 1
                &&& forall|q: (usize, usize)|
                    old(self).spec_in_bounds(q) && (#[trigger] old(self).cell_at(q)).len() != 1
                        ==> old(self).cell_at(p).len() <= old(self).cell_at(q).len()
            },
    {
        let width = self.grid.width();
        let height = self.grid.height();
        let mut cands: Vec<(usize, usize)> = Vec::new();
        let mut y: usize = 0;
        while y < height
            invariant
                self.wf(),
                width == self.spec_width(),
                height == self.spec_height(),
                0 <= y <= height,
                forall|k: int|
                    0 <= k < cands@.len() ==> {
                        let p = #[trigger] cands@[k];
                        self.spec_in_bounds(p) && self.cell_at(p).len() != 1
                    },
                forall|p: (usize, usize)|
                    self.spec_in_bounds(p) && p.1 < y && (#[trigger] self.cell_at(p)).len() != 1
                        ==> cands@.contains(p),
            decreases height - y,
        {
            let mut x: usize = 0;
            while x < width
                invariant
                    self.wf(),
                    width == self.spec_width(),
                    height == self.spec_height(),
                    0 <= y < height,
                    0 <= x <= width,
                    forall|k: int|
                        0 <= k < cands@.len() ==> {
                            let p = #[trigger] cands@[k];
                            self.spec_in_bounds(p) && self.cell_at(p).len() != 1
                        },
                    forall|p: (usize, usize)|
                        self.spec_in_bounds(p) && p.1 < y && (#[trigger] self.cell_at(
                            p,
                        )).len() != 1 ==> cands@.contains(p),
                    forall|p: (usize, usize)|
                        self.spec_in_bounds(p) && p.1 == y && p.0 < x && (#[trigger] self.cell_at(
                            p,
                        )).len() != 1 ==> cands@.contains(p),
                decreases width - x,
            {
                let cell = match self.grid.get(x, y) {
                    Ok(c) => c,
                    Err(_) => {
                        proof {
                            assert(false);
                        }
                        return Err(Error::NoValidSet);
                    },
                };
                let ghost old_cands = cands@;
                if !cell.is_collapsed() {
                    cands.push((x, y));
                }
                proof {
                    assert forall|p: (usize, usize)|
                        self.spec_in_bounds(p) && p.1 == y && p.0 < x + 1 && (
                        #[trigger] self.cell_at(p)).len() != 1 implies cands@.contains(p) by {
                        if p.0 < x {
                            let k = choose|k: int| 0 <= k < old_cands.len() && old_cands[k] == p;
                            assert(cands@[k] == p);
                        } else {
                            assert(cands@[cands@.len() - 1] == p);
                        }
                    }
                    assert forall|p: (usize, usize)|
                        self.spec_in_bounds(p) && p.1 < y && (#[trigger] self.cell_at(
                            p,
                        )).len() != 1 implies cands@.contains(p) by {
                        let k = choose|k: int| 0 <= k < old_cands.len() && old_cands[k] == p;
                        assert(cands@[k] == p);
                    }
                }
                x = x + 1;
            }
            y = y + 1;
        }
        if cands.len() == 0 {
            proof {
                assert forall|p: (usize, usize)|
                    self.spec_in_bounds(p) implies (#[trigger] self.cell_at(p)).len() == 1 by {
                    if self.cell_at(p).len() != 1 {
                        assert(cands@.contains(p));
                    }
                }
            }
            return Err(Error::NoValidSet);
        }
        // the lowest candidate count over all non-collapsed cells
        let mut best: usize = 0;
        let mut have_best = false;
        let n = cands.len();
        let mut i: usize = 0;
        while i < n
            invariant
                self.wf(),
                n == cands@.len(),
                0 <= i <= n,
                n > 0,
                forall|k: int|
                    0 <= k < cands@.len() ==> {
                        let p = #[trigger] cands@[k];
                        self.spec_in_bounds(p) && self.cell_at(p).len() != 1
                    },
                have_best == (i > 0),
                have_best ==> exists|k: int|
                    0 <= k < i && self.cell_at(#[trigger] cands@[k]) =~= self.cell_at(cands@[k])
                        && self.cell_at(cands@[k]).len() == best,
                have_best ==> forall|k: int|
                    0 <= k < i ==> best <= self.cell_at(#[trigger] cands@[k]).len(),
            decreases n - i,
        {
            let p = cands[i];
            let cell = match self.grid.get(p.0, p.1) {
                Ok(c) => c,
                Err(_) => {
                    proof {
                        assert(false);
                    }
                    return Err(Error::NoValidSet);
                },
            };
            let l = cell.len();
            if !have_best || l < best {
                best = l;
                have_best = true;
            }
            i = i + 1;
        }
        // the cells tied for the lowest count
        let mut tied: Vec<(usize, usize)> = Vec::new();
        let mut i2: usize = 0;
        while i2 < n
            invariant
                self.wf(),
                n == cands@.len(),
                0 <= i2 <= n,
                forall|k: int|
                    0 <= k < cands@.len() ==> {
                        let p = #[trigger] cands@[k];
                        self.spec_in_bounds(p) && self.cell_at(p).len() != 1
                    },
                forall|k: int|
                    0 <= k < tied@.len() ==> {
                        let p = #[trigger] tied@[k];
                        self.spec_in_bounds(p) && self.cell_at(p).len() == best
                    },
                forall|k: int|
                    0 <= k < i2 && self.cell_at(#[trigger] cands@[k]).len() == best
                        ==> tied@.contains(cands@[k]),
            decreases n - i2,
        {
            let p = cands[i2];
            let cell = match self.grid.get(p.0, p.1) {
                Ok(c) => c,
                Err(_) => {
                    proof {
                        assert(false);
                    }
                    return Err(Error::NoValidSet);
                },
            };
            let ghost old_tied = tied@;
            if cell.len() == best {
                tied.push(p);
            }
            proof {
                assert forall|k: int|
                    0 <= k < i2 + 1 && self.cell_at(#[trigger] cands@[k]).len() == best
                        implies tied@.contains(cands@[k]) by {
                    if k < i2 {
                        let m = choose|m: int|
                            0 <= m < old_tied.len() && old_tied[m] == cands@[k];
                        assert(tied@[m] == cands@[k]);
                    } else {
                        assert(tied@[tied@.len() - 1] == cands@[k]);
                    }
                }
            }
            i2 = i2 + 1;
        }
        proof {
            let k0 = choose|k: int|
                0 <= k < n && self.cell_at(#[trigger] cands@[k]) =~= self.cell_at(cands@[k])
                    && self.cell_at(cands@[k]).len() == best;
            assert(tied@.contains(cands@[k0]));
        }
        let d = crate::rng::rand_below(&mut self.rng, tied.len() as u128);
        let di = d as usize;
        let p = tied[di];
        proof {
            assert(self.grid == old(self).grid);
            assert forall|q: (usize, usize)| self.spec_in_bounds(q) implies #[trigger] self.cell_at(
                q,
            ) == old(self).cell_at(q) by {}
            assert forall|q: (usize, usize)|
                old(self).spec_in_bounds(q) implies no_dup_views(
                #[trigger] old(self).cell_at(q)) by {
                assert(old(self).cell_at(q) == self.cell_at(q));
            }
            assert(self.wf());
            assert forall|q: (usize, usize)|
                old(self).spec_in_bounds(q) && (#[trigger] old(self).cell_at(q)).len() != 1
                    implies old(self).cell_at(p).len() <= old(self).cell_at(q).len() by {
                assert(cands@.contains(q));
                let k = choose|k: int| 0 <= k < cands@.len() && cands@[k] == q;
                assert(best <= self.cell_at(cands@[k]).len());
            }
        }
        Ok(p)
    }

    /// Collapses the tile set at the provided coordinates to a random possible
    /// tile, drawn in proportion to the tiles' weights. Exactly one tile
    /// remains in that cell on success; every other cell is untouched.
    pub fn collapse(&mut self, x: usize, y: usize) -> (r: Result<(), Error>)
        requires
            old(self).wf(),
        ensures
            final(self).wf(),
            narrows(final(self), old(self)),
            !(x < old(self).spec_width() && y < old(self).spec_height()) ==> r == Err::<
                (),
                Error,
            >(Error::MissingSet) && same_cells(final(self), old(self)),
            x < old(self).spec_width() && y < old(self).spec_height() ==> r == Ok::<(), Error>(())
                || r == Err::<(), Error>(Error::EmptySet) || r == Err::<(), Error>(
                Error::InvalidWeight,
            ),
            x < old(self).spec_width() && y < old(self).spec_height() ==> {
                let c = old(self).cell_at((x, y));
                &&& (c.len() == 0 ==> r == Err::<(), Error>(Error::EmptySet) && same_cells(
                    final(self),
                    old(self),
                ))
                &&& (c.len() > 0 && total_weight(c) == 0 ==> r == Err::<(), Error>(
                    Error::InvalidWeight,
                ) && same_cells(final(self), old(self)))
                &&& (c.len() > 0 && total_weight(c) > 0 ==> r == Ok::<(), Error>(())
                    && exists|i: int|
                    0 <= i < c.len() && (#[trigger] c[i]).weight > 0 && final(self).cell_at(
                        (x, y),
                    ) == seq![c[i]])
                &&& (forall|q: (usize, usize)|
                    old(self).spec_in_bounds(q) && q != (x, y) ==> final(self).cell_at(q)
                        == #[trigger] old(self).cell_at(q))
            },
    {
        if !self.grid.contains_coords(x, y) {
            proof {
                lemma_narrows_refl(self);
            }
            return Err(Error::MissingSet);
        }
        let ghost c = self.cell_at((x, y));
        proof {
            assert(c == old(self).cell_at((x, y)));
            assert(old(self).spec_in_bounds((x, y)));
            assert(no_dup_views(old(self).cell_at((x, y))));
            assert(no_dup_views(c));
        }
        let cell = match self.grid.get(x, y) {
            Ok(cl) => cl,
            Err(_) => {
                proof {
                    assert(false);
                }
                return Err(Error::MissingSet);
            },
        };
        if cell.is_empty() {
            proof {
                lemma_narrows_refl(self);
            }
            return Err(Error::EmptySet);
        }
        let tiles = cell.tiles();
        let n = tiles.len();
        proof {
            assert(tile_views(tiles@) == c);
            assert(forall|k: int| 0 <= k < c.len() ==> (#[trigger] c[k]).weight >= 0);
        }
        // total weight, exactly; it cannot overflow the wide accumulator
        let mut sum: u128 = 0;
        let mut i: usize = 0;
        while i < n
            invariant
                n == c.len(),
                n == tiles@.len(),
                tile_views(tiles@) == c,
                forall|k: int| 0 <= k < c.len() ==> (#[trigger] c[k]).weight >= 0,
                forall|k: int|
                    0 <= k < c.len() ==> (#[trigger] c[k]).weight <= usize::MAX as int,
                0 <= i <= n,
                sum as int == total_weight(c.take(i as int)),
                sum as int <= (i as int) * (usize::MAX as int),
            decreases n - i,
        {
            let w = tiles[i].weight();
            proof {
                lemma_total_weight_take(c, i as int);
                assert(c[i as int] == tiles@[i as int]@);
                let m = usize::MAX as int;
                assert((i as int) * m + m == ((i as int) + 1) * m) by (nonlinear_arith);
                assert(((i as int) + 1) * m <= (m + 1) * m) by (nonlinear_arith)
                    requires
                        0 <= i as int <= m,
                        0 <= m,
                ;
                assert(m <= 0xffff_ffff_ffff_ffffint);
                assert((m + 1) * m <= 0x1_0000_0000_0000_0000int * 0xffff_ffff_ffff_ffffint)
                    by (nonlinear_arith)
                    requires
                        0 <= m,
                        m <= 0xffff_ffff_ffff_ffffint,
                ;
            }
            sum = sum + (w as u128);
            i = i + 1;
        }
        proof {
            assert(c.take(n as int) =~= c);
        }
        if sum == 0 {
            proof {
                lemma_narrows_refl(self);
            }
            return Err(Error::InvalidWeight);
        }
        let draw = crate::rng::rand_below(&mut self.rng, sum);
        // find the tile whose cumulative weight bracket holds the draw
        let cell2 = match self.grid.get(x, y) {
            Ok(cl) => cl,
            Err(_) => {
                proof {
                    assert(false);
                }
                return Err(Error::MissingSet);
            },
        };
        let tiles2 = cell2.tiles();
        let mut acc: u128 = 0;
        let mut idx: usize = 0;
        let mut found = false;
        let mut j: usize = 0;
        while j < n
            invariant
                n == c.len(),
                n == tiles2@.len(),
                tile_views(tiles2@) == c,
                forall|k: int| 0 <= k < c.len() ==> (#[trigger] c[k]).weight >= 0,
                0 <= j <= n,
                sum as int == total_weight(c),
                draw < sum,
                !found ==> acc as int == total_weight(c.take(j as int)) && draw >= acc,
                found ==> idx < n && c[idx as int].weight > 0,
            decreases n - j,
        {
            if !found {
                let w = tiles2[j].weight();
                proof {
                    lemma_total_weight_take(c, j as int);
                    lemma_total_weight_take_le(c, j as int + 1);
                    assert(c[j as int] == tiles2@[j as int]@);
                }
                if draw < acc + (w as u128) {
                    found = true;
                    idx = j;
                    proof {
                        assert(c[j as int].weight as u128 == w as u128);
                        assert(draw >= acc);
                        assert(w as u128 > 0);
                    }
                } else {
                    acc = acc + (w as u128);
                }
            }
            j = j + 1;
        }
        proof {
            if !found {
                assert(c.take(n as int) =~= c);
                assert(draw >= sum);
                assert(false);
            }
        }
        let tile = tiles2[idx].clone();
        let mut newcell = cell2.clone();
        newcell.collapse(&tile);
        let ghost newv = newcell@;
        proof {
            lemma_filter_teq_count(c, tile@);
            assert(teq(c[idx as int], tile@));
            assert(has_teq(c, tile@));
            lemma_filter_sub(c, |v: TileView| teq(v, tile@));
            let kept = c.filter(|v: TileView| teq(v, tile@));
            assert(kept.len() == 1);
            assert(c.contains(kept[0]));
            let m = choose|m: int| 0 <= m < c.len() && c[m] == kept[0];
            assert(teq(kept[0], tile@));
            assert(teq(c[m], c[idx as int]));
            assert(no_dup_views(c));
            if m < idx as int {
                assert(!teq(c[m], c[idx as int]));
                assert(false);
            }
            if m > idx as int {
                assert(!teq(c[idx as int], c[m]));
                assert(false);
            }
            assert(kept =~= seq![c[idx as int]]);
        }
        match self.grid.set(x, y, newcell) {
            Ok(_) => {},
            Err(_) => {
                proof {
                    assert(false);
                }
                return Err(Error::MissingSet);
            },
        }
        proof {
            assert(final(self).cell_at((x, y)) == newv);
            assert forall|q: (usize, usize)|
                old(self).spec_in_bounds(q) && q != (x, y) implies final(self).cell_at(q)
                    == #[trigger] old(self).cell_at(q) by {
                if q.1 == y {
                    assert(final(self).grid@[q.1 as int][q.0 as int]
                        == old(self).grid@[q.1 as int][q.0 as int]);
                }
            }
            assert(final(self).wf()) by {
                assert forall|p: (usize, usize)|
                    final(self).spec_in_bounds(p) implies no_dup_views(
                    #[trigger] final(self).cell_at(p)) by {
                    if p == (x, y) {
                        assert(no_dup_views(seq![c[idx as int]]));
                    } else {
                        assert(final(self).cell_at(p) == old(self).cell_at(p));
                    }
                }
            }
            assert(narrows(final(self), old(self))) by {
                assert forall|p: (usize, usize)|
                    old(self).spec_in_bounds(p) implies cell_within(
                    #[trigger] final(self).cell_at(p),
                    old(self).cell_at(p),
                ) && final(self).cell_at(p).len() <= old(self).cell_at(p).len() && subseq_of(
                    final(self).cell_at(p),
                    old(self).cell_at(p),
                ) by {
                    if p == (x, y) {
                        assert(final(self).cell_at(p) == seq![c[idx as int]]);
                        assert(c.contains(c[idx as int]));
                        assert(c.len() >= 1);
                        lemma_singleton_subseq(c, idx as int);
                    } else {
                        lemma_subseq_refl(old(self).cell_at(p));
                    }
                }
            }
        }
        Ok(())
    }
}


/// Arc-consistency holds except possibly where a pending cell is the
/// supporting side of a pair: every candidate of a cell is accepted by some
/// candidate of each neighbor that is not waiting on the worklist.
pub open spec fn pending_consistent<const P: usize>(
    g: &Generator<P>,
    pending: Seq<(usize, usize)>,
) -> bool {
    forall|p: (usize, usize), q: (usize, usize)|
        g.spec_in_bounds(p) && g.spec_in_bounds(q) && four_adjacent(p, q) && !pending.contains(p)
            ==> #[trigger] supported(g, p, q)
}

/// As `pending_consistent`, with one further cell `c` exempted.
pub open spec fn pending_consistent_except<const P: usize>(
    g: &Generator<P>,
    pending: Seq<(usize, usize)>,
    c: (usize, usize),
) -> bool {
    forall|p: (usize, usize), q: (usize, usize)|
        g.spec_in_bounds(p) && g.spec_in_bounds(q) && four_adjacent(p, q) && !pending.contains(p)
            && p != c ==> #[trigger] supported(g, p, q)
}

/// A filter that keeps the whole length keeps the whole sequence, and then
/// every element satisfies the predicate.
pub proof fn lemma_filter_all_g<A>(s: Seq<A>, pred: spec_fn(A) -> bool)
    requires
        s.filter(pred).len() == s.len(),
    ensures
        s.filter(pred) == s,
        forall|k: int| 0 <= k < s.len() ==> pred(#[trigger] s[k]),
    decreases s.len(),
{
    reveal(Seq::filter);
    if s.len() > 0 {
        s.drop_last().lemma_filter_len(pred);
        if !pred(s.last()) {
            assert(s.filter(pred).len() <= s.len() - 1);
        }
        lemma_filter_all_g(s.drop_last(), pred);
        assert(s.filter(pred) =~= s);
        assert forall|k: int| 0 <= k < s.len() implies pred(#[trigger] s[k]) by {
            if k < s.len() - 1 {
                assert(s.drop_last()[k] == s[k]);
            }
        }
    }
}

/// A filter whose predicate holds of every element keeps the whole sequence.
pub proof fn lemma_filter_keep_all<A>(s: Seq<A>, pred: spec_fn(A) -> bool)
    requires
        forall|k: int| 0 <= k < s.len() ==> pred(#[trigger] s[k]),
    ensures
        s.filter(pred) == s,
    decreases s.len(),
{
    reveal(Seq::filter);
    if s.len() > 0 {
        assert(forall|k: int|
            0 <= k < s.drop_last().len() ==> pred(#[trigger] s.drop_last()[k]));
        lemma_filter_keep_all(s.drop_last(), pred);
    }
    assert(s.filter(pred) =~= s);
}

/// Support survives shrinking of the supported cell, as long as the
/// supporting cell keeps its candidates.
pub proof fn lemma_supported_shrink<const P: usize>(
    g1: &Generator<P>,
    g2: &Generator<P>,
    p: (usize, usize),
    q: (usize, usize),
)
    requires
        supported(g1, p, q),
        g2.cell_at(p) == g1.cell_at(p),
        cell_within(g2.cell_at(q), g1.cell_at(q)),
    ensures
        supported(g2, p, q),
{
    assert forall|k: int| 0 <= k < g2.cell_at(q).len() implies set_connects(
        g2.cell_at(p),
        #[trigger] g2.cell_at(q)[k],
        Side::spec_relative(p, q),
    ) by {
        let t = g2.cell_at(q)[k];
        assert(g1.cell_at(q).contains(t));
        let m = choose|m: int| 0 <= m < g1.cell_at(q).len() && g1.cell_at(q)[m] == t;
        assert(set_connects(g1.cell_at(p), g1.cell_at(q)[m], Side::spec_relative(p, q)));
    }
}

/// Builds the sublist of `cell` whose tiles some tile of `s` accepts across
/// side `side` of `s`'s own cell.
fn filter_connecting<const P: usize>(s: &TileSet<P>, cell: &TileSet<P>, side: Side) -> (r: TileSet<
    P,
>)
    ensures
        r@ == cell@.filter(|t: TileView| set_connects(s@, t, side)),
{
    let ghost keep = |t: TileView| set_connects(s@, t, side);
    let mut out: Vec<Tile<P>> = Vec::new();
    let n = cell.tiles.len();
    let mut i: usize = 0;
    while i < n
        invariant
            n == cell.tiles@.len(),
            0 <= i <= n,
            keep == (|t: TileView| set_connects(s@, t, side)),
            tile_views(out@) == cell@.take(i as int).filter(keep),
        decreases n - i,
    {
        let ghost prefix = cell@.take(i as int);
        let ghost all = cell@;
        proof {
            assert(all[i as int] == cell.tiles@[i as int]@);
            assert(all.take(i + 1) =~= prefix + seq![all[i as int]]);
            Seq::<TileView>::filter_distributes_over_add(prefix, seq![all[i as int]], keep);
            reveal_with_fuel(Seq::<_>::filter, 3);
            assert(seq![all[i as int]].drop_last() =~= Seq::<TileView>::empty());
        }
        if s.connects(&cell.tiles[i], side) {
            out.push(cell.tiles[i].clone());
            proof {
                assert(seq![all[i as int]].filter(keep) =~= seq![all[i as int]]);
                assert(tile_views(out@) =~= all.take(i + 1).filter(keep));
            }
        } else {
            proof {
                assert(seq![all[i as int]].filter(keep) =~= Seq::<TileView>::empty());
                assert(tile_views(out@) =~= all.take(i + 1).filter(keep));
            }
        }
        i = i + 1;
    }
    proof {
        assert(cell@.take(n as int) =~= cell@);
    }
    TileSet { tiles: out }
}

/// Returns `true` if the list holds the given position.
fn contains_pos(v: &Vec<(usize, usize)>, q: (usize, usize)) -> (r: bool)
    ensures
        r == v@.contains(q),
{
    let n = v.len();
    let mut i: usize = 0;
    while i < n
        invariant
            n == v@.len(),
            0 <= i <= n,
            forall|k: int| 0 <= k < i ==> v@[k] != q,
        decreases n - i,
    {
        let e = v[i];
        if e.0 == q.0 && e.1 == q.1 {
            assert(v@[i as int] == q);
            return true;
        }
        i = i + 1;
    }
    false
}

impl<const P: usize> Generator<P> {
    /// Runs the worklist to its fixpoint from the given seed cells: while
    /// some cell is pending, its neighbors lose every candidate that no
    /// candidate of the pending cell accepts, and a neighbor that lost
    /// candidates becomes pending in turn. Returns the number of cells
    /// processed, saturating.
    fn propagate_from(&mut self, stack0: Vec<(usize, usize)>) -> (loops: usize)
        requires
            old(self).wf(),
            forall|k: int|
                0 <= k < stack0@.len() ==> old(self).spec_in_bounds(#[trigger] stack0@[k]),
        ensures
            final(self).wf(),
            narrows(final(self), old(self)),
            pending_consistent(old(self), stack0@) ==> arc_consistent(final(self)),
            forall|p: (usize, usize)|
                old(self).spec_in_bounds(p) && (forall|q: (usize, usize)|
                    old(self).spec_in_bounds(q) ==> !four_adjacent(p, q)) ==> final(self).cell_at(
                    p,
                ) == #[trigger] old(self).cell_at(p),
            stack0@.len() > 0 ==> loops >= 1,
            arc_consistent(old(self)) ==> same_cells(final(self), old(self)),
    {
        let ghost cond = pending_consistent(old(self), stack0@);
        let ghost cond2 = arc_consistent(old(self));
        let ghost mut popped: bool = false;
        let mut stack = stack0;
        let mut loops: usize = 0;
        proof {
            lemma_grid_entropy_nonneg(self.grid@);
            lemma_narrows_refl(self);
        }
        while stack.len() > 0
            invariant
                self.wf(),
                self.spec_width() == old(self).spec_width(),
                self.spec_height() == old(self).spec_height(),
                narrows(self, old(self)),
                forall|k: int|
                    0 <= k < stack@.len() ==> self.spec_in_bounds(#[trigger] stack@[k]),
                cond ==> pending_consistent(self, stack@),
                forall|p: (usize, usize)|
                    old(self).spec_in_bounds(p) && (forall|q: (usize, usize)|
                        old(self).spec_in_bounds(q) ==> !four_adjacent(p, q)) ==> self.cell_at(p)
                        == #[trigger] old(self).cell_at(p),
                cond2 == arc_consistent(old(self)),
                cond2 ==> forall|z: (usize, usize)|
                    old(self).spec_in_bounds(z) ==> #[trigger] self.cell_at(z) == old(
                        self,
                    ).cell_at(z),
                popped ==> loops >= 1,
                !popped ==> stack@ == stack0@,
                self.spec_entropy() >= 0,
            decreases self.spec_entropy(), stack@.len(),
        {
            let ghost iter_gen = *self;
            let ghost entropy0 = self.spec_entropy();
            let ghost stack_prev = stack@;
            let p = match stack.pop() {
                Some(p) => p,
                None => {
                    proof {
                        assert(false);
                    }
                    return loops;
                },
            };
            let ghost stack_after_pop = stack@;
            let snapshot = match self.grid.get(p.0, p.1) {
                Ok(c) => c.clone(),
                Err(_) => {
                    proof {
                        assert(false);
                    }
                    return loops;
                },
            };
            let neighbors = self.adjacent(p.0, p.1);
            let nn = neighbors.len();
            proof {
                if cond {
                    assert forall|p2: (usize, usize), q2: (usize, usize)|
                        self.spec_in_bounds(p2) && self.spec_in_bounds(q2) && four_adjacent(
                            p2,
                            q2,
                        ) && !stack@.contains(p2) && p2 != p implies #[trigger] supported(
                        self,
                        p2,
                        q2,
                    ) by {
                        if stack_prev.contains(p2) {
                            let k = choose|k: int|
                                0 <= k < stack_prev.len() && stack_prev[k] == p2;
                            assert(stack_prev[stack_prev.len() - 1] == p);
                            assert(k < stack_prev.len() - 1);
                            assert(stack@[k] == stack_prev[k]);
                            assert(false);
                        }
                    }
                }
            }
            let mut a: usize = 0;
            while a < nn
                invariant
                    self.wf(),
                    self.spec_width() == old(self).spec_width(),
                    self.spec_height() == old(self).spec_height(),
                    self.spec_width() == iter_gen.spec_width(),
                    self.spec_height() == iter_gen.spec_height(),
                    narrows(self, old(self)),
                    self.spec_in_bounds(p),
                    nn == neighbors@.len(),
                    0 <= a <= nn,
                    forall|k: int|
                        0 <= k < neighbors@.len() ==> {
                            let q = #[trigger] neighbors@[k];
                            &&& self.spec_in_bounds(q)
                            &&& four_adjacent(p, q)
                            &&& q != p
                        },
                    forall|q: (usize, usize)|
                        self.spec_in_bounds(q) && four_adjacent(p, q) ==> neighbors@.contains(q),
                    self.cell_at(p) == snapshot@,
                    forall|k: int|
                        0 <= k < stack@.len() ==> self.spec_in_bounds(#[trigger] stack@[k]),
                    cond ==> pending_consistent_except(self, stack@, p),
                    cond ==> forall|j: int|
                        0 <= j < a ==> supported(self, p, #[trigger] neighbors@[j]),
                    forall|pz: (usize, usize)|
                        old(self).spec_in_bounds(pz) && (forall|q: (usize, usize)|
                            old(self).spec_in_bounds(q) ==> !four_adjacent(pz, q))
                            ==> self.cell_at(pz) == #[trigger] old(self).cell_at(pz),
                    cond2 == arc_consistent(old(self)),
                    cond2 ==> forall|z: (usize, usize)|
                        old(self).spec_in_bounds(z) ==> #[trigger] self.cell_at(z) == old(
                            self,
                        ).cell_at(z),
                    cond2 ==> stack@ =~= stack_after_pop,
                    self.spec_entropy() >= 0,
                    self.spec_entropy() < entropy0 || (self.spec_entropy() == entropy0 && stack@
                        =~= stack_after_pop),
                decreases nn - a,
            {
                let ghost pre = *self;
                let q = neighbors[a];
                let side = Side::relative(p, q);
                let qcell = match self.grid.get(q.0, q.1) {
                    Ok(c) => c,
                    Err(_) => {
                        proof {
                            assert(false);
                        }
                        return loops;
                    },
                };
                let ghost qold = qcell@;
                proof {
                    assert(qold == pre.cell_at(q));
                    assert(pre.spec_in_bounds(q));
                    assert(no_dup_views(pre.cell_at(q)));
                    assert(cell_within(pre.cell_at(q), old(self).cell_at(q)));
                    assert(pre.cell_at(q).len() <= old(self).cell_at(q).len());
                }
                let filtered = filter_connecting(&snapshot, qcell, side);
                let qlen = qcell.len();
                let flen = filtered.len();
                let ghost keep = |t: TileView| set_connects(snapshot@, t, side);
                proof {
                    qold.lemma_filter_len(keep);
                }
                if flen < qlen {
                    proof {
                        if cond2 {
                            // an arc-consistent grid loses nothing: the
                            // snapshot supports every candidate of the
                            // neighbor, so the filter keeps the whole cell
                            assert(old(self).spec_in_bounds(p));
                            assert(old(self).spec_in_bounds(q));
                            assert(four_adjacent(p, q));
                            assert(supported(old(self), p, q));
                            assert(snapshot@ == old(self).cell_at(p));
                            assert(qold == old(self).cell_at(q));
                            assert forall|k: int| 0 <= k < qold.len() implies keep(
                                #[trigger] qold[k],
                            ) by {
                                assert(set_connects(
                                    old(self).cell_at(p),
                                    old(self).cell_at(q)[k],
                                    Side::spec_relative(p, q),
                                ));
                            }
                            lemma_filter_keep_all(qold, keep);
                            assert(false);
                        }
                    }
                    let ghost fv = filtered@;
                    match self.grid.set(q.0, q.1, filtered) {
                        Ok(_) => {},
                        Err(_) => {
                            proof {
                                assert(false);
                            }
                            return loops;
                        },
                    }
                    proof {
                        // only the cell at q changed, and it shrank to a sublist
                        assert forall|z: (usize, usize)|
                            pre.spec_in_bounds(z) && z != q implies self.cell_at(z)
                                == #[trigger] pre.cell_at(z) by {
                            if z.1 == q.1 {
                                assert(self.grid@[z.1 as int][z.0 as int]
                                    == pre.grid@[z.1 as int][z.0 as int]);
                            }
                        }
                        assert(self.cell_at(q) == fv);
                        lemma_filter_sub(qold, keep);
                        assert(cell_within(fv, qold));
                        lemma_filter_no_dup(qold, keep);
                        // well-formedness and narrowing carry over
                        assert forall|z: (usize, usize)|
                            self.spec_in_bounds(z) implies no_dup_views(
                            #[trigger] self.cell_at(z)) by {
                            if z != q {
                                assert(self.cell_at(z) == pre.cell_at(z));
                            }
                        }
                        assert(self.wf());
                        assert forall|z: (usize, usize)|
                            old(self).spec_in_bounds(z) implies cell_within(
                            #[trigger] self.cell_at(z),
                            old(self).cell_at(z),
                        ) && self.cell_at(z).len() <= old(self).cell_at(z).len() && subseq_of(
                            self.cell_at(z),
                            old(self).cell_at(z),
                        ) by {
                            if z == q {
                                lemma_cell_within_trans(fv, qold, old(self).cell_at(q));
                                lemma_filter_is_subseq(qold, keep);
                                assert(subseq_of(qold, old(self).cell_at(q)));
                                lemma_subseq_trans(fv, qold, old(self).cell_at(q));
                            } else {
                                assert(self.cell_at(z) == pre.cell_at(z));
                            }
                        }
                        // entropy strictly fell
                        let gy = pre.grid@;
                        let row = gy[q.1 as int];
                        assert((q.1 as int) < gy.len());
                        assert(row.len() == pre.spec_width());
                        assert((q.0 as int) < row.len());
                        lemma_row_entropy_update(row, q.0 as int, self.grid@[q.1 as int][q.0 as int]);
                        lemma_grid_entropy_update(gy, q.1 as int, self.grid@[q.1 as int]);
                        assert(self.grid@ =~= gy.update(
                            q.1 as int,
                            row.update(q.0 as int, self.grid@[q.1 as int][q.0 as int]),
                        ));
                        assert(self.spec_entropy() == pre.spec_entropy() - qold.len() + fv.len());
                        lemma_grid_entropy_nonneg(self.grid@);
                        // isolated cells stay untouched: q has the neighbor p
                        assert forall|pz: (usize, usize)|
                            old(self).spec_in_bounds(pz) && (forall|qz: (usize, usize)|
                                old(self).spec_in_bounds(qz) ==> !four_adjacent(pz, qz))
                                implies self.cell_at(pz) == #[trigger] old(self).cell_at(pz) by {
                            if pz == q {
                                assert(four_adjacent(pz, p));
                                assert(old(self).spec_in_bounds(p));
                                assert(false);
                            }
                            assert(self.cell_at(pz) == pre.cell_at(pz));
                        }
                    }
                    if !contains_pos(&stack, q) {
                        let ghost stack_pre = stack@;
                        stack.push(q);
                        proof {
                            assert(forall|z: (usize, usize)|
                                stack_pre.contains(z) ==> stack@.contains(z)) by {
                                assert forall|z: (usize, usize)|
                                    stack_pre.contains(z) implies stack@.contains(z) by {
                                    let k = choose|k: int|
                                        0 <= k < stack_pre.len() && stack_pre[k] == z;
                                    assert(stack@[k] == z);
                                }
                            }
                            assert(stack@.contains(q)) by {
                                assert(stack@[stack@.len() - 1] == q);
                            }
                        }
                    }
                    proof {
                        if cond {
                            assert forall|p2: (usize, usize), q2: (usize, usize)|
                                self.spec_in_bounds(p2) && self.spec_in_bounds(q2)
                                    && four_adjacent(p2, q2) && !stack@.contains(p2) && p2 != p
                                    implies #[trigger] supported(self, p2, q2) by {
                                assert(stack@.contains(q));
                                assert(p2 != q);
                                assert(supported(&pre, p2, q2));
                                assert(self.cell_at(p2) == pre.cell_at(p2));
                                if q2 == q {
                                    lemma_supported_shrink(&pre, self, p2, q2);
                                } else {
                                    assert(self.cell_at(q2) == pre.cell_at(q2));
                                }
                            }
                            assert forall|j: int|
                                0 <= j < a + 1 implies supported(
                                self,
                                p,
                                #[trigger] neighbors@[j],
                            ) by {
                                if j == a {
                                    assert(self.cell_at(q) == qold.filter(keep));
                                    assert forall|k: int|
                                        0 <= k < self.cell_at(q).len() implies set_connects(
                                        self.cell_at(p),
                                        #[trigger] self.cell_at(q)[k],
                                        Side::spec_relative(p, q),
                                    ) by {
                                        qold.lemma_filter_pred(keep, k);
                                    }
                                } else {
                                    assert(supported(&pre, p, neighbors@[j]));
                                    assert(self.cell_at(p) == pre.cell_at(p));
                                    if neighbors@[j] == q {
                                        lemma_supported_shrink(&pre, self, p, q);
                                    } else {
                                        assert(self.cell_at(neighbors@[j])
                                            == pre.cell_at(neighbors@[j]));
                                    }
                                }
                            }
                        }
                    }
                } else {
                    proof {
                        lemma_filter_all(qold, keep);
                        if cond {
                            assert forall|j: int|
                                0 <= j < a + 1 implies supported(
                                self,
                                p,
                                #[trigger] neighbors@[j],
                            ) by {
                                if j == a {
                                    assert(self.cell_at(q) == qold);
                                    assert forall|k: int|
                                        0 <= k < self.cell_at(q).len() implies set_connects(
                                        self.cell_at(p),
                                        #[trigger] self.cell_at(q)[k],
                                        Side::spec_relative(p, q),
                                    ) by {
                                        assert(keep(qold[k]));
                                    }
                                }
                            }
                        }
                    }
                }
                a = a + 1;
            }
            if loops < usize::MAX {
                loops = loops + 1;
            }
            proof {
                popped = true;
            }
            proof {
                if cond {
                    assert forall|p2: (usize, usize), q2: (usize, usize)|
                        self.spec_in_bounds(p2) && self.spec_in_bounds(q2) && four_adjacent(
                            p2,
                            q2,
                        ) && !stack@.contains(p2) implies #[trigger] supported(self, p2, q2) by {
                        if p2 == p {
                            assert(neighbors@.contains(q2));
                            let j = choose|j: int|
                                0 <= j < neighbors@.len() && neighbors@[j] == q2;
                            assert(supported(self, p, neighbors@[j]));
                        }
                    }
                }
            }
        }
        proof {
            if stack0@.len() > 0 {
                assert(popped);
            }
            if cond2 {
                assert(same_cells(final(self), old(self)));
            }
        }
        loops
    }
}


/// A row whose cells all shrank carries no more entropy.
pub proof fn lemma_row_entropy_le<const P: usize>(r1: Seq<TileSet<P>>, r2: Seq<TileSet<P>>)
    requires
        r1.len() == r2.len(),
        forall|i: int| 0 <= i < r1.len() ==> (#[trigger] r2[i])@.len() <= r1[i]@.len(),
    ensures
        row_entropy(r2) <= row_entropy(r1),
    decreases r1.len(),
{
    if r1.len() > 0 {
        assert(forall|i: int|
            0 <= i < r1.drop_last().len() ==> (#[trigger] r2.drop_last()[i]) == r2[i]
                && r1.drop_last()[i] == r1[i]);
        lemma_row_entropy_le(r1.drop_last(), r2.drop_last());
        assert(r2.last() == r2[r1.len() - 1]);
        assert(r1.last() == r1[r1.len() - 1]);
    }
}

/// A row whose cells all shrank, one of them strictly, carries strictly less
/// entropy.
pub proof fn lemma_row_entropy_lt<const P: usize>(r1: Seq<TileSet<P>>, r2: Seq<TileSet<P>>, i0: int)
    requires
        r1.len() == r2.len(),
        forall|i: int| 0 <= i < r1.len() ==> (#[trigger] r2[i])@.len() <= r1[i]@.len(),
        0 <= i0 < r1.len(),
        r2[i0]@.len() < r1[i0]@.len(),
    ensures
        row_entropy(r2) < row_entropy(r1),
    decreases r1.len(),
{
    assert(forall|i: int|
        0 <= i < r1.drop_last().len() ==> (#[trigger] r2.drop_last()[i]) == r2[i]
            && r1.drop_last()[i] == r1[i]);
    assert(r2.last() == r2[r1.len() - 1]);
    assert(r1.last() == r1[r1.len() - 1]);
    if i0 == r1.len() - 1 {
        lemma_row_entropy_le(r1.drop_last(), r2.drop_last());
    } else {
        lemma_row_entropy_lt(r1.drop_last(), r2.drop_last(), i0);
    }
}

/// A grid whose cells all shrank carries no more entropy.
pub proof fn lemma_grid_entropy_le<const P: usize>(g1: Seq<Seq<TileSet<P>>>, g2: Seq<Seq<TileSet<P>>>)
    requires
        g1.len() == g2.len(),
        forall|j: int| 0 <= j < g1.len() ==> (#[trigger] g2[j]).len() == g1[j].len(),
        forall|j: int, i: int|
            0 <= j < g1.len() && 0 <= i < g1[j].len() ==> (#[trigger] g2[j][i])@.len()
                <= g1[j][i]@.len(),
    ensures
        grid_entropy(g2) <= grid_entropy(g1),
    decreases g1.len(),
{
    if g1.len() > 0 {
        assert(forall|j: int|
            0 <= j < g1.drop_last().len() ==> (#[trigger] g2.drop_last()[j]) == g2[j]
                && g1.drop_last()[j] == g1[j]);
        lemma_grid_entropy_le(g1.drop_last(), g2.drop_last());
        assert(g2.last() == g2[g1.len() - 1]);
        assert(g1.last() == g1[g1.len() - 1]);
        lemma_row_entropy_le(g1[g1.len() - 1], g2[g1.len() - 1]);
    }
}

/// A grid whose cells all shrank, one of them strictly, carries strictly less
/// entropy.
pub proof fn lemma_grid_entropy_lt<const P: usize>(
    g1: Seq<Seq<TileSet<P>>>,
    g2: Seq<Seq<TileSet<P>>>,
    i0: int,
    j0: int,
)
    requires
        g1.len() == g2.len(),
        forall|j: int| 0 <= j < g1.len() ==> (#[trigger] g2[j]).len() == g1[j].len(),
        forall|j: int, i: int|
            0 <= j < g1.len() && 0 <= i < g1[j].len() ==> (#[trigger] g2[j][i])@.len()
                <= g1[j][i]@.len(),
        0 <= j0 < g1.len(),
        0 <= i0 < g1[j0].len(),
        g2[j0][i0]@.len() < g1[j0][i0]@.len(),
    ensures
        grid_entropy(g2) < grid_entropy(g1),
    decreases g1.len(),
{
    assert(forall|j: int|
        0 <= j < g1.drop_last().len() ==> (#[trigger] g2.drop_last()[j]) == g2[j]
            && g1.drop_last()[j] == g1[j]);
    assert(g2.last() == g2[g1.len() - 1]);
    assert(g1.last() == g1[g1.len() - 1]);
    if j0 == g1.len() - 1 {
        lemma_grid_entropy_le(g1.drop_last(), g2.drop_last());
        lemma_row_entropy_lt(g1[j0], g2[j0], i0);
    } else {
        lemma_grid_entropy_lt(g1.drop_last(), g2.drop_last(), i0, j0);
        lemma_row_entropy_le(g1[g1.len() - 1], g2[g1.len() - 1]);
    }
}

/// Generators with the same cells support the same pairs: arc-consistency
/// carries over.
pub proof fn lemma_same_cells_arc<const P: usize>(a: &Generator<P>, b: &Generator<P>)
    requires
        same_cells(a, b),
        arc_consistent(b),
    ensures
        arc_consistent(a),
{
    assert forall|p: (usize, usize), q: (usize, usize)|
        a.spec_in_bounds(p) && a.spec_in_bounds(q) && four_adjacent(p, q)
            implies #[trigger] supported(a, p, q) by {
        assert(supported(b, p, q));
        assert(a.cell_at(p) == b.cell_at(p));
        assert(a.cell_at(q) == b.cell_at(q));
        assert forall|k: int| 0 <= k < a.cell_at(q).len() implies set_connects(
            a.cell_at(p),
            #[trigger] a.cell_at(q)[k],
            Side::spec_relative(p, q),
        ) by {
            assert(set_connects(b.cell_at(p), b.cell_at(q)[k], Side::spec_relative(p, q)));
        }
    }
}

/// A generator narrows any generator with the same cells.
pub proof fn lemma_same_cells_narrows<const P: usize>(a: &Generator<P>, b: &Generator<P>)
    requires
        same_cells(a, b),
    ensures
        narrows(a, b),
{
    assert forall|p: (usize, usize)|
        b.spec_in_bounds(p) implies cell_within(#[trigger] a.cell_at(p), b.cell_at(p))
            && a.cell_at(p).len() <= b.cell_at(p).len() && subseq_of(
            a.cell_at(p),
            b.cell_at(p),
        ) by {
        assert(a.cell_at(p) == b.cell_at(p));
        assert forall|k: int| 0 <= k < a.cell_at(p).len() implies b.cell_at(p).contains(
            #[trigger] a.cell_at(p)[k],
        ) by {
            assert(b.cell_at(p)[k] == a.cell_at(p)[k]);
        }
        lemma_subseq_refl(a.cell_at(p));
    }
}

/// Shrinking one cell of an arc-consistent grid leaves every pair supported
/// except possibly those the shrunk cell supports.
pub proof fn lemma_collapse_except<const P: usize>(
    g1: &Generator<P>,
    g2: &Generator<P>,
    c: (usize, usize),
)
    requires
        arc_consistent(g1),
        same_dims(g2, g1),
        forall|p: (usize, usize)|
            g1.spec_in_bounds(p) && p != c ==> g2.cell_at(p) == #[trigger] g1.cell_at(p),
        cell_within(g2.cell_at(c), g1.cell_at(c)),
    ensures
        arc_consistent_except(g2, c),
{
    assert forall|p: (usize, usize), q: (usize, usize)|
        g2.spec_in_bounds(p) && g2.spec_in_bounds(q) && four_adjacent(p, q) && p != c
            implies #[trigger] supported(g2, p, q) by {
        assert(supported(g1, p, q));
        assert(g2.cell_at(p) == g1.cell_at(p));
        if q == c {
            lemma_supported_shrink(g1, g2, p, q);
        } else {
            assert(g2.cell_at(q) == g1.cell_at(q));
        }
    }
}

impl<const P: usize> Generator<P> {
    /// Updates all tile sets surrounding the provided position until all
    /// affected sets have been updated; returns the number of worklist cells
    /// processed, at least the one provided.
    pub fn propogate(&mut self, x: usize, y: usize) -> (r: Result<usize, Error>)
        requires
            old(self).wf(),
        ensures
            final(self).wf(),
            narrows(final(self), old(self)),
            r matches Ok(n) ==> n >= 1,
            !(x < old(self).spec_width() && y < old(self).spec_height()) ==> r == Err::<
                usize,
                Error,
            >(Error::MissingSet) && same_cells(final(self), old(self)),
            x < old(self).spec_width() && y < old(self).spec_height() ==> r is Ok,
            x < old(self).spec_width() && y < old(self).spec_height() && arc_consistent_except(
                old(self),
                (x, y),
            ) ==> arc_consistent(final(self)),
            forall|p: (usize, usize)|
                old(self).spec_in_bounds(p) && (forall|q: (usize, usize)|
                    old(self).spec_in_bounds(q) ==> !four_adjacent(p, q)) ==> final(self).cell_at(
                    p,
                ) == #[trigger] old(self).cell_at(p),
    {
        if !self.grid.contains_coords(x, y) {
            proof {
                lemma_narrows_refl(self);
            }
            return Err(Error::MissingSet);
        }
        let mut seed: Vec<(usize, usize)> = Vec::new();
        seed.push((x, y));
        proof {
            assert(seed@[0] == (x, y));
            if arc_consistent_except(old(self), (x, y)) {
                assert forall|p: (usize, usize), q: (usize, usize)|
                    old(self).spec_in_bounds(p) && old(self).spec_in_bounds(q) && four_adjacent(
                        p,
                        q,
                    ) && !seed@.contains(p) implies #[trigger] supported(old(self), p, q) by {
                    assert(p != (x, y));
                }
            }
        }
        let n = self.propagate_from(seed);
        Ok(n)
    }

    /// Steps the generator once: one observation, one collapse and one round
    /// of propagation. A successful step leaves no cell without candidates,
    /// and returns `true` exactly when every cell is down to one.
    pub fn step(&mut self) -> (r: Result<bool, Error>)
        requires
            old(self).wf(),
        ensures
            final(self).wf(),
            narrows(final(self), old(self)),
            arc_consistent(old(self)) && r is Ok ==> arc_consistent(final(self)),
            r is Ok ==> !final(self).spec_any_empty(),
            r matches Ok(b) ==> b == final(self).spec_is_collapsed(),
            old(self).spec_is_collapsed() ==> r == Ok::<bool, Error>(true) && same_cells(
                final(self),
                old(self),
            ),
            r is Err ==> r == Err::<bool, Error>(Error::EmptySet) || r == Err::<bool, Error>(
                Error::InvalidWeight,
            ),
            r == Err::<bool, Error>(Error::EmptySet) ==> final(self).spec_any_empty(),
            (old(self).spec_width() == 1 && old(self).spec_height() == 1 && old(self).cell_at(
                (0, 0),
            ).len() >= 1 && (forall|k: int|
                0 <= k < old(self).cell_at((0, 0)).len() ==> (#[trigger] old(self).cell_at(
                    (0, 0),
                )[k]).weight >= 1)) ==> r == Ok::<bool, Error>(true) && final(self).cell_at(
                (0, 0),
            ).len() == 1,
    {
        let ghost tiny = old(self).spec_width() == 1 && old(self).spec_height() == 1 && old(
            self,
        ).cell_at((0, 0)).len() >= 1 && (forall|k: int|
            0 <= k < old(self).cell_at((0, 0)).len() ==> (#[trigger] old(self).cell_at(
                (0, 0),
            )[k]).weight >= 1);
        if self.is_collapsed() {
            proof {
                lemma_narrows_refl(self);
            }
            return Ok(true);
        }
        let p = match self.next_position() {
            Ok(p) => p,
            Err(_) => {
                proof {
                    assert(false);
                }
                return Err(Error::EmptySet);
            },
        };
        let ghost pre = *self;
        proof {
            if tiny {
                assert(p.0 == 0 && p.1 == 0);
                assert(p == (0usize, 0usize));
                assert(self.cell_at(p) == old(self).cell_at((0, 0)));
                assert(self.cell_at(p).len() >= 2);
                assert(self.cell_at(p)[0].weight >= 1);
                lemma_total_weight_pos(self.cell_at(p));
            }
        }
        match self.collapse(p.0, p.1) {
            Ok(_) => {},
            Err(e) => {
                proof {
                    if tiny {
                        assert(false);
                    }
                    if e == Error::EmptySet {
                        // only an already-empty observed cell yields this
                        // error, and the grid is left as it was
                        let c = pre.cell_at(p);
                        assert(pre.spec_in_bounds(p));
                        assert(c.len() == 0) by {
                            if c.len() > 0 {
                                if total_weight(c) < 0 {
                                    assert(forall|k: int|
                                        0 <= k < c.len() ==> (#[trigger] c[k]).weight >= 0);
                                    lemma_total_weight_nonneg(c);
                                }
                                assert(false);
                            }
                        }
                        assert(final(self).cell_at(p) == c);
                        assert(final(self).spec_in_bounds(p));
                        assert(final(self).spec_any_empty());
                    }
                }
                return Err(e);
            },
        }
        proof {
            if arc_consistent(old(self)) {
                lemma_same_cells_arc(&pre, old(self));
                lemma_collapse_except(&pre, self, p);
            }
        }
        let ghost mid = *self;
        match self.propogate(p.0, p.1) {
            Ok(_) => {},
            Err(_) => {
                proof {
                    assert(false);
                }
                return Err(Error::EmptySet);
            },
        }
        proof {
            lemma_narrows_trans(self, &mid, &pre);
            if tiny {
                assert forall|q: (usize, usize)|
                    mid.spec_in_bounds(q) implies !four_adjacent((0usize, 0usize), q) by {}
                assert(self.cell_at((0, 0)) == mid.cell_at((0, 0)));
                assert(self.cell_at((0, 0)).len() == 1);
            }
        }
        if self.is_any_empty() {
            Err(Error::EmptySet)
        } else {
            proof {
                if tiny {
                    assert forall|q: (usize, usize)|
                        self.spec_in_bounds(q) implies (#[trigger] self.cell_at(q)).len() == 1 by {
                        assert(q == (0usize, 0usize));
                    }
                }
            }
            Ok(self.is_collapsed())
        }
    }

    /// Runs the generator to completion: first the whole grid is brought to
    /// arc-consistency, then cells are observed, collapsed and propagated
    /// until every cell holds exactly one tile. The returned grid holds that
    /// tile for each cell, and every pair of adjacent cells in it satisfies
    /// the adjacency rule. Progress reporting is left to the host, so the
    /// flag is unused here.
    #[verifier::rlimit(100)]
    pub fn run(&mut self, _silent: bool) -> (r: Result<crate::grid::Grid<Tile<P>>, Error>)
        requires
            old(self).wf(),
        ensures
            final(self).wf(),
            narrows(final(self), old(self)),
            r is Err ==> r == Err::<crate::grid::Grid<Tile<P>>, Error>(Error::EmptySet) || r
                == Err::<crate::grid::Grid<Tile<P>>, Error>(Error::InvalidWeight),
            (forall|p: (usize, usize), k: int|
                old(self).spec_in_bounds(p) && 0 <= k < old(self).cell_at(p).len() ==> (
                #[trigger] old(self).cell_at(p)[k]).weight >= 1) ==> !(r == Err::<
                crate::grid::Grid<Tile<P>>,
                Error,
            >(Error::InvalidWeight)),
            old(self).spec_is_collapsed() && arc_consistent(old(self)) ==> r is Ok,
            (old(self).spec_width() == 1 && old(self).spec_height() == 1 && old(self).cell_at(
                (0, 0),
            ).len() >= 1 && (forall|k: int|
                0 <= k < old(self).cell_at((0, 0)).len() ==> (#[trigger] old(self).cell_at(
                    (0, 0),
                )[k]).weight >= 1)) ==> r is Ok,
            forall|v: TileView, s: Side|
                #![trigger connects_spec(v, v, s)]
                ((((s == Side::Left || s == Side::Right) && old(self).spec_width() >= 2) || ((s
                    == Side::Top || s == Side::Bottom) && old(self).spec_height() >= 2))
                    && v.weight >= 1 && !connects_spec(v, v, s) && (forall|p: (usize, usize)|
                    old(self).spec_in_bounds(p) ==> #[trigger] old(self).cell_at(p) == seq![v]))
                    ==> r == Err::<crate::grid::Grid<Tile<P>>, Error>(Error::EmptySet),
            r matches Ok(out) ==> {
                &&& out.wf()
                &&& out.spec_width() == old(self).spec_width()
                &&& out.spec_height() == old(self).spec_height()
                &&& final(self).spec_is_collapsed()
                &&& forall|p: (usize, usize)|
                    old(self).spec_in_bounds(p) ==> final(self).cell_at(p) == seq![
                        (#[trigger] out@[p.1 as int][p.0 as int])@,
                    ] && old(self).cell_at(p).contains(out@[p.1 as int][p.0 as int]@)
                &&& forall|p: (usize, usize), q: (usize, usize)|
                    old(self).spec_in_bounds(p) && old(self).spec_in_bounds(q) && four_adjacent(
                        p,
                        q,
                    ) ==> #[trigger] connects_spec(
                        out@[p.1 as int][p.0 as int]@,
                        out@[q.1 as int][q.0 as int]@,
                        Side::spec_relative(p, q),
                    )
            },
    {
        let width = self.grid.width();
        let height = self.grid.height();
        // bring the whole grid to arc-consistency before observing
        let mut seeds: Vec<(usize, usize)> = Vec::new();
        let mut sy: usize = 0;
        while sy < height
            invariant
                self.wf(),
                width == self.spec_width(),
                height == self.spec_height(),
                0 <= sy <= height,
                forall|k: int|
                    0 <= k < seeds@.len() ==> self.spec_in_bounds(#[trigger] seeds@[k]),
                forall|p: (usize, usize)|
                    self.spec_in_bounds(p) && p.1 < sy ==> seeds@.contains(p),
            decreases height - sy,
        {
            let mut sx: usize = 0;
            while sx < width
                invariant
                    self.wf(),
                    width == self.spec_width(),
                    height == self.spec_height(),
                    0 <= sy < height,
                    0 <= sx <= width,
                    forall|k: int|
                        0 <= k < seeds@.len() ==> self.spec_in_bounds(#[trigger] seeds@[k]),
                    forall|p: (usize, usize)|
                        self.spec_in_bounds(p) && p.1 < sy ==> seeds@.contains(p),
                    forall|p: (usize, usize)|
                        self.spec_in_bounds(p) && p.1 == sy && p.0 < sx ==> seeds@.contains(p),
                decreases width - sx,
            {
                let ghost seeds_prev = seeds@;
                seeds.push((sx, sy));
                proof {
                    assert(seeds@[seeds@.len() - 1] == (sx, sy));
                    assert forall|p: (usize, usize)|
                        self.spec_in_bounds(p) && p.1 < sy implies seeds@.contains(p) by {
                        assert(seeds_prev.contains(p));
                        let k = choose|k: int| 0 <= k < seeds_prev.len() && seeds_prev[k] == p;
                        assert(seeds@[k] == p);
                    }
                    assert forall|p: (usize, usize)|
                        self.spec_in_bounds(p) && p.1 == sy && p.0 < sx + 1
                            implies seeds@.contains(p) by {
                        if p.0 < sx {
                            assert(seeds_prev.contains(p));
                            let k = choose|k: int|
                                0 <= k < seeds_prev.len() && seeds_prev[k] == p;
                            assert(seeds@[k] == p);
                        } else {
                            assert(p == (sx, sy));
                        }
                    }
                }
                sx = sx + 1;
            }
            sy = sy + 1;
        }
        let ghost orig = *self;
        let ghost cond_a = old(self).spec_is_collapsed() && arc_consistent(old(self));
        let ghost tiny = old(self).spec_width() == 1 && old(self).spec_height() == 1 && old(
            self,
        ).cell_at((0, 0)).len() >= 1 && (forall|k: int|
            0 <= k < old(self).cell_at((0, 0)).len() ==> (#[trigger] old(self).cell_at(
                (0, 0),
            )[k]).weight >= 1);
        let _sweep = self.propagate_from(seeds);
        proof {
            assert(pending_consistent(&orig, seeds@)) by {
                assert forall|p: (usize, usize), q: (usize, usize)|
                    orig.spec_in_bounds(p) && orig.spec_in_bounds(q) && four_adjacent(p, q)
                        && !seeds@.contains(p) implies #[trigger] supported(&orig, p, q) by {
                    assert(seeds@.contains(p));
                }
            }
            assert(arc_consistent(self));
            if cond_a {
                // an already consistent grid passes the sweep untouched
                assert(same_cells(self, old(self)));
                assert forall|z: (usize, usize)|
                    self.spec_in_bounds(z) implies (#[trigger] self.cell_at(z)).len() == 1 by {
                    assert(old(self).spec_in_bounds(z));
                    assert(self.cell_at(z) == old(self).cell_at(z));
                }
                assert(self.spec_is_collapsed());
            }
            if tiny {
                // the only cell has no neighbor, so the sweep leaves it alone
                assert forall|q: (usize, usize)|
                    old(self).spec_in_bounds(q) implies !four_adjacent((0usize, 0usize), q) by {}
                assert(self.cell_at((0usize, 0usize)) == old(self).cell_at((0usize, 0usize)));
            }
        }
        while !self.is_collapsed()
            invariant
                self.wf(),
                width == self.spec_width(),
                height == self.spec_height(),
                narrows(self, old(self)),
                arc_consistent(self),
                cond_a == (old(self).spec_is_collapsed() && arc_consistent(old(self))),
                cond_a ==> self.spec_is_collapsed(),
                tiny == (old(self).spec_width() == 1 && old(self).spec_height() == 1 && old(
                    self,
                ).cell_at((0, 0)).len() >= 1 && (forall|k: int|
                    0 <= k < old(self).cell_at((0, 0)).len() ==> (#[trigger] old(self).cell_at(
                        (0, 0),
                    )[k]).weight >= 1)),
                tiny ==> self.cell_at((0usize, 0usize)).len() >= 1,
            decreases self.spec_entropy(),
        {
            let ghost loop_start = *self;
            proof {
                lemma_grid_entropy_nonneg(self.grid@);
                if cond_a {
                    assert(false);
                }
            }
            let p = match self.next_position() {
                Ok(p) => p,
                Err(_) => {
                    proof {
                        assert(false);
                    }
                    return Err(Error::EmptySet);
                },
            };
            let ghost pre = *self;
            proof {
                lemma_same_cells_arc(&pre, &loop_start);
                lemma_same_cells_narrows(&pre, &loop_start);
                lemma_narrows_trans(&pre, &loop_start, old(self));
            }
            match self.collapse(p.0, p.1) {
                Ok(_) => {},
                Err(e) => {
                    proof {
                        lemma_narrows_trans(self, &pre, old(self));
                        if tiny {
                            assert(p.0 == 0 && p.1 == 0);
                            assert(p == (0usize, 0usize));
                            let c = pre.cell_at(p);
                            assert(c == loop_start.cell_at(p));
                            assert(c.len() >= 1);
                            assert forall|k: int| 0 <= k < c.len() implies (
                            #[trigger] c[k]).weight >= 1 by {
                                assert(cell_within(pre.cell_at(p), old(self).cell_at(p)));
                                assert(old(self).cell_at(p).contains(c[k]));
                                let m = choose|m: int|
                                    0 <= m < old(self).cell_at(p).len() && old(self).cell_at(
                                        p,
                                    )[m] == c[k];
                                assert(old(self).cell_at(p)[m].weight >= 1);
                            }
                            lemma_total_weight_pos(c);
                            assert(false);
                        }
                        if e == Error::InvalidWeight {
                            // weights at least one in the start grid rule this out
                            if forall|z: (usize, usize), k: int|
                                old(self).spec_in_bounds(z) && 0 <= k < old(self).cell_at(
                                    z,
                                ).len() ==> (#[trigger] old(self).cell_at(z)[k]).weight >= 1 {
                                let c = pre.cell_at(p);
                                assert(c.len() > 0) by {
                                    if c.len() == 0 {
                                        assert(false);
                                    }
                                }
                                assert(total_weight(c) <= 0) by {
                                    if c.len() > 0 && total_weight(c) > 0 {
                                        assert(false);
                                    }
                                }
                                assert forall|k: int| 0 <= k < c.len() implies (
                                #[trigger] c[k]).weight >= 1 by {
                                    assert(cell_within(pre.cell_at(p), old(self).cell_at(p)));
                                    assert(old(self).cell_at(p).contains(c[k]));
                                    let m = choose|m: int|
                                        0 <= m < old(self).cell_at(p).len() && old(self).cell_at(
                                            p,
                                        )[m] == c[k];
                                    assert(old(self).cell_at(p)[m].weight >= 1);
                                }
                                lemma_total_weight_pos(c);
                                assert(false);
                            }
                        }
                    }
                    return Err(e);
                },
            }
            proof {
                lemma_collapse_except(&pre, self, p);
                lemma_narrows_trans(self, &pre, old(self));
            }
            let ghost mid = *self;
            match self.propogate(p.0, p.1) {
                Ok(_) => {},
                Err(_) => {
                    proof {
                        assert(false);
                    }
                    return Err(Error::EmptySet);
                },
            }
            proof {
                lemma_narrows_trans(self, &mid, old(self));
                // entropy fell strictly: the observed cell went from at least
                // two candidates to one, and propagation only removes
                let g0 = loop_start.grid@;
                let g1 = mid.grid@;
                let g2 = self.grid@;
                assert(g1.len() == g0.len());
                assert forall|j: int| 0 <= j < g0.len() implies (#[trigger] g1[j]).len()
                    == g0[j].len() by {
                    assert(g0[j].len() == loop_start.spec_width());
                    assert(g1[j].len() == mid.spec_width());
                }
                assert forall|j: int, i: int|
                    0 <= j < g0.len() && 0 <= i < g0[j].len() implies (#[trigger] g1[j][i])@.len()
                        <= g0[j][i]@.len() by {
                    let z = (i as usize, j as usize);
                    assert(mid.cell_at(z).len() <= pre.cell_at(z).len()) by {
                        if z == p {
                        } else {
                            assert(mid.cell_at(z) == pre.cell_at(z));
                        }
                    }
                }
                assert(mid.cell_at(p).len() == 1) by {
                    let c = pre.cell_at(p);
                    assert(c.len() > 0) by {
                        if c.len() == 0 {
                            assert(false);
                        }
                    }
                    assert(total_weight(c) > 0) by {
                        if total_weight(c) == 0 {
                            assert(false);
                        }
                        if total_weight(c) < 0 {
                            assert(forall|k: int|
                                0 <= k < c.len() ==> (#[trigger] c[k]).weight >= 0);
                            lemma_total_weight_nonneg(c);
                            assert(false);
                        }
                    }
                    let i = choose|i: int|
                        0 <= i < c.len() && (#[trigger] c[i]).weight > 0 && mid.cell_at(p)
                            == seq![c[i]];
                }
                assert(loop_start.cell_at(p).len() >= 2) by {
                    assert(pre.cell_at(p) == loop_start.cell_at(p));
                    assert(pre.cell_at(p).len() != 1);
                    if pre.cell_at(p).len() == 0 {
                        assert(false);
                    }
                }
                lemma_grid_entropy_lt(g0, g1, p.0 as int, p.1 as int);
                assert(g2.len() == g1.len());
                assert forall|j: int| 0 <= j < g1.len() implies (#[trigger] g2[j]).len()
                    == g1[j].len() by {
                    assert(g1[j].len() == mid.spec_width());
                    assert(g2[j].len() == self.spec_width());
                }
                assert forall|j: int, i: int|
                    0 <= j < g1.len() && 0 <= i < g1[j].len() implies (#[trigger] g2[j][i])@.len()
                        <= g1[j][i]@.len() by {
                    let z = (i as usize, j as usize);
                    assert(self.cell_at(z).len() <= mid.cell_at(z).len());
                }
                lemma_grid_entropy_le(g1, g2);
                assert(self.spec_entropy() < loop_start.spec_entropy());
                if tiny {
                    assert(p == (0usize, 0usize));
                    assert forall|q: (usize, usize)|
                        mid.spec_in_bounds(q) implies !four_adjacent(p, q) by {}
                    assert(self.cell_at(p) == mid.cell_at(p));
                    assert(self.cell_at(p).len() == 1);
                }
            }
            proof {
                lemma_grid_entropy_nonneg(self.grid@);
            }
            if self.is_any_empty() {
                proof {
                    if tiny {
                        assert forall|z: (usize, usize)|
                            self.spec_in_bounds(z) implies (#[trigger] self.cell_at(z)).len()
                                != 0 by {
                            assert(z == (0usize, 0usize));
                        }
                        assert(false);
                    }
                }
                return Err(Error::EmptySet);
            }
        }
        // every cell now holds exactly one tile; copy them out
        let first = match self.grid.get(0, 0) {
            Ok(c) => c,
            Err(_) => {
                proof {
                    assert(false);
                }
                return Err(Error::EmptySet);
            },
        };
        proof {
            assert(self.cell_at((0usize, 0usize)).len() == 1);
        }
        let fill = first.tiles[0].clone();
        let mut out = crate::grid::Grid::<Tile<P>>::new(width, height, fill);
        let mut y: usize = 0;
        while y < height
            invariant
                self.wf(),
                width == self.spec_width(),
                height == self.spec_height(),
                self.spec_is_collapsed(),
                0 <= y <= height,
                out.wf(),
                out.spec_height() == height,
                out.spec_width() == width,
                forall|p: (usize, usize)|
                    self.spec_in_bounds(p) && p.1 < y ==> (#[trigger] out@[p.1 as int][p.0 as int])@
                        == self.cell_at(p)[0],
            decreases height - y,
        {
            let mut x: usize = 0;
            while x < width
                invariant
                    self.wf(),
                    width == self.spec_width(),
                    height == self.spec_height(),
                    self.spec_is_collapsed(),
                    0 <= y < height,
                    0 <= x <= width,
                    out.wf(),
                    out.spec_height() == height,
                    out.spec_width() == width,
                    forall|p: (usize, usize)|
                        self.spec_in_bounds(p) && p.1 < y ==> (#[trigger] out@[p.1 as int][p.0 as int])@
                            == self.cell_at(p)[0],
                    forall|p: (usize, usize)|
                        self.spec_in_bounds(p) && p.1 == y && p.0 < x ==> (
                        #[trigger] out@[p.1 as int][p.0 as int])@ == self.cell_at(p)[0],
                decreases width - x,
            {
                let cell = match self.grid.get(x, y) {
                    Ok(c) => c,
                    Err(_) => {
                        proof {
                            assert(false);
                        }
                        return Err(Error::EmptySet);
                    },
                };
                proof {
                    assert(self.cell_at((x, y)).len() == 1);
                }
                let t = cell.tiles[0].clone();
                let ghost out_prev = out;
                match out.set(x, y, t) {
                    Ok(_) => {},
                    Err(_) => {
                        proof {
                            assert(false);
                        }
                        return Err(Error::EmptySet);
                    },
                }
                proof {
                    assert forall|p: (usize, usize)|
                        self.spec_in_bounds(p) && (p.1 < y || (p.1 == y && p.0 < x + 1))
                            implies (#[trigger] out@[p.1 as int][p.0 as int])@ == self.cell_at(
                        p,
                    )[0] by {
                        if p == (x, y) {
                            assert(out@[p.1 as int][p.0 as int]@ == self.cell_at(p)[0]);
                        } else {
                            if p.1 == y {
                                assert(out@[p.1 as int][p.0 as int]
                                    == out_prev@[p.1 as int][p.0 as int]);
                            }
                        }
                    }
                }
                x = x + 1;
            }
            y = y + 1;
        }
        proof {
            assert forall|p: (usize, usize)|
                old(self).spec_in_bounds(p) implies final(self).cell_at(p) == seq![
                    (#[trigger] out@[p.1 as int][p.0 as int])@,
                ] && old(self).cell_at(p).contains(out@[p.1 as int][p.0 as int]@) by {
                assert(self.cell_at(p).len() == 1);
                assert(out@[p.1 as int][p.0 as int]@ == self.cell_at(p)[0]);
                assert(self.cell_at(p) =~= seq![out@[p.1 as int][p.0 as int]@]);
                assert(cell_within(self.cell_at(p), old(self).cell_at(p)));
                assert(old(self).cell_at(p).contains(self.cell_at(p)[0]));
            }
            assert forall|p: (usize, usize), q: (usize, usize)|
                old(self).spec_in_bounds(p) && old(self).spec_in_bounds(q) && four_adjacent(p, q)
                    implies #[trigger] connects_spec(
                    out@[p.1 as int][p.0 as int]@,
                    out@[q.1 as int][q.0 as int]@,
                    Side::spec_relative(p, q),
                ) by {
                assert(supported(self, p, q));
                assert(self.cell_at(q).len() == 1);
                assert(set_connects(self.cell_at(p), self.cell_at(q)[0], Side::spec_relative(p, q)));
                let i = choose|i: int|
                    0 <= i < self.cell_at(p).len() && connects_spec(
                        self.cell_at(p)[i],
                        self.cell_at(q)[0],
                        Side::spec_relative(p, q),
                    );
                assert(i == 0);
                assert(out@[p.1 as int][p.0 as int]@ == self.cell_at(p)[0]);
                assert(out@[q.1 as int][q.0 as int]@ == self.cell_at(q)[0]);
            }
            // a lone variant that does not accept itself along an axis of
            // length two or more can never fill the grid
            assert forall|v: TileView, s: Side|
                #![trigger connects_spec(v, v, s)]
                ((((s == Side::Left || s == Side::Right) && old(self).spec_width() >= 2) || ((s
                    == Side::Top || s == Side::Bottom) && old(self).spec_height() >= 2))
                    && v.weight >= 1 && !connects_spec(v, v, s) && (forall|p: (usize, usize)|
                    old(self).spec_in_bounds(p) ==> #[trigger] old(self).cell_at(p) == seq![v]))
                    implies false by {
                if s == Side::Left || s == Side::Right {
                    let p = (0usize, 0usize);
                    let q = (1usize, 0usize);
                    assert(old(self).spec_in_bounds(p) && old(self).spec_in_bounds(q));
                    assert(four_adjacent(p, q) && four_adjacent(q, p));
                    assert(old(self).cell_at(p).contains(out@[0][0]@));
                    assert(old(self).cell_at(p) == seq![v]);
                    assert(out@[0][0]@ == v);
                    assert(old(self).cell_at(q) == seq![v]);
                    assert(out@[0][1]@ == v);
                    assert(connects_spec(v, v, Side::spec_relative(p, q)));
                    assert(connects_spec(v, v, Side::spec_relative(q, p)));
                    assert(Side::spec_relative(p, q) == Side::Right);
                    assert(Side::spec_relative(q, p) == Side::Left);
                } else {
                    let p = (0usize, 0usize);
                    let q = (0usize, 1usize);
                    assert(old(self).spec_in_bounds(p) && old(self).spec_in_bounds(q));
                    assert(four_adjacent(p, q) && four_adjacent(q, p));
                    assert(old(self).cell_at(p).contains(out@[0][0]@));
                    assert(old(self).cell_at(p) == seq![v]);
                    assert(out@[0][0]@ == v);
                    assert(old(self).cell_at(q) == seq![v]);
                    assert(out@[1][0]@ == v);
                    assert(connects_spec(v, v, Side::spec_relative(p, q)));
                    assert(connects_spec(v, v, Side::spec_relative(q, p)));
                    assert(Side::spec_relative(p, q) == Side::Bottom);
                    assert(Side::spec_relative(q, p) == Side::Top);
                }
            }
        }
        Ok(out)
    }
}


/// A tile view assembled from its parts.
pub open spec fn variant_view(
    id: int,
    layer: int,
    weight: int,
    q: SocketQuad,
    rot: Rotation,
    fx: bool,
    fy: bool,
) -> TileView {
    TileView { id, layer, weight, quad: q, rotation: rot, flip_x: fx, flip_y: fy }
}

/// The sixteen transform variants of one base tile, rotations outermost and
/// within each rotation the flips in the order none, horizontal, vertical,
/// both.
pub open spec fn all_variants(id: int, layer: int, weight: int, q: SocketQuad) -> Seq<TileView> {
    seq![
        variant_view(id, layer, weight, q, Rotation::D0, false, false),
        variant_view(id, layer, weight, q, Rotation::D0, true, false),
        variant_view(id, layer, weight, q, Rotation::D0, false, true),
        variant_view(id, layer, weight, q, Rotation::D0, true, true),
        variant_view(id, layer, weight, q, Rotation::D90, false, false),
        variant_view(id, layer, weight, q, Rotation::D90, true, false),
        variant_view(id, layer, weight, q, Rotation::D90, false, true),
        variant_view(id, layer, weight, q, Rotation::D90, true, true),
        variant_view(id, layer, weight, q, Rotation::D180, false, false),
        variant_view(id, layer, weight, q, Rotation::D180, true, false),
        variant_view(id, layer, weight, q, Rotation::D180, false, true),
        variant_view(id, layer, weight, q, Rotation::D180, true, true),
        variant_view(id, layer, weight, q, Rotation::D270, false, false),
        variant_view(id, layer, weight, q, Rotation::D270, true, false),
        variant_view(id, layer, weight, q, Rotation::D270, false, true),
        variant_view(id, layer, weight, q, Rotation::D270, true, true),
    ]
}

/// Builds one variant tile from shared sockets and a transform.
fn mk_variant<const P: usize>(
    id: usize,
    layer: usize,
    weight: usize,
    left: &Socket<P>,
    top: &Socket<P>,
    right: &Socket<P>,
    bottom: &Socket<P>,
    rot: Rotation,
    fx: bool,
    fy: bool,
) -> (r: Tile<P>)
    ensures
        r@ == variant_view(
            id as int,
            layer as int,
            weight as int,
            SocketQuad { left: left@, top: top@, right: right@, bottom: bottom@ },
            rot,
            fx,
            fy,
        ),
{
    let mut sockets: Vec<Socket<P>> = Vec::new();
    sockets.push(left.clone());
    sockets.push(top.clone());
    sockets.push(right.clone());
    sockets.push(bottom.clone());
    Tile::new(id, layer, weight, sockets, rot, (fx, fy))
}

/// Builds the deduplicated list of the sixteen transform variants of one base
/// tile, given its four sockets in the side order left, top, right, bottom.
pub fn tiles_from_sockets<const P: usize>(
    id: usize,
    layer: usize,
    weight: usize,
    left: Socket<P>,
    top: Socket<P>,
    right: Socket<P>,
    bottom: Socket<P>,
) -> (r: Vec<Tile<P>>)
    ensures
        tile_views(r@) == dedup_views(
            all_variants(
                id as int,
                layer as int,
                weight as int,
                SocketQuad { left: left@, top: top@, right: right@, bottom: bottom@ },
            ),
        ),
{
    let ghost q = SocketQuad { left: left@, top: top@, right: right@, bottom: bottom@ };
    let mut all: Vec<Tile<P>> = Vec::new();
    all.push(mk_variant(id, layer, weight, &left, &top, &right, &bottom, Rotation::D0, false, false));
    all.push(mk_variant(id, layer, weight, &left, &top, &right, &bottom, Rotation::D0, true, false));
    all.push(mk_variant(id, layer, weight, &left, &top, &right, &bottom, Rotation::D0, false, true));
    all.push(mk_variant(id, layer, weight, &left, &top, &right, &bottom, Rotation::D0, true, true));
    all.push(mk_variant(id, layer, weight, &left, &top, &right, &bottom, Rotation::D90, false, false));
    all.push(mk_variant(id, layer, weight, &left, &top, &right, &bottom, Rotation::D90, true, false));
    all.push(mk_variant(id, layer, weight, &left, &top, &right, &bottom, Rotation::D90, false, true));
    all.push(mk_variant(id, layer, weight, &left, &top, &right, &bottom, Rotation::D90, true, true));
    all.push(mk_variant(id, layer, weight, &left, &top, &right, &bottom, Rotation::D180, false, false));
    all.push(mk_variant(id, layer, weight, &left, &top, &right, &bottom, Rotation::D180, true, false));
    all.push(mk_variant(id, layer, weight, &left, &top, &right, &bottom, Rotation::D180, false, true));
    all.push(mk_variant(id, layer, weight, &left, &top, &right, &bottom, Rotation::D180, true, true));
    all.push(mk_variant(id, layer, weight, &left, &top, &right, &bottom, Rotation::D270, false, false));
    all.push(mk_variant(id, layer, weight, &left, &top, &right, &bottom, Rotation::D270, true, false));
    all.push(mk_variant(id, layer, weight, &left, &top, &right, &bottom, Rotation::D270, false, true));
    all.push(mk_variant(id, layer, weight, &left, &top, &right, &bottom, Rotation::D270, true, true));
    proof {
        assert(tile_views(all@) =~= all_variants(id as int, layer as int, weight as int, q));
    }
    dedup_tiles(all)
}

/// A symbol sequence cut or zero-padded to the socket length.
pub open spec fn pad_nodes<const P: usize>(s: Seq<usize>) -> Seq<usize> {
    Seq::new(
        P as nat,
        |i: int|
            if i < s.len() {
                s[i]
            } else {
                0usize
            },
    )
}

/// Enables parsing from the implementing value into a list of tiles
pub trait ToTiles<const P: usize> {
    /// Whether the value is a complete description of one base tile.
    spec fn to_tiles_wf(&self) -> bool;

    /// The symbols the value yields for the given side, before padding.
    spec fn spec_socket(&self, side: Side) -> Seq<usize>;

    /// Returns a new socket for the provided side, parsed from the implementing value
    fn to_socket(&self, side: Side) -> (r: Socket<P>)
        requires
            self.to_tiles_wf(),
        ensures
            r@ == pad_nodes::<P>(self.spec_socket(side)),
    ;

    /// Returns all possible tiles that can be parsed from the implementing value:
    /// the deduplicated sixteen transform variants of the described base tile.
    fn to_tiles(&self, id: usize, layer: usize, weight: usize) -> (r: Vec<Tile<P>>)
        requires
            self.to_tiles_wf(),
        ensures
            tile_views(r@) == dedup_views(
                all_variants(
                    id as int,
                    layer as int,
                    weight as int,
                    SocketQuad {
                        left: pad_nodes::<P>(self.spec_socket(Side::Left)),
                        top: pad_nodes::<P>(self.spec_socket(Side::Top)),
                        right: pad_nodes::<P>(self.spec_socket(Side::Right)),
                        bottom: pad_nodes::<P>(self.spec_socket(Side::Bottom)),
                    },
                ),
            ),
    ;
}

/// The column at `x` of a grid of symbols, read top to bottom.
pub open spec fn grid_column(g: Seq<Seq<usize>>, x: int) -> Seq<usize> {
    Seq::new(g.len(), |j: int| g[j][x])
}

impl<const P: usize> ToTiles<P> for crate::grid::Grid<usize> {
    /// The artifact must be a non-empty rectangle of symbols.
    open spec fn to_tiles_wf(&self) -> bool {
        &&& self.wf()
        &&& self.spec_width() > 0
        &&& self.spec_height() > 0
    }

    /// Edges are read from the outermost rows and columns: the top and bottom
    /// rows left to right, the left and right columns top to bottom.
    open spec fn spec_socket(&self, side: Side) -> Seq<usize> {
        match side {
            Side::Top => self@[0],
            Side::Bottom => self@[self@.len() - 1],
            Side::Left => grid_column(self@, 0),
            Side::Right => grid_column(self@, self.spec_width() - 1),
        }
    }

    fn to_socket(&self, side: Side) -> (r: Socket<P>) {
        let height = self.height();
        let width = self.width();
        let mut nodes: Vec<usize> = Vec::new();
        match side {
            Side::Top => {
                let mut x: usize = 0;
                while x < width
                    invariant
                        self.wf() && self.spec_width() > 0 && self.spec_height() > 0,
                        width == self.spec_width(),
                        height == self.spec_height(),
                        0 <= x <= width,
                        nodes@.len() == x,
                        forall|k: int| 0 <= k < x ==> nodes@[k] == self@[0][k],
                    decreases width - x,
                {
                    match self.get(x, 0) {
                        Ok(v) => nodes.push(*v),
                        Err(_) => {
                            proof {
                                assert(false);
                            }
                        },
                    }
                    x = x + 1;
                }
                proof {
                    assert(nodes@ =~= <crate::grid::Grid<usize> as ToTiles<P>>::spec_socket(self, Side::Top));
                }
            },
            Side::Bottom => {
                let mut x: usize = 0;
                while x < width
                    invariant
                        self.wf() && self.spec_width() > 0 && self.spec_height() > 0,
                        width == self.spec_width(),
                        height == self.spec_height(),
                        0 <= x <= width,
                        nodes@.len() == x,
                        forall|k: int| 0 <= k < x ==> nodes@[k] == self@[self@.len() - 1][k],
                    decreases width - x,
                {
                    match self.get(x, height - 1) {
                        Ok(v) => nodes.push(*v),
                        Err(_) => {
                            proof {
                                assert(false);
                            }
                        },
                    }
                    x = x + 1;
                }
                proof {
                    assert(nodes@ =~= <crate::grid::Grid<usize> as ToTiles<P>>::spec_socket(self, Side::Bottom));
                }
            },
            Side::Left => {
                let mut y: usize = 0;
                while y < height
                    invariant
                        self.wf() && self.spec_width() > 0 && self.spec_height() > 0,
                        width == self.spec_width(),
                        height == self.spec_height(),
                        0 <= y <= height,
                        nodes@.len() == y,
                        forall|k: int| 0 <= k < y ==> nodes@[k] == self@[k][0],
                    decreases height - y,
                {
                    match self.get(0, y) {
                        Ok(v) => nodes.push(*v),
                        Err(_) => {
                            proof {
                                assert(false);
                            }
                        },
                    }
                    y = y + 1;
                }
                proof {
                    assert(nodes@ =~= <crate::grid::Grid<usize> as ToTiles<P>>::spec_socket(self, Side::Left));
                }
            },
            Side::Right => {
                let mut y: usize = 0;
                while y < height
                    invariant
                        self.wf() && self.spec_width() > 0 && self.spec_height() > 0,
                        width == self.spec_width(),
                        height == self.spec_height(),
                        0 <= y <= height,
                        nodes@.len() == y,
                        forall|k: int|
                            0 <= k < y ==> nodes@[k] == self@[k][self.spec_width() - 1],
                    decreases height - y,
                {
                    match self.get(width - 1, y) {
                        Ok(v) => nodes.push(*v),
                        Err(_) => {
                            proof {
                                assert(false);
                            }
                        },
                    }
                    y = y + 1;
                }
                proof {
                    assert(nodes@ =~= <crate::grid::Grid<usize> as ToTiles<P>>::spec_socket(self, Side::Right));
                }
            },
        }
        let r = Socket::from_nodes(&nodes);
        proof {
            assert(r@ =~= pad_nodes::<P>(<crate::grid::Grid<usize> as ToTiles<P>>::spec_socket(self, side)));
        }
        r
    }

    fn to_tiles(&self, id: usize, layer: usize, weight: usize) -> (r: Vec<Tile<P>>) {
        let left = self.to_socket(Side::Left);
        let top = self.to_socket(Side::Top);
        let right = self.to_socket(Side::Right);
        let bottom = self.to_socket(Side::Bottom);
        tiles_from_sockets(id, layer, weight, left, top, right, bottom)
    }
}


/// Accumulates a catalog of tiles, one source artifact at a time.
#[derive(Debug)]
pub struct TileGenerator<const P: usize> {
    tiles: Vec<Tile<P>>,
}

impl<const P: usize> View for TileGenerator<P> {
    type V = Seq<TileView>;

    closed spec fn view(&self) -> Seq<TileView> {
        tile_views(self.tiles@)
    }
}

impl<const P: usize> TileGenerator<P> {
    /// Creates a new tile generator
    pub fn new() -> (r: Self)
        ensures
            r@ == Seq::<TileView>::empty(),
    {
        let r = TileGenerator { tiles: Vec::new() };
        proof {
            assert(r@ =~= Seq::<TileView>::empty());
        }
        r
    }

    /// Returns a reference to the tile generator's tiles
    pub fn tiles(&self) -> (r: &Vec<Tile<P>>)
        ensures
            tile_views(r@) == self@,
    {
        &self.tiles
    }

    /// Returns a mutable reference to the tile generator's tiles
    pub fn tiles_mut(&mut self) -> (r: &mut Vec<Tile<P>>)
        ensures
            tile_views(r@) == old(self)@,
            final(self)@ == tile_views(final(r)@),
    {
        &mut self.tiles
    }

    /// Returns the next valid tile identifier, one past the last tile's
    pub fn next_id(&self) -> (r: usize)
        requires
            self@.len() > 0 ==> self@.last().id < usize::MAX,
        ensures
            self@.len() == 0 ==> r == 0,
            self@.len() > 0 ==> r == self@.last().id + 1,
    {
        let l = self.tiles.len();
        if l == 0 {
            0
        } else {
            self.tiles[l - 1].id() + 1
        }
    }

    /// Adds the provided list of tiles into the tile generator
    pub fn append(&mut self, tiles: &Vec<Tile<P>>)
        ensures
            final(self)@ == old(self)@ + tile_views(tiles@),
    {
        let n = tiles.len();
        let mut i: usize = 0;
        while i < n
            invariant
                n == tiles@.len(),
                0 <= i <= n,
                self@ == old(self)@ + tile_views(tiles@).take(i as int),
            decreases n - i,
        {
            let ghost before = self@;
            self.tiles.push(tiles[i].clone());
            proof {
                assert(tile_views(self.tiles@).len() == before.len() + 1);
                assert forall|k: int| 0 <= k < before.len() implies tile_views(self.tiles@)[k]
                    == before[k] by {}
                assert(tile_views(self.tiles@)[before.len() as int] == tiles@[i as int]@);
                assert(self@ =~= before.push(tiles@[i as int]@));
                assert(before.push(tiles@[i as int]@) =~= old(self)@ + tile_views(tiles@).take(
                    i + 1,
                ));
            }
            i = i + 1;
        }
        proof {
            assert(tile_views(tiles@).take(n as int) =~= tile_views(tiles@));
        }
    }

    /// Adds all tiles that could be parsed from the provided value into the
    /// generator, and deduplicates the catalog afterwards.
    pub fn generate<T: ToTiles<P>>(&mut self, value: &T, layer: usize, weight: usize)
        requires
            value.to_tiles_wf(),
            old(self)@.len() > 0 ==> old(self)@.last().id < usize::MAX,
        ensures
            final(self)@ == dedup_views(
                old(self)@ + dedup_views(
                    all_variants(
                        if old(self)@.len() == 0 {
                            0int
                        } else {
                            old(self)@.last().id + 1
                        },
                        layer as int,
                        weight as int,
                        SocketQuad {
                            left: pad_nodes::<P>(value.spec_socket(Side::Left)),
                            top: pad_nodes::<P>(value.spec_socket(Side::Top)),
                            right: pad_nodes::<P>(value.spec_socket(Side::Right)),
                            bottom: pad_nodes::<P>(value.spec_socket(Side::Bottom)),
                        },
                    ),
                ),
            ),
    {
        let id = self.next_id();
        let tiles = value.to_tiles(id, layer, weight);
        self.append(&tiles);
        let mut drained: Vec<Tile<P>> = Vec::new();
        std::mem::swap(&mut drained, &mut self.tiles);
        let deduped = dedup_tiles(drained);
        self.tiles = deduped;
    }
}

/// A whole tile catalog as described by an external document: a version
/// header and a list of tile descriptions.
#[derive(Clone, Debug, PartialEq, Eq)]
pub struct TileData {
    pub id: usize,
    pub version: usize,
    pub tiles: Vec<TileSource>,
}

/// One tile description from an external document: a renderer key, a layer, a
/// weight and the tile's square of symbols, row by row.
#[derive(Clone, Debug, PartialEq, Eq)]
pub struct TileSource {
    pub source: String,
    pub layer: usize,
    pub weight: usize,
    pub nodes: Vec<Vec<usize>>,
}

} // verus!
