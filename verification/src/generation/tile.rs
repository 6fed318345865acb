//! The transform-carrying tile model: tiles keep their base sockets and pair
//! them with an explicit transform that is applied on demand.

use vstd::prelude::*;

use crate::wfc::{
    flips_quad, pad_nodes, rev, rot_cw_quad, SocketQuad,
};

verus! {

/// Represents one of four possible sides of a tile
#[derive(Clone, Copy, Debug, PartialEq, Eq, Structural)]
pub enum Side {
    Top,
    Left,
    Right,
    Bottom,
}

impl Side {
    /// The side opposite to the given one.
    pub open spec fn spec_opposite(self) -> Side {
        match self {
            Side::Top => Side::Bottom,
            Side::Left => Side::Right,
            Side::Right => Side::Left,
            Side::Bottom => Side::Top,
        }
    }

    /// Returns the side opposite to this one
    pub fn opposite(self) -> (r: Self)
        ensures
            r == self.spec_opposite(),
    {
        match self {
            Self::Top => Self::Bottom,
            Self::Left => Self::Right,
            Self::Right => Self::Left,
            Self::Bottom => Self::Top,
        }
    }

    /// Returns the side closest to the `end` relative to the `start` position
    pub fn relative_x(start: usize, end: usize) -> (r: Self)
        ensures
            r == if start > end {
                Side::Right
            } else {
                Side::Left
            },
    {
        if start > end {
            Self::Right
        } else {
            Self::Left
        }
    }

    /// Returns the side closest to the `end` relative to the `start` position
    pub fn relative_y(start: usize, end: usize) -> (r: Self)
        ensures
            r == if start > end {
                Side::Bottom
            } else {
                Side::Top
            },
    {
        if start > end {
            Self::Bottom
        } else {
            Self::Top
        }
    }

    /// The side of the cell at `start` that faces the cell at `end`.
    pub open spec fn spec_relative(start: (usize, usize), end: (usize, usize)) -> Side {
        if start.0 == end.0 {
            if start.1 > end.1 {
                Side::Bottom
            } else {
                Side::Top
            }
        } else {
            if start.0 > end.0 {
                Side::Right
            } else {
                Side::Left
            }
        }
    }

    /// Returns the side closest to the `end` relative to the `start` position
    pub fn relative(start: (usize, usize), end: (usize, usize)) -> (r: Self)
        ensures
            r == Side::spec_relative(start, end),
    {
        if start.0 == end.0 {
            Self::relative_y(start.1, end.1)
        } else {
            Self::relative_x(start.0, end.0)
        }
    }
}

/// Represents one of four possible rotations of a tile
#[derive(Clone, Copy, Debug, PartialEq, Eq, Structural)]
pub enum Rotation {
    D0,
    D90,
    D180,
    D270,
}

impl Rotation {
    /// The rotation opposite to the given one.
    pub open spec fn spec_opposite(self) -> Rotation {
        match self {
            Rotation::D0 => Rotation::D180,
            Rotation::D90 => Rotation::D270,
            Rotation::D180 => Rotation::D0,
            Rotation::D270 => Rotation::D90,
        }
    }

    /// Returns the rotation opposite to this one
    pub fn opposite(self) -> (r: Self)
        ensures
            r == self.spec_opposite(),
    {
        match self {
            Self::D0 => Self::D180,
            Self::D90 => Self::D270,
            Self::D180 => Self::D0,
            Self::D270 => Self::D90,
        }
    }
}

/// The socket on the given side of a quad, under this module's side order.
pub open spec fn gquad_on(q: SocketQuad, s: Side) -> Seq<usize> {
    match s {
        Side::Top => q.top,
        Side::Left => q.left,
        Side::Right => q.right,
        Side::Bottom => q.bottom,
    }
}

/// A quad turned clockwise by the given number of quarter turns.
pub open spec fn grot_quad(q: SocketQuad, r: Rotation) -> SocketQuad {
    match r {
        Rotation::D0 => q,
        Rotation::D90 => rot_cw_quad(q),
        Rotation::D180 => rot_cw_quad(rot_cw_quad(q)),
        Rotation::D270 => rot_cw_quad(rot_cw_quad(rot_cw_quad(q))),
    }
}

/// The abstract value of a base tile in this model: identity, layer, weight
/// and the four sockets.
#[verifier::ext_equal]
pub ghost struct GTileView {
    pub id: int,
    pub layer: int,
    pub weight: int,
    pub quad: SocketQuad,
}

/// The abstract value of a transform.
#[verifier::ext_equal]
pub ghost struct GTransView {
    pub rotation: Rotation,
    pub flip_x: bool,
    pub flip_y: bool,
}

/// The abstract value of a tile paired with a transform.
#[verifier::ext_equal]
pub ghost struct GTtView {
    pub tile: GTileView,
    pub transform: GTransView,
}

/// The tile a transformed tile stands for: the base sockets with the flips
/// applied first and the rotation after them.
pub open spec fn gtransformed(t: GTtView) -> GTileView {
    GTileView {
        quad: grot_quad(
            flips_quad(t.tile.quad, t.transform.flip_x, t.transform.flip_y),
            t.transform.rotation,
        ),
        ..t.tile
    }
}

/// The adjacency rule of this model: equal layers and equal sockets along the
/// shared edge.
pub open spec fn gconnects(a: GTileView, b: GTileView, s: Side) -> bool {
    &&& a.layer == b.layer
    &&& gquad_on(a.quad, s) == gquad_on(b.quad, s.spec_opposite())
}

/// Whether some tile of `s`, once transformed, accepts the transformed `t`
/// across side `side` of `s`'s own cell.
pub open spec fn g_set_connects_at(s: Seq<GTtView>, t: GTtView, side: Side) -> bool {
    exists|i: int| 0 <= i < s.len() && gconnects(gtransformed(s[i]), gtransformed(t), side)
}

/// Represents one side of a tile, for ensuring neighboring tiles are compatible
#[derive(Debug)]
pub struct Socket<const P: usize> {
    nodes: Vec<usize>,
}

impl<const P: usize> View for Socket<P> {
    type V = Seq<usize>;

    closed spec fn view(&self) -> Seq<usize> {
        self.nodes@
    }
}

impl<const P: usize> Socket<P> {
    /// Creates a new socket
    pub fn new(nodes: Vec<usize>) -> (r: Self)
        requires
            nodes@.len() == P as int,
        ensures
            r@ == nodes@,
    {
        Socket { nodes }
    }

    /// Returns the socket's nodes
    pub fn nodes(&self) -> (r: &Vec<usize>)
        ensures
            r@ == self@,
    {
        &self.nodes
    }

    /// Returns a copy of the socket with its nodes reversed
    pub fn reversed(&self) -> (r: Self)
        ensures
            r@ == rev(self@),
    {
        let mut out: Vec<usize> = Vec::new();
        let n = self.nodes.len();
        let mut i: usize = 0;
        while i < n
            invariant
                n == self.nodes@.len(),
                0 <= i <= n,
                out@.len() == i,
                forall|k: int| 0 <= k < i ==> #[trigger] out@[k] == self.nodes@[n - 1 - k],
            decreases n - i,
        {
            out.push(self.nodes[n - 1 - i]);
            i = i + 1;
        }
        let r = Socket { nodes: out };
        proof {
            assert(r@ =~= rev(self@));
        }
        r
    }

    /// Returns `true` if the socket is symmetrical
    pub fn is_symmetric(&self) -> (r: bool)
        ensures
            r == (self@ == rev(self@)),
    {
        let f = self.reversed();
        *self == f
    }
}

impl<const P: usize> Clone for Socket<P> {
    /// Cloning a socket keeps its symbols.
    fn clone(&self) -> (r: Self)
        ensures
            r@ == self@,
    {
        Socket { nodes: self.nodes.clone() }
    }
}

impl<const P: usize> PartialEq for Socket<P> {
    fn eq(&self, other: &Self) -> (r: bool) {
        let r = self.nodes == other.nodes;
        proof {
            if r {
                assert(self@ =~= other@);
            }
        }
        r
    }
}

impl<const P: usize> vstd::std_specs::cmp::PartialEqSpecImpl for Socket<P> {
    open spec fn obeys_eq_spec() -> bool {
        true
    }

    open spec fn eq_spec(&self, other: &Self) -> bool {
        self@ == other@
    }
}

/// Contains transformation information for tile generation
#[derive(Clone, Copy, Debug, PartialEq, Eq, Structural)]
pub struct Transform {
    rotation: Rotation,
    flip_x: bool,
    flip_y: bool,
}

impl View for Transform {
    type V = GTransView;

    closed spec fn view(&self) -> GTransView {
        GTransView { rotation: self.rotation, flip_x: self.flip_x, flip_y: self.flip_y }
    }
}

impl Transform {
    /// Creates a new transform
    pub fn new(rotation: Rotation, flip_x: bool, flip_y: bool) -> (r: Self)
        ensures
            r@ == (GTransView { rotation, flip_x, flip_y }),
    {
        Transform { rotation, flip_x, flip_y }
    }

    /// Returns the transform's rotation
    pub fn rotation(&self) -> (r: Rotation)
        ensures
            r == self@.rotation,
    {
        self.rotation
    }

    /// Returns whether the transform is flipped across the x axis
    pub fn flip_x(&self) -> (r: bool)
        ensures
            r == self@.flip_x,
    {
        self.flip_x
    }

    /// Returns whether the transform is flipped across the y axis
    pub fn flip_y(&self) -> (r: bool)
        ensures
            r == self@.flip_y,
    {
        self.flip_y
    }
}

/// Contains tile information for use in generation
#[derive(Debug)]
pub struct Tile<const P: usize> {
    id: usize,
    layer: usize,
    weight: usize,
    top: Socket<P>,
    left: Socket<P>,
    right: Socket<P>,
    bottom: Socket<P>,
}

impl<const P: usize> View for Tile<P> {
    type V = GTileView;

    closed spec fn view(&self) -> GTileView {
        GTileView {
            id: self.id as int,
            layer: self.layer as int,
            weight: self.weight as int,
            quad: SocketQuad {
                left: self.left@,
                top: self.top@,
                right: self.right@,
                bottom: self.bottom@,
            },
        }
    }
}

impl<const P: usize> Tile<P> {
    /// Creates a new tile; the sockets are given in the side order top, left,
    /// right, bottom.
    pub fn new(id: usize, layer: usize, sockets: Vec<Socket<P>>, weight: usize) -> (r: Self)
        requires
            sockets@.len() == 4,
        ensures
            r@ == (GTileView {
                id: id as int,
                layer: layer as int,
                weight: weight as int,
                quad: SocketQuad {
                    left: sockets@[1]@,
                    top: sockets@[0]@,
                    right: sockets@[2]@,
                    bottom: sockets@[3]@,
                },
            }),
    {
        let mut s = sockets;
        let top = s.remove(0);
        let left = s.remove(0);
        let right = s.remove(0);
        let bottom = s.remove(0);
        Tile { id, layer, weight, top, left, right, bottom }
    }

    /// Returns the tile's identifier
    pub fn id(&self) -> (r: usize)
        ensures
            r as int == self@.id,
    {
        self.id
    }

    /// Returns the tile's layer identifier
    pub fn layer(&self) -> (r: usize)
        ensures
            r as int == self@.layer,
    {
        self.layer
    }

    /// Returns the tile's randomness weight
    pub fn weight(&self) -> (r: usize)
        ensures
            r as int == self@.weight,
    {
        self.weight
    }

    /// Returns the tile's sockets, in the side order top, left, right, bottom
    pub fn sockets(&self) -> (r: Vec<Socket<P>>)
        ensures
            r@.len() == 4,
            r@[0]@ == self@.quad.top,
            r@[1]@ == self@.quad.left,
            r@[2]@ == self@.quad.right,
            r@[3]@ == self@.quad.bottom,
    {
        let mut r: Vec<Socket<P>> = Vec::new();
        r.push(self.top.clone());
        r.push(self.left.clone());
        r.push(self.right.clone());
        r.push(self.bottom.clone());
        r
    }

    /// Returns the tile's socket on the given side
    pub fn socket_on(&self, side: Side) -> (r: Socket<P>)
        ensures
            r@ == gquad_on(self@.quad, side),
    {
        match side {
            Side::Top => self.top.clone(),
            Side::Left => self.left.clone(),
            Side::Right => self.right.clone(),
            Side::Bottom => self.bottom.clone(),
        }
    }

    /// Returns `true` if the tile can connect to the other tile on the given side
    pub fn connects_to(&self, other: &Self, side: Side) -> (r: bool)
        ensures
            r == gconnects(self@, other@, side),
    {
        let mine = self.socket_on(side);
        let theirs = other.socket_on(side.opposite());
        self.layer() == other.layer() && mine == theirs
    }
}

impl<const P: usize> Clone for Tile<P> {
    /// Cloning a tile keeps its whole abstract value.
    fn clone(&self) -> (r: Self)
        ensures
            r@ == self@,
    {
        let r = Tile {
            id: self.id,
            layer: self.layer,
            weight: self.weight,
            top: self.top.clone(),
            left: self.left.clone(),
            right: self.right.clone(),
            bottom: self.bottom.clone(),
        };
        proof {
            assert(r@ =~= self@);
        }
        r
    }
}

impl<const P: usize> PartialEq for Tile<P> {
    fn eq(&self, other: &Self) -> (r: bool) {
        let r = self.id == other.id && self.layer == other.layer && self.weight == other.weight
            && self.top == other.top && self.left == other.left && self.right == other.right
            && self.bottom == other.bottom;
        proof {
            if r {
                assert(self@ =~= other@);
            }
        }
        r
    }
}

impl<const P: usize> vstd::std_specs::cmp::PartialEqSpecImpl for Tile<P> {
    open spec fn obeys_eq_spec() -> bool {
        true
    }

    open spec fn eq_spec(&self, other: &Self) -> bool {
        self@ == other@
    }
}

/// Contains information for both a tile and a tile transformation
#[derive(Debug)]
pub struct TransformedTile<const P: usize> {
    tile: Tile<P>,
    transform: Transform,
}

impl<const P: usize> View for TransformedTile<P> {
    type V = GTtView;

    closed spec fn view(&self) -> GTtView {
        GTtView { tile: self.tile@, transform: self.transform@ }
    }
}

impl<const P: usize> TransformedTile<P> {
    /// Creates a new transformed tile
    pub fn new(tile: Tile<P>, transform: Transform) -> (r: Self)
        ensures
            r@ == (GTtView { tile: tile@, transform: transform@ }),
    {
        TransformedTile { tile, transform }
    }

    /// Returns the transformed tile's tile information
    pub fn tile(&self) -> (r: Tile<P>)
        ensures
            r@ == self@.tile,
    {
        self.tile.clone()
    }

    /// Returns the transformed tile's transformation information
    pub fn transform(&self) -> (r: Transform)
        ensures
            r@ == self@.transform,
    {
        self.transform
    }

    /// Returns the transformed tile's tile with rotations applied: one
    /// clockwise quarter turn per step, so the socket that was on the left
    /// comes to the top.
    pub fn rotated(&self) -> (r: Tile<P>)
        ensures
            r@ == (GTileView {
                quad: grot_quad(self@.tile.quad, self@.transform.rotation),
                ..self@.tile
            }),
    {
        let q = match self.transform.rotation {
            Rotation::D0 => (
                self.tile.top.clone(),
                self.tile.left.clone(),
                self.tile.right.clone(),
                self.tile.bottom.clone(),
            ),
            Rotation::D90 => (
                self.tile.left.clone(),
                self.tile.bottom.clone(),
                self.tile.top.clone(),
                self.tile.right.clone(),
            ),
            Rotation::D180 => (
                self.tile.bottom.clone(),
                self.tile.right.clone(),
                self.tile.left.clone(),
                self.tile.top.clone(),
            ),
            Rotation::D270 => (
                self.tile.right.clone(),
                self.tile.top.clone(),
                self.tile.bottom.clone(),
                self.tile.left.clone(),
            ),
        };
        let r = Tile {
            id: self.tile.id,
            layer: self.tile.layer,
            weight: self.tile.weight,
            top: q.0,
            left: q.1,
            right: q.2,
            bottom: q.3,
        };
        proof {
            assert(r@.quad =~= grot_quad(self@.tile.quad, self@.transform.rotation));
            assert(r@ =~= (GTileView {
                quad: grot_quad(self@.tile.quad, self@.transform.rotation),
                ..self@.tile
            }));
        }
        r
    }

    /// Returns the transformed tile's tile with flips applied, the horizontal
    /// one before the vertical one.
    pub fn flipped(&self) -> (r: Tile<P>)
        ensures
            r@ == (GTileView {
                quad: flips_quad(self@.tile.quad, self@.transform.flip_x, self@.transform.flip_y),
                ..self@.tile
            }),
    {
        let t1 = if self.transform.flip_x {
            Tile {
                id: self.tile.id,
                layer: self.tile.layer,
                weight: self.tile.weight,
                top: self.tile.top.reversed(),
                left: self.tile.right.clone(),
                right: self.tile.left.clone(),
                bottom: self.tile.bottom.reversed(),
            }
        } else {
            self.tile.clone()
        };
        let r = if self.transform.flip_y {
            Tile {
                id: t1.id,
                layer: t1.layer,
                weight: t1.weight,
                top: t1.bottom.clone(),
                left: t1.left.reversed(),
                right: t1.right.reversed(),
                bottom: t1.top.clone(),
            }
        } else {
            t1
        };
        proof {
            assert(r@.quad =~= flips_quad(
                self@.tile.quad,
                self@.transform.flip_x,
                self@.transform.flip_y,
            ));
            assert(r@ =~= (GTileView {
                quad: flips_quad(self@.tile.quad, self@.transform.flip_x, self@.transform.flip_y),
                ..self@.tile
            }));
        }
        r
    }

    /// Returns the transformed tile's tile with all transformations applied:
    /// the flips first and the rotation after them.
    pub fn transformed(&self) -> (r: Tile<P>)
        ensures
            r@ == gtransformed(self@),
    {
        let flipped = self.flipped();
        let staged = TransformedTile { tile: flipped, transform: self.transform };
        let r = staged.rotated();
        proof {
            assert(r@ =~= gtransformed(self@));
        }
        r
    }
}

impl<const P: usize> Clone for TransformedTile<P> {
    /// Cloning keeps the whole abstract value.
    fn clone(&self) -> (r: Self)
        ensures
            r@ == self@,
    {
        let r = TransformedTile { tile: self.tile.clone(), transform: self.transform };
        proof {
            assert(r@ =~= self@);
        }
        r
    }
}

impl<const P: usize> PartialEq for TransformedTile<P> {
    fn eq(&self, other: &Self) -> (r: bool) {
        let r = self.tile == other.tile && self.transform == other.transform;
        proof {
            if r {
                assert(self@ =~= other@);
            }
        }
        r
    }
}

impl<const P: usize> vstd::std_specs::cmp::PartialEqSpecImpl for TransformedTile<P> {
    open spec fn obeys_eq_spec() -> bool {
        true
    }

    open spec fn eq_spec(&self, other: &Self) -> bool {
        self@ == other@
    }
}

/// The abstract values of a list of transformed tiles, in order.
pub open spec fn gtt_views<const P: usize>(s: Seq<TransformedTile<P>>) -> Seq<GTtView> {
    s.map_values(|t: TransformedTile<P>| t@)
}

/// The numeric fields of any transformed tile value lie in the machine range.
pub proof fn lemma_tt_bounds<const P: usize>(t: TransformedTile<P>)
    ensures
        0 <= t@.tile.weight <= usize::MAX,
        0 <= t@.tile.id <= usize::MAX,
        0 <= t@.tile.layer <= usize::MAX,
{
}

/// The sixteen transform variants of one base tile, rotations outermost and
/// within each rotation the flips in the order none, horizontal, vertical,
/// both.
pub open spec fn g_all_variants(t: GTileView) -> Seq<GTtView> {
    seq![
        GTtView { tile: t, transform: GTransView { rotation: Rotation::D0, flip_x: false, flip_y: false } },
        GTtView { tile: t, transform: GTransView { rotation: Rotation::D0, flip_x: true, flip_y: false } },
        GTtView { tile: t, transform: GTransView { rotation: Rotation::D0, flip_x: false, flip_y: true } },
        GTtView { tile: t, transform: GTransView { rotation: Rotation::D0, flip_x: true, flip_y: true } },
        GTtView { tile: t, transform: GTransView { rotation: Rotation::D90, flip_x: false, flip_y: false } },
        GTtView { tile: t, transform: GTransView { rotation: Rotation::D90, flip_x: true, flip_y: false } },
        GTtView { tile: t, transform: GTransView { rotation: Rotation::D90, flip_x: false, flip_y: true } },
        GTtView { tile: t, transform: GTransView { rotation: Rotation::D90, flip_x: true, flip_y: true } },
        GTtView { tile: t, transform: GTransView { rotation: Rotation::D180, flip_x: false, flip_y: false } },
        GTtView { tile: t, transform: GTransView { rotation: Rotation::D180, flip_x: true, flip_y: false } },
        GTtView { tile: t, transform: GTransView { rotation: Rotation::D180, flip_x: false, flip_y: true } },
        GTtView { tile: t, transform: GTransView { rotation: Rotation::D180, flip_x: true, flip_y: true } },
        GTtView { tile: t, transform: GTransView { rotation: Rotation::D270, flip_x: false, flip_y: false } },
        GTtView { tile: t, transform: GTransView { rotation: Rotation::D270, flip_x: true, flip_y: false } },
        GTtView { tile: t, transform: GTransView { rotation: Rotation::D270, flip_x: false, flip_y: true } },
        GTtView { tile: t, transform: GTransView { rotation: Rotation::D270, flip_x: true, flip_y: true } },
    ]
}

/// The sixteen transform variants of every tile of a list, in order.
pub open spec fn g_variants_of_list(s: Seq<GTileView>) -> Seq<GTtView>
    decreases s.len(),
{
    if s.len() == 0 {
        Seq::empty()
    } else {
        g_variants_of_list(s.drop_last()) + g_all_variants(s.last())
    }
}

/// Prefixes of the variant expansion grow by one tile's sixteen variants at
/// a time.
pub proof fn lemma_g_variants_of_list_take(s: Seq<GTileView>, i: int)
    requires
        0 <= i < s.len(),
    ensures
        g_variants_of_list(s.take(i + 1)) == g_variants_of_list(s.take(i)) + g_all_variants(
            s[i],
        ),
{
    assert(s.take(i + 1).drop_last() =~= s.take(i));
    assert(s.take(i + 1).last() == s[i]);
}

/// The greatest base-tile identifier in a list, or minus one for an empty
/// list.
pub open spec fn gmax_id(s: Seq<GTtView>) -> int
    decreases s.len(),
{
    if s.len() == 0 {
        -1
    } else {
        let rest = gmax_id(s.drop_last());
        if s.last().tile.id > rest {
            s.last().tile.id
        } else {
            rest
        }
    }
}

/// List of tiles and all of their possible transformations
#[derive(Debug)]
pub struct TileSet<const P: usize> {
    id: usize,
    tiles: Vec<TransformedTile<P>>,
}

impl<const P: usize> View for TileSet<P> {
    type V = Seq<GTtView>;

    closed spec fn view(&self) -> Seq<GTtView> {
        gtt_views(self.tiles@)
    }
}

impl<const P: usize> TileSet<P> {
    /// Creates a new tile set
    pub fn new(id: usize) -> (r: Self)
        ensures
            r@ == Seq::<GTtView>::empty(),
            r.spec_id() == id,
    {
        let r = TileSet { id, tiles: Vec::new() };
        proof {
            assert(r@ =~= Seq::<GTtView>::empty());
        }
        r
    }

    /// Creates a new tile set that contains the provided tiles
    pub fn new_with(id: usize, tiles: &Vec<TransformedTile<P>>) -> (r: Self)
        ensures
            r@ == gtt_views(tiles@),
            r.spec_id() == id,
    {
        let mut own: Vec<TransformedTile<P>> = Vec::new();
        let n = tiles.len();
        let mut i: usize = 0;
        while i < n
            invariant
                n == tiles@.len(),
                0 <= i <= n,
                own@.len() == i,
                forall|k: int| 0 <= k < i ==> #[trigger] own@[k]@ == tiles@[k]@,
            decreases n - i,
        {
            own.push(tiles[i].clone());
            i = i + 1;
        }
        let r = TileSet { id, tiles: own };
        proof {
            assert(r@ =~= gtt_views(tiles@));
        }
        r
    }

    /// The identifier of a tile set value.
    pub closed spec fn spec_id(&self) -> int {
        self.id as int
    }

    /// Returns the tile set's identifier
    pub fn id(&self) -> (r: usize)
        ensures
            r as int == self.spec_id(),
    {
        self.id
    }

    /// Returns a reference to the tile set's tiles
    pub fn tiles(&self) -> (r: &Vec<TransformedTile<P>>)
        ensures
            gtt_views(r@) == self@,
    {
        &self.tiles
    }

    /// Returns a mutable reference to the tile set's tiles
    pub fn tiles_mut(&mut self) -> (r: &mut Vec<TransformedTile<P>>)
        ensures
            gtt_views(r@) == old(self)@,
            final(self)@ == gtt_views(final(r)@),
            final(self).spec_id() == old(self).spec_id(),
    {
        &mut self.tiles
    }

    /// Returns the total number of tiles within the set
    pub fn len(&self) -> (r: usize)
        ensures
            r == self@.len(),
    {
        self.tiles.len()
    }

    /// Returns `true` if the total number of tiles in the set is `0`
    pub fn is_empty(&self) -> (r: bool)
        ensures
            r == (self@.len() == 0),
    {
        self.len() == 0
    }

    /// Returns the next available identifier for a tile within the set: one
    /// past the greatest identifier so far.
    pub fn next_id(&self) -> (r: usize)
        requires
            gmax_id(self@) < usize::MAX,
        ensures
            r as int == gmax_id(self@) + 1,
    {
        let n = self.tiles.len();
        if n == 0 {
            return 0;
        }
        let mut best: usize = 0;
        let mut have = false;
        let mut i: usize = 0;
        while i < n
            invariant
                n == self@.len(),
                n > 0,
                0 <= i <= n,
                have == (i > 0),
                have ==> best as int == gmax_id(self@.take(i as int)),
            decreases n - i,
        {
            let t = self.tiles[i].tile();
            let tid = t.id();
            proof {
                assert(self@.take(i + 1).drop_last() =~= self@.take(i as int));
                assert(self@.take(i + 1).last() == self@[i as int]);
                if i == 0 {
                    assert(gmax_id(self@.take(0)) == -1);
                }
            }
            if !have || tid > best {
                best = tid;
                have = true;
            }
            i = i + 1;
        }
        proof {
            assert(self@.take(n as int) =~= self@);
        }
        best + 1
    }

    /// Adds the provided transformed tile into the set
    pub fn add_transformed(&mut self, tile: TransformedTile<P>)
        ensures
            final(self)@ == old(self)@.push(tile@),
            final(self).spec_id() == old(self).spec_id(),
    {
        self.tiles.push(tile);
        proof {
            assert(self@ =~= old(self)@.push(self.tiles@.last()@));
        }
    }

    /// Adds the provided list of transformed tiles into the set
    pub fn add_all_transformed(&mut self, tiles: &Vec<TransformedTile<P>>)
        ensures
            final(self)@ == old(self)@ + gtt_views(tiles@),
            final(self).spec_id() == old(self).spec_id(),
    {
        let n = tiles.len();
        let mut i: usize = 0;
        while i < n
            invariant
                n == tiles@.len(),
                0 <= i <= n,
                self@ == old(self)@ + gtt_views(tiles@).take(i as int),
                self.spec_id() == old(self).spec_id(),
            decreases n - i,
        {
            let ghost before = self@;
            self.tiles.push(tiles[i].clone());
            proof {
                assert(self@.len() == before.len() + 1);
                assert forall|k: int| 0 <= k < before.len() implies self@[k] == before[k] by {}
                assert(self@[before.len() as int] == tiles@[i as int]@);
                assert(self@ =~= before.push(tiles@[i as int]@));
                assert(before.push(tiles@[i as int]@) =~= old(self)@ + gtt_views(tiles@).take(
                    i + 1,
                ));
            }
            i = i + 1;
        }
        proof {
            assert(gtt_views(tiles@).take(n as int) =~= gtt_views(tiles@));
        }
    }

    /// Adds the provided tile into the set, generating possible transformations
    pub fn add_tile(&mut self, tile: Tile<P>)
        ensures
            final(self)@ == old(self)@ + g_all_variants(tile@),
            final(self).spec_id() == old(self).spec_id(),
    {
        let mut tiles: Vec<TransformedTile<P>> = Vec::new();
        tiles.push(TransformedTile::new(tile.clone(), Transform::new(Rotation::D0, false, false)));
        tiles.push(TransformedTile::new(tile.clone(), Transform::new(Rotation::D0, true, false)));
        tiles.push(TransformedTile::new(tile.clone(), Transform::new(Rotation::D0, false, true)));
        tiles.push(TransformedTile::new(tile.clone(), Transform::new(Rotation::D0, true, true)));
        tiles.push(TransformedTile::new(tile.clone(), Transform::new(Rotation::D90, false, false)));
        tiles.push(TransformedTile::new(tile.clone(), Transform::new(Rotation::D90, true, false)));
        tiles.push(TransformedTile::new(tile.clone(), Transform::new(Rotation::D90, false, true)));
        tiles.push(TransformedTile::new(tile.clone(), Transform::new(Rotation::D90, true, true)));
        tiles.push(
            TransformedTile::new(tile.clone(), Transform::new(Rotation::D180, false, false)),
        );
        tiles.push(TransformedTile::new(tile.clone(), Transform::new(Rotation::D180, true, false)));
        tiles.push(TransformedTile::new(tile.clone(), Transform::new(Rotation::D180, false, true)));
        tiles.push(TransformedTile::new(tile.clone(), Transform::new(Rotation::D180, true, true)));
        tiles.push(
            TransformedTile::new(tile.clone(), Transform::new(Rotation::D270, false, false)),
        );
        tiles.push(TransformedTile::new(tile.clone(), Transform::new(Rotation::D270, true, false)));
        tiles.push(TransformedTile::new(tile.clone(), Transform::new(Rotation::D270, false, true)));
        tiles.push(TransformedTile::new(tile, Transform::new(Rotation::D270, true, true)));
        proof {
            assert(gtt_views(tiles@) =~= g_all_variants(tiles@[15]@.tile));
        }
        self.add_all_transformed(&tiles);
    }

    /// Adds the provided list of tiles into the set, generating possible transformations for each
    pub fn add_all_tiles(&mut self, tiles: &Vec<Tile<P>>)
        ensures
            final(self).spec_id() == old(self).spec_id(),
            final(self)@ == old(self)@ + g_variants_of_list(
                tiles@.map_values(|t: Tile<P>| t@),
            ),
    {
        let ghost tvs = tiles@.map_values(|t: Tile<P>| t@);
        let n = tiles.len();
        let mut i: usize = 0;
        proof {
            assert(tvs.take(0) =~= Seq::<GTileView>::empty());
            assert(self@ =~= old(self)@ + g_variants_of_list(tvs.take(0)));
        }
        while i < n
            invariant
                n == tiles@.len(),
                tvs == tiles@.map_values(|t: Tile<P>| t@),
                0 <= i <= n,
                self.spec_id() == old(self).spec_id(),
                self@ == old(self)@ + g_variants_of_list(tvs.take(i as int)),
            decreases n - i,
        {
            proof {
                lemma_g_variants_of_list_take(tvs, i as int);
            }
            self.add_tile(tiles[i].clone());
            proof {
                assert(tvs[i as int] == tiles@[i as int]@);
                assert(self@ =~= old(self)@ + g_variants_of_list(tvs.take(i + 1)));
            }
            i = i + 1;
        }
        proof {
            assert(tvs.take(n as int) =~= tvs);
        }
    }

    /// Adds the provided raw tile into the set, generating a tile and possible transformations
    pub fn add_raw(&mut self, raw: &Raw)
        requires
            gmax_id(old(self)@) < usize::MAX,
        ensures
            final(self).spec_id() == old(self).spec_id(),
            final(self)@ == old(self)@ + g_all_variants(
                GTileView {
                    id: gmax_id(old(self)@) + 1,
                    layer: raw.layer as int,
                    weight: raw.weight as int,
                    quad: SocketQuad {
                        left: pad_nodes::<P>(raw.nodes.1@),
                        top: pad_nodes::<P>(raw.nodes.0@),
                        right: pad_nodes::<P>(raw.nodes.2@),
                        bottom: pad_nodes::<P>(raw.nodes.3@),
                    },
                },
            ),
    {
        let id = self.next_id();
        let top = gen_socket::<P>(&raw.nodes.0);
        let left = gen_socket::<P>(&raw.nodes.1);
        let right = gen_socket::<P>(&raw.nodes.2);
        let bottom = gen_socket::<P>(&raw.nodes.3);
        let mut sockets: Vec<Socket<P>> = Vec::new();
        sockets.push(top);
        sockets.push(left);
        sockets.push(right);
        sockets.push(bottom);
        let tile = Tile::new(id, raw.layer, sockets, raw.weight);
        proof {
            assert(tile@ =~= (GTileView {
                id: gmax_id(old(self)@) + 1,
                layer: raw.layer as int,
                weight: raw.weight as int,
                quad: SocketQuad {
                    left: pad_nodes::<P>(raw.nodes.1@),
                    top: pad_nodes::<P>(raw.nodes.0@),
                    right: pad_nodes::<P>(raw.nodes.2@),
                    bottom: pad_nodes::<P>(raw.nodes.3@),
                },
            }));
        }
        self.add_tile(tile);
    }

    /// Adds the provided list of raw tiles into the set, generating a tile
    /// and possible transformations for each. Sixteen variants join the set
    /// for every description.
    pub fn add_all_raws(&mut self, raws: &Vec<Raw>)
        requires
            gmax_id(old(self)@) < usize::MAX - raws@.len(),
        ensures
            final(self).spec_id() == old(self).spec_id(),
            final(self)@.len() == old(self)@.len() + 16 * raws@.len(),
    {
        let n = raws.len();
        let mut i: usize = 0;
        while i < n
            invariant
                n == raws@.len(),
                0 <= i <= n,
                self.spec_id() == old(self).spec_id(),
                self@.len() == old(self)@.len() + 16 * i,
                gmax_id(self@) < usize::MAX - (n - i),
            decreases n - i,
        {
            let ghost before = self@;
            self.add_raw(&raws[i]);
            proof {
                lemma_gmax_id_append(before, self@, gmax_id(before) + 1);
            }
            i = i + 1;
        }
    }
}

/// Appending variants whose identifier is `fresh` moves the greatest
/// identifier to at most `fresh`.
proof fn lemma_gmax_id_append(before: Seq<GTtView>, after: Seq<GTtView>, fresh: int)
    requires
        after.len() >= before.len(),
        forall|k: int| 0 <= k < before.len() ==> after[k] == before[k],
        forall|k: int| before.len() <= k < after.len() ==> (#[trigger] after[k]).tile.id == fresh,
        fresh >= gmax_id(before),
    ensures
        gmax_id(after) <= fresh,
    decreases after.len(),
{
    if after.len() > before.len() {
        lemma_gmax_id_append(before, after.drop_last(), fresh);
    } else {
        assert(after =~= before);
    }
}

/// Generates a socket from the provided list of symbols, cut or zero-padded
/// to the socket length.
fn gen_socket<const P: usize>(raw: &Vec<usize>) -> (r: Socket<P>)
    ensures
        r@ == pad_nodes::<P>(raw@),
{
    let mut out: Vec<usize> = Vec::new();
    let mut i: usize = 0;
    while i < P
        invariant
            0 <= i <= P,
            out@.len() == i,
            forall|k: int|
                0 <= k < i ==> #[trigger] out@[k] == if k < raw@.len() {
                    raw@[k]
                } else {
                    0usize
                },
        decreases P - i,
    {
        if i < raw.len() {
            out.push(raw[i]);
        } else {
            out.push(0);
        }
        i = i + 1;
    }
    let r = Socket { nodes: out };
    proof {
        assert(r@ =~= pad_nodes::<P>(raw@));
    }
    r
}

/// Defines a file header for raw tile information
#[derive(Debug)]
pub struct RawFile {
    pub id: usize,
    pub version: usize,
    pub precision: usize,
    pub tiles: Vec<Raw>,
}

/// Defines raw tile information: a renderer key, a layer, a weight and the
/// four socket symbol lists in the side order top, left, right, bottom.
#[derive(Debug)]
pub struct Raw {
    pub source: String,
    pub layer: usize,
    pub weight: usize,
    pub nodes: (Vec<usize>, Vec<usize>, Vec<usize>, Vec<usize>),
}


/// The summed weight of a list of transformed tiles.
pub open spec fn g_total_weight(s: Seq<GTtView>) -> int
    decreases s.len(),
{
    if s.len() == 0 {
        0
    } else {
        g_total_weight(s.drop_last()) + s.last().tile.weight
    }
}

/// Prefix sums of weights grow by one tile's weight at a time.
pub proof fn lemma_g_total_weight_take(s: Seq<GTtView>, i: int)
    requires
        0 <= i < s.len(),
    ensures
        g_total_weight(s.take(i + 1)) == g_total_weight(s.take(i)) + s[i].tile.weight,
{
    assert(s.take(i + 1).drop_last() =~= s.take(i));
    assert(s.take(i + 1).last() == s[i]);
}

/// Prefix sums of weights never pass the whole sum when weights are
/// non-negative.
pub proof fn lemma_g_total_weight_take_le(s: Seq<GTtView>, i: int)
    requires
        0 <= i <= s.len(),
        forall|k: int| 0 <= k < s.len() ==> (#[trigger] s[k]).tile.weight >= 0,
    ensures
        g_total_weight(s.take(i)) <= g_total_weight(s),
    decreases s.len() - i,
{
    if i == s.len() {
        assert(s.take(i) =~= s);
    } else {
        lemma_g_total_weight_take(s, i);
        lemma_g_total_weight_take_le(s, i + 1);
    }
}

/// A list whose tiles all carry non-negative weight has non-negative total
/// weight.
pub proof fn lemma_g_total_weight_nonneg(s: Seq<GTtView>)
    requires
        forall|k: int| 0 <= k < s.len() ==> (#[trigger] s[k]).tile.weight >= 0,
    ensures
        g_total_weight(s) >= 0,
    decreases s.len(),
{
    if s.len() > 0 {
        assert(forall|m: int|
            0 <= m < s.drop_last().len() ==> (#[trigger] s.drop_last()[m]) == s[m]);
        lemma_g_total_weight_nonneg(s.drop_last());
    }
}

} // verus!
