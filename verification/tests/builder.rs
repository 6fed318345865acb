//! Tests for the tile builders: variant expansion from artifacts and from raw
//! descriptions, and the transform-carrying solver built on them.

use wfc_tiles::generation::tile::{
    Raw, Rotation as GRotation, Side as GSide, Socket as GSocket, Tile as GTile, TileSet,
    Transform, TransformedTile,
};
use wfc_tiles::generation::wfc::{Error as GError, Generator as GGenerator};
use wfc_tiles::grid::Grid;
use wfc_tiles::wfc::{Generator, TileGenerator, ToTiles};

/// A square artifact of symbols, row by row.
fn artifact(rows: Vec<Vec<usize>>) -> Grid<usize> {
    let height = rows.len();
    let width = rows[0].len();
    let mut g = Grid::new(width, height, 0usize);
    for (y, row) in rows.into_iter().enumerate() {
        for (x, v) in row.into_iter().enumerate() {
            g.set(x, y, v).unwrap();
        }
    }
    g
}

#[test]
fn to_socket_reads_the_edges() {
    let g = artifact(vec![vec![1, 2, 3], vec![4, 5, 6], vec![7, 8, 9]]);
    let top: wfc_tiles::wfc::Socket<3> = g.to_socket(wfc_tiles::wfc::Side::Top);
    assert_eq!(top.nodes(), &vec![1, 2, 3]);
    let bottom: wfc_tiles::wfc::Socket<3> = g.to_socket(wfc_tiles::wfc::Side::Bottom);
    assert_eq!(bottom.nodes(), &vec![7, 8, 9]);
    let left: wfc_tiles::wfc::Socket<3> = g.to_socket(wfc_tiles::wfc::Side::Left);
    assert_eq!(left.nodes(), &vec![1, 4, 7]);
    let right: wfc_tiles::wfc::Socket<3> = g.to_socket(wfc_tiles::wfc::Side::Right);
    assert_eq!(right.nodes(), &vec![3, 6, 9]);
}

#[test]
fn symmetric_artifact_collapses_to_one_variant() {
    // every edge of this artifact reads the same palindrome, so all sixteen
    // transforms coincide
    let g = artifact(vec![vec![1, 0, 1], vec![0, 9, 0], vec![1, 0, 1]]);
    let mut builder: TileGenerator<3> = TileGenerator::new();
    builder.generate(&g, 0, 1);
    assert_eq!(builder.tiles().len(), 1);

    let mut solver = Generator::with_seed(5, 5, builder.tiles().clone(), 13).unwrap();
    let out = solver.run(true).unwrap();
    for y in 0..5 {
        for x in 0..5 {
            assert_eq!(out.get(x, y).unwrap().id(), 0);
        }
    }
}

#[test]
fn asymmetric_artifact_yields_many_variants() {
    let g = artifact(vec![vec![1, 2], vec![3, 4]]);
    let mut builder: TileGenerator<2> = TileGenerator::new();
    builder.generate(&g, 0, 1);
    // rotation moves sockets without reversing them, so for fully distinct
    // corners all sixteen transforms read differently
    assert_eq!(builder.tiles().len(), 16);
    builder.generate(&artifact(vec![vec![1, 2], vec![3, 4]]), 0, 1);
    // the same artifact again adds no new variant
    assert_eq!(builder.tiles().len(), 16);
}

#[test]
fn next_id_counts_up() {
    let mut builder: TileGenerator<2> = TileGenerator::new();
    assert_eq!(builder.next_id(), 0);
    builder.generate(&artifact(vec![vec![0, 0], vec![0, 0]]), 0, 1);
    let last = builder.tiles().len() - 1;
    assert_eq!(builder.next_id(), builder.tiles()[last].id() + 1);
}

#[test]
fn transformed_tile_round_trips() {
    let t = GTile::<2>::new(
        0,
        0,
        vec![
            GSocket::new(vec![1, 2]),
            GSocket::new(vec![3, 4]),
            GSocket::new(vec![5, 6]),
            GSocket::new(vec![7, 8]),
        ],
        1,
    );
    let spun = TransformedTile::new(t.clone(), Transform::new(GRotation::D90, false, false))
        .transformed();
    let back = TransformedTile::new(spun, Transform::new(GRotation::D270, false, false))
        .transformed();
    for side in [GSide::Top, GSide::Left, GSide::Right, GSide::Bottom] {
        assert_eq!(back.socket_on(side).nodes(), t.socket_on(side).nodes());
    }
}

#[test]
fn gen_sides_face_each_other() {
    let pairs = [((1usize, 1usize), (2usize, 1usize)), ((1, 1), (0, 1)), ((1, 1), (1, 2)), ((1, 1), (1, 0))];
    for (a, b) in pairs {
        assert_eq!(GSide::relative(a, b), GSide::relative(b, a).opposite());
    }
    assert_eq!(GRotation::D90.opposite(), GRotation::D270);
}

#[test]
fn raw_descriptions_become_sixteen_variants() {
    let mut set: TileSet<1> = TileSet::new(7);
    assert_eq!(set.id(), 7);
    assert!(set.is_empty());
    let raw = Raw {
        source: String::from("stone"),
        layer: 0,
        weight: 1,
        nodes: (vec![0], vec![0], vec![0], vec![0]),
    };
    set.add_raw(&raw);
    assert_eq!(set.len(), 16);
    assert_eq!(set.next_id(), 1);
}

#[test]
fn generation_solver_collapses_uniform_catalog() {
    let t = GTile::<1>::new(
        0,
        0,
        vec![
            GSocket::new(vec![0]),
            GSocket::new(vec![0]),
            GSocket::new(vec![0]),
            GSocket::new(vec![0]),
        ],
        1,
    );
    let mut tiles = Vec::new();
    for rot in [GRotation::D0, GRotation::D90] {
        tiles.push(TransformedTile::new(t.clone(), Transform::new(rot, false, false)));
    }
    let mut solver: GGenerator<1> = GGenerator::with_seed(3, 2, &tiles, 5);
    assert_eq!(solver.entropy(), 12);
    let out = solver.run(true).unwrap();
    for y in 0..2 {
        for x in 0..3 {
            assert_eq!(out.get((x, y)).unwrap().id(), 0);
        }
    }
}

#[test]
fn generation_solver_reports_contradictions() {
    // two variants with pairwise distinct symbols: no pairing is legal, so
    // the first collapse empties the other cell
    let a = GTile::<1>::new(
        0,
        0,
        vec![
            GSocket::new(vec![4]),
            GSocket::new(vec![0]),
            GSocket::new(vec![1]),
            GSocket::new(vec![4]),
        ],
        1,
    );
    let b = GTile::<1>::new(
        1,
        0,
        vec![
            GSocket::new(vec![5]),
            GSocket::new(vec![2]),
            GSocket::new(vec![3]),
            GSocket::new(vec![5]),
        ],
        1,
    );
    let tiles = vec![
        TransformedTile::new(a, Transform::new(GRotation::D0, false, false)),
        TransformedTile::new(b, Transform::new(GRotation::D0, false, false)),
    ];
    let mut solver: GGenerator<1> = GGenerator::with_seed(2, 1, &tiles, 9);
    assert_eq!(solver.run(true).err(), Some(GError::EmptySet));
}

#[test]
fn generation_dedup_drops_repeated_variants() {
    let t = GTile::<1>::new(
        0,
        0,
        vec![
            GSocket::new(vec![0]),
            GSocket::new(vec![0]),
            GSocket::new(vec![0]),
            GSocket::new(vec![0]),
        ],
        1,
    );
    let tt = TransformedTile::new(t.clone(), Transform::new(GRotation::D0, false, false));
    let other = TransformedTile::new(t, Transform::new(GRotation::D90, false, false));
    // the repeated tile is dropped even when another stands between
    let tiles = vec![tt.clone(), other.clone(), tt.clone()];
    let solver: GGenerator<1> = GGenerator::new(2, 2, &tiles);
    let grid = solver.grid();
    let cell = grid.get((0, 0)).unwrap();
    assert_eq!(cell.len(), 2);
}

#[test]
fn generation_lone_incompatible_variant_fails() {
    // a single variant whose left and right sockets differ cannot tile a row
    // of two: the consistency sweep empties both cells
    let t = GTile::<1>::new(
        0,
        0,
        vec![
            GSocket::new(vec![2]),
            GSocket::new(vec![0]),
            GSocket::new(vec![1]),
            GSocket::new(vec![2]),
        ],
        1,
    );
    let tiles = vec![TransformedTile::new(t, Transform::new(GRotation::D0, false, false))];
    let mut solver: GGenerator<1> = GGenerator::with_seed(2, 1, &tiles, 9);
    assert_eq!(solver.run(true).err(), Some(GError::EmptySet));
}
