//! Tests for the core solver: direction laws, tile transforms, deduplication,
//! and the end-to-end generation scenarios.

use wfc_tiles::wfc::{dedup_tiles, Error, Generator, Rotation, Side, Socket, Tile};

fn socket1(v: usize) -> Socket<1> {
    Socket::new(vec![v])
}

/// A tile with precision one and the given sockets, in left/top/right/bottom
/// order, without any transform.
fn tile1(id: usize, layer: usize, weight: usize, l: usize, t: usize, r: usize, b: usize) -> Tile<1> {
    Tile::new(
        id,
        layer,
        weight,
        vec![socket1(l), socket1(t), socket1(r), socket1(b)],
        Rotation::D0,
        (false, false),
    )
}

/// A tile whose four one-symbol sockets are all the same value.
fn uniform_tile(id: usize, layer: usize, weight: usize, v: usize) -> Tile<1> {
    tile1(id, layer, weight, v, v, v, v)
}

#[test]
fn socket_reversed_twice_is_identity() {
    let s = Socket::<4>::new(vec![3, 1, 4, 1]);
    let back = s.flipped().flipped();
    assert!(s == back);
    assert_eq!(back.nodes(), &vec![3, 1, 4, 1]);
}

#[test]
fn socket_symmetry() {
    let pal = Socket::<3>::new(vec![1, 0, 1]);
    assert!(pal.symmetrical());
    let asym = Socket::<3>::new(vec![1, 0, 2]);
    assert!(!asym.symmetrical());
}

#[test]
fn socket_from_nodes_pads_and_truncates() {
    let short = Socket::<4>::from_nodes(&vec![7, 8]);
    assert_eq!(short.nodes(), &vec![7, 8, 0, 0]);
    let long = Socket::<2>::from_nodes(&vec![5, 6, 7, 8]);
    assert_eq!(long.nodes(), &vec![5, 6]);
}

#[test]
fn opposite_twice_is_identity() {
    for s in Side::iter() {
        assert_eq!(s.opposite().opposite(), s);
    }
}

#[test]
fn relative_directions_face_each_other() {
    let pairs = [((1usize, 1usize), (2usize, 1usize)), ((1, 1), (0, 1)), ((1, 1), (1, 2)), ((1, 1), (1, 0))];
    for (a, b) in pairs {
        assert_eq!(Side::relative(a, b), Side::relative(b, a).opposite());
    }
    assert_eq!(Side::relative((1, 1), (2, 1)), Side::Right);
    assert_eq!(Side::relative((1, 1), (1, 2)), Side::Bottom);
}

#[test]
fn flip_twice_restores_sockets() {
    // a tile with asymmetric sockets, flipped horizontally twice
    let base = Tile::<3>::new(
        0,
        0,
        1,
        vec![
            Socket::new(vec![1, 2, 3]),
            Socket::new(vec![4, 5, 6]),
            Socket::new(vec![7, 8, 9]),
            Socket::new(vec![10, 11, 12]),
        ],
        Rotation::D0,
        (true, false),
    );
    let once = base.flipped();
    let again = Tile::<3>::new(
        0,
        0,
        1,
        once.sockets(),
        Rotation::D0,
        (true, false),
    )
    .flipped();
    for side in Side::iter() {
        assert_eq!(again.socket(side).nodes(), base.socket(side).nodes());
    }
}

#[test]
fn rotate_four_times_restores_sockets() {
    let base = Tile::<2>::new(
        0,
        0,
        1,
        vec![
            Socket::new(vec![1, 2]),
            Socket::new(vec![3, 4]),
            Socket::new(vec![5, 6]),
            Socket::new(vec![7, 8]),
        ],
        Rotation::D90,
        (false, false),
    );
    let mut t = base.rotated();
    for _ in 0..3 {
        t = Tile::<2>::new(0, 0, 1, t.sockets(), Rotation::D90, (false, false)).rotated();
    }
    for side in Side::iter() {
        assert_eq!(t.socket(side).nodes(), base.socket(side).nodes());
    }
}

#[test]
fn dedup_is_idempotent() {
    let mut tiles = Vec::new();
    // several copies of the same variant among distinct ones
    tiles.push(uniform_tile(0, 0, 1, 0));
    tiles.push(uniform_tile(1, 0, 1, 0));
    tiles.push(uniform_tile(2, 0, 1, 1));
    tiles.push(uniform_tile(3, 0, 1, 0));
    tiles.push(uniform_tile(4, 1, 1, 0));
    let once = dedup_tiles(tiles);
    assert_eq!(once.len(), 3);
    let twice = dedup_tiles(once.clone());
    assert!(once == twice);
}

#[test]
fn new_rejects_bad_configurations() {
    assert_eq!(Generator::new(0, 3, vec![uniform_tile(0, 0, 1, 0)]).err(), Some(Error::InvalidConfig));
    assert_eq!(Generator::new(3, 0, vec![uniform_tile(0, 0, 1, 0)]).err(), Some(Error::InvalidConfig));
    assert_eq!(Generator::<1>::new(3, 3, Vec::new()).err(), Some(Error::InvalidConfig));
}

#[test]
fn new_fills_every_cell_with_the_catalog() {
    let tiles = vec![uniform_tile(0, 0, 1, 0), uniform_tile(1, 0, 1, 1)];
    let g = Generator::new(2, 3, tiles).unwrap();
    let grid = g.grid();
    assert_eq!(grid.width(), 2);
    assert_eq!(grid.height(), 3);
    for y in 0..3 {
        for x in 0..2 {
            let cell = grid.get(x, y).unwrap();
            assert_eq!(cell.len(), 2);
            assert_eq!(cell.tiles()[0].id(), 0);
            assert_eq!(cell.tiles()[1].id(), 1);
        }
    }
    assert_eq!(g.entropy(), 12);
    assert!(!g.is_collapsed());
    assert!(!g.is_any_empty());
}

#[test]
fn single_cell_succeeds_on_first_step() {
    let tiles = vec![uniform_tile(0, 0, 1, 0), uniform_tile(1, 0, 1, 1)];
    let mut g = Generator::with_seed(1, 1, tiles, 7).unwrap();
    let done = g.step().unwrap();
    assert!(done);
    assert!(g.is_collapsed());
}

#[test]
fn step_keeps_cells_nonempty_and_shrinks_them() {
    let tiles = vec![uniform_tile(0, 0, 1, 0), uniform_tile(1, 0, 1, 1)];
    let mut g = Generator::with_seed(2, 2, tiles, 11).unwrap();
    let before: Vec<usize> = (0..2)
        .flat_map(|y| (0..2).map(move |x| (x, y)))
        .map(|(x, y)| g.grid().get(x, y).unwrap().len())
        .collect();
    let r = g.step();
    assert!(r.is_ok());
    for (k, (x, y)) in (0..2).flat_map(|y| (0..2).map(move |x| (x, y))).enumerate() {
        let after = g.grid().get(x, y).unwrap().len();
        assert!(after >= 1);
        assert!(after <= before[k]);
    }
}

#[test]
fn non_self_compatible_tile_fails_with_empty_set() {
    // one variant whose left and right sockets differ: a row of two cannot
    // be tiled with it
    let t = tile1(0, 0, 1, 0, 2, 1, 2);
    let mut g = Generator::with_seed(2, 1, vec![t], 3).unwrap();
    assert_eq!(g.run(true).err(), Some(Error::EmptySet));
}

#[test]
fn zero_weights_fail_with_invalid_weight() {
    let tiles = vec![uniform_tile(0, 0, 0, 0), uniform_tile(1, 0, 0, 1)];
    let mut g = Generator::with_seed(2, 2, tiles, 5).unwrap();
    assert_eq!(g.run(true).err(), Some(Error::InvalidWeight));
}

#[test]
fn stripes_collapse_to_one_variant() {
    // two self-compatible variants that do not mix: the row is uniform
    let tiles = vec![uniform_tile(0, 0, 1, 0), uniform_tile(1, 0, 1, 1)];
    for seed in 0..8u64 {
        let mut g = Generator::with_seed(4, 1, tiles.clone(), seed).unwrap();
        let out = g.run(true).unwrap();
        let first = out.get(0, 0).unwrap().id();
        assert!(first == 0 || first == 1);
        for x in 1..4 {
            assert_eq!(out.get(x, 0).unwrap().id(), first);
        }
    }
}

#[test]
fn checkerboard_alternates() {
    // a pair of variants, each compatible only with the other on every side
    let a = tile1(0, 0, 1, 2, 0, 3, 1);
    let b = tile1(1, 0, 1, 3, 1, 2, 0);
    let mut g = Generator::with_seed(3, 3, vec![a, b], 17).unwrap();
    let out = g.run(true).unwrap();
    let corner = out.get(0, 0).unwrap().id();
    for y in 0..3 {
        for x in 0..3 {
            let want = if (x + y) % 2 == 0 { corner } else { 1 - corner };
            assert_eq!(out.get(x, y).unwrap().id(), want);
        }
    }
}

#[test]
fn unsatisfiable_pair_fails_with_empty_set() {
    // no pairing of the two variants is legal on the one shared edge
    let a = tile1(0, 0, 1, 2, 4, 0, 4);
    let b = tile1(1, 0, 1, 1, 5, 3, 5);
    let mut g = Generator::with_seed(2, 1, vec![a, b], 23).unwrap();
    assert_eq!(g.run(true).err(), Some(Error::EmptySet));
}

#[test]
fn layers_keep_variants_apart() {
    // the same sockets on two layers: a finished grid never mixes layers,
    // because cross-layer neighbors are incompatible
    let a = uniform_tile(0, 0, 1, 0);
    let b = uniform_tile(1, 1, 1, 0);
    for seed in 0..8u64 {
        let mut g = Generator::with_seed(1, 2, vec![a.clone(), b.clone()], seed).unwrap();
        let out = g.run(true).unwrap();
        assert_eq!(out.get(0, 0).unwrap().layer(), out.get(0, 1).unwrap().layer());
    }
}

#[test]
fn weights_bias_the_outcome() {
    let light = uniform_tile(0, 0, 1, 0);
    let heavy = Tile::new(
        1,
        0,
        1000,
        vec![socket1(0), socket1(0), socket1(0), socket1(0)],
        Rotation::D90,
        (false, false),
    );
    let mut heavy_cells = 0usize;
    let mut total = 0usize;
    for seed in 0..5u64 {
        let mut g = Generator::with_seed(10, 10, vec![light.clone(), heavy.clone()], seed).unwrap();
        let out = g.run(true).unwrap();
        for y in 0..10 {
            for x in 0..10 {
                total += 1;
                if out.get(x, y).unwrap().id() == 1 {
                    heavy_cells += 1;
                }
            }
        }
    }
    assert_eq!(total, 500);
    // with a thousandfold weight the light variant must stay rare
    assert!(heavy_cells * 100 >= total * 95, "heavy cells: {heavy_cells} of {total}");
}

#[test]
fn same_seed_same_output() {
    let tiles = vec![
        uniform_tile(0, 0, 1, 0),
        uniform_tile(1, 0, 2, 1),
        uniform_tile(2, 0, 3, 2),
    ];
    let mut g1 = Generator::with_seed(6, 4, tiles.clone(), 99).unwrap();
    let mut g2 = Generator::with_seed(6, 4, tiles, 99).unwrap();
    let out1 = g1.run(true).unwrap();
    let out2 = g2.run(true).unwrap();
    for y in 0..4 {
        for x in 0..6 {
            let t1 = out1.get(x, y).unwrap();
            let t2 = out2.get(x, y).unwrap();
            assert_eq!(t1.id(), t2.id());
            assert_eq!(t1.rotation(), t2.rotation());
            assert_eq!(t1.x_flipped(), t2.x_flipped());
            assert_eq!(t1.y_flipped(), t2.y_flipped());
            assert!(t1 == t2);
        }
    }
}

#[test]
fn finished_grids_respect_adjacency() {
    let a = tile1(0, 0, 1, 2, 0, 3, 1);
    let b = tile1(1, 0, 1, 3, 1, 2, 0);
    let mut g = Generator::with_seed(4, 4, vec![a, b], 31).unwrap();
    let out = g.run(true).unwrap();
    for y in 0..4 {
        for x in 0..4 {
            let here = out.get(x, y).unwrap();
            if x + 1 < 4 {
                let right = out.get(x + 1, y).unwrap();
                assert!(here.connects(right, Side::Right));
            }
            if y + 1 < 4 {
                let below = out.get(x, y + 1).unwrap();
                assert!(here.connects(below, Side::Bottom));
            }
        }
    }
}

#[test]
fn collapse_and_propagation_report_positions() {
    let tiles = vec![uniform_tile(0, 0, 1, 0), uniform_tile(1, 0, 1, 1)];
    let mut g = Generator::with_seed(2, 2, tiles, 41).unwrap();
    assert_eq!(g.collapse(5, 5).err(), Some(Error::MissingSet));
    assert_eq!(g.propogate(5, 5).err(), Some(Error::MissingSet));
    let p = g.next_position().unwrap();
    assert!(p.0 < 2 && p.1 < 2);
    assert!(g.collapse(p.0, p.1).is_ok());
    assert_eq!(g.grid().get(p.0, p.1).unwrap().len(), 1);
    assert!(g.propogate(p.0, p.1).unwrap() >= 1);
}

#[test]
fn observation_on_a_finished_grid_finds_no_valid_set() {
    // one self-compatible variant: every cell is collapsed from the start
    let tiles = vec![uniform_tile(0, 0, 1, 0)];
    let mut g = Generator::with_seed(2, 2, tiles, 3).unwrap();
    assert_eq!(g.next_position().err(), Some(Error::NoValidSet));
    assert_eq!(g.step(), Ok(true));
}

#[test]
fn adjacent_lists_in_bounds_neighbors() {
    let tiles = vec![uniform_tile(0, 0, 1, 0)];
    let g = Generator::new(3, 3, tiles).unwrap();
    let corner = g.adjacent(0, 0);
    assert_eq!(corner, vec![(1, 0), (0, 1)]);
    let center = g.adjacent(1, 1);
    assert_eq!(center, vec![(0, 1), (2, 1), (1, 0), (1, 2)]);
}
