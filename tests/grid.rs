use morkovmap::adjacency::{AdjacencyGenerator, CardinalAdjacencyGenerator, OctileAdjacencyGenerator};
use morkovmap::map2d::Map2D;
use morkovmap::map2dnode::{Map2DNode, MapNodeState};
use morkovmap::position::Position2D;
use morkovmap::sampler::MultinomialDistribution;

#[test]
fn adjacents_cardinal_sane() {
    let pos = Position2D { x: 2, y: 6 };
    let results = CardinalAdjacencyGenerator::adjacents::<i32>(pos);
    assert_eq!(results[0], Position2D { x: 1i32, y: 6i32 });
    assert_eq!(results[1], Position2D { x: 3i32, y: 6i32 });
    assert_eq!(results[2], Position2D { x: 2i32, y: 5i32 });
    assert_eq!(results[3], Position2D { x: 2i32, y: 7i32 });
}

#[test]
fn cardinal_at_origin_u8() {
    let results = CardinalAdjacencyGenerator::adjacents(Position2D::new(0u8, 0u8));
    assert_eq!(results, vec![Position2D::new(1u8, 0u8), Position2D::new(0u8, 1u8)]);
}

#[test]
fn cardinal_at_max_omits_plus_one() {
    let results = CardinalAdjacencyGenerator::adjacents(Position2D::new(255u8, 7u8));
    assert_eq!(
        results,
        vec![Position2D::new(254u8, 7u8), Position2D::new(255u8, 6u8), Position2D::new(255u8, 8u8)]
    );
    let results = CardinalAdjacencyGenerator::adjacents(Position2D::new(3u16, u16::MAX));
    assert_eq!(results.len(), 3);
    assert!(!results.iter().any(|p| p.y != u16::MAX && p.y < 3));
}

#[test]
fn octile_counts() {
    assert_eq!(OctileAdjacencyGenerator::adjacents(Position2D::new(5u8, 5u8)).len(), 8);
    assert_eq!(OctileAdjacencyGenerator::adjacents(Position2D::new(0u8, 0u8)).len(), 3);
    assert_eq!(OctileAdjacencyGenerator::adjacents(Position2D::new(255u8, 255u8)).len(), 3);
    assert_eq!(OctileAdjacencyGenerator::adjacents(Position2D::new(0u8, 5u8)).len(), 5);
    assert_eq!(OctileAdjacencyGenerator::adjacents(Position2D::new(9u32, u32::MAX)).len(), 5);
}

#[test]
fn octile_order_is_row_major() {
    let r = OctileAdjacencyGenerator::adjacents(Position2D::new(1i32, 1i32));
    let expected: Vec<Position2D<i32>> = vec![
        (0, 0), (0, 1), (0, 2), (1, 0), (1, 2), (2, 0), (2, 1), (2, 2),
    ]
    .into_iter()
    .map(|(x, y)| Position2D::new(x, y))
    .collect();
    assert_eq!(r, expected);
}

#[test]
fn signed_coordinates_go_negative() {
    let r = CardinalAdjacencyGenerator::adjacents(Position2D::new(0i32, 0i32));
    assert_eq!(r.len(), 4);
    assert_eq!(r[0], Position2D::new(-1, 0));
}

#[test]
fn empty_grid() {
    let g: Map2D<u8> = Map2D::from_tiles(vec![]);
    assert_eq!(g.len(), 0);
    assert_eq!(g.undecided_count(), 0);
    assert_eq!(g.min_pos(), Position2D::new(0, 0));
    assert_eq!(g.max_pos(), Position2D::new(0, 0));
}

#[test]
fn grid_extents_and_lookup() {
    let tiles = vec![
        Map2DNode::with_possibilities(Position2D::new(3i32, -2), MultinomialDistribution::uniform_over(vec![1])),
        Map2DNode::with_assignment(Position2D::new(-1i32, 5), 4),
        Map2DNode::with_possibilities(Position2D::new(2i32, 0), MultinomialDistribution::uniform_over(vec![1])),
    ];
    let g = Map2D::from_tiles(tiles);
    assert_eq!(g.len(), 3);
    assert_eq!(g.undecided_count(), 2);
    assert_eq!(g.min_pos(), Position2D::new(-1, -2));
    assert_eq!(g.max_pos(), Position2D::new(3, 5));
    assert_eq!(g.get(Position2D::new(-1, 5)), Some(1));
    assert_eq!(g.get(Position2D::new(0, 0)), None);
    assert_eq!(g.undecided_positions(), vec![Position2D::new(3, -2), Position2D::new(2, 0)]);
}

#[test]
fn later_tile_replaces_earlier() {
    let tiles = vec![
        Map2DNode::with_possibilities(Position2D::new(1u8, 1), MultinomialDistribution::uniform_over(vec![1])),
        Map2DNode::with_assignment(Position2D::new(2u8, 1), 9),
        Map2DNode::with_assignment(Position2D::new(1u8, 1), 5),
    ];
    let g = Map2D::from_tiles(tiles);
    assert_eq!(g.len(), 2);
    assert_eq!(g.undecided_count(), 0);
    assert!(matches!(g.tile(0).get_state(), MapNodeState::Finalized(5)));
}

#[test]
fn finalize_twice_is_no_op() {
    let tiles = vec![Map2DNode::with_possibilities(Position2D::new(0u8, 0), MultinomialDistribution::uniform_over(vec![1, 2]))];
    let mut g = Map2D::from_tiles(tiles);
    assert!(g.finalize_tile(0, 2));
    assert_eq!(g.undecided_count(), 0);
    assert!(g.finalize_tile(0, 2));
    assert!(matches!(g.tile(0).get_state(), MapNodeState::Finalized(2)));
    assert!(!g.finalize_tile(0, 1));
    assert!(matches!(g.tile(0).get_state(), MapNodeState::Finalized(2)));
    assert!(!g.finalize_tile(5, 1));
}

#[test]
fn neighbours_in_grid() {
    let mut tiles = Vec::new();
    for x in 0..3u8 {
        for y in 0..3u8 {
            tiles.push(Map2DNode::with_assignment(Position2D::new(x, y), 1));
        }
    }
    let g = Map2D::from_tiles(tiles);
    let mut n = g.adjacent_from_pos::<OctileAdjacencyGenerator>(Position2D::new(0, 0));
    n.sort();
    let positions: Vec<Position2D<u8>> = n.iter().map(|i| g.tile(*i).get_position()).collect();
    assert_eq!(positions.len(), 3);
    assert!(positions.contains(&Position2D::new(1, 1)));
    assert_eq!(g.adjacent_from_pos::<CardinalAdjacencyGenerator>(Position2D::new(1, 1)).len(), 4);
    assert_eq!(g.adjacent_from_pos::<OctileAdjacencyGenerator>(Position2D::new(1, 1)).len(), 8);
}

#[test]
fn adjacent_by_handle() {
    let mut tiles = Vec::new();
    for x in 0..3u16 {
        for y in 0..3u16 {
            tiles.push(Map2DNode::with_assignment(Position2D::new(x, y), 1));
        }
    }
    let g = Map2D::from_tiles(tiles);
    let centre = g.get(Position2D::new(1, 1)).unwrap();
    assert_eq!(g.adjacent::<OctileAdjacencyGenerator>(centre).len(), 8);
    assert_eq!(g.adjacent::<CardinalAdjacencyGenerator>(centre).len(), 4);
    let corner = g.get(Position2D::new(2, 2)).unwrap();
    let mut n: Vec<Position2D<u16>> = g
        .adjacent::<OctileAdjacencyGenerator>(corner)
        .iter()
        .map(|i| g.tile(*i).get_position())
        .collect();
    n.sort();
    assert_eq!(n, vec![Position2D::new(1, 1), Position2D::new(1, 2), Position2D::new(2, 1)]);
}

#[test]
fn larger_grid_builds_quickly() {
    let mut tiles = Vec::new();
    for x in 0..200u16 {
        for y in 0..200u16 {
            tiles.push(Map2DNode::with_assignment(Position2D::new(x, y), 1));
        }
    }
    let g = Map2D::from_tiles(tiles);
    assert_eq!(g.len(), 40000);
    assert_eq!(g.get(Position2D::new(199, 7)), Some(199 * 200 + 7));
}
