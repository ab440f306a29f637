use morkovmap::adjacency::{CardinalAdjacencyGenerator, OctileAdjacencyGenerator};
use morkovmap::assigner::{assign, CollapseOutcome, MapColoringAssigner, MapColoringJob};
use morkovmap::directions::CardinallyDirected;
use morkovmap::map2d::Map2D;
use morkovmap::map2dnode::{Map2DNode, MapNodeState};
use morkovmap::position::Position2D;
use morkovmap::sampler::MultinomialDistribution;
use morkovmap::types::PossiblyDirectedMultinomialDistribution;

/// Shannon entropy of the normalized weights, as an order-keeping integer.
fn entropy_rank(d: &MultinomialDistribution) -> u64 {
    let total = d.total_weights() as f64;
    let mut h = 0.0f64;
    for (_, w) in d.weights() {
        let p = w as f64 / total;
        h -= p * p.log2();
    }
    h.max(0.0).to_bits()
}

fn dist(pairs: Vec<(i32, u64)>) -> MultinomialDistribution {
    MultinomialDistribution::from_weights(pairs).unwrap()
}

fn undirected(pairs: Vec<(i32, u64)>) -> PossiblyDirectedMultinomialDistribution {
    PossiblyDirectedMultinomialDistribution::Undirected(dist(pairs))
}

fn chain_rules() -> MapColoringAssigner {
    MapColoringAssigner::with_rules(vec![
        (1, undirected(vec![(2, 1), (3, 5)])),
        (2, undirected(vec![(1, 5), (3, 1)])),
        (3, undirected(vec![(1, 1), (2, 5)])),
    ])
}

#[test]
fn small_assignment() {
    let test_map_size: i64 = 10;
    let mut test_tiles = Vec::new();
    for x in 0..test_map_size {
        for y in 0..test_map_size {
            test_tiles.push(Map2DNode::with_possibilities(
                Position2D::new(x, y),
                MultinomialDistribution::uniform_over(vec![1, 2, 3]),
            ));
        }
    }
    let testmap = Map2D::from_tiles(test_tiles);
    let mut job = MapColoringJob::new_with_queue(chain_rules(), testmap, OctileAdjacencyGenerator);
    let pre_run_state = job.map().undecided_count();
    assert!(pre_run_state > 0);
    job.queue_and_assign(&entropy_rank);
    let post_run_state = job.map().undecided_count();
    assert_eq!(post_run_state, 0);
}

#[test]
fn uniform_landmass_all_finalized() {
    let mut tiles = Vec::new();
    for x in 0..10u8 {
        for y in 0..10u8 {
            tiles.push(Map2DNode::with_possibilities(Position2D::new(x, y), MultinomialDistribution::uniform_over(vec![1, 2, 3])));
        }
    }
    let g = assign(Map2D::from_tiles(tiles), chain_rules(), OctileAdjacencyGenerator, &entropy_rank);
    assert_eq!(g.undecided_count(), 0);
    for i in 0..g.len() {
        assert!(g.tile(i).get_state().is_assigned());
    }
}

#[test]
fn single_tile_single_label() {
    let tiles = vec![Map2DNode::with_possibilities(Position2D::new(0u8, 0u8), MultinomialDistribution::uniform_over(vec![7]))];
    let rules = MapColoringAssigner::with_rules(vec![(7, undirected(vec![(7, 1)]))]);
    let mut job = MapColoringJob::new_with_queue(rules, Map2D::from_tiles(tiles), OctileAdjacencyGenerator);
    let i = job.pop_next(&entropy_rank).unwrap();
    assert_eq!(job.collapse(i, 0), CollapseOutcome::Finalized(7));
    assert_eq!(job.queue_len(), 0);
    assert!(matches!(job.map().tile(0).get_state(), MapNodeState::Finalized(7)));
}

fn directed_rules() -> MapColoringAssigner {
    // A = 1, B = 2
    let towards_b = CardinallyDirected::new(dist(vec![(2, 1)]), dist(vec![(2, 1)]), dist(vec![(2, 1)]), dist(vec![(2, 1)]));
    MapColoringAssigner::with_rules(vec![
        (1, PossiblyDirectedMultinomialDistribution::Directed(towards_b)),
        (2, undirected(vec![(1, 1), (2, 1)])),
    ])
}

fn two_by_two() -> Map2D<u8> {
    let mut tiles = Vec::new();
    for x in 0..2u8 {
        for y in 0..2u8 {
            tiles.push(Map2DNode::with_possibilities(Position2D::new(x, y), dist(vec![(1, 1), (2, 1)])));
        }
    }
    Map2D::from_tiles(tiles)
}

#[test]
fn directed_rules_constrain_cardinal_neighbours() {
    let mut job = MapColoringJob::new_with_queue(directed_rules(), two_by_two(), CardinalAdjacencyGenerator);
    let first = job.pop_next(&entropy_rank).unwrap();
    assert_eq!(first, 0);
    // the draw 0 selects the first label, A
    assert_eq!(job.collapse(first, 0), CollapseOutcome::Finalized(1));
    for pos in [Position2D::new(1u8, 0u8), Position2D::new(0u8, 1u8)] {
        let i = job.map().get(pos).unwrap();
        match job.map().tile(i).get_state() {
            MapNodeState::Undecided(d) => assert_eq!(d.weights(), vec![(2, 1)]),
            MapNodeState::Finalized(_) => panic!("neighbour finalized too early"),
        }
    }
    // the diagonal tile is no cardinal neighbour and keeps its prior
    let diag = job.map().get(Position2D::new(1, 1)).unwrap();
    match job.map().tile(diag).get_state() {
        MapNodeState::Undecided(d) => assert_eq!(d.weights(), vec![(1, 1), (2, 1)]),
        MapNodeState::Finalized(_) => panic!("diagonal finalized too early"),
    }
    assert_eq!(job.queue_len(), 2);
    job.assign_map(&entropy_rank);
    for pos in [Position2D::new(1u8, 0u8), Position2D::new(0u8, 1u8)] {
        let i = job.map().get(pos).unwrap();
        assert!(matches!(job.map().tile(i).get_state(), MapNodeState::Finalized(2)));
    }
}

#[test]
fn directed_rules_never_put_a_next_to_a() {
    for _ in 0..20 {
        let g = assign(two_by_two(), directed_rules(), CardinalAdjacencyGenerator, &entropy_rank);
        let label = |x: u8, y: u8| match g.tile(g.get(Position2D::new(x, y)).unwrap()).get_state() {
            MapNodeState::Finalized(l) => *l,
            MapNodeState::Undecided(_) => panic!("undecided tile left"),
        };
        for (a, b) in [((0, 0), (1, 0)), ((0, 0), (0, 1)), ((1, 1), (1, 0)), ((1, 1), (0, 1))] {
            assert!(!(label(a.0, a.1) == 1 && label(b.0, b.1) == 1));
        }
    }
}

#[test]
fn entropy_ordering() {
    let tiles = vec![
        Map2DNode::with_possibilities(Position2D::new(0u8, 0u8), MultinomialDistribution::uniform_over(vec![1, 2, 3])),
        Map2DNode::with_possibilities(Position2D::new(5u8, 0u8), MultinomialDistribution::uniform_over(vec![1, 2])),
        Map2DNode::with_possibilities(Position2D::new(9u8, 0u8), MultinomialDistribution::uniform_over(vec![1])),
    ];
    let mut job = MapColoringJob::new(chain_rules(), Map2D::from_tiles(tiles), OctileAdjacencyGenerator);
    assert!(job.build_queue());
    assert!(job.build_queue());
    assert!(job.build_queue());
    assert!(!job.build_queue());
    assert_eq!(job.pop_next(&entropy_rank), Some(2));
    assert_eq!(job.pop_next(&entropy_rank), Some(1));
    assert_eq!(job.pop_next(&entropy_rank), Some(0));
    assert_eq!(job.pop_next(&entropy_rank), None);
}

#[test]
fn equal_rank_breaks_ties_by_position() {
    let tiles = vec![
        Map2DNode::with_possibilities(Position2D::new(4i32, 1), MultinomialDistribution::uniform_over(vec![1, 2])),
        Map2DNode::with_possibilities(Position2D::new(2i32, 7), MultinomialDistribution::uniform_over(vec![1, 2])),
        Map2DNode::with_possibilities(Position2D::new(2i32, 3), MultinomialDistribution::uniform_over(vec![1, 2])),
    ];
    let mut job = MapColoringJob::new(chain_rules(), Map2D::from_tiles(tiles), OctileAdjacencyGenerator);
    while job.build_queue() {}
    assert_eq!(job.pop_next(&entropy_rank), Some(2));
    assert_eq!(job.pop_next(&entropy_rank), Some(1));
    assert_eq!(job.pop_next(&entropy_rank), Some(0));
}

#[test]
fn missing_rule_strands_tile() {
    let tiles = vec![Map2DNode::with_possibilities(Position2D::new(0u8, 0u8), MultinomialDistribution::uniform_over(vec![4]))];
    let g = assign(Map2D::from_tiles(tiles), chain_rules(), OctileAdjacencyGenerator, &entropy_rank);
    assert_eq!(g.undecided_count(), 0);
    assert!(!g.tile(0).get_state().is_assigned());
}

#[test]
fn disconnected_parts_are_all_reached() {
    let tiles = vec![
        Map2DNode::with_possibilities(Position2D::new(0u8, 0u8), MultinomialDistribution::uniform_over(vec![1, 2, 3])),
        Map2DNode::with_possibilities(Position2D::new(50u8, 50u8), MultinomialDistribution::uniform_over(vec![1, 2, 3])),
    ];
    let g = assign(Map2D::from_tiles(tiles), chain_rules(), OctileAdjacencyGenerator, &entropy_rank);
    assert!(g.tile(0).get_state().is_assigned());
    assert!(g.tile(1).get_state().is_assigned());
}

#[test]
fn empty_joint_leaves_neighbour_unchanged() {
    let tiles = vec![
        Map2DNode::with_possibilities(Position2D::new(0u8, 0u8), dist(vec![(1, 1)])),
        Map2DNode::with_possibilities(Position2D::new(1u8, 0u8), dist(vec![(3, 1)])),
    ];
    let rules = MapColoringAssigner::with_rules(vec![(1, undirected(vec![(2, 1)]))]);
    let mut job = MapColoringJob::new_with_queue(rules, Map2D::from_tiles(tiles), CardinalAdjacencyGenerator);
    let i = job.pop_next(&entropy_rank).unwrap();
    assert_eq!(job.collapse(i, 0), CollapseOutcome::Finalized(1));
    match job.map().tile(1).get_state() {
        MapNodeState::Undecided(d) => assert_eq!(d.weights(), vec![(3, 1)]),
        MapNodeState::Finalized(_) => panic!("neighbour finalized"),
    }
}

#[test]
fn large_weights_keep_constraining() {
    let rules = MapColoringAssigner::with_rules(vec![
        (1, undirected(vec![(1, 5_000_000), (2, 1_000_000)])),
        (2, undirected(vec![(1, 5_000_000), (2, 1_000_000)])),
    ]);
    let mut tiles = Vec::new();
    for (x, y) in [(1u8, 1u8), (0, 1), (2, 1), (1, 0), (1, 2)] {
        tiles.push(Map2DNode::with_possibilities(Position2D::new(x, y), dist(vec![(1, 1), (2, 1)])));
    }
    let mut job = MapColoringJob::new(rules, Map2D::from_tiles(tiles), CardinalAdjacencyGenerator);
    for arm in 1..5 {
        // the draw 0 selects label 1, listed first
        assert_eq!(job.collapse(arm, 0), CollapseOutcome::Finalized(1));
    }
    match job.map().tile(0).get_state() {
        MapNodeState::Undecided(d) => {
            let ratio = d.weight_of(1) as f64 / d.weight_of(2) as f64;
            assert!((ratio - 625.0).abs() < 1e-6 * 625.0);
        }
        MapNodeState::Finalized(_) => panic!("centre finalized"),
    }
}
