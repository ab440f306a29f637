use morkovmap::adjacency::{CardinalAdjacencyGenerator, OctileAdjacencyGenerator};
use morkovmap::map2d::Map2D;
use morkovmap::map2dnode::{Map2DNode, MapNodeState};
use morkovmap::mapgen_presets::{landmass_generate_colormap, landmass_generate_rules};
use morkovmap::position::Position2D;
use morkovmap::ruleset::{coordinate_width, CoordinateWidth, GeneratorRuleset, DEFAULT_MAP_SIZE};
use morkovmap::sampler::MultinomialDistribution;
use morkovmap::visualizers::{JsonDataVisualizer, MapColor, RilPixelVisualizer};

fn entropy_rank(d: &MultinomialDistribution) -> u64 {
    let total = d.total_weights() as f64;
    let mut h = 0.0f64;
    for (_, w) in d.weights() {
        let p = w as f64 / total;
        h -= p * p.log2();
    }
    h.max(0.0).to_bits()
}

#[test]
fn coordinate_width_thresholds() {
    assert_eq!(coordinate_width(0), CoordinateWidth::Bits8);
    assert_eq!(coordinate_width(254), CoordinateWidth::Bits8);
    assert_eq!(coordinate_width(255), CoordinateWidth::Bits16);
    assert_eq!(coordinate_width(65534), CoordinateWidth::Bits16);
    assert_eq!(coordinate_width(65535), CoordinateWidth::Bits32);
    assert_eq!(coordinate_width(u32::MAX), CoordinateWidth::Bits32);
}

#[test]
fn default_map_size_is_sixty() {
    let r = GeneratorRuleset::new(landmass_generate_rules(), landmass_generate_colormap(), None, None);
    assert_eq!(r.map_size(), DEFAULT_MAP_SIZE);
    assert_eq!(DEFAULT_MAP_SIZE, 60);
    let r = GeneratorRuleset::new(landmass_generate_rules(), landmass_generate_colormap(), Some(7), None);
    assert_eq!(r.map_size(), 7);
}

#[test]
fn default_builder_is_uniform_square() {
    let r = GeneratorRuleset::new(landmass_generate_rules(), landmass_generate_colormap(), Some(4), None);
    let m: Map2D<u8> = r.build_unassigned_map();
    assert_eq!(m.len(), 16);
    assert_eq!(m.undecided_count(), 16);
    assert_eq!(m.min_pos(), Position2D::new(0, 0));
    assert_eq!(m.max_pos(), Position2D::new(3, 3));
    assert_eq!(m.tile(5).get_position(), Position2D::new(1, 1));
    match m.tile(0).get_state() {
        MapNodeState::Undecided(d) => {
            assert_eq!(d.len(), 5);
            for l in 1..=5 {
                assert_eq!(d.weight_of(l), 1);
            }
        }
        MapNodeState::Finalized(_) => panic!("default tile finalized"),
    }
    let m2: Map2D<u16> = r.build_unassigned_map_with_size(Some(2));
    assert_eq!(m2.len(), 4);
}

#[test]
fn landmass_presets() {
    let colors = landmass_generate_colormap();
    assert_eq!(colors.len(), 5);
    assert_eq!(colors[0], (1, MapColor::Rgb(50, 50, 225)));
    let rules = landmass_generate_rules();
    for l in 1..=5 {
        assert!(rules.rule_for(l).is_some());
    }
    assert!(rules.rule_for(6).is_none());
    let mut labels = rules.labels();
    labels.sort();
    assert_eq!(labels, vec![1, 2, 3, 4, 5]);
}

#[test]
fn generate_renders_every_tile() {
    let r = GeneratorRuleset::new(landmass_generate_rules(), landmass_generate_colormap(), Some(6), None);
    let out = r.generate(OctileAdjacencyGenerator, &entropy_rank);
    assert_eq!(out.width, 6);
    assert_eq!(out.height, 6);
    assert_eq!(out.cells.len(), 36);
    let palette = landmass_generate_colormap();
    for (x, y, c) in out.cells.iter() {
        assert!(*x < 6 && *y < 6);
        assert!(palette.iter().any(|(_, p)| p == c));
    }
}

#[test]
fn generate_cardinal_small() {
    let r = GeneratorRuleset::new(landmass_generate_rules(), landmass_generate_colormap(), Some(3), Some("cardinal".to_string()));
    let out = r.generate(CardinalAdjacencyGenerator, &entropy_rank);
    assert_eq!(out.cells.len(), 9);
}

#[test]
fn generate_map_collapses_given_map() {
    let r = GeneratorRuleset::new(landmass_generate_rules(), landmass_generate_colormap(), Some(3), None);
    let init: Map2D<i32> = Map2D::from_tiles(vec![
        Map2DNode::with_possibilities(Position2D::new(-4, 2), MultinomialDistribution::uniform_over(vec![1, 2])),
        Map2DNode::with_possibilities(Position2D::new(-3, 2), MultinomialDistribution::uniform_over(vec![1, 2])),
    ]);
    let m = r.generate_map(Some(init), OctileAdjacencyGenerator, &entropy_rank);
    assert_eq!(m.len(), 2);
    assert_eq!(m.undecided_count(), 0);
    assert!(m.tile(0).get_state().is_assigned());
    assert!(m.tile(1).get_state().is_assigned());
}

#[test]
fn pixels_are_relative_to_least_position() {
    let m: Map2D<i32> = Map2D::from_tiles(vec![
        Map2DNode::with_assignment(Position2D::new(-2, 5), 1),
        Map2DNode::with_assignment(Position2D::new(0, 7), 2),
        Map2DNode::with_assignment(Position2D::new(1, 6), 9),
        Map2DNode::with_possibilities(Position2D::new(1, 5), MultinomialDistribution::uniform_over(vec![1])),
    ]);
    let vis = RilPixelVisualizer::new(vec![(1, MapColor::Rgb(1, 2, 3)), (2, MapColor::Rgb(4, 5, 6)), (1, MapColor::Rgb(7, 8, 9))]);
    assert_eq!(vis.image_size(&m), (4, 3));
    assert_eq!(
        vis.pixel_cells(&m),
        vec![(0, 0, MapColor::Rgb(7, 8, 9)), (2, 2, MapColor::Rgb(4, 5, 6)), (3, 1, MapColor::Rgb(255, 255, 255))]
    );
}

#[test]
fn far_tiles_are_dropped() {
    let m: Map2D<i64> = Map2D::from_tiles(vec![
        Map2DNode::with_assignment(Position2D::new(0, 0), 1),
        Map2DNode::with_assignment(Position2D::new(5_000_000_000, 0), 1),
    ]);
    let vis = RilPixelVisualizer::new(vec![]);
    assert_eq!(vis.image_size(&m), (u32::MAX, 1));
    assert_eq!(vis.pixel_cells(&m), vec![(0, 0, MapColor::Rgb(255, 255, 255))]);
}

#[test]
fn json_visualizer_builds() {
    let _ = JsonDataVisualizer::new();
}

#[test]
fn regenerate_region_keeps_outside() {
    let mut tiles = Vec::new();
    for x in 0..6u8 {
        for y in 0..6u8 {
            tiles.push(Map2DNode::with_assignment(Position2D::new(x, y), 2));
        }
    }
    let m = Map2D::from_tiles(tiles);
    let r = GeneratorRuleset::new(landmass_generate_rules(), landmass_generate_colormap(), Some(6), None);
    let out = r.regenerate_region(m, 2u8, 3u8, OctileAdjacencyGenerator, &entropy_rank);
    assert_eq!(out.len(), 36);
    assert_eq!(out.undecided_count(), 0);
    for i in 0..out.len() {
        let t = out.tile(i);
        let p = t.get_position();
        let inside = (2..=3).contains(&p.x) && (2..=3).contains(&p.y);
        match t.get_state() {
            MapNodeState::Finalized(l) => {
                if !inside {
                    assert_eq!(*l, 2);
                } else {
                    assert!((1..=5).contains(l));
                }
            }
            MapNodeState::Undecided(_) => panic!("tile left undecided"),
        }
    }
}

#[test]
fn regenerate_region_edge_follows_outside() {
    // label 1 only ever borders label 1 here: the rule for 1 allows only 1
    let rules = morkovmap::assigner::MapColoringAssigner::with_rules(vec![
        (1, morkovmap::types::PossiblyDirectedMultinomialDistribution::Undirected(
            MultinomialDistribution::from_weights(vec![(1, 1)]).unwrap(),
        )),
        (2, morkovmap::types::PossiblyDirectedMultinomialDistribution::Undirected(
            MultinomialDistribution::from_weights(vec![(1, 1), (2, 1)]).unwrap(),
        )),
    ]);
    let mut tiles = Vec::new();
    for x in 0..3i32 {
        tiles.push(Map2DNode::with_assignment(Position2D::new(x, 0), 1));
    }
    tiles.push(Map2DNode::with_assignment(Position2D::new(1, 1), 2));
    let m = Map2D::from_tiles(tiles);
    let r = GeneratorRuleset::new(rules, vec![], Some(3), None);
    let out = r.regenerate_region(m, 1, 1, CardinalAdjacencyGenerator, &entropy_rank);
    let i = out.get(Position2D::new(1, 1)).unwrap();
    assert!(matches!(out.tile(i).get_state(), MapNodeState::Finalized(1)));
}
