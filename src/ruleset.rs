//! A generator configuration: transition rules, colours and map size, and the
//! dispatch that builds a grid in the smallest coordinate width that holds it,
//! collapses it and renders it.
use vstd::prelude::*;

use crate::adjacency::AdjacencyGenerator;
use crate::assigner::{assign, every_tile_ruled, kept_finalized, labels_within, MapColoringAssigner};
use crate::map2d::{lemma_merge_unique, unique_positions, xs_of, ys_of, Map2D};
use crate::map2dnode::{Map2DNode, MapNodeState};
use crate::position::{Position2D, PositionKey};
use crate::sampler::{has_label, lemma_joint_labels, weight_map, well_formed, Label, MultinomialDistribution};
use crate::visualizers::{lemma_cells_of, MapColor, RilPixelVisualizer};

verus! {

/// The map size when none is given.
pub const DEFAULT_MAP_SIZE: u32 = 60;

/// The integer width of the coordinates of a map.
#[derive(Clone, Copy, Debug, PartialEq, Eq)]
pub enum CoordinateWidth {
    Bits8,
    Bits16,
    Bits32,
}

/// The smallest width that holds a map of the given size: 8 bits up to 254,
/// 16 bits up to 65534, 32 bits beyond.
pub fn coordinate_width(map_size: u32) -> (r: CoordinateWidth)
    ensures
        map_size <= 254 ==> r == CoordinateWidth::Bits8,
        254 < map_size <= 65534 ==> r == CoordinateWidth::Bits16,
        65534 < map_size ==> r == CoordinateWidth::Bits32,
{
    if map_size <= 254 {
        CoordinateWidth::Bits8
    } else if map_size <= 65534 {
        CoordinateWidth::Bits16
    } else {
        CoordinateWidth::Bits32
    }
}

/// A rendered map: image size and one coloured pixel per finalized tile.
#[derive(Debug)]
pub struct RenderedMap {
    pub width: u32,
    pub height: u32,
    pub cells: Vec<(u32, u32, MapColor)>,
}

/// The side of the square map built for `map_size` in coordinates of type `P`:
/// `map_size`, held to the coordinate range.
pub open spec fn side_for<P: PositionKey>(map_size: u32) -> int {
    if map_size <= P::max_value() {
        map_size as int
    } else {
        P::max_value()
    }
}

/// Rules, colours and size of the maps to generate.
#[derive(Debug)]
pub struct GeneratorRuleset {
    layout_rules: MapColoringAssigner,
    coloring_rules: Vec<(Label, MapColor)>,
    map_size: u32,
    adjacency: Option<String>,
    comments: Option<String>,
}

impl GeneratorRuleset {
    pub closed spec fn colors_view(&self) -> Seq<(Label, MapColor)> {
        self.coloring_rules@
    }

    pub closed spec fn map_size_view(&self) -> u32 {
        self.map_size
    }

    pub closed spec fn layout_view(&self) -> MapColoringAssigner {
        self.layout_rules
    }

    pub closed spec fn adjacency_view(&self) -> Option<String> {
        self.adjacency
    }

    pub closed spec fn comments_view(&self) -> Option<String> {
        self.comments
    }

    /// A ruleset; the map size is 60 when none is given.
    pub fn new(
        layout: MapColoringAssigner,
        coloring: Vec<(Label, MapColor)>,
        map_size: Option<u32>,
        adjacency: Option<String>,
    ) -> (r: Self)
        ensures
            r.layout_view() == layout,
            r.colors_view() == coloring@,
            r.map_size_view() == match map_size {
                Some(s) => s,
                None => DEFAULT_MAP_SIZE,
            },
            r.adjacency_view() == adjacency,
            r.comments_view() is None,
    {
        let size = match map_size {
            Some(s) => s,
            None => DEFAULT_MAP_SIZE,
        };
        Self { layout_rules: layout, coloring_rules: coloring, map_size: size, adjacency, comments: None }
    }

    pub fn map_size(&self) -> (r: u32)
        ensures
            r == self.map_size_view(),
    {
        self.map_size
    }

    pub fn adjacency(&self) -> (r: &Option<String>)
        ensures
            *r == self.adjacency_view(),
    {
        &self.adjacency
    }

    pub fn comments(&self) -> (r: &Option<String>)
        ensures
            *r == self.comments_view(),
    {
        &self.comments
    }

    pub fn layout_rules(&self) -> (r: &MapColoringAssigner)
        ensures
            *r == self.layout_view(),
    {
        &self.layout_rules
    }

    pub fn coloring_rules(&self) -> (r: &Vec<(Label, MapColor)>)
        ensures
            r@ == self.colors_view(),
    {
        &self.coloring_rules
    }

    /// The labels of the colour table, in order.
    pub fn color_labels(&self) -> (r: Vec<Label>)
        ensures
            r@ == self.colors_view().map_values(|c: (Label, MapColor)| c.0),
    {
        let mut out: Vec<Label> = Vec::new();
        let mut i: usize = 0;
        while i < self.coloring_rules.len()
            invariant
                i <= self.coloring_rules@.len(),
                out@ == self.coloring_rules@.subrange(0, i as int).map_values(|c: (Label, MapColor)| c.0),
            decreases self.coloring_rules.len() - i,
        {
            out.push(self.coloring_rules[i].0);
            assert(out@ =~= self.coloring_rules@.subrange(0, i + 1).map_values(|c: (Label, MapColor)| c.0));
            i += 1;
        }
        assert(self.coloring_rules@.subrange(0, i as int) =~= self.coloring_rules@);
        out
    }

    /// The square grid of side `map_size` (held to the coordinate range),
    /// positions `(x, y)` with `0 <= x, y < side` in row-major order, each
    /// tile undecided with weight 1 on every label of the colour table.
    pub fn default_map_builder<P: PositionKey>(&self, map_size: u32) -> (r: Map2D<P>)
        ensures
            r.wf(),
            r.tiles_view().len() == side_for::<P>(map_size) * side_for::<P>(map_size),
            forall|i: int|
                0 <= i < r.tiles_view().len() ==> {
                    let t = #[trigger] r.tiles_view()[i];
                    &&& 0 <= t.position.x.value() < side_for::<P>(map_size)
                    &&& 0 <= t.position.y.value() < side_for::<P>(map_size)
                    &&& t.state matches MapNodeState::Undecided(d) && weight_map(d@) == Map::new(
                        |l: Label| self.colors_view().map_values(|c: (Label, MapColor)| c.0).contains(l),
                        |l: Label| 1nat,
                    )
                },
            forall|i: int| 0 <= i < r.tiles_view().len() ==> #[trigger] r.undecided_view()[i],
            r.min_view().x.value() == 0,
            r.min_view().y.value() == 0,
            r.max_view().x.value() == if side_for::<P>(map_size) > 0 {
                side_for::<P>(map_size) - 1
            } else {
                0
            },
            r.max_view().y.value() == if side_for::<P>(map_size) > 0 {
                side_for::<P>(map_size) - 1
            } else {
                0
            },
    {
        let keys = self.color_labels();
        let uni = MultinomialDistribution::uniform_over(keys);
        let top = P::max_as_u32();
        let n = if map_size <= top {
            map_size
        } else {
            top
        };
        let z = P::zero();
        proof {
            z.lemma_value_bounds();
        }
        assert(n == side_for::<P>(map_size));
        let mut tiles: Vec<Map2DNode<P>> = Vec::new();
        let mut x: u32 = 0;
        while x < n
            invariant
                n == side_for::<P>(map_size),
                n <= P::max_value(),
                x <= n,
                tiles@.len() == x * n,
                forall|k: int|
                    0 <= k < tiles@.len() ==> {
                        let t = #[trigger] tiles@[k];
                        &&& 0 <= t.position.x.value() < x
                        &&& 0 <= t.position.y.value() < n
                        &&& t.state matches MapNodeState::Undecided(d) && d@ == uni@
                    },
                forall|a: int, b: int|
                    0 <= a < b < tiles@.len() ==> (tiles@[a].position.x.value() < tiles@[b].position.x.value()
                        || (tiles@[a].position.x.value() == tiles@[b].position.x.value()
                        && tiles@[a].position.y.value() < tiles@[b].position.y.value())),
                tiles@.len() > 0 ==> tiles@[0].position.x.value() == 0 && tiles@[0].position.y.value() == 0,
                x > 0 ==> tiles@.len() > 0 && tiles@.last().position.x.value() == x - 1
                    && tiles@.last().position.y.value() == n - 1,
            decreases n - x,
        {
            let px = P::from_u32_saturating(x);
            let mut y: u32 = 0;
            while y < n
                invariant
                    n == side_for::<P>(map_size),
                    n <= P::max_value(),
                    x < n,
                    y <= n,
                    px.value() == x,
                    tiles@.len() == x * n + y,
                    forall|k: int|
                        0 <= k < tiles@.len() ==> {
                            let t = #[trigger] tiles@[k];
                            &&& 0 <= t.position.x.value() <= x
                            &&& 0 <= t.position.y.value() < n
                            &&& (t.position.x.value() == x ==> t.position.y.value() < y)
                            &&& t.state matches MapNodeState::Undecided(d) && d@ == uni@
                        },
                    forall|a: int, b: int|
                        0 <= a < b < tiles@.len() ==> (tiles@[a].position.x.value() < tiles@[b].position.x.value()
                            || (tiles@[a].position.x.value() == tiles@[b].position.x.value()
                            && tiles@[a].position.y.value() < tiles@[b].position.y.value())),
                    tiles@.len() > 0 ==> tiles@[0].position.x.value() == 0 && tiles@[0].position.y.value() == 0,
                    y > 0 ==> tiles@.len() > 0 && tiles@.last().position.x.value() == x
                        && tiles@.last().position.y.value() == y - 1,
                    y == 0 && x > 0 ==> tiles@.len() > 0 && tiles@.last().position.x.value() == x - 1
                        && tiles@.last().position.y.value() == n - 1,
                    y == 0 && x == 0 ==> tiles@.len() == 0,
                decreases n - y,
            {
                let py = P::from_u32_saturating(y);
                let ghost prev = tiles@;
                tiles.push(Map2DNode::with_possibilities(Position2D::new(px, py), uni.clone()));
                assert forall|a: int, b: int|
                    0 <= a < b < tiles@.len() implies (tiles@[a].position.x.value() < tiles@[b].position.x.value()
                        || (tiles@[a].position.x.value() == tiles@[b].position.x.value()
                        && tiles@[a].position.y.value() < tiles@[b].position.y.value())) by {
                    if b < prev.len() {
                        assert(tiles@[a] == prev[a] && tiles@[b] == prev[b]);
                    } else {
                        assert(tiles@[a] == prev[a]);
                    }
                }
                assert(tiles@.len() == x * n + y + 1);
                y += 1;
            }
            assert(tiles@.len() == (x + 1) * n) by (nonlinear_arith)
                requires
                    tiles@.len() == x * n + n,
            ;
            x += 1;
        }
        proof {
            assert forall|a: int, b: int| 0 <= a < b < tiles@.len() implies tiles@[a].position != tiles@[b].position by {
                if tiles@[a].position == tiles@[b].position {
                    assert(tiles@[a].position.x.value() == tiles@[b].position.x.value());
                }
            }
            assert(unique_positions(tiles@));
            lemma_merge_unique(tiles@);
        }
        let ghost ts = tiles@;
        let r = Map2D::from_tiles(tiles);
        proof {
            let xs = xs_of(ts);
            let ys = ys_of(ts);
            if n > 0 {
                assert(ts.len() > 0);
                assert(xs[0] == 0 && ys[0] == 0);
                assert(xs[ts.len() - 1] == n - 1 && ys[ts.len() - 1] == n - 1);
                assert forall|i: int| 0 <= i < xs.len() implies 0 <= #[trigger] xs[i] <= n - 1 by {
                    assert(xs[i] == ts[i].position.x.value());
                }
                assert forall|i: int| 0 <= i < ys.len() implies 0 <= #[trigger] ys[i] <= n - 1 by {
                    assert(ys[i] == ts[i].position.y.value());
                }
            } else {
                assert(ts.len() == 0);
            }
        }
        r
    }

    /// The default grid for the given size, or for the ruleset's own size.
    pub fn build_unassigned_map_with_size<P: PositionKey>(&self, map_size: Option<u32>) -> (r: Map2D<P>)
        ensures
            r.wf(),
            r.tiles_view().len() == ({
                let s = match map_size {
                    Some(s) => s,
                    None => self.map_size_view(),
                };
                side_for::<P>(s) * side_for::<P>(s)
            }),
    {
        let size = match map_size {
            Some(s) => s,
            None => self.map_size,
        };
        self.default_map_builder(size)
    }

    /// The default grid of the ruleset's own size.
    pub fn build_unassigned_map<P: PositionKey>(&self) -> (r: Map2D<P>)
        ensures
            r.wf(),
            r.tiles_view().len() == side_for::<P>(self.map_size_view()) * side_for::<P>(
                self.map_size_view(),
            ),
    {
        self.build_unassigned_map_with_size(None)
    }

    /// The colour table is not empty, and each of its labels has a rule.
    pub open spec fn colors_all_ruled(&self) -> bool {
        &&& self.colors_view().len() > 0
        &&& forall|i: int|
            0 <= i < self.colors_view().len() ==> #[trigger] self.layout_view().rule_spec(
                self.colors_view()[i].0,
            ) is Some
    }

    /// Collapses `init_map`, or the default grid where none is given, under
    /// the ruleset's transition rules. Tiles keep their positions and
    /// finalized tiles their labels; every tile ends finalized where each
    /// label that an undecided tile may take has a rule (for the default grid:
    /// where every colour has a rule).
    pub fn generate_map<AG: AdjacencyGenerator, P: PositionKey, F: Fn(&MultinomialDistribution) -> u64>(
        self,
        init_map: Option<Map2D<P>>,
        adjacency: AG,
        rank: &F,
    ) -> (r: Map2D<P>)
        requires
            init_map matches Some(m) ==> m.wf(),
            forall|d: &MultinomialDistribution| #[trigger] rank.requires((d,)),
        ensures
            r.wf(),
            crate::map2d::count_true(r.undecided_view()) == 0,
            init_map matches Some(m) ==> {
                &&& kept_finalized(m.tiles_view(), r.tiles_view())
                &&& labels_within(m.tiles_view(), r.tiles_view())
                &&& r.min_view() == m.min_view()
                &&& r.max_view() == m.max_view()
                &&& (every_tile_ruled(m.tiles_view(), m.undecided_view(), self.layout_view()) ==> forall|j: int|
                    0 <= j < r.tiles_view().len() ==> #[trigger] r.tiles_view()[j].state is Finalized)
            },
            init_map is None ==> {
                let n = side_for::<P>(self.map_size_view());
                &&& r.tiles_view().len() == n * n
                &&& r.min_view().x.value() == 0 && r.min_view().y.value() == 0
                &&& r.max_view().x.value() == (if n > 0 { n - 1 } else { 0 })
                &&& r.max_view().y.value() == (if n > 0 { n - 1 } else { 0 })
                &&& forall|j: int| 0 <= j < r.tiles_view().len() ==> {
                    &&& 0 <= (#[trigger] r.tiles_view()[j]).position.x.value() < n
                    &&& 0 <= r.tiles_view()[j].position.y.value() < n
                }
                &&& (self.colors_all_ruled() ==> forall|j: int|
                    0 <= j < r.tiles_view().len() ==> #[trigger] r.tiles_view()[j].state is Finalized)
            },
    {
        let ghost rules = self.layout_rules;
        let map = match init_map {
            Some(m) => m,
            None => {
                let m: Map2D<P> = self.default_map_builder(self.map_size);
                proof {
                    if self.colors_all_ruled() {
                        let labels = self.colors_view().map_values(|c: (Label, MapColor)| c.0);
                        let t = m.tiles_view();
                        assert forall|j: int| 0 <= j < t.len() implies match #[trigger] t[j].state {
                            MapNodeState::Undecided(d) => m.undecided_view()[j] && d@.len() > 0 && forall|l: Label|
                                has_label(d@, l) ==> rules.rule_spec(l) is Some,
                            MapNodeState::Finalized(_) => true,
                        } by {
                            if let MapNodeState::Undecided(d) = t[j].state {
                                assert(weight_map(d@) == Map::new(|l: Label| labels.contains(l), |l: Label| 1nat));
                                assert(labels[0] == self.colors_view()[0].0);
                                assert(weight_map(d@).contains_key(labels[0]));
                                assert(has_label(d@, labels[0]));
                                assert forall|l: Label| has_label(d@, l) implies rules.rule_spec(l) is Some by {
                                    assert(weight_map(d@).contains_key(l));
                                    assert(labels.contains(l));
                                    let i = choose|i: int| 0 <= i < labels.len() && labels[i] == l;
                                    assert(self.colors_view()[i].0 == l);
                                }
                            }
                        }
                    }
                }
                m
            },
        };
        let ghost before = map.tiles_view();
        let r = assign(map, self.layout_rules, adjacency, rank);
        proof {
            assert forall|j: int| 0 <= j < r.tiles_view().len() implies #[trigger] r.tiles_view()[j].position == before[j].position by {}
        }
        r
    }

    /// Regenerates the square of tiles whose coordinates both lie in
    /// `[start, end]`: each becomes undecided with weight 1 on every label that
    /// has a rule, each tile on the square's edge is constrained by its
    /// neighbour just outside (a finalized one as its single label), and the
    /// grid is collapsed again. Finalized tiles outside the square keep their
    /// labels.
    pub fn regenerate_region<AG: AdjacencyGenerator, P: PositionKey, F: Fn(&MultinomialDistribution) -> u64>(
        self,
        map: Map2D<P>,
        start: P,
        end: P,
        adjacency: AG,
        rank: &F,
    ) -> (r: Map2D<P>)
        requires
            map.wf(),
            forall|d: &MultinomialDistribution| #[trigger] rank.requires((d,)),
        ensures
            r.wf(),
            r.tiles_view().len() == map.tiles_view().len(),
            crate::map2d::count_true(r.undecided_view()) == 0,
            forall|j: int|
                0 <= j < map.tiles_view().len() && !in_square(map.tiles_view()[j].position, start, end)
                    && map.tiles_view()[j].state is Finalized ==> #[trigger] r.tiles_view()[j]
                    == map.tiles_view()[j],
            forall|j: int|
                0 <= j < map.tiles_view().len() ==> #[trigger] r.tiles_view()[j].position
                    == map.tiles_view()[j].position,
            ruled_outside(map.tiles_view(), map.undecided_view(), self.layout_view(), start, end)
                ==> forall|j: int| 0 <= j < r.tiles_view().len() ==> #[trigger] r.tiles_view()[j].state is Finalized,
    {
        let ghost orig = map.tiles_view();
        let ghost oflags = map.undecided_view();
        map.check_invariant();
        let mut map = map;
        let labels = self.layout_rules.labels();
        let ghost lv = labels@;
        let uni = MultinomialDistribution::uniform_over(labels);
        let _ = uni.is_well_formed();
        let n = map.len();
        let mut i: usize = 0;
        while i < n
            invariant
                map.wf(),
                n == map.tiles_view().len(),
                n == orig.len(),
                well_formed(uni@),
                i <= n,
                oflags.len() == n,
                forall|j: int|
                    0 <= j < n && !in_square(orig[j].position, start, end) ==> #[trigger] map.tiles_view()[j]
                        == orig[j],
                forall|j: int| 0 <= j < n ==> #[trigger] map.tiles_view()[j].position == orig[j].position,
                forall|j: int|
                    0 <= j < n ==> #[trigger] map.undecided_view()[j] == if j < i && in_square(
                        orig[j].position,
                        start,
                        end,
                    ) {
                        true
                    } else {
                        oflags[j]
                    },
                map.undecided_view().len() == n,
                forall|j: int|
                    0 <= j < i && in_square(orig[j].position, start, end) ==> ((#[trigger] map.tiles_view()[j]).state
                        matches MapNodeState::Undecided(d) && d@ == uni@),
                forall|j: int|
                    i <= j < n ==> #[trigger] map.tiles_view()[j] == orig[j],
            decreases n - i,
        {
            let p = map.tile(i).position;
            if in_square_exec(p, start, end) {
                let u = uni.clone();
                map.reset_tile(i, u);
                proof {
                    assert(u@ == uni@);
                }
            }
            i += 1;
        }
        proof {
            if ruled_outside(orig, oflags, self.layout_rules, start, end) {
                let l0 = choose|l: Label| #[trigger] self.layout_rules.rule_spec(l) is Some;
                assert(lv.contains(l0));
                let t = map.tiles_view();
                assert forall|j: int| 0 <= j < t.len() implies match #[trigger] t[j].state {
                    MapNodeState::Undecided(d) => map.undecided_view()[j] && d@.len() > 0 && forall|l: Label|
                        has_label(d@, l) ==> self.layout_rules.rule_spec(l) is Some,
                    MapNodeState::Finalized(_) => true,
                } by {
                    if in_square(orig[j].position, start, end) {
                        let d = t[j].state->Undecided_0;
                        assert(d@ == uni@);
                        assert(weight_map(uni@).contains_key(l0));
                        assert(has_label(uni@, l0));
                        assert forall|l: Label| has_label(uni@, l) implies self.layout_rules.rule_spec(l) is Some by {
                            assert(weight_map(uni@).contains_key(l));
                        }
                    } else {
                        assert(t[j] == orig[j]);
                    }
                }
            }
        }
        let mut i: usize = 0;
        while i < n
            invariant
                map.wf(),
                n == map.tiles_view().len(),
                n == orig.len(),
                forall|j: int|
                    0 <= j < n && !in_square(orig[j].position, start, end) ==> #[trigger] map.tiles_view()[j]
                        == orig[j],
                forall|j: int| 0 <= j < n ==> #[trigger] map.tiles_view()[j].position == orig[j].position,
                ruled_outside(orig, oflags, self.layout_rules, start, end) ==> every_tile_ruled(
                    map.tiles_view(),
                    map.undecided_view(),
                    self.layout_rules,
                ),
            decreases n - i,
        {
            let p = map.tile(i).position;
            if in_square_exec(p, start, end) {
                let below = if p.y.same_key(start) {
                    match p.y.checked_dec() {
                        Some(y) => Some(Position2D::new(p.x, y)),
                        None => None,
                    }
                } else {
                    None
                };
                constrain_by(&mut map, i, below, start, end);
                let above = if p.y.same_key(end) {
                    match p.y.checked_inc() {
                        Some(y) => Some(Position2D::new(p.x, y)),
                        None => None,
                    }
                } else {
                    None
                };
                constrain_by(&mut map, i, above, start, end);
                let left = if p.x.same_key(start) {
                    match p.x.checked_dec() {
                        Some(x) => Some(Position2D::new(x, p.y)),
                        None => None,
                    }
                } else {
                    None
                };
                constrain_by(&mut map, i, left, start, end);
                let right = if p.x.same_key(end) {
                    match p.x.checked_inc() {
                        Some(x) => Some(Position2D::new(x, p.y)),
                        None => None,
                    }
                } else {
                    None
                };
                constrain_by(&mut map, i, right, start, end);
            }
            i += 1;
        }
        let ghost mid = map.tiles_view();
        let r = assign(map, self.layout_rules, adjacency, rank);
        proof {
            assert forall|j: int|
                0 <= j < orig.len() && !in_square(orig[j].position, start, end)
                    && orig[j].state is Finalized implies #[trigger] r.tiles_view()[j] == orig[j] by {
                assert(mid[j] == orig[j]);
                assert(r.tiles_view()[j].position == mid[j].position);
            }
            assert forall|j: int| 0 <= j < orig.len() implies #[trigger] r.tiles_view()[j].position == orig[j].position by {
                assert(r.tiles_view()[j].position == mid[j].position);
            }
        }
        r
    }

    /// Builds the default grid in the smallest coordinate width that holds
    /// the ruleset's map size, collapses it and renders it.
    ///
    /// The image is `map_size` pixels square (1 for size 0), every pixel lies
    /// inside it, and where every colour has a rule there is one pixel per
    /// tile, `map_size²` in all.
    pub fn generate<AG: AdjacencyGenerator, F: Fn(&MultinomialDistribution) -> u64>(
        self,
        adjacency: AG,
        rank: &F,
    ) -> (r: RenderedMap)
        requires
            forall|d: &MultinomialDistribution| #[trigger] rank.requires((d,)),
        ensures
            r.width == (if self.map_size_view() > 0 { self.map_size_view() } else { 1 }),
            r.height == r.width,
            forall|c: int| 0 <= c < r.cells@.len() ==> (#[trigger] r.cells@[c]).0 < r.width && r.cells@[c].1 < r.height,
            self.colors_all_ruled() ==> r.cells@.len() == self.map_size_view() * self.map_size_view(),
    {
        let vis = RilPixelVisualizer::new(copy_colors(&self.coloring_rules));
        match coordinate_width(self.map_size) {
            CoordinateWidth::Bits8 => {
                let ghost me = self;
                let m: Map2D<u8> = self.generate_map(None, adjacency, rank);
                let (width, height) = vis.image_size(&m);
                let cells = vis.pixel_cells(&m);
                proof {
                    let n = side_for::<u8>(me.map_size_view());
                    assert(n == me.map_size_view());
                    lemma_cells_of(m.tiles_view(), m.min_view(), vis.colors(), m.tiles_view().len() as int, n);
                }
                RenderedMap { width, height, cells }
            },
            CoordinateWidth::Bits16 => {
                let ghost me = self;
                let m: Map2D<u16> = self.generate_map(None, adjacency, rank);
                let (width, height) = vis.image_size(&m);
                let cells = vis.pixel_cells(&m);
                proof {
                    let n = side_for::<u16>(me.map_size_view());
                    assert(n == me.map_size_view());
                    lemma_cells_of(m.tiles_view(), m.min_view(), vis.colors(), m.tiles_view().len() as int, n);
                }
                RenderedMap { width, height, cells }
            },
            CoordinateWidth::Bits32 => {
                let ghost me = self;
                let m: Map2D<u32> = self.generate_map(None, adjacency, rank);
                let (width, height) = vis.image_size(&m);
                let cells = vis.pixel_cells(&m);
                proof {
                    let n = side_for::<u32>(me.map_size_view());
                    assert(n == me.map_size_view());
                    lemma_cells_of(m.tiles_view(), m.min_view(), vis.colors(), m.tiles_view().len() as int, n);
                }
                RenderedMap { width, height, cells }
            },
        }
    }
}

/// Whether both coordinates of `p` lie in `[lo, hi]`.
pub open spec fn in_square<P: PositionKey>(p: Position2D<P>, lo: P, hi: P) -> bool {
    lo.value() <= p.x.value() <= hi.value() && lo.value() <= p.y.value() <= hi.value()
}

fn in_square_exec<P: PositionKey>(p: Position2D<P>, lo: P, hi: P) -> (r: bool)
    ensures
        r == in_square(p, lo, hi),
{
    !p.x.less_than(lo) && !hi.less_than(p.x) && !p.y.less_than(lo) && !hi.less_than(p.y)
}

/// Every undecided tile outside the square `[lo, hi]²` is in the undecided
/// index, has a label to draw and a rule for each label it may draw; and some
/// label has a rule.
pub open spec fn ruled_outside<P: PositionKey>(
    tiles: Seq<Map2DNode<P>>,
    flags: Seq<bool>,
    rules: MapColoringAssigner,
    lo: P,
    hi: P,
) -> bool {
    &&& exists|l: Label| #[trigger] rules.rule_spec(l) is Some
    &&& forall|j: int|
        0 <= j < tiles.len() && !in_square(tiles[j].position, lo, hi) ==> match #[trigger] tiles[j].state {
            MapNodeState::Undecided(d) => flags[j] && d@.len() > 0 && forall|l: Label|
                has_label(d@, l) ==> rules.rule_spec(l) is Some,
            MapNodeState::Finalized(_) => true,
        }
}

/// Constrains undecided tile `tile` by the tile at `q`, if there is one: the
/// tile takes the joint of that tile's distribution (a single label where it
/// is finalized) with its own, where that is not empty.
fn constrain_by<P: PositionKey>(map: &mut Map2D<P>, tile: usize, q: Option<Position2D<P>>, lo: P, hi: P)
    requires
        old(map).wf(),
        tile < old(map).tiles_view().len(),
        in_square(old(map).tiles_view()[tile as int].position, lo, hi),
    ensures
        final(map).wf(),
        final(map).tiles_view().len() == old(map).tiles_view().len(),
        forall|j: int|
            0 <= j < old(map).tiles_view().len() && !in_square(old(map).tiles_view()[j].position, lo, hi)
                ==> #[trigger] final(map).tiles_view()[j] == old(map).tiles_view()[j],
        forall|j: int|
            0 <= j < old(map).tiles_view().len() ==> #[trigger] final(map).tiles_view()[j].position
                == old(map).tiles_view()[j].position,
        final(map).undecided_view() == old(map).undecided_view(),
        forall|rules: MapColoringAssigner|
            every_tile_ruled(old(map).tiles_view(), old(map).undecided_view(), rules) ==> #[trigger] every_tile_ruled(
                final(map).tiles_view(),
                final(map).undecided_view(),
                rules,
            ),
{
    let q = match q {
        Some(q) => q,
        None => {
            return;
        },
    };
    let j = match map.get(q) {
        Some(j) => j,
        None => {
            return;
        },
    };
    let outside: MultinomialDistribution = match &map.tile(j).state {
        MapNodeState::Undecided(d) => d.clone(),
        MapNodeState::Finalized(a) => MultinomialDistribution::uniform_over(vec![*a]),
    };
    let joint = match &map.tile(tile).state {
        MapNodeState::Undecided(mine) => Some(outside.joint_probability(mine)),
        MapNodeState::Finalized(_) => None,
    };
    let ghost t0 = map.tiles_view();
    if let Some(nd) = joint {
        if !nd.is_empty() {
            let _ = nd.is_well_formed();
            map.set_distribution(tile, nd);
            proof {
                let mine = t0[tile as int].state->Undecided_0;
                assert forall|rules: MapColoringAssigner|
                    every_tile_ruled(t0, map.undecided_view(), rules) implies #[trigger] every_tile_ruled(
                        map.tiles_view(),
                        map.undecided_view(),
                        rules,
                    ) by {
                    let t1 = map.tiles_view();
                    assert forall|j: int| 0 <= j < t1.len() implies match #[trigger] t1[j].state {
                        MapNodeState::Undecided(d) => map.undecided_view()[j] && d@.len() > 0 && forall|l: Label|
                            has_label(d@, l) ==> rules.rule_spec(l) is Some,
                        MapNodeState::Finalized(_) => true,
                    } by {
                        if j == tile as int {
                            assert(match t0[j].state {
                                MapNodeState::Undecided(d) => map.undecided_view()[j] && d@.len() > 0 && forall|l: Label|
                                    has_label(d@, l) ==> rules.rule_spec(l) is Some,
                                MapNodeState::Finalized(_) => true,
                            });
                            assert forall|l: Label| has_label(nd@, l) implies rules.rule_spec(l) is Some by {
                                lemma_joint_labels(outside@, mine@, l);
                            }
                        } else {
                            assert(t1[j] == t0[j]);
                        }
                    }
                }
            }
        }
    }
}

fn copy_colors(v: &Vec<(Label, MapColor)>) -> (r: Vec<(Label, MapColor)>)
    ensures
        r@ == v@,
{
    let mut r: Vec<(Label, MapColor)> = Vec::new();
    let mut i: usize = 0;
    while i < v.len()
        invariant
            i <= v.len(),
            r@ == v@.subrange(0, i as int),
        decreases v.len() - i,
    {
        r.push(v[i]);
        assert(r@ =~= v@.subrange(0, i + 1));
        i += 1;
    }
    assert(r@ =~= v@);
    r
}

} // verus!
