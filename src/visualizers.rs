//! Rendering a finalized grid: where each tile's pixel goes and which colour
//! it takes. Drawing and writing the image file happen outside the library.
use vstd::prelude::*;

use crate::map2d::Map2D;
use crate::map2dnode::{Map2DNode, MapNodeState};
use crate::position::{Position2D, PositionKey};
use crate::sampler::Label;

verus! {

/// A colour of the rendered map.
#[derive(Clone, Copy, Debug, PartialEq, Eq)]
pub enum MapColor {
    Rgb(u8, u8, u8),
}

/// The colour of tiles whose label has no colour.
pub open spec fn fallback_color() -> MapColor {
    MapColor::Rgb(255, 255, 255)
}

/// The colour that `colors` gives `l`: its last entry for `l`, else white.
pub open spec fn color_in(colors: Seq<(Label, MapColor)>, l: Label) -> MapColor
    decreases colors.len(),
{
    if colors.len() == 0 {
        fallback_color()
    } else if colors.last().0 == l {
        colors.last().1
    } else {
        color_in(colors.drop_last(), l)
    }
}

/// The pixel of a finalized tile, relative to `origin`, with its colour; none
/// for an undecided tile or one whose pixel index would not fit in a `u32`.
pub open spec fn cell_of<P: PositionKey>(
    t: Map2DNode<P>,
    origin: Position2D<P>,
    colors: Seq<(Label, MapColor)>,
) -> Option<(u32, u32, MapColor)> {
    let dx = t.position.x.value() - origin.x.value();
    let dy = t.position.y.value() - origin.y.value();
    match t.state {
        MapNodeState::Finalized(l) => if 0 <= dx <= u32::MAX && 0 <= dy <= u32::MAX {
            Some((dx as u32, dy as u32, color_in(colors, l)))
        } else {
            None
        },
        MapNodeState::Undecided(_) => None,
    }
}

/// The cells of the first `n` tiles, in order.
pub open spec fn cells_of<P: PositionKey>(
    tiles: Seq<Map2DNode<P>>,
    origin: Position2D<P>,
    colors: Seq<(Label, MapColor)>,
    n: int,
) -> Seq<(u32, u32, MapColor)>
    decreases n,
{
    if n <= 0 {
        Seq::empty()
    } else {
        cells_of(tiles, origin, colors, n - 1) + match cell_of(tiles[n - 1], origin, colors) {
            Some(c) => seq![c],
            None => Seq::empty(),
        }
    }
}

/// When the first `k` tiles lie within `n` of `origin` on both axes, every
/// cell lies below `n` on both axes; when they are also finalized, there is
/// one cell per tile.
pub proof fn lemma_cells_of<P: PositionKey>(
    tiles: Seq<Map2DNode<P>>,
    origin: Position2D<P>,
    colors: Seq<(Label, MapColor)>,
    k: int,
    n: int,
)
    requires
        0 <= k <= tiles.len(),
        n <= u32::MAX + 1,
        forall|j: int|
            0 <= j < k ==> {
                &&& 0 <= (#[trigger] tiles[j]).position.x.value() - origin.x.value() < n
                &&& 0 <= tiles[j].position.y.value() - origin.y.value() < n
            },
    ensures
        forall|c: int|
            0 <= c < cells_of(tiles, origin, colors, k).len() ==> (#[trigger] cells_of(tiles, origin, colors, k)[c]).0
                < n && cells_of(tiles, origin, colors, k)[c].1 < n,
        (forall|j: int| 0 <= j < k ==> (#[trigger] tiles[j]).state is Finalized) ==> cells_of(
            tiles,
            origin,
            colors,
            k,
        ).len() == k,
    decreases k,
{
    if k > 0 {
        lemma_cells_of(tiles, origin, colors, k - 1, n);
        let pre = cells_of(tiles, origin, colors, k - 1);
        let s = cells_of(tiles, origin, colors, k);
        assert(0 <= tiles[k - 1].position.x.value() - origin.x.value() < n);
        assert forall|c: int| 0 <= c < s.len() implies (#[trigger] s[c]).0 < n && s[c].1 < n by {
            if c < pre.len() {
                assert(s[c] == pre[c]);
            }
        }
        if forall|j: int| 0 <= j < k ==> (#[trigger] tiles[j]).state is Finalized {
            assert(tiles[k - 1].state is Finalized);
        }
    }
}

/// Renders a grid as pixels, one per finalized tile, coloured by label.
#[derive(Debug)]
pub struct RilPixelVisualizer {
    color_lookup: Vec<(Label, MapColor)>,
}

impl RilPixelVisualizer {
    pub closed spec fn colors(&self) -> Seq<(Label, MapColor)> {
        self.color_lookup@
    }

    pub fn new(color_lookup: Vec<(Label, MapColor)>) -> (r: Self)
        ensures
            r.colors() == color_lookup@,
    {
        Self { color_lookup }
    }

    /// The colour of `label`: the last one given for it, white where none is.
    pub fn color_for(&self, label: Label) -> (r: MapColor)
        ensures
            r == color_in(self.colors(), label),
    {
        let mut i = self.color_lookup.len();
        assert(self.color_lookup@.subrange(0, i as int) =~= self.color_lookup@);
        while i > 0
            invariant
                i <= self.color_lookup@.len(),
                color_in(self.color_lookup@, label) == color_in(
                    self.color_lookup@.subrange(0, i as int),
                    label,
                ),
            decreases i,
        {
            assert(self.color_lookup@.subrange(0, i as int).drop_last() =~= self.color_lookup@.subrange(0, i - 1));
            if self.color_lookup[i - 1].0 == label {
                return self.color_lookup[i - 1].1;
            }
            i -= 1;
        }
        MapColor::Rgb(255, 255, 255)
    }

    /// The width and height of the image: the extent of the grid on each
    /// axis, held to the largest `u32`.
    pub fn image_size<P: PositionKey>(&self, map: &Map2D<P>) -> (r: (u32, u32))
        ensures
            r.0 == span(map.max_view().x.value() - map.min_view().x.value() + 1),
            r.1 == span(map.max_view().y.value() - map.min_view().y.value() + 1),
    {
        let lo = map.min_pos();
        let hi = map.max_pos();
        (span_of(hi.x, lo.x), span_of(hi.y, lo.y))
    }

    /// One pixel for each finalized tile whose offset from the grid's least
    /// position fits a `u32`, in tile order, with the colour of its label.
    pub fn pixel_cells<P: PositionKey>(&self, map: &Map2D<P>) -> (r: Vec<(u32, u32, MapColor)>)
        ensures
            r@ == cells_of(map.tiles_view(), map.min_view(), self.colors(), map.tiles_view().len() as int),
    {
        let origin = map.min_pos();
        let n = map.len();
        let mut out: Vec<(u32, u32, MapColor)> = Vec::new();
        let mut i: usize = 0;
        while i < n
            invariant
                n == map.tiles_view().len(),
                origin == map.min_view(),
                i <= n,
                out@ == cells_of(map.tiles_view(), origin, self.colors(), i as int),
            decreases n - i,
        {
            let t = map.tile(i);
            match &t.state {
                MapNodeState::Finalized(l) => {
                    match (t.position.x.offset_from(origin.x), t.position.y.offset_from(origin.y)) {
                        (Some(dx), Some(dy)) => {
                            let c = self.color_for(*l);
                            out.push((dx, dy, c));
                        },
                        _ => {},
                    }
                },
                MapNodeState::Undecided(_) => {},
            }
            i += 1;
        }
        out
    }
}

/// `v` held between 0 and the largest `u32`.
pub open spec fn span(v: int) -> int {
    if v < 0 {
        0
    } else if v > u32::MAX {
        u32::MAX as int
    } else {
        v
    }
}

/// `hi - lo + 1`, held between 0 and the largest `u32`.
fn span_of<P: PositionKey>(hi: P, lo: P) -> (r: u32)
    ensures
        r == span(hi.value() - lo.value() + 1),
{
    match hi.offset_from(lo) {
        Some(d) => if d == u32::MAX {
            u32::MAX
        } else {
            d + 1
        },
        None => {
            if hi.less_than(lo) {
                0
            } else {
                u32::MAX
            }
        },
    }
}

/// Writes a grid as JSON data; the writing happens outside the library.
#[derive(Debug, Clone, Copy)]
pub struct JsonDataVisualizer {}

impl JsonDataVisualizer {
    pub fn new() -> (r: Self) {
        Self {  }
    }
}

} // verus!
