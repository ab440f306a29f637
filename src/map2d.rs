//! The grid: an arena of tiles with a position lookup, the index of tiles
//! still to be decided, and the coordinate-wise extents of all positions.
use vstd::prelude::*;

use crate::adjacency::{coords_of, shifted, AdjacencyGenerator};
use crate::map2dnode::{Map2DNode, MapNodeState};
use crate::position::{Position2D, PositionKey};
use crate::sampler::{well_formed, Label, MultinomialDistribution};
use std::collections::HashMap;

verus! {

broadcast use vstd::std_specs::hash::group_hash_axioms;

/// The hash key of a position: its coordinates' distances above the least
/// coordinate, side by side in one 128-bit number.
pub open spec fn pos_key<P: PositionKey>(p: Position2D<P>) -> int {
    (p.x.value() - P::min_value()) * 0x1_0000_0000_0000_0000 + (p.y.value() - P::min_value())
}

pub proof fn lemma_pos_key<P: PositionKey>(p: Position2D<P>, q: Position2D<P>)
    ensures
        0 <= pos_key(p) <= u128::MAX,
        pos_key(p) == pos_key(q) ==> p == q,
{
    p.x.lemma_value_bounds();
    p.y.lemma_value_bounds();
    q.x.lemma_value_bounds();
    q.y.lemma_value_bounds();
    let a = p.x.value() - P::min_value();
    let b = p.y.value() - P::min_value();
    let c = q.x.value() - P::min_value();
    let d = q.y.value() - P::min_value();
    assert(0 <= a * 0x1_0000_0000_0000_0000 + b <= u128::MAX) by (nonlinear_arith)
        requires
            0 <= a <= u64::MAX,
            0 <= b <= u64::MAX,
    ;
    if pos_key(p) == pos_key(q) {
        assert(a == c && b == d) by (nonlinear_arith)
            requires
                0 <= a <= u64::MAX,
                0 <= b <= u64::MAX,
                0 <= c <= u64::MAX,
                0 <= d <= u64::MAX,
                a * 0x1_0000_0000_0000_0000 + b == c * 0x1_0000_0000_0000_0000 + d,
        ;
        p.x.lemma_value_injective(q.x);
        p.y.lemma_value_injective(q.y);
    }
}

fn key_of<P: PositionKey>(p: Position2D<P>) -> (r: u128)
    ensures
        r == pos_key(p),
{
    let a = p.x.key() as u128;
    let b = p.y.key() as u128;
    assert(a * 0x1_0000_0000_0000_0000 + b <= u128::MAX) by (nonlinear_arith)
        requires
            a <= u64::MAX,
            b <= u64::MAX,
    ;
    a * 0x1_0000_0000_0000_0000 + b
}

/// `index` maps the key of each tile's position to the tile's handle, and
/// holds no other key.
pub open spec fn indexed<P: PositionKey>(tiles: Seq<Map2DNode<P>>, index: Map<u128, usize>) -> bool {
    &&& forall|i: int|
        0 <= i < tiles.len() ==> index.contains_key(#[trigger] pos_key(tiles[i].position) as u128)
            && index[pos_key(tiles[i].position) as u128] == i
    &&& forall|k: u128|
        #[trigger] index.contains_key(k) ==> index[k] < tiles.len() && pos_key(
            tiles[index[k] as int].position,
        ) == k
}

/// No two tiles of `s` share a position.
pub open spec fn unique_positions<P: PositionKey>(s: Seq<Map2DNode<P>>) -> bool {
    forall|i: int, j: int| 0 <= i < j < s.len() ==> s[i].position != s[j].position
}

/// Some tile of `s` stands at `pos`.
pub open spec fn holds_position<P: PositionKey>(s: Seq<Map2DNode<P>>, pos: Position2D<P>) -> bool {
    exists|i: int| 0 <= i < s.len() && s[i].position == pos
}

/// The tiles of `s` taken in order, a tile at a position already taken
/// replacing the earlier one in its place.
pub open spec fn merge_tiles<P: PositionKey>(s: Seq<Map2DNode<P>>) -> Seq<Map2DNode<P>>
    decreases s.len(),
{
    if s.len() == 0 {
        Seq::empty()
    } else {
        let m = merge_tiles(s.drop_last());
        let t = s.last();
        if holds_position(m, t.position) {
            m.update(choose|i: int| 0 <= i < m.len() && m[i].position == t.position, t)
        } else {
            m.push(t)
        }
    }
}

/// A sequence of tiles at distinct positions merges to itself.
pub proof fn lemma_merge_unique<P: PositionKey>(s: Seq<Map2DNode<P>>)
    requires
        unique_positions(s),
    ensures
        merge_tiles(s) == s,
    decreases s.len(),
{
    if s.len() > 0 {
        let d = s.drop_last();
        assert forall|i: int, j: int| 0 <= i < j < d.len() implies d[i].position != d[j].position by {
            assert(d[i] == s[i] && d[j] == s[j]);
        }
        lemma_merge_unique(d);
        assert forall|i: int| 0 <= i < d.len() implies d[i].position != s.last().position by {
            assert(d[i] == s[i]);
        }
        assert(d.push(s.last()) =~= s);
    }
}

/// `v` is the least of `vals`, or 0 when `vals` is empty.
pub open spec fn is_least(vals: Seq<int>, v: int) -> bool {
    if vals.len() == 0 {
        v == 0
    } else {
        vals.contains(v) && forall|i: int| 0 <= i < vals.len() ==> v <= vals[i]
    }
}

/// `v` is the greatest of `vals`, or 0 when `vals` is empty.
pub open spec fn is_greatest(vals: Seq<int>, v: int) -> bool {
    if vals.len() == 0 {
        v == 0
    } else {
        vals.contains(v) && forall|i: int| 0 <= i < vals.len() ==> vals[i] <= v
    }
}

pub open spec fn xs_of<P: PositionKey>(s: Seq<Map2DNode<P>>) -> Seq<int> {
    s.map_values(|t: Map2DNode<P>| t.position.x.value())
}

pub open spec fn ys_of<P: PositionKey>(s: Seq<Map2DNode<P>>) -> Seq<int> {
    s.map_values(|t: Map2DNode<P>| t.position.y.value())
}

/// The number of `true` entries.
pub open spec fn count_true(s: Seq<bool>) -> nat
    decreases s.len(),
{
    if s.len() == 0 {
        0
    } else {
        count_true(s.drop_last()) + if s.last() {
            1nat
        } else {
            0nat
        }
    }
}

/// The number of tiles that are not finalized.
pub open spec fn count_open<P: PositionKey>(s: Seq<Map2DNode<P>>) -> nat
    decreases s.len(),
{
    if s.len() == 0 {
        0
    } else {
        count_open(s.drop_last()) + if s.last().state is Undecided {
            1nat
        } else {
            0nat
        }
    }
}

pub proof fn lemma_count_true_update(s: Seq<bool>, i: int, b: bool)
    requires
        0 <= i < s.len(),
    ensures
        count_true(s.update(i, b)) + (if s[i] {
            1nat
        } else {
            0nat
        }) == count_true(s) + (if b {
            1nat
        } else {
            0nat
        }),
    decreases s.len(),
{
    let u = s.update(i, b);
    if i < s.len() - 1 {
        assert(u.drop_last() =~= s.drop_last().update(i, b));
        lemma_count_true_update(s.drop_last(), i, b);
    } else {
        assert(u.drop_last() =~= s.drop_last());
    }
}

pub proof fn lemma_count_open_update<P: PositionKey>(s: Seq<Map2DNode<P>>, i: int, t: Map2DNode<P>)
    requires
        0 <= i < s.len(),
    ensures
        count_open(s.update(i, t)) + (if s[i].state is Undecided {
            1nat
        } else {
            0nat
        }) == count_open(s) + (if t.state is Undecided {
            1nat
        } else {
            0nat
        }),
    decreases s.len(),
{
    let u = s.update(i, t);
    if i < s.len() - 1 {
        assert(u.drop_last() =~= s.drop_last().update(i, t));
        lemma_count_open_update(s.drop_last(), i, t);
    } else {
        assert(u.drop_last() =~= s.drop_last());
    }
}

pub proof fn lemma_count_true_zero(s: Seq<bool>)
    requires
        forall|i: int| 0 <= i < s.len() ==> !s[i],
    ensures
        count_true(s) == 0,
    decreases s.len(),
{
    if s.len() > 0 {
        lemma_count_true_zero(s.drop_last());
    }
}

/// The positions of the first `n` tiles that are flagged, in order.
pub open spec fn flagged_positions<P: PositionKey>(
    tiles: Seq<Map2DNode<P>>,
    flags: Seq<bool>,
    n: int,
) -> Seq<Position2D<P>>
    decreases n,
{
    if n <= 0 {
        Seq::empty()
    } else {
        flagged_positions(tiles, flags, n - 1) + if flags[n - 1] {
            seq![tiles[n - 1].position]
        } else {
            Seq::empty()
        }
    }
}

/// The tile at `i` after finalizing it with `a`, when it is undecided; the
/// tiles unchanged otherwise.
pub open spec fn finalize_view<P: PositionKey>(
    tiles: Seq<Map2DNode<P>>,
    flags: Seq<bool>,
    i: int,
    a: Label,
) -> (Seq<Map2DNode<P>>, Seq<bool>) {
    if 0 <= i < tiles.len() && tiles[i].state is Undecided {
        (
            tiles.update(i, Map2DNode { position: tiles[i].position, state: MapNodeState::Finalized(a) }),
            flags.update(i, false),
        )
    } else {
        (tiles, flags)
    }
}

/// Finalizing a tile twice with the same label is the same as finalizing it once.
pub proof fn lemma_finalize_idempotent<P: PositionKey>(
    tiles: Seq<Map2DNode<P>>,
    flags: Seq<bool>,
    i: int,
    a: Label,
)
    ensures
        ({
            let once = finalize_view(tiles, flags, i, a);
            finalize_view(once.0, once.1, i, a) == once
        }),
{
}

/// Every undecided tile's distribution is well formed.
pub open spec fn all_well_formed<P: PositionKey>(tiles: Seq<Map2DNode<P>>) -> bool {
    forall|i: int|
        0 <= i < tiles.len() ==> match #[trigger] tiles[i].state {
            MapNodeState::Undecided(d) => well_formed(d@),
            MapNodeState::Finalized(_) => true,
        }
}

/// A two-dimensional map of tiles.
#[derive(Debug)]
pub struct Map2D<P: PositionKey> {
    tiles: Vec<Map2DNode<P>>,
    index: HashMap<u128, usize>,
    undecided: Vec<bool>,
    min_pos: Position2D<P>,
    max_pos: Position2D<P>,
}

impl<P: PositionKey> Map2D<P> {
    /// Positions are unique, every tile in the undecided index is undecided,
    /// and every undecided tile's distribution is well formed.
    pub closed spec fn wf(&self) -> bool {
        &&& unique_positions(self.tiles@)
        &&& self.undecided@.len() == self.tiles@.len()
        &&& forall|i: int|
            0 <= i < self.tiles@.len() && #[trigger] self.undecided@[i] ==> self.tiles@[i].state is Undecided
        &&& all_well_formed(self.tiles@)
        &&& indexed(self.tiles@, self.index@)
    }

    /// The tiles, in arena order; a tile's index is its handle.
    pub closed spec fn tiles_view(&self) -> Seq<Map2DNode<P>> {
        self.tiles@
    }

    /// For each tile, whether it is in the undecided index.
    pub closed spec fn undecided_view(&self) -> Seq<bool> {
        self.undecided@
    }

    pub closed spec fn min_view(&self) -> Position2D<P> {
        self.min_pos
    }

    pub closed spec fn max_view(&self) -> Position2D<P> {
        self.max_pos
    }

    /// The grid's invariant, as its views show it.
    pub fn check_invariant(&self) -> (r: bool)
        requires
            self.wf(),
        ensures
            r,
            unique_positions(self.tiles_view()),
            self.undecided_view().len() == self.tiles_view().len(),
            forall|i: int|
                0 <= i < self.tiles_view().len() && #[trigger] self.undecided_view()[i]
                    ==> self.tiles_view()[i].state is Undecided,
            all_well_formed(self.tiles_view()),
    {
        true
    }

    /// The grid of the given tiles, in order; a tile at a position already
    /// taken replaces the earlier one. Every undecided tile is in the
    /// undecided index; the extents are the coordinate-wise least and greatest
    /// coordinates, 0 on an axis where there are no tiles.
    pub fn from_tiles(tiles: Vec<Map2DNode<P>>) -> (r: Self)
        ensures
            r.wf(),
            r.tiles_view() == merge_tiles(tiles@),
            forall|i: int|
                0 <= i < r.tiles_view().len() ==> #[trigger] r.undecided_view()[i] == (
                r.tiles_view()[i].state is Undecided),
            is_least(xs_of(r.tiles_view()), r.min_view().x.value()),
            is_least(ys_of(r.tiles_view()), r.min_view().y.value()),
            is_greatest(xs_of(r.tiles_view()), r.max_view().x.value()),
            is_greatest(ys_of(r.tiles_view()), r.max_view().y.value()),
            tiles@.len() == 0 ==> r.tiles_view().len() == 0 && count_true(r.undecided_view()) == 0
                && r.min_view().x.value() == 0 && r.min_view().y.value() == 0
                && r.max_view().x.value() == 0 && r.max_view().y.value() == 0,
    {
        let ghost orig = tiles@;
        let n = tiles.len();
        let mut input = tiles;
        let mut rev: Vec<Map2DNode<P>> = Vec::new();
        while input.len() > 0
            invariant
                n == orig.len(),
                input@ == orig.subrange(0, input@.len() as int),
                rev@.len() + input@.len() == n,
                forall|a: int| 0 <= a < rev@.len() ==> #[trigger] rev@[a] == orig[n - 1 - a],
            decreases input@.len(),
        {
            let ghost len0 = input@.len();
            match input.pop() {
                Some(t) => {
                    assert(t == orig[len0 - 1]);
                    rev.push(t);
                    assert(input@ =~= orig.subrange(0, input@.len() as int));
                },
                None => {},
            }
        }
        let mut out: Vec<Map2DNode<P>> = Vec::new();
        let mut index: HashMap<u128, usize> = HashMap::new();
        let mut k: usize = 0;
        while rev.len() > 0
            invariant
                n == orig.len(),
                k + rev@.len() == n,
                forall|a: int| 0 <= a < rev@.len() ==> #[trigger] rev@[a] == orig[n - 1 - a],
                out@ == merge_tiles(orig.subrange(0, k as int)),
                unique_positions(out@),
                indexed(out@, index@),
            decreases rev@.len(),
        {
            let ghost len0 = rev@.len();
            let t = rev.pop().unwrap();
            assert(t == orig[k as int]);
            let ghost m = out@;
            assert(orig.subrange(0, k + 1).drop_last() =~= orig.subrange(0, k as int));
            assert(orig.subrange(0, k + 1).last() == t);
            let key = key_of(t.position);
            proof {
                lemma_pos_key(t.position, t.position);
            }
            match index.get(&key) {
                Some(i_ref) => {
                    let i = *i_ref;
                    proof {
                        lemma_pos_key(m[i as int].position, t.position);
                        let c = choose|c: int| 0 <= c < m.len() && m[c].position == t.position;
                        assert(c == i as int);
                    }
                    out.set(i, t);
                    assert forall|a: int, b: int| 0 <= a < b < out@.len() implies out@[a].position
                        != out@[b].position by {
                        if a != i as int && b != i as int {
                            assert(out@[a] == m[a] && out@[b] == m[b]);
                        } else if a == i as int {
                            assert(out@[b] == m[b]);
                        } else {
                            assert(out@[a] == m[a]);
                        }
                    }
                    assert forall|a: int| 0 <= a < out@.len() implies #[trigger] out@[a].position == m[a].position by {}
                },
                None => {
                    proof {
                        if holds_position(m, t.position) {
                            let c = choose|c: int| 0 <= c < m.len() && m[c].position == t.position;
                            assert(index@.contains_key(pos_key(m[c].position) as u128));
                        }
                    }
                    let ghost idx0 = index@;
                    let pos_at = out.len();
                    out.push(t);
                    index.insert(key, pos_at);
                    assert forall|a: int, b: int| 0 <= a < b < out@.len() implies out@[a].position
                        != out@[b].position by {
                        if b < m.len() {
                            assert(out@[a] == m[a] && out@[b] == m[b]);
                        } else {
                            assert(out@[a] == m[a]);
                        }
                    }
                    assert forall|a: int| 0 <= a < out@.len() implies index@.contains_key(#[trigger] pos_key(out@[a].position) as u128)
                        && index@[pos_key(out@[a].position) as u128] == a by {
                        if a < m.len() {
                            assert(out@[a] == m[a]);
                            lemma_pos_key(m[a].position, t.position);
                            assert(pos_key(m[a].position) as u128 != key);
                        }
                    }
                    assert forall|kk: u128| #[trigger] index@.contains_key(kk) implies index@[kk] < out@.len() && pos_key(
                        out@[index@[kk] as int].position,
                    ) == kk by {
                        if kk != key {
                            assert(idx0.contains_key(kk));
                            assert(out@[idx0[kk] as int] == m[idx0[kk] as int]);
                        }
                    }
                },
            }
            k += 1;
        }
        assert(orig.subrange(0, n as int) =~= orig);
        let mut flags: Vec<bool> = Vec::new();
        let mut j: usize = 0;
        while j < out.len()
            invariant
                j <= out@.len(),
                flags@.len() == j,
                forall|i: int| 0 <= i < j ==> #[trigger] flags@[i] == (out@[i].state is Undecided),
                forall|i: int|
                    0 <= i < j ==> match #[trigger] out@[i].state {
                        MapNodeState::Undecided(d) => well_formed(d@),
                        MapNodeState::Finalized(_) => true,
                    },
            decreases out.len() - j,
        {
            match &out[j].state {
                MapNodeState::Undecided(d) => {
                    let _ = d.is_well_formed();
                },
                MapNodeState::Finalized(_) => {},
            }
            flags.push(!out[j].state.is_assigned());
            j += 1;
        }
        let (min_pos, max_pos) = extents(&out);
        let r = Map2D { tiles: out, index, undecided: flags, min_pos, max_pos };
        if n == 0 {
            proof {
                lemma_count_true_zero(r.undecided@);
            }
        }
        r
    }

    /// The number of tiles.
    pub fn len(&self) -> (r: usize)
        ensures
            r == self.tiles_view().len(),
    {
        self.tiles.len()
    }

    /// The handle of the tile at `pos`, if any.
    pub fn get(&self, pos: Position2D<P>) -> (r: Option<usize>)
        requires
            self.wf(),
        ensures
            r matches Some(i) ==> i < self.tiles_view().len() && self.tiles_view()[i as int].position
                == pos,
            r is None ==> !holds_position(self.tiles_view(), pos),
    {
        let key = key_of(pos);
        match self.index.get(&key) {
            Some(i) => {
                proof {
                    lemma_pos_key(self.tiles@[*i as int].position, pos);
                }
                Some(*i)
            },
            None => {
                proof {
                    lemma_pos_key(pos, pos);
                    if holds_position(self.tiles@, pos) {
                        let c = choose|c: int| 0 <= c < self.tiles@.len() && self.tiles@[c].position == pos;
                        assert(self.index@.contains_key(pos_key(self.tiles@[c].position) as u128));
                    }
                }
                None
            },
        }
    }

    /// The tile with handle `i`.
    pub fn tile(&self, i: usize) -> (r: &Map2DNode<P>)
        requires
            i < self.tiles_view().len(),
        ensures
            *r == self.tiles_view()[i as int],
    {
        &self.tiles[i]
    }

    /// Whether the tile with handle `i` is in the undecided index.
    pub fn is_undecided(&self, i: usize) -> (r: bool)
        requires
            self.wf(),
            i < self.tiles_view().len(),
        ensures
            r == self.undecided_view()[i as int],
    {
        self.undecided[i]
    }

    /// The number of tiles in the undecided index.
    pub fn undecided_count(&self) -> (r: usize)
        ensures
            r == count_true(self.undecided_view()),
    {
        let mut c: usize = 0;
        let mut i: usize = 0;
        while i < self.undecided.len()
            invariant
                i <= self.undecided@.len(),
                c == count_true(self.undecided@.subrange(0, i as int)),
                c <= i,
            decreases self.undecided.len() - i,
        {
            assert(self.undecided@.subrange(0, i + 1).drop_last() =~= self.undecided@.subrange(0, i as int));
            if self.undecided[i] {
                c += 1;
            }
            i += 1;
        }
        assert(self.undecided@.subrange(0, i as int) =~= self.undecided@);
        c
    }

    /// The positions of the tiles in the undecided index, in arena order.
    pub fn undecided_positions(&self) -> (r: Vec<Position2D<P>>)
        requires
            self.wf(),
        ensures
            r@ == flagged_positions(self.tiles_view(), self.undecided_view(), self.tiles_view().len() as int),
    {
        let mut out: Vec<Position2D<P>> = Vec::new();
        let mut i: usize = 0;
        while i < self.tiles.len()
            invariant
                i <= self.tiles@.len(),
                self.undecided@.len() == self.tiles@.len(),
                out@ == flagged_positions(self.tiles@, self.undecided@, i as int),
            decreases self.tiles.len() - i,
        {
            if self.undecided[i] {
                out.push(self.tiles[i].position);
            }
            i += 1;
        }
        out
    }

    /// The coordinate-wise least position.
    pub fn min_pos(&self) -> (r: Position2D<P>)
        ensures
            r == self.min_view(),
    {
        self.min_pos
    }

    /// The coordinate-wise greatest position.
    pub fn max_pos(&self) -> (r: Position2D<P>)
        ensures
            r == self.max_view(),
    {
        self.max_pos
    }

    /// Finalizes the tile with handle `tile` with `assignment` and takes it
    /// out of the undecided index. Returns whether the tile now holds that
    /// label: `true` also when it already did (nothing changes then), `false`
    /// for a tile finalized with another label or a handle out of range,
    /// nothing changed.
    pub fn finalize_tile(&mut self, tile: usize, assignment: Label) -> (r: bool)
        requires
            old(self).wf(),
        ensures
            final(self).wf(),
            (final(self).tiles_view(), final(self).undecided_view()) == finalize_view(
                old(self).tiles_view(),
                old(self).undecided_view(),
                tile as int,
                assignment,
            ),
            final(self).min_view() == old(self).min_view(),
            final(self).max_view() == old(self).max_view(),
            r == (tile < old(self).tiles_view().len() && (old(self).tiles_view()[tile as int].state
                is Undecided || old(self).tiles_view()[tile as int].state == MapNodeState::Finalized(
                assignment,
            ))),
    {
        if tile >= self.tiles.len() {
            return false;
        }
        match &self.tiles[tile].state {
            MapNodeState::Finalized(l) => {
                return *l == assignment;
            },
            MapNodeState::Undecided(_) => {},
        }
        let pos = self.tiles[tile].position;
        self.tiles.set(tile, Map2DNode { position: pos, state: MapNodeState::Finalized(assignment) });
        self.undecided.set(tile, false);
        proof {
            assert forall|a: int, b: int| 0 <= a < b < self.tiles@.len() implies self.tiles@[a].position
                != self.tiles@[b].position by {
                assert(self.tiles@[a].position == old(self).tiles@[a].position);
                assert(self.tiles@[b].position == old(self).tiles@[b].position);
            }
        }
        true
    }

    /// Replaces the distribution of an undecided tile.
    pub(crate) fn set_distribution(&mut self, tile: usize, d: MultinomialDistribution)
        requires
            old(self).wf(),
            well_formed(d@),
            tile < old(self).tiles_view().len(),
            old(self).tiles_view()[tile as int].state is Undecided,
        ensures
            final(self).wf(),
            final(self).tiles_view() == old(self).tiles_view().update(
                tile as int,
                Map2DNode {
                    position: old(self).tiles_view()[tile as int].position,
                    state: MapNodeState::Undecided(d),
                },
            ),
            final(self).undecided_view() == old(self).undecided_view(),
            final(self).min_view() == old(self).min_view(),
            final(self).max_view() == old(self).max_view(),
    {
        let pos = self.tiles[tile].position;
        self.tiles.set(tile, Map2DNode { position: pos, state: MapNodeState::Undecided(d) });
        proof {
            assert forall|a: int, b: int| 0 <= a < b < self.tiles@.len() implies self.tiles@[a].position
                != self.tiles@[b].position by {
                assert(self.tiles@[a].position == old(self).tiles@[a].position);
                assert(self.tiles@[b].position == old(self).tiles@[b].position);
            }
        }
    }

    /// Makes a tile undecided again with distribution `d`, and puts it in the
    /// undecided index.
    pub(crate) fn reset_tile(&mut self, tile: usize, d: MultinomialDistribution)
        requires
            old(self).wf(),
            tile < old(self).tiles_view().len(),
            well_formed(d@),
        ensures
            final(self).wf(),
            final(self).tiles_view() == old(self).tiles_view().update(
                tile as int,
                Map2DNode {
                    position: old(self).tiles_view()[tile as int].position,
                    state: MapNodeState::Undecided(d),
                },
            ),
            final(self).undecided_view() == old(self).undecided_view().update(tile as int, true),
            final(self).min_view() == old(self).min_view(),
            final(self).max_view() == old(self).max_view(),
    {
        let pos = self.tiles[tile].position;
        self.tiles.set(tile, Map2DNode { position: pos, state: MapNodeState::Undecided(d) });
        self.undecided.set(tile, true);
        proof {
            assert forall|a: int, b: int| 0 <= a < b < self.tiles@.len() implies self.tiles@[a].position
                != self.tiles@[b].position by {
                assert(self.tiles@[a].position == old(self).tiles@[a].position);
                assert(self.tiles@[b].position == old(self).tiles@[b].position);
            }
        }
    }

    /// Takes a tile out of the undecided index, its state unchanged.
    pub(crate) fn remove_undecided(&mut self, tile: usize)
        requires
            old(self).wf(),
            tile < old(self).tiles_view().len(),
        ensures
            final(self).wf(),
            final(self).tiles_view() == old(self).tiles_view(),
            final(self).undecided_view() == old(self).undecided_view().update(tile as int, false),
            final(self).min_view() == old(self).min_view(),
            final(self).max_view() == old(self).max_view(),
    {
        self.undecided.set(tile, false);
    }

    /// The handles of the neighbours of tile `tile`, each once.
    pub fn adjacent<AG: AdjacencyGenerator>(&self, tile: usize) -> (r: Vec<usize>)
        requires
            self.wf(),
            tile < self.tiles_view().len(),
        ensures
            r@.no_duplicates(),
            forall|j: usize|
                j < self.tiles_view().len() ==> (r@.contains(j) <==> shifted(
                    self.tiles_view()[tile as int].position,
                    AG::offsets(),
                ).contains(
                    (#[trigger] self.tiles_view()[j as int].position.x.value(), self.tiles_view()[j as int].position.y.value()),
                )),
    {
        let pos = self.tiles[tile].position;
        let r = self.adjacent_from_pos::<AG>(pos);
        proof {
            assert forall|j: usize| j < self.tiles_view().len() && r@.contains(j) implies shifted(
                pos,
                AG::offsets(),
            ).contains((self.tiles_view()[j as int].position.x.value(), self.tiles_view()[j as int].position.y.value())) by {
                let k = choose|k: int| 0 <= k < r@.len() && r@[k] == j;
                assert(r@[k] < self.tiles_view().len());
            }
        }
        r
    }

    /// The handles of the tiles at the positions that the adjacency generator
    /// lists for `pos`, each once.
    pub fn adjacent_from_pos<AG: AdjacencyGenerator>(&self, pos: Position2D<P>) -> (r: Vec<usize>)
        requires
            self.wf(),
        ensures
            r@.len() <= 8,
            r@.no_duplicates(),
            forall|k: int|
                0 <= k < r@.len() ==> #[trigger] r@[k] < self.tiles_view().len() && shifted(
                    pos,
                    AG::offsets(),
                ).contains(
                    (
                        self.tiles_view()[r@[k] as int].position.x.value(),
                        self.tiles_view()[r@[k] as int].position.y.value(),
                    ),
                ),
            forall|j: int|
                0 <= j < self.tiles_view().len() && shifted(pos, AG::offsets()).contains(
                    (
                        #[trigger] self.tiles_view()[j].position.x.value(),
                        self.tiles_view()[j].position.y.value(),
                    ),
                ) ==> r@.contains(j as usize),
    {
        let cands = AG::adjacents(pos);
        let ghost cs = coords_of(cands@);
        let mut out: Vec<usize> = Vec::new();
        let mut k: usize = 0;
        while k < cands.len()
            invariant
                k <= cands@.len(),
                cs == coords_of(cands@),
                cs == shifted(pos, AG::offsets()),
                self.wf(),
                unique_positions(self.tiles@),
                out@.no_duplicates(),
                out@.len() <= k,
                cands@.len() <= 8,
                forall|m: int|
                    0 <= m < out@.len() ==> #[trigger] out@[m] < self.tiles@.len() && cs.contains(
                        (
                            self.tiles@[out@[m] as int].position.x.value(),
                            self.tiles@[out@[m] as int].position.y.value(),
                        ),
                    ),
                forall|j: int, c: int|
                    0 <= j < self.tiles@.len() && 0 <= c < k && #[trigger] cands@[c] == #[trigger] self.tiles@[j].position
                        ==> out@.contains(j as usize),
            decreases cands.len() - k,
        {
            let q = cands[k];
            assert(cs[k as int] == (q.x.value(), q.y.value()));
            match self.get(q) {
                Some(j) => {
                    let mut seen = false;
                    let mut m: usize = 0;
                    while m < out.len()
                        invariant
                            m <= out@.len(),
                            seen <==> exists|a: int| 0 <= a < m && out@[a] == j,
                        decreases out.len() - m,
                    {
                        if out[m] == j {
                            seen = true;
                        }
                        m += 1;
                    }
                    if !seen {
                        let ghost prev = out@;
                        out.push(j);
                        assert forall|a: int, b: int| 0 <= a < out@.len() && 0 <= b < out@.len() && a != b implies out@[a] != out@[b] by {
                            if a < prev.len() && b < prev.len() {
                                assert(out@[a] == prev[a] && out@[b] == prev[b]);
                            } else if a < prev.len() {
                                assert(out@[a] == prev[a]);
                            } else {
                                assert(out@[b] == prev[b]);
                            }
                        }
                        assert forall|x: usize| prev.contains(x) implies out@.contains(x) by {
                            let a = choose|a: int| 0 <= a < prev.len() && prev[a] == x;
                            assert(out@[a] == x);
                        }
                        assert(out@[prev.len() as int] == j);
                    } else {
                        proof {
                            let a = choose|a: int| 0 <= a < m && out@[a] == j;
                            assert(out@.contains(j));
                        }
                    }
                    proof {
                        assert forall|jj: int| 0 <= jj < self.tiles@.len() && cands@[k as int] == #[trigger] self.tiles@[jj].position implies out@.contains(jj as usize) by {
                            if jj != j as int {
                                assert(self.tiles@[jj].position != self.tiles@[j as int].position);
                            }
                        }
                    }
                },
                None => {},
            }
            k += 1;
        }
        proof {
            assert forall|j: int|
                0 <= j < self.tiles@.len() && cs.contains(
                    (#[trigger] self.tiles@[j].position.x.value(), self.tiles@[j].position.y.value()),
                ) implies out@.contains(j as usize) by {
                let c = choose|c: int| 0 <= c < cs.len() && cs[c] == (self.tiles@[j].position.x.value(), self.tiles@[j].position.y.value());
                let cq = cands@[c];
                assert(cs[c] == (cq.x.value(), cq.y.value()));
                cq.x.lemma_value_injective(self.tiles@[j].position.x);
                cq.y.lemma_value_injective(self.tiles@[j].position.y);
                assert(cands@[c] == self.tiles@[j].position);
            }
        }
        out
    }
}

/// The coordinate-wise least and greatest positions of `tiles`, 0 on an
/// axis where there are none.
fn extents<P: PositionKey>(tiles: &Vec<Map2DNode<P>>) -> (r: (Position2D<P>, Position2D<P>))
    ensures
        is_least(xs_of(tiles@), r.0.x.value()),
        is_least(ys_of(tiles@), r.0.y.value()),
        is_greatest(xs_of(tiles@), r.1.x.value()),
        is_greatest(ys_of(tiles@), r.1.y.value()),
{
    if tiles.len() == 0 {
        let z = P::zero();
        return (Position2D::new(z, z), Position2D::new(z, z));
    }
    let mut lo = tiles[0].position;
    let mut hi = tiles[0].position;
    let mut i: usize = 1;
    let ghost xs = xs_of(tiles@);
    let ghost ys = ys_of(tiles@);
    assert(xs[0] == lo.x.value() && ys[0] == lo.y.value());
    while i < tiles.len()
        invariant
            1 <= i <= tiles@.len(),
            xs == xs_of(tiles@),
            ys == ys_of(tiles@),
            exists|a: int| 0 <= a < i && xs[a] == lo.x.value(),
            exists|a: int| 0 <= a < i && ys[a] == lo.y.value(),
            exists|a: int| 0 <= a < i && xs[a] == hi.x.value(),
            exists|a: int| 0 <= a < i && ys[a] == hi.y.value(),
            forall|a: int| 0 <= a < i ==> lo.x.value() <= #[trigger] xs[a] <= hi.x.value(),
            forall|a: int| 0 <= a < i ==> lo.y.value() <= #[trigger] ys[a] <= hi.y.value(),
        decreases tiles.len() - i,
    {
        let p = tiles[i].position;
        assert(xs[i as int] == p.x.value() && ys[i as int] == p.y.value());
        if p.x.less_than(lo.x) {
            lo = Position2D::new(p.x, lo.y);
        }
        if p.y.less_than(lo.y) {
            lo = Position2D::new(lo.x, p.y);
        }
        if hi.x.less_than(p.x) {
            hi = Position2D::new(p.x, hi.y);
        }
        if hi.y.less_than(p.y) {
            hi = Position2D::new(hi.x, p.y);
        }
        i += 1;
    }
    assert(xs.contains(lo.x.value()));
    assert(ys.contains(lo.y.value()));
    assert(xs.contains(hi.x.value()));
    assert(ys.contains(hi.y.value()));
    (lo, hi)
}

} // verus!
