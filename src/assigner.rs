//! The collapse engine: pops the most certain pending tile, samples a label
//! for it, finalizes it and constrains its neighbours by the transition rule
//! of that label, until no tile is left to decide.
use vstd::prelude::*;

use crate::adjacency::{shifted, AdjacencyGenerator};
use crate::directions::{direction_of_offset, Directions2d};
use crate::map2d::{
    all_well_formed, count_open, count_true, lemma_count_open_update, lemma_count_true_update, lemma_count_true_zero,
    Map2D,
};
use crate::map2dnode::{Map2DNode, MapNodeState};
use crate::position::{Position2D, PositionKey};
use crate::sampler::{
    has_label, joint_entries, lemma_joint_labels, lemma_pick_has_label, lemma_sum_positive,
    pick, random_below, sum_weights, well_formed, Label, MultinomialDistribution,
};
use crate::types::{transition_toward, PossiblyDirectedMultinomialDistribution};

verus! {

/// The entry for `l` in `rules`: the last one given for it.
pub open spec fn last_rule(
    rules: Seq<(Label, PossiblyDirectedMultinomialDistribution)>,
    l: Label,
) -> Option<PossiblyDirectedMultinomialDistribution>
    decreases rules.len(),
{
    if rules.len() == 0 {
        None
    } else if rules.last().0 == l {
        Some(rules.last().1)
    } else {
        last_rule(rules.drop_last(), l)
    }
}

proof fn lemma_push_contains(q: Seq<usize>, i: usize)
    ensures
        forall|x: usize| #[trigger] q.push(i).contains(x) <==> (q.contains(x) || x == i),
{
    assert forall|x: usize| #[trigger] q.push(i).contains(x) <==> (q.contains(x) || x == i) by {
        let p = q.push(i);
        if p.contains(x) && x != i {
            let k = choose|k: int| 0 <= k < p.len() && p[k] == x;
            assert(q[k] == x);
        }
        if q.contains(x) {
            let k = choose|k: int| 0 <= k < q.len() && q[k] == x;
            assert(p[k] == x);
        }
        if x == i {
            assert(p[q.len() as int] == i);
        }
    }
}

proof fn lemma_remove_contains(q: Seq<usize>, k: int)
    requires
        q.no_duplicates(),
        0 <= k < q.len(),
    ensures
        q.remove(k).no_duplicates(),
        forall|x: usize| #[trigger] q.remove(k).contains(x) <==> (q.contains(x) && x != q[k]),
{
    let r = q.remove(k);
    assert forall|x: usize| #[trigger] r.contains(x) <==> (q.contains(x) && x != q[k]) by {
        if r.contains(x) {
            let m = choose|m: int| 0 <= m < r.len() && r[m] == x;
            if m < k {
                assert(q[m] == x);
            } else {
                assert(q[m + 1] == x);
            }
        }
        if q.contains(x) && x != q[k] {
            let m = choose|m: int| 0 <= m < q.len() && q[m] == x;
            if m < k {
                assert(r[m] == x);
            } else {
                assert(r[m - 1] == x);
            }
        }
    }
    assert forall|a: int, b: int| 0 <= a < r.len() && 0 <= b < r.len() && a != b implies r[a] != r[b] by {
        let a2 = if a < k { a } else { a + 1 };
        let b2 = if b < k { b } else { b + 1 };
        assert(r[a] == q[a2] && r[b] == q[b2]);
    }
}

/// The transition rules: for each label, what it imposes on its neighbours.
#[derive(Debug)]
pub struct MapColoringAssigner {
    transition_rules: Vec<(Label, PossiblyDirectedMultinomialDistribution)>,
    comments: Option<String>,
}

impl MapColoringAssigner {
    /// The rule for each label; where a label is given twice, the later entry holds.
    pub closed spec fn rule_spec(&self, l: Label) -> Option<PossiblyDirectedMultinomialDistribution> {
        last_rule(self.transition_rules@, l)
    }

    pub fn with_rules(rules: Vec<(Label, PossiblyDirectedMultinomialDistribution)>) -> (r: Self)
        ensures
            forall|l: Label| #[trigger] r.rule_spec(l) == last_rule(rules@, l),
            r.comments_view() is None,
    {
        Self { transition_rules: rules, comments: None }
    }

    /// The rule for `label`, if there is one.
    pub fn rule_for(&self, label: Label) -> (r: Option<&PossiblyDirectedMultinomialDistribution>)
        ensures
            r matches Some(e) ==> self.rule_spec(label) == Some(*e),
            r is None ==> self.rule_spec(label) is None,
    {
        let mut i = self.transition_rules.len();
        assert(self.transition_rules@.subrange(0, i as int) =~= self.transition_rules@);
        while i > 0
            invariant
                i <= self.transition_rules@.len(),
                last_rule(self.transition_rules@, label) == last_rule(
                    self.transition_rules@.subrange(0, i as int),
                    label,
                ),
            decreases i,
        {
            let ghost pre = self.transition_rules@.subrange(0, i as int);
            assert(pre.drop_last() =~= self.transition_rules@.subrange(0, i - 1));
            if self.transition_rules[i - 1].0 == label {
                return Some(&self.transition_rules[i - 1].1);
            }
            i -= 1;
        }
        None
    }

    /// The labels that have a rule.
    pub fn labels(&self) -> (r: Vec<Label>)
        ensures
            forall|l: Label| r@.contains(l) <==> self.rule_spec(l) is Some,
    {
        let mut out: Vec<Label> = Vec::new();
        let mut i: usize = 0;
        while i < self.transition_rules.len()
            invariant
                i <= self.transition_rules@.len(),
                forall|l: Label| out@.contains(l) <==> last_rule(self.transition_rules@.subrange(0, i as int), l) is Some,
            decreases self.transition_rules.len() - i,
        {
            let ghost prev = out@;
            let l = self.transition_rules[i].0;
            out.push(l);
            assert forall|m: Label| out@.contains(m) <==> last_rule(self.transition_rules@.subrange(0, i + 1), m) is Some by {
                assert(self.transition_rules@.subrange(0, i + 1).drop_last() =~= self.transition_rules@.subrange(0, i as int));
                if out@.contains(m) && m != l {
                    let k = choose|k: int| 0 <= k < out@.len() && out@[k] == m;
                    assert(prev[k] == m);
                }
                if m == l {
                    assert(out@[prev.len() as int] == l);
                }
                if prev.contains(m) {
                    let k = choose|k: int| 0 <= k < prev.len() && prev[k] == m;
                    assert(out@[k] == m);
                }
            }
            i += 1;
        }
        assert(self.transition_rules@.subrange(0, i as int) =~= self.transition_rules@);
        out
    }

    pub closed spec fn comments_view(&self) -> Option<String> {
        self.comments
    }

    pub fn comments(&self) -> (r: &Option<String>)
        ensures
            *r == self.comments_view(),
    {
        &self.comments
    }

    /// The entries as given, in order.
    pub fn transition_rules(&self) -> (r: &Vec<(Label, PossiblyDirectedMultinomialDistribution)>)
        ensures
            forall|l: Label| #[trigger] self.rule_spec(l) == last_rule(r@, l),
    {
        &self.transition_rules
    }
}

/// What happened to a popped tile.
#[derive(Clone, Copy, Debug, PartialEq, Eq)]
pub enum CollapseOutcome {
    /// The tile was already finalized.
    AlreadyFinal,
    /// The tile's distribution is empty: no label can be drawn.
    NoLabel,
    /// The drawn label has no rule: the tile is left undecided, outside the
    /// undecided index.
    NoRule(Label),
    /// The tile was finalized with the label, and its neighbours constrained.
    Finalized(Label),
}

/// How `new` relates to `old` after a tile at `from` was finalized under the
/// rule entry `e`: an undecided neighbour takes the joint of the transition
/// toward it with its distribution, where there is such a transition and the
/// joint is not empty; otherwise it is left as it was.
pub open spec fn constrained<P: PositionKey>(
    e: PossiblyDirectedMultinomialDistribution,
    from: Position2D<P>,
    old: Map2DNode<P>,
    new: Map2DNode<P>,
) -> bool {
    match old.state {
        MapNodeState::Undecided(dn) => {
            let tr = transition_toward(
                e,
                direction_of_offset(
                    old.position.x.value() - from.x.value(),
                    old.position.y.value() - from.y.value(),
                ),
            );
            if tr is Some && joint_entries(tr->0@, dn@).len() > 0 {
                new.position == old.position && (new.state matches MapNodeState::Undecided(nd)
                    && nd@ == joint_entries(tr->0@, dn@))
            } else {
                new == old
            }
        },
        MapNodeState::Finalized(_) => new == old,
    }
}

/// Whether tile `j` of `tiles` is a neighbour of `from` under `AG`.
pub open spec fn is_neighbour<AG: AdjacencyGenerator, P: PositionKey>(
    tiles: Seq<Map2DNode<P>>,
    from: Position2D<P>,
    j: int,
) -> bool {
    shifted(from, AG::offsets()).contains((tiles[j].position.x.value(), tiles[j].position.y.value()))
}

/// Appends tile `i`, not yet queued, to the queue and marks it enqueued.
fn push_pending(queue: &mut Vec<usize>, enqueued: &mut Vec<bool>, i: usize)
    requires
        i < old(enqueued)@.len(),
        !old(queue)@.contains(i),
        old(queue)@.no_duplicates(),
        forall|j: usize| j < old(enqueued)@.len() ==> (#[trigger] old(enqueued)@[j as int] <==> old(queue)@.contains(j)),
    ensures
        final(queue)@ == old(queue)@.push(i),
        final(queue)@.no_duplicates(),
        final(enqueued)@ == old(enqueued)@.update(i as int, true),
        forall|j: usize| j < final(enqueued)@.len() ==> (#[trigger] final(enqueued)@[j as int] <==> final(queue)@.contains(j)),
{
    let ghost q = queue@;
    queue.push(i);
    enqueued.set(i, true);
    proof {
        lemma_push_contains(q, i);
        assert forall|j: usize| j < enqueued@.len() implies (#[trigger] enqueued@[j as int] <==> queue@.contains(j)) by {
            assert(queue@.contains(j) <==> (q.contains(j) || j == i));
            if j != i {
                assert(enqueued@[j as int] == old(enqueued)@[j as int]);
            }
        }
        assert forall|a: int, b: int| 0 <= a < queue@.len() && 0 <= b < queue@.len() && a != b implies queue@[a] != queue@[b] by {
            if a < q.len() && b < q.len() {
                assert(queue@[a] == q[a] && queue@[b] == q[b]);
            } else if a < q.len() {
                assert(queue@[a] == q[a]);
                assert(q.contains(q[a]));
            } else {
                assert(queue@[b] == q[b]);
                assert(q.contains(q[b]));
            }
        }
    }
}

/// Queue order: an undecided tile before a finalized one; among undecided
/// tiles the lesser rank first; then the lesser position, x before y.
pub open spec fn key_precedes<P: PositionKey>(
    fa: bool,
    ra: u64,
    pa: Position2D<P>,
    fb: bool,
    rb: u64,
    pb: Position2D<P>,
) -> bool {
    if fa != fb {
        !fa
    } else if !fa && ra != rb {
        ra < rb
    } else if pa.x.value() != pb.x.value() {
        pa.x.value() < pb.x.value()
    } else {
        pa.y.value() < pb.y.value()
    }
}

/// The rank observed for tile `t`: what `rank` gave for its distribution; 0
/// for a finalized tile, whose rank plays no part.
pub open spec fn rank_observed<P: PositionKey, F: Fn(&MultinomialDistribution) -> u64>(
    rank: F,
    t: Map2DNode<P>,
    r: u64,
) -> bool {
    match t.state {
        MapNodeState::Undecided(d) => rank.ensures((&d,), r),
        MapNodeState::Finalized(_) => r == 0,
    }
}

/// With `ks` the ranks observed for the queued tiles `q`, tile `i` comes
/// first in queue order: no queued tile precedes it.
pub open spec fn pops_first<P: PositionKey, F: Fn(&MultinomialDistribution) -> u64>(
    rank: F,
    tiles: Seq<Map2DNode<P>>,
    q: Seq<usize>,
    i: usize,
    ks: Seq<u64>,
) -> bool {
    let b = q.index_of(i);
    &&& ks.len() == q.len()
    &&& forall|m: int| 0 <= m < q.len() ==> rank_observed(rank, tiles[q[m] as int], #[trigger] ks[m])
    &&& forall|m: int|
        0 <= m < q.len() ==> !key_precedes(
            tiles[q[m] as int].state is Finalized,
            #[trigger] ks[m],
            tiles[q[m] as int].position,
            tiles[i as int].state is Finalized,
            ks[b],
            tiles[i as int].position,
        )
}

/// Tile `i` comes first in queue order, for some ranks that `rank` may give.
pub open spec fn comes_first<P: PositionKey, F: Fn(&MultinomialDistribution) -> u64>(
    rank: F,
    tiles: Seq<Map2DNode<P>>,
    q: Seq<usize>,
    i: usize,
) -> bool {
    exists|ks: Seq<u64>| #[trigger] pops_first(rank, tiles, q, i, ks)
}

/// Each tile keeps its position, and a finalized tile stays as it was.
pub open spec fn kept_finalized<P: PositionKey>(before: Seq<Map2DNode<P>>, after: Seq<Map2DNode<P>>) -> bool {
    &&& after.len() == before.len()
    &&& forall|j: int|
        0 <= j < before.len() ==> #[trigger] after[j].position == before[j].position && (
        before[j].state is Finalized ==> after[j] == before[j])
}

/// Each tile that was undecided in `before` has, in `after`, only labels it
/// could take in `before`: a distribution within the same labels, or one of
/// those labels as its final one.
pub open spec fn labels_within<P: PositionKey>(before: Seq<Map2DNode<P>>, after: Seq<Map2DNode<P>>) -> bool {
    forall|j: int|
        0 <= j < before.len() && j < after.len() ==> match #[trigger] before[j].state {
            MapNodeState::Undecided(d0) => match after[j].state {
                MapNodeState::Undecided(d) => forall|l: Label| has_label(d@, l) ==> has_label(d0@, l),
                MapNodeState::Finalized(l) => has_label(d0@, l),
            },
            MapNodeState::Finalized(_) => true,
        }
}

/// Every undecided tile is in the undecided index, has a label to draw, and
/// every label it may draw has a rule.
pub open spec fn every_tile_ruled<P: PositionKey>(
    tiles: Seq<Map2DNode<P>>,
    flags: Seq<bool>,
    rules: MapColoringAssigner,
) -> bool {
    forall|j: int|
        0 <= j < tiles.len() ==> match #[trigger] tiles[j].state {
            MapNodeState::Undecided(d) => flags[j] && d@.len() > 0 && forall|l: Label|
                has_label(d@, l) ==> rules.rule_spec(l) is Some,
            MapNodeState::Finalized(_) => true,
        }
}

/// A run of the collapse engine over a grid.
#[derive(Debug)]
pub struct MapColoringJob<AG: AdjacencyGenerator, P: PositionKey> {
    rules: MapColoringAssigner,
    map: Map2D<P>,
    queue: Vec<usize>,
    enqueued: Vec<bool>,
    adjacency: AG,
}

impl<AG: AdjacencyGenerator, P: PositionKey> MapColoringJob<AG, P> {
    /// The grid is well formed; the queue holds distinct tile handles, and a
    /// tile is marked enqueued exactly when it is in the queue.
    pub closed spec fn wf(&self) -> bool {
        &&& self.map.wf()
        &&& self.enqueued@.len() == self.map.tiles_view().len()
        &&& self.queue@.no_duplicates()
        &&& forall|k: int| 0 <= k < self.queue@.len() ==> #[trigger] self.queue@[k] < self.map.tiles_view().len()
        &&& forall|i: usize| i < self.enqueued@.len() ==> (#[trigger] self.enqueued@[i as int] <==> self.queue@.contains(i))
    }

    pub closed spec fn map_view(&self) -> Map2D<P> {
        self.map
    }

    pub closed spec fn queue_view(&self) -> Seq<usize> {
        self.queue@
    }

    pub closed spec fn rules_view(&self) -> MapColoringAssigner {
        self.rules
    }

    /// A job over `map` with an empty queue.
    pub fn new(rules: MapColoringAssigner, map: Map2D<P>, adjacency: AG) -> (r: Self)
        requires
            map.wf(),
        ensures
            r.wf(),
            r.map_view() == map,
            r.rules_view() == rules,
            r.queue_view().len() == 0,
    {
        let n = map.len();
        let mut enqueued: Vec<bool> = Vec::new();
        let mut i: usize = 0;
        while i < n
            invariant
                i <= n,
                enqueued@.len() == i,
                forall|j: int| 0 <= j < i ==> !#[trigger] enqueued@[j],
            decreases n - i,
        {
            enqueued.push(false);
            i += 1;
        }
        Self { rules, map, queue: Vec::new(), enqueued, adjacency }
    }

    /// A job over `map` whose queue holds the first tile of the undecided index.
    pub fn new_with_queue(rules: MapColoringAssigner, map: Map2D<P>, adjacency: AG) -> (r: Self)
        requires
            map.wf(),
        ensures
            r.wf(),
            r.map_view() == map,
            r.rules_view() == rules,
            r.queue_view().len() <= 1,
            (exists|i: int| 0 <= i < map.undecided_view().len() && map.undecided_view()[i])
                <==> r.queue_view().len() == 1,
    {
        let mut inst = Self::new(rules, map, adjacency);
        let ghost q0 = inst.queue_view();
        let pushed = inst.build_queue();
        proof {
            if pushed {
                let i = choose|i: usize|
                    i < inst.map_view().undecided_view().len() && #[trigger] inst.map_view().undecided_view()[i as int]
                        && !q0.contains(i) && inst.queue_view() == q0.push(i);
                assert(map.undecided_view()[i as int]);
            }
            if !pushed {
                assert forall|i: int| 0 <= i < map.undecided_view().len() implies !map.undecided_view()[i] by {
                    if map.undecided_view()[i] {
                        assert(inst.queue_view().contains(i as usize));
                    }
                }
            }
        }
        inst
    }

    /// Pushes the first tile of the undecided index that is not already
    /// queued. Returns whether there was one.
    pub fn build_queue(&mut self) -> (r: bool)
        requires
            old(self).wf(),
        ensures
            final(self).wf(),
            final(self).map_view() == old(self).map_view(),
            final(self).rules_view() == old(self).rules_view(),
            r ==> exists|i: usize|
                i < final(self).map_view().undecided_view().len() && #[trigger] final(self).map_view().undecided_view()[i as int]
                    && !old(self).queue_view().contains(i) && final(self).queue_view() == old(self).queue_view().push(i),
            !r ==> final(self).queue_view() == old(self).queue_view() && forall|i: int|
                0 <= i < old(self).map_view().undecided_view().len() && #[trigger] old(self).map_view().undecided_view()[i]
                    ==> old(self).queue_view().contains(i as usize),
    {
        self.map.check_invariant();
        let n = self.map.len();
        let mut i: usize = 0;
        while i < n
            invariant
                self.wf(),
                *self == *old(self),
                n == self.map.tiles_view().len(),
                n == self.map.undecided_view().len(),
                i <= n,
                forall|j: int| 0 <= j < i && #[trigger] self.map.undecided_view()[j] ==> self.queue@.contains(j as usize),
            decreases n - i,
        {
            if self.map.is_undecided(i) && !self.enqueued[i] {
                self.push_tile(i);
                assert(i < self.map_view().undecided_view().len() && self.map_view().undecided_view()[i as int]
                    && !old(self).queue_view().contains(i) && self.queue_view() == old(self).queue_view().push(i));
                return true;
            }
            i += 1;
        }
        false
    }

    /// Appends tile `i`, not yet queued, to the queue.
    fn push_tile(&mut self, i: usize)
        requires
            old(self).wf(),
            i < old(self).map.tiles_view().len(),
            !old(self).queue@.contains(i),
        ensures
            final(self).wf(),
            final(self).map == old(self).map,
            final(self).rules == old(self).rules,
            final(self).queue@ == old(self).queue@.push(i),
    {
        let ghost q = self.queue@;
        self.queue.push(i);
        self.enqueued.set(i, true);
        assert forall|a: int, b: int| 0 <= a < self.queue@.len() && 0 <= b < self.queue@.len() && a != b implies self.queue@[a] != self.queue@[b] by {
            if a < q.len() && b < q.len() {
                assert(self.queue@[a] == q[a] && self.queue@[b] == q[b]);
            } else if a < q.len() {
                assert(self.queue@[a] == q[a]);
            } else {
                assert(self.queue@[b] == q[b]);
            }
        }
        proof {
            lemma_push_contains(q, i);
            assert forall|j: usize| j < self.enqueued@.len() implies (#[trigger] self.enqueued@[j as int]
                <==> self.queue@.contains(j)) by {
                assert(self.queue@.contains(j) <==> (q.contains(j) || j == i));
                if j != i {
                    assert(self.enqueued@[j as int] == old(self).enqueued@[j as int]);
                }
            }
            assert forall|a: int, b: int| 0 <= a < self.queue@.len() && 0 <= b < self.queue@.len() && a != b implies self.queue@[a] != self.queue@[b] by {
                if a < q.len() && b < q.len() {
                    assert(self.queue@[a] == q[a] && self.queue@[b] == q[b]);
                } else if a < q.len() {
                    assert(self.queue@[a] == q[a]);
                    assert(q.contains(q[a]));
                } else {
                    assert(self.queue@[b] == q[b]);
                    assert(q.contains(q[b]));
                }
            }
            assert forall|k: int| 0 <= k < self.queue@.len() implies #[trigger] self.queue@[k] < self.map.tiles_view().len() by {
                if k < q.len() {
                    assert(self.queue@[k] == q[k]);
                }
            }
        }
    }

    /// Collapses tile `tile`: draws a label from its distribution with the
    /// draw `draw` (taken modulo the total weight), finalizes the tile with it
    /// and constrains each undecided neighbour by the rule of that label,
    /// queueing those not queued yet. A finalized tile, an empty distribution
    /// or a label without a rule change nothing.
    pub fn collapse(&mut self, tile: usize, draw: u128) -> (r: CollapseOutcome)
        requires
            old(self).wf(),
            tile < old(self).map_view().tiles_view().len(),
        ensures
            final(self).wf(),
            final(self).rules_view() == old(self).rules_view(),
            final(self).map_view().tiles_view().len() == old(self).map_view().tiles_view().len(),
            final(self).map_view().min_view() == old(self).map_view().min_view(),
            final(self).map_view().max_view() == old(self).map_view().max_view(),
            !(r is Finalized) ==> *final(self) == *old(self),
            r is Finalized ==> final(self).map_view().undecided_view() == old(self).map_view().undecided_view().update(tile as int, false),
            r is Finalized ==> count_open(final(self).map_view().tiles_view()) + 1 == count_open(
                old(self).map_view().tiles_view(),
            ),
            ({
                let old_tiles = old(self).map_view().tiles_view();
                let new_tiles = final(self).map_view().tiles_view();
                let t = old_tiles[tile as int];
                match t.state {
                    MapNodeState::Finalized(_) => r == CollapseOutcome::AlreadyFinal,
                    MapNodeState::Undecided(d) => if d@.len() == 0 {
                        r == CollapseOutcome::NoLabel
                    } else {
                        let l = pick(d@, (draw as int) % (sum_weights(d@) as int));
                        match old(self).rules_view().rule_spec(l) {
                            None => r == CollapseOutcome::NoRule(l),
                            Some(e) => {
                                &&& r == CollapseOutcome::Finalized(l)
                                &&& new_tiles[tile as int] == Map2DNode {
                                    position: t.position,
                                    state: MapNodeState::Finalized(l),
                                }
                                &&& forall|j: int|
                                    0 <= j < new_tiles.len() && j != tile ==> if is_neighbour::<AG, P>(
                                        old_tiles,
                                        t.position,
                                        j,
                                    ) {
                                        constrained(e, t.position, old_tiles[j], #[trigger] new_tiles[j])
                                    } else {
                                        new_tiles[j] == old_tiles[j]
                                    }
                            },
                        }
                    },
                }
            }),
    {
        self.map.check_invariant();
        let pos = self.map.tile(tile).position;
        let label = match &self.map.tile(tile).state {
            MapNodeState::Finalized(_) => {
                return CollapseOutcome::AlreadyFinal;
            },
            MapNodeState::Undecided(d) => {
                if d.is_empty() {
                    return CollapseOutcome::NoLabel;
                }
                let total = d.total_weights();
                let _ = d.is_well_formed();
                assert(total > 0) by {
                    assert(d@[0].1 > 0);
                }
                d.sample_at(draw % total)
            },
        };
        let e = match self.rules.rule_for(label) {
            None => {
                return CollapseOutcome::NoRule(label);
            },
            Some(e) => e,
        };
        let ghost old_tiles = self.map.tiles_view();
        let ghost old_count = count_open(old_tiles);
        self.map.finalize_tile(tile, label);
        let ghost fin = self.map.tiles_view();
        proof {
            lemma_count_open_update(old_tiles, tile as int, fin[tile as int]);
        }
        let nb = self.map.adjacent_from_pos::<AG>(pos);
        let n = self.map.len();
        let mut k: usize = 0;
        while k < nb.len()
            invariant
                self.map.wf(),
                self.map.tiles_view().len() == n,
                n == fin.len(),
                fin.len() == old_tiles.len(),
                self.map.undecided_view() == old(self).map.undecided_view().update(tile as int, false),
                self.map.min_view() == old(self).map.min_view(),
                self.map.max_view() == old(self).map.max_view(),
                self.rules == old(self).rules,
                self.enqueued@.len() == n,
                self.queue@.no_duplicates(),
                forall|m: int| 0 <= m < self.queue@.len() ==> #[trigger] self.queue@[m] < n,
                forall|i: usize| i < self.enqueued@.len() ==> (#[trigger] self.enqueued@[i as int] <==> self.queue@.contains(i)),
                count_open(self.map.tiles_view()) == count_open(fin),
                count_open(fin) + 1 == old_count,
                old_count == count_open(old_tiles),
                fin[tile as int] == (Map2DNode { position: pos, state: MapNodeState::Finalized(label) }),
                forall|j: int| 0 <= j < n && j != tile ==> fin[j] == old_tiles[j],
                nb@.no_duplicates(),
                forall|m: int| 0 <= m < nb@.len() ==> #[trigger] nb@[m] < n && shifted(pos, AG::offsets()).contains(
                    (fin[nb@[m] as int].position.x.value(), fin[nb@[m] as int].position.y.value())),
                forall|j: int| 0 <= j < n && shifted(pos, AG::offsets()).contains(
                    (#[trigger] fin[j].position.x.value(), fin[j].position.y.value())) ==> nb@.contains(j as usize),
                k <= nb@.len(),
                forall|j: int|
                    0 <= j < n ==> if nb@.subrange(0, k as int).contains(j as usize) && j != tile {
                        constrained(*e, pos, fin[j], #[trigger] self.map.tiles_view()[j])
                    } else {
                        self.map.tiles_view()[j] == fin[j]
                    },
            decreases nb.len() - k,
        {
            let j = nb[k];
            let ghost cur = self.map.tiles_view();
            assert(!nb@.subrange(0, k as int).contains(j)) by {
                if nb@.subrange(0, k as int).contains(j) {
                    let a = choose|a: int| 0 <= a < k && nb@.subrange(0, k as int)[a] == j;
                    assert(nb@[a] == nb@[k as int]);
                }
            }
            assert(cur[j as int] == fin[j as int]);
            let t = self.map.tile(j);
            let tpos = t.position;
            let mut undecided = false;
            match &t.state {
                MapNodeState::Undecided(dn) => {
                    let dir = Directions2d::between(pos, tpos);
                    match e.transition(dir) {
                        Some(tr) => {
                            let nd = tr.joint_probability(dn);
                            if !nd.is_empty() {
                                let _ = nd.is_well_formed();
                                self.map.set_distribution(j, nd);
                                proof {
                                    lemma_count_open_update(cur, j as int, self.map.tiles_view()[j as int]);
                                }
                            }
                        },
                        None => {},
                    }
                    undecided = true;
                },
                MapNodeState::Finalized(_) => {},
            }
            if undecided && !self.enqueued[j] {
                push_pending(&mut self.queue, &mut self.enqueued, j);
            }
            proof {
                assert forall|jj: int|
                    0 <= jj < n implies if nb@.subrange(0, k + 1).contains(jj as usize) && jj != tile {
                        constrained(*e, pos, fin[jj], #[trigger] self.map.tiles_view()[jj])
                    } else {
                        self.map.tiles_view()[jj] == fin[jj]
                    } by {
                    assert(nb@.subrange(0, k + 1) =~= nb@.subrange(0, k as int).push(j));
                    lemma_push_contains(nb@.subrange(0, k as int), j);
                    if jj == j as int && j != tile {
                        assert(fin[jj].position == tpos);
                    }
                }
            }
            k += 1;
        }
        proof {
            let new_tiles = self.map.tiles_view();
            assert(nb@.subrange(0, nb@.len() as int) =~= nb@);
            assert forall|j: int| 0 <= j < new_tiles.len() && j != tile implies if is_neighbour::<AG, P>(
                old_tiles,
                pos,
                j,
            ) {
                constrained(*e, pos, old_tiles[j], #[trigger] new_tiles[j])
            } else {
                new_tiles[j] == old_tiles[j]
            } by {
                if is_neighbour::<AG, P>(old_tiles, pos, j) {
                    assert(fin[j] == old_tiles[j]);
                    assert(nb@.contains(j as usize));
                } else {
                    if nb@.contains(j as usize) {
                        let m = choose|m: int| 0 <= m < nb@.len() && nb@[m] == j as usize;
                        assert(shifted(pos, AG::offsets()).contains(
                            (fin[nb@[m] as int].position.x.value(), fin[nb@[m] as int].position.y.value())));
                    }
                }
            }
        }
        CollapseOutcome::Finalized(label)
    }

    /// Runs the engine until no tile is left to decide: pops the most certain
    /// queued tile and collapses it with a random draw; when the queue runs
    /// dry, seeds it with the next tile of the undecided index, so that every
    /// connected part of the grid is reached. On return the queue and the
    /// undecided index are empty.
    pub fn assign_map<F: Fn(&MultinomialDistribution) -> u64>(&mut self, rank: &F)
        requires
            old(self).wf(),
            forall|d: &MultinomialDistribution| #[trigger] rank.requires((d,)),
        ensures
            final(self).wf(),
            final(self).rules_view() == old(self).rules_view(),
            final(self).queue_view().len() == 0,
            final(self).map_view().tiles_view().len() == old(self).map_view().tiles_view().len(),
            final(self).map_view().min_view() == old(self).map_view().min_view(),
            final(self).map_view().max_view() == old(self).map_view().max_view(),
            count_true(final(self).map_view().undecided_view()) == 0,
            kept_finalized(old(self).map_view().tiles_view(), final(self).map_view().tiles_view()),
            labels_within(old(self).map_view().tiles_view(), final(self).map_view().tiles_view()),
            every_tile_ruled(old(self).map_view().tiles_view(), old(self).map_view().undecided_view(), old(self).rules_view())
                ==> forall|j: int|
                0 <= j < final(self).map_view().tiles_view().len() ==> #[trigger] final(self).map_view().tiles_view()[j].state is Finalized,
    {
        let ghost ruled = every_tile_ruled(self.map.tiles_view(), self.map.undecided_view(), self.rules);
        loop
            invariant_except_break
                kept_finalized(old(self).map.tiles_view(), self.map.tiles_view()),
                labels_within(old(self).map.tiles_view(), self.map.tiles_view()),
                ruled == every_tile_ruled(old(self).map.tiles_view(), old(self).map.undecided_view(), old(self).rules),
                ruled ==> every_tile_ruled(self.map.tiles_view(), self.map.undecided_view(), self.rules),
                self.wf(),
                forall|d: &MultinomialDistribution| #[trigger] rank.requires((d,)),
                self.rules == old(self).rules,
                self.map.tiles_view().len() == old(self).map.tiles_view().len(),
                self.map.min_view() == old(self).map.min_view(),
                self.map.max_view() == old(self).map.max_view(),
            ensures
                kept_finalized(old(self).map.tiles_view(), self.map.tiles_view()),
                labels_within(old(self).map.tiles_view(), self.map.tiles_view()),
                ruled ==> every_tile_ruled(self.map.tiles_view(), self.map.undecided_view(), self.rules),
                self.wf(),
                self.rules == old(self).rules,
                self.queue@.len() == 0,
                self.map.tiles_view().len() == old(self).map.tiles_view().len(),
                self.map.min_view() == old(self).map.min_view(),
                self.map.max_view() == old(self).map.max_view(),
                forall|i: int|
                    0 <= i < self.map.undecided_view().len() ==> !#[trigger] self.map.undecided_view()[i],
            decreases count_open(self.map.tiles_view()), count_true(self.map.undecided_view()), self.queue@.len(),
        {
            self.map.check_invariant();
            let ghost tiles0 = self.map.tiles_view();
            let ghost fl0 = self.map.undecided_view();
            let mut seeded = false;
            if self.queue.len() == 0 {
                if !self.build_queue() {
                    break;
                }
                seeded = true;
            }
            let ghost q1 = self.queue@;
            let ghost flags1 = self.map.undecided_view();
            let i = match self.pop_next(rank) {
                Some(i) => i,
                None => {
                    break;
                },
            };
            proof {
                if seeded {
                    assert(q1.len() == 1);
                    assert(q1[0] == i);
                    assert(flags1[i as int]);
                }
                lemma_count_true_update(flags1, i as int, false);
                lemma_remove_contains(q1, q1.index_of(i));
            }
            let draw: u128 = match &self.map.tile(i).state {
                MapNodeState::Undecided(d) => {
                    if d.is_empty() {
                        0
                    } else {
                        let _ = d.is_well_formed();
                        let total = d.total_weights();
                        assert(total > 0) by {
                            assert(d@[0].1 > 0);
                        }
                        random_below(total)
                    }
                },
                MapNodeState::Finalized(_) => 0,
            };
            let ghost flags2 = self.map.undecided_view();
            let ghost tiles2 = self.map.tiles_view();
            let outcome = self.collapse(i, draw);
            proof {
                if outcome is Finalized {
                    lemma_count_true_update(flags2, i as int, false);
                }
                let tiles3 = self.map.tiles_view();
                let d0 = tiles2[i as int].state->Undecided_0;
                let l0 = pick(d0@, (draw as int) % (sum_weights(d0@) as int));
                let from = tiles2[i as int].position;
                assert forall|j: int| 0 <= j < tiles3.len() implies #[trigger] tiles3[j].position == tiles2[j].position
                    && (tiles2[j].state is Finalized ==> tiles3[j] == tiles2[j]) by {
                    if outcome is Finalized && j != i as int {
                        if is_neighbour::<AG, P>(tiles2, from, j) {
                            assert(constrained(self.rules.rule_spec(l0).unwrap(), from, tiles2[j], tiles3[j]));
                        }
                    }
                }
                if outcome is Finalized {
                    assert(all_well_formed(tiles0));
                    assert(well_formed(d0@));
                    lemma_sum_positive(d0@);
                    lemma_pick_has_label(d0@, (draw as int) % (sum_weights(d0@) as int));
                }
                assert forall|j: int| 0 <= j < tiles2.len() && j < tiles3.len() implies match #[trigger] tiles2[j].state {
                    MapNodeState::Undecided(da) => match tiles3[j].state {
                        MapNodeState::Undecided(d) => forall|l: Label| has_label(d@, l) ==> has_label(da@, l),
                        MapNodeState::Finalized(l) => has_label(da@, l),
                    },
                    MapNodeState::Finalized(_) => true,
                } by {
                    if outcome is Finalized && j != i as int && is_neighbour::<AG, P>(tiles2, from, j) {
                        let e = self.rules.rule_spec(l0).unwrap();
                        assert(constrained(e, from, tiles2[j], tiles3[j]));
                        if let MapNodeState::Undecided(dn) = tiles2[j].state {
                            if let MapNodeState::Undecided(nd) = tiles3[j].state {
                                if tiles3[j] != tiles2[j] {
                                    let tr = transition_toward(
                                        e,
                                        direction_of_offset(
                                            tiles2[j].position.x.value() - from.x.value(),
                                            tiles2[j].position.y.value() - from.y.value(),
                                        ),
                                    );
                                    assert forall|l: Label| has_label(nd@, l) implies has_label(dn@, l) by {
                                        lemma_joint_labels(tr->0@, dn@, l);
                                    }
                                }
                            }
                        }
                    }
                }
                let ob = old(self).map.tiles_view();
                assert forall|j: int| 0 <= j < ob.len() && j < tiles3.len() implies match #[trigger] ob[j].state {
                    MapNodeState::Undecided(d0) => match tiles3[j].state {
                        MapNodeState::Undecided(d) => forall|l: Label| has_label(d@, l) ==> has_label(d0@, l),
                        MapNodeState::Finalized(l) => has_label(d0@, l),
                    },
                    MapNodeState::Finalized(_) => true,
                } by {
                    assert(tiles2[j] == tiles0[j]);
                    assert(match ob[j].state {
                        MapNodeState::Undecided(d0) => match tiles0[j].state {
                            MapNodeState::Undecided(d) => forall|l: Label| has_label(d@, l) ==> has_label(d0@, l),
                            MapNodeState::Finalized(l) => has_label(d0@, l),
                        },
                        MapNodeState::Finalized(_) => true,
                    });
                    assert(match tiles2[j].state {
                        MapNodeState::Undecided(da) => match tiles3[j].state {
                            MapNodeState::Undecided(d) => forall|l: Label| has_label(d@, l) ==> has_label(da@, l),
                            MapNodeState::Finalized(l) => has_label(da@, l),
                        },
                        MapNodeState::Finalized(_) => true,
                    });
                }
                if ruled {
                    let flags3 = self.map.undecided_view();
                    assert(tiles2 == tiles0);
                    assert(flags2 == fl0.update(i as int, false));
                    if let MapNodeState::Undecided(d) = tiles2[i as int].state {
                        assert(d@.len() > 0);
                        lemma_sum_positive(d@);
                        let u = (draw as int) % (sum_weights(d@) as int);
                        lemma_pick_has_label(d@, u);
                        assert(outcome is Finalized);
                    }
                    assert forall|j: int| 0 <= j < tiles3.len() implies match #[trigger] tiles3[j].state {
                        MapNodeState::Undecided(d) => flags3[j] && d@.len() > 0 && forall|l: Label|
                            has_label(d@, l) ==> self.rules.rule_spec(l) is Some,
                        MapNodeState::Finalized(_) => true,
                    } by {
                        if j != i as int {
                            assert(flags3[j] == fl0[j]);
                            if let MapNodeState::Undecided(d3) = tiles3[j].state {
                                if let MapNodeState::Undecided(dn) = tiles0[j].state {
                                    assert forall|l: Label| has_label(d3@, l) implies self.rules.rule_spec(l) is Some by {
                                        if d3@ != dn@ {
                                            let tr = transition_toward(
                                                self.rules.rule_spec(l0).unwrap(),
                                                direction_of_offset(
                                                    tiles0[j].position.x.value() - from.x.value(),
                                                    tiles0[j].position.y.value() - from.y.value(),
                                                ),
                                            );
                                            lemma_joint_labels(tr->0@, dn@, l);
                                        }
                                    }
                                }
                            }
                        }
                    }
                }
            }
        }
        self.map.check_invariant();
        proof {
            lemma_count_true_zero(self.map.undecided_view());
            if ruled {
                assert forall|j: int| 0 <= j < self.map.tiles_view().len() implies #[trigger] self.map.tiles_view()[j].state is Finalized by {
                    assert(!self.map.undecided_view()[j]);
                    if let MapNodeState::Undecided(d) = self.map.tiles_view()[j].state {
                        assert(self.map.undecided_view()[j]);
                    }
                }
            }
        }
    }

    /// Seeds the queue with the first tile of the undecided index, then runs
    /// the engine to completion.
    pub fn queue_and_assign<F: Fn(&MultinomialDistribution) -> u64>(&mut self, rank: &F)
        requires
            old(self).wf(),
            forall|d: &MultinomialDistribution| #[trigger] rank.requires((d,)),
        ensures
            final(self).wf(),
            final(self).rules_view() == old(self).rules_view(),
            final(self).queue_view().len() == 0,
            final(self).map_view().tiles_view().len() == old(self).map_view().tiles_view().len(),
            final(self).map_view().min_view() == old(self).map_view().min_view(),
            final(self).map_view().max_view() == old(self).map_view().max_view(),
            count_true(final(self).map_view().undecided_view()) == 0,
            kept_finalized(old(self).map_view().tiles_view(), final(self).map_view().tiles_view()),
            labels_within(old(self).map_view().tiles_view(), final(self).map_view().tiles_view()),
            every_tile_ruled(old(self).map_view().tiles_view(), old(self).map_view().undecided_view(), old(self).rules_view())
                ==> forall|j: int|
                0 <= j < final(self).map_view().tiles_view().len() ==> #[trigger] final(self).map_view().tiles_view()[j].state is Finalized,
    {
        self.build_queue();
        self.assign_map(rank);
    }

    /// The grid.
    pub fn map(&self) -> (r: &Map2D<P>)
        ensures
            *r == self.map_view(),
    {
        &self.map
    }

    /// The grid, the job given up.
    pub fn into_map(self) -> (r: Map2D<P>)
        ensures
            r == self.map_view(),
    {
        self.map
    }

    /// The number of queued tiles.
    pub fn queue_len(&self) -> (r: usize)
        ensures
            r == self.queue_view().len(),
    {
        self.queue.len()
    }

    /// Takes the most certain tile out of the queue: an undecided tile before
    /// a finalized one, then the least `rank` of its distribution, then the
    /// least position, x before y. The tile also leaves the undecided index.
    pub fn pop_next<F: Fn(&MultinomialDistribution) -> u64>(&mut self, rank: &F) -> (r: Option<usize>)
        requires
            old(self).wf(),
            forall|d: &MultinomialDistribution| #[trigger] rank.requires((d,)),
        ensures
            final(self).wf(),
            final(self).rules_view() == old(self).rules_view(),
            r is None <==> old(self).queue_view().len() == 0,
            r is None ==> *final(self) == *old(self),
            final(self).map_view().min_view() == old(self).map_view().min_view(),
            final(self).map_view().max_view() == old(self).map_view().max_view(),
            r matches Some(i) ==> comes_first(*rank, old(self).map_view().tiles_view(), old(self).queue_view(), i),
            r matches Some(i) ==> {
                &&& old(self).queue_view().contains(i)
                &&& final(self).queue_view() == old(self).queue_view().remove(old(self).queue_view().index_of(i))
                &&& final(self).map_view().tiles_view() == old(self).map_view().tiles_view()
                &&& final(self).map_view().undecided_view() == old(self).map_view().undecided_view().update(i as int, false)
            },
    {
        if self.queue.len() == 0 {
            return None;
        }
        let mut best: usize = 0;
        let first = self.queue[0];
        let mut best_final = self.map.tile(first).state.is_assigned();
        let mut best_rank: u64 = match &self.map.tile(first).state {
            MapNodeState::Undecided(d) => rank(d),
            MapNodeState::Finalized(_) => 0,
        };
        let mut best_pos = self.map.tile(first).position;
        let ghost tiles = self.map.tiles_view();
        let ghost qq = self.queue@;
        let ghost mut ks: Seq<u64> = seq![best_rank];
        let mut k: usize = 1;
        while k < self.queue.len()
            invariant
                self.wf(),
                *self == *old(self),
                tiles == self.map.tiles_view(),
                qq == self.queue@,
                1 <= k <= qq.len(),
                best < k,
                ks.len() == k,
                forall|d: &MultinomialDistribution| #[trigger] rank.requires((d,)),
                best_final == tiles[qq[best as int] as int].state is Finalized,
                best_pos == tiles[qq[best as int] as int].position,
                best_rank == ks[best as int],
                forall|m: int| 0 <= m < k ==> rank_observed(*rank, tiles[qq[m] as int], #[trigger] ks[m]),
                forall|m: int| 0 <= m < k ==> !key_precedes(
                    tiles[qq[m] as int].state is Finalized,
                    #[trigger] ks[m],
                    tiles[qq[m] as int].position,
                    best_final,
                    best_rank,
                    best_pos,
                ),
            decreases self.queue.len() - k,
        {
            let cand = self.queue[k];
            let t = self.map.tile(cand);
            let c_final = t.state.is_assigned();
            let c_rank: u64 = match &t.state {
                MapNodeState::Undecided(d) => rank(d),
                MapNodeState::Finalized(_) => 0,
            };
            let c_pos = t.position;
            proof {
                ks = ks.push(c_rank);
            }
            let better = if c_final != best_final {
                !c_final
            } else if !c_final && c_rank != best_rank {
                c_rank < best_rank
            } else if !c_pos.x.same_key(best_pos.x) {
                c_pos.x.less_than(best_pos.x)
            } else {
                c_pos.y.less_than(best_pos.y)
            };
            assert(better == key_precedes(c_final, c_rank, c_pos, best_final, best_rank, best_pos));
            if better {
                best = k;
                best_final = c_final;
                best_rank = c_rank;
                best_pos = c_pos;
            }
            proof {
                assert(ks[k as int] == c_rank);
                assert forall|m: int| 0 <= m < k + 1 implies rank_observed(*rank, tiles[qq[m] as int], #[trigger] ks[m]) by {
                    if m == k as int {
                        assert(qq[m] == cand);
                    }
                }
            }
            k += 1;
        }
        proof {
            let b = qq.index_of(qq[best as int]);
            qq.index_of_first_ensures(qq[best as int]);
            assert(b == best as int);
        }
        let ghost q = self.queue@;
        let i = self.queue.remove(best);
        self.enqueued.set(i, false);
        self.map.remove_undecided(i);
        proof {
            assert(q.index_of(i) == best as int) by {
                q.index_of_first_ensures(i);
                assert(q[best as int] == i);
            }
            lemma_remove_contains(q, best as int);
            assert(self.queue@ == q.remove(best as int));
            assert(pops_first(*rank, tiles, qq, i, ks));

            assert forall|j: usize| j < self.enqueued@.len() implies (#[trigger] self.enqueued@[j as int]
                <==> self.queue@.contains(j)) by {
                assert(self.queue@.contains(j) <==> (q.contains(j) && j != i));
                if j != i {
                    assert(self.enqueued@[j as int] == old(self).enqueued@[j as int]);
                }
            }
            assert forall|m: int| 0 <= m < self.queue@.len() implies #[trigger] self.queue@[m] < self.map.tiles_view().len() by {
                if m < best {
                    assert(self.queue@[m] == q[m]);
                } else {
                    assert(self.queue@[m] == q[m + 1]);
                }
            }
        }
        assert(comes_first(*rank, old(self).map_view().tiles_view(), old(self).queue_view(), i));
        Some(i)
    }
}

/// Drives every tile of `map` to a label under `rules`, with neighbours
/// given by `adjacency` and tiles ranked by `rank` (the entropy of their
/// distribution, lowest first). On return the undecided index is empty;
/// tiles whose drawn label had no rule, or whose distribution was empty, stay
/// undecided. Where every undecided tile is in the undecided index, has a
/// label to draw and has a rule for each label it may draw, every tile ends
/// finalized.
pub fn assign<AG: AdjacencyGenerator, P: PositionKey, F: Fn(&MultinomialDistribution) -> u64>(
    map: Map2D<P>,
    rules: MapColoringAssigner,
    adjacency: AG,
    rank: &F,
) -> (r: Map2D<P>)
    requires
        map.wf(),
        forall|d: &MultinomialDistribution| #[trigger] rank.requires((d,)),
    ensures
        r.wf(),
        r.tiles_view().len() == map.tiles_view().len(),
        r.min_view() == map.min_view(),
        r.max_view() == map.max_view(),
        count_true(r.undecided_view()) == 0,
        kept_finalized(map.tiles_view(), r.tiles_view()),
        labels_within(map.tiles_view(), r.tiles_view()),
        every_tile_ruled(map.tiles_view(), map.undecided_view(), rules) ==> forall|j: int|
            0 <= j < r.tiles_view().len() ==> #[trigger] r.tiles_view()[j].state is Finalized,
{
    let mut job = MapColoringJob::new_with_queue(rules, map, adjacency);
    job.assign_map(rank);
    job.into_map()
}

} // verus!
