//! Adjacency generators: stateless strategies that list the neighbour
//! positions of a position, dropping those whose coordinates would leave the
//! range of the coordinate type.
use vstd::prelude::*;

use crate::position::{Position2D, PositionKey};

verus! {

/// Whether `v` is a value of the coordinate type `P`.
pub open spec fn in_key_range<P: PositionKey>(v: int) -> bool {
    P::min_value() <= v <= P::max_value()
}

/// The coordinates of `p` moved by each offset of `offs` in turn, those that
/// leave the coordinate range left out.
pub open spec fn shifted<P: PositionKey>(p: Position2D<P>, offs: Seq<(i8, i8)>) -> Seq<(int, int)>
    decreases offs.len(),
{
    if offs.len() == 0 {
        Seq::empty()
    } else {
        let o = offs.last();
        let q = (p.x.value() + o.0, p.y.value() + o.1);
        shifted(p, offs.drop_last()) + if in_key_range::<P>(q.0) && in_key_range::<P>(q.1) {
            seq![q]
        } else {
            Seq::empty()
        }
    }
}

/// The coordinates of a sequence of positions.
pub open spec fn coords_of<P: PositionKey>(s: Seq<Position2D<P>>) -> Seq<(int, int)> {
    s.map_values(|q: Position2D<P>| (q.x.value(), q.y.value()))
}

/// The four axis-aligned offsets: x-1, x+1, y-1, y+1.
pub open spec fn cardinal_offsets() -> Seq<(i8, i8)> {
    seq![(-1i8, 0i8), (1i8, 0i8), (0i8, -1i8), (0i8, 1i8)]
}

/// The eight offsets at Chebyshev distance 1, row-major over dx then dy.
pub open spec fn octile_offsets() -> Seq<(i8, i8)> {
    seq![
        (-1i8, -1i8),
        (-1i8, 0i8),
        (-1i8, 1i8),
        (0i8, -1i8),
        (0i8, 1i8),
        (1i8, -1i8),
        (1i8, 0i8),
        (1i8, 1i8),
    ]
}

/// A strategy that lists the neighbours of a position.
pub trait AdjacencyGenerator {
    /// The offsets tried, in output order.
    spec fn offsets() -> Seq<(i8, i8)>;

    fn adjacents<P: PositionKey>(p: Position2D<P>) -> (r: Vec<Position2D<P>>)
        ensures
            coords_of(r@) == shifted(p, Self::offsets()),
            r@.len() <= 8,
    ;
}

/// The four axis-aligned neighbours.
#[derive(Clone, Copy, Debug)]
pub struct CardinalAdjacencyGenerator;

/// The eight neighbours at Chebyshev distance 1.
#[derive(Clone, Copy, Debug)]
pub struct OctileAdjacencyGenerator;

/// `v` moved by `d`, unless that leaves the coordinate range.
fn step_key<P: PositionKey>(v: P, d: i8) -> (r: Option<P>)
    requires
        -1 <= d <= 1,
    ensures
        r is Some <==> in_key_range::<P>(v.value() + d),
        r matches Some(w) ==> w.value() == v.value() + d,
{
    proof {
        v.lemma_value_bounds();
    }
    if d < 0 {
        v.checked_dec()
    } else if d > 0 {
        v.checked_inc()
    } else {
        Some(v)
    }
}

proof fn lemma_shifted_len<P: PositionKey>(p: Position2D<P>, offs: Seq<(i8, i8)>)
    ensures
        shifted(p, offs).len() <= offs.len(),
    decreases offs.len(),
{
    if offs.len() > 0 {
        lemma_shifted_len(p, offs.drop_last());
    }
}

/// The positions of `p` moved by each offset, in order, those that leave the
/// coordinate range left out.
fn adjacents_by<P: PositionKey>(p: Position2D<P>, offs: &Vec<(i8, i8)>) -> (r: Vec<Position2D<P>>)
    requires
        forall|k: int| 0 <= k < offs@.len() ==> -1 <= #[trigger] offs@[k].0 <= 1 && -1 <= offs@[k].1 <= 1,
    ensures
        coords_of(r@) == shifted(p, offs@),
{
    let mut out: Vec<Position2D<P>> = Vec::new();
    let mut k: usize = 0;
    while k < offs.len()
        invariant
            k <= offs@.len(),
            forall|j: int| 0 <= j < offs@.len() ==> -1 <= #[trigger] offs@[j].0 <= 1 && -1 <= offs@[j].1 <= 1,
            coords_of(out@) == shifted(p, offs@.subrange(0, k as int)),
        decreases offs.len() - k,
    {
        let o = offs[k];
        let ghost prev = out@;
        assert(offs@.subrange(0, k + 1).drop_last() =~= offs@.subrange(0, k as int));
        assert(offs@.subrange(0, k + 1).last() == o);
        match (step_key(p.x, o.0), step_key(p.y, o.1)) {
            (Some(x), Some(y)) => {
                out.push(Position2D::new(x, y));
                assert(coords_of(out@) =~= coords_of(prev).push((x.value(), y.value())));
            },
            _ => {},
        }
        assert(coords_of(out@) =~= shifted(p, offs@.subrange(0, k + 1)));
        k += 1;
    }
    assert(offs@.subrange(0, offs@.len() as int) =~= offs@);
    out
}

impl AdjacencyGenerator for CardinalAdjacencyGenerator {
    open spec fn offsets() -> Seq<(i8, i8)> {
        cardinal_offsets()
    }

    fn adjacents<P: PositionKey>(p: Position2D<P>) -> (r: Vec<Position2D<P>>) {
        let offs: Vec<(i8, i8)> = vec![(-1, 0), (1, 0), (0, -1), (0, 1)];
        assert(offs@ =~= cardinal_offsets());
        let r = adjacents_by(p, &offs);
        proof {
            lemma_shifted_len(p, offs@);
        }
        r
    }
}

impl AdjacencyGenerator for OctileAdjacencyGenerator {
    open spec fn offsets() -> Seq<(i8, i8)> {
        octile_offsets()
    }

    fn adjacents<P: PositionKey>(p: Position2D<P>) -> (r: Vec<Position2D<P>>) {
        let offs: Vec<(i8, i8)> = vec![
            (-1, -1),
            (-1, 0),
            (-1, 1),
            (0, -1),
            (0, 1),
            (1, -1),
            (1, 0),
            (1, 1),
        ];
        assert(offs@ =~= octile_offsets());
        let r = adjacents_by(p, &offs);
        proof {
            lemma_shifted_len(p, offs@);
        }
        r
    }
}

/// Every neighbour that a generator lists lies inside the coordinate range;
/// so at the lowest (highest) value of an axis the neighbour one below
/// (above) on that axis is left out.
pub proof fn lemma_adjacents_in_range<P: PositionKey>(p: Position2D<P>, offs: Seq<(i8, i8)>)
    ensures
        forall|k: int|
            0 <= k < shifted(p, offs).len() ==> in_key_range::<P>(#[trigger] shifted(p, offs)[k].0)
                && in_key_range::<P>(shifted(p, offs)[k].1),
        p.x.value() == P::min_value() ==> !shifted(p, offs).contains((p.x.value() - 1, p.y.value())),
        p.x.value() == P::max_value() ==> !shifted(p, offs).contains((p.x.value() + 1, p.y.value())),
        p.y.value() == P::min_value() ==> !shifted(p, offs).contains((p.x.value(), p.y.value() - 1)),
        p.y.value() == P::max_value() ==> !shifted(p, offs).contains((p.x.value(), p.y.value() + 1)),
    decreases offs.len(),
{
    let s = shifted(p, offs);
    if offs.len() > 0 {
        let d = offs.drop_last();
        lemma_adjacents_in_range(p, d);
        let pre = shifted(p, d);
        assert forall|k: int| 0 <= k < s.len() implies in_key_range::<P>(#[trigger] s[k].0)
            && in_key_range::<P>(s[k].1) by {
            if k < pre.len() {
                assert(s[k] == pre[k]);
            }
        }
    }
    assert forall|q: (int, int)| s.contains(q) implies in_key_range::<P>(q.0) && in_key_range::<P>(
        q.1,
    ) by {
        let k = choose|k: int| 0 <= k < s.len() && s[k] == q;
        assert(in_key_range::<P>(s[k].0));
    }
}

/// Octile adjacency lists 8 neighbours at a position inside both ranges,
/// 5 on an edge and 3 in a corner.
pub proof fn lemma_octile_counts<P: PositionKey>(p: Position2D<P>)
    ensures
        ({
            let n = shifted(p, octile_offsets()).len();
            let x_inner = P::min_value() < p.x.value() < P::max_value();
            let y_inner = P::min_value() < p.y.value() < P::max_value();
            &&& (x_inner && y_inner ==> n == 8)
            &&& (x_inner != y_inner ==> n == 5)
            &&& (!x_inner && !y_inner ==> n == 3)
        }),
{
    p.x.lemma_value_bounds();
    p.y.lemma_value_bounds();
    reveal_with_fuel(shifted, 9);
    let o = octile_offsets();
    assert(o.drop_last().drop_last().drop_last().drop_last().drop_last().drop_last().drop_last().drop_last().len() == 0);
}

/// Cardinal adjacency lists 4 neighbours at a position inside both ranges.
pub proof fn lemma_cardinal_interior<P: PositionKey>(p: Position2D<P>)
    requires
        P::min_value() < p.x.value() < P::max_value(),
        P::min_value() < p.y.value() < P::max_value(),
    ensures
        shifted(p, cardinal_offsets()) == seq![
            (p.x.value() - 1, p.y.value()),
            (p.x.value() + 1, p.y.value()),
            (p.x.value(), p.y.value() - 1),
            (p.x.value(), p.y.value() + 1),
        ],
{
    reveal_with_fuel(shifted, 5);
    assert(shifted(p, cardinal_offsets()) =~= seq![
        (p.x.value() - 1, p.y.value()),
        (p.x.value() + 1, p.y.value()),
        (p.x.value(), p.y.value() - 1),
        (p.x.value(), p.y.value() + 1),
    ]);
}

} // verus!
