//! Built-in defaults: the landmass colour table and transition rules.
//!
//! Weights are integers; each rule is scaled by one million so that the
//! smallest weights (one millionth of a unit) stay whole.
use vstd::prelude::*;

use crate::assigner::MapColoringAssigner;
use crate::sampler::{Label, MultinomialDistribution};
use crate::types::PossiblyDirectedMultinomialDistribution;
use crate::visualizers::MapColor;

verus! {

pub const WATER: Label = 1;

pub const GRASS: Label = 2;

pub const SAND: Label = 3;

pub const SNOW: Label = 4;

pub const ROCKY: Label = 5;

/// The colour of each landmass label.
pub fn landmass_generate_colormap() -> (r: Vec<(Label, MapColor)>)
    ensures
        r@ == seq![
            (WATER, MapColor::Rgb(50, 50, 225)),
            (GRASS, MapColor::Rgb(50, 200, 50)),
            (SAND, MapColor::Rgb(200, 200, 50)),
            (SNOW, MapColor::Rgb(210, 210, 220)),
            (ROCKY, MapColor::Rgb(40, 40, 65)),
        ],
{
    let r = vec![
        (WATER, MapColor::Rgb(50, 50, 225)),
        (GRASS, MapColor::Rgb(50, 200, 50)),
        (SAND, MapColor::Rgb(200, 200, 50)),
        (SNOW, MapColor::Rgb(210, 210, 220)),
        (ROCKY, MapColor::Rgb(40, 40, 65)),
    ];
    assert(r@ =~= seq![
        (WATER, MapColor::Rgb(50, 50, 225)),
        (GRASS, MapColor::Rgb(50, 200, 50)),
        (SAND, MapColor::Rgb(200, 200, 50)),
        (SNOW, MapColor::Rgb(210, 210, 220)),
        (ROCKY, MapColor::Rgb(40, 40, 65)),
    ]);
    r
}

/// `rule` is an undirected rule whose distribution has exactly the entries `w`.
pub open spec fn undirected_with(
    rule: Option<PossiblyDirectedMultinomialDistribution>,
    w: Seq<(Label, u64)>,
) -> bool {
    rule matches Some(PossiblyDirectedMultinomialDistribution::Undirected(d)) && d@ == w
}

proof fn lemma_all_positive(s: Seq<(Label, u64)>)
    requires
        forall|i: int| 0 <= i < s.len() ==> s[i].1 > 0,
    ensures
        crate::sampler::nonzero_entries(s) == s,
    decreases s.len(),
{
    if s.len() > 0 {
        let t = s.drop_first();
        assert forall|i: int| 0 <= i < t.len() implies t[i].1 > 0 by {
            assert(t[i] == s[i + 1]);
        }
        lemma_all_positive(t);
        assert(seq![s[0]] + t =~= s);
    }
}

/// An undirected rule with the given weights (labels distinct).
fn undirected(pairs: Vec<(Label, u64)>) -> (r: PossiblyDirectedMultinomialDistribution)
    requires
        crate::sampler::unique_labels(pairs@),
    ensures
        r matches PossiblyDirectedMultinomialDistribution::Undirected(d) && d@
            == crate::sampler::nonzero_entries(pairs@),
{
    match MultinomialDistribution::from_weights(pairs) {
        Ok(d) => PossiblyDirectedMultinomialDistribution::Undirected(d),
        Err(_) => PossiblyDirectedMultinomialDistribution::Undirected(MultinomialDistribution::empty()),
    }
}

/// Transition rules for a landmass: water by sand, grass with snow and rock.
pub fn landmass_generate_rules() -> (r: MapColoringAssigner)
    ensures
        forall|l: Label| #[trigger] r.rule_spec(l) is Some <==> 1 <= l <= 5,
        undirected_with(r.rule_spec(WATER), seq![(WATER, 45_000_000u64), (SAND, 1_000_000u64)]),
        undirected_with(
            r.rule_spec(GRASS),
            seq![(GRASS, 80_000_000u64), (SAND, 5_000_000u64), (SNOW, 3_000_000u64), (ROCKY, 1_000_000u64)],
        ),
        undirected_with(
            r.rule_spec(SAND),
            seq![(WATER, 50_000_000u64), (GRASS, 40_000_000u64), (SAND, 30_000_000u64), (ROCKY, 1u64)],
        ),
        undirected_with(
            r.rule_spec(SNOW),
            seq![(GRASS, 10_000_000u64), (SAND, 1_000_000u64), (SNOW, 25_000_000u64), (ROCKY, 5_000_000u64)],
        ),
        undirected_with(
            r.rule_spec(ROCKY),
            seq![(WATER, 1u64), (GRASS, 1_000_000u64), (SAND, 1u64), (SNOW, 45_000_000u64), (ROCKY, 70_000_000u64)],
        ),
{
    let water = vec![(WATER, 45_000_000u64), (SAND, 1_000_000)];
    let grass = vec![(GRASS, 80_000_000u64), (SAND, 5_000_000), (SNOW, 3_000_000), (ROCKY, 1_000_000)];
    let sand = vec![(WATER, 50_000_000u64), (GRASS, 40_000_000), (SAND, 30_000_000), (ROCKY, 1)];
    let snow = vec![(GRASS, 10_000_000u64), (SAND, 1_000_000), (SNOW, 25_000_000), (ROCKY, 5_000_000)];
    let rocky = vec![
        (WATER, 1u64),
        (GRASS, 1_000_000),
        (SAND, 1),
        (SNOW, 45_000_000),
        (ROCKY, 70_000_000),
    ];
    assert(water@ =~= seq![(WATER, 45_000_000u64), (SAND, 1_000_000u64)]);
    assert(grass@ =~= seq![(GRASS, 80_000_000u64), (SAND, 5_000_000u64), (SNOW, 3_000_000u64), (ROCKY, 1_000_000u64)]);
    assert(sand@ =~= seq![(WATER, 50_000_000u64), (GRASS, 40_000_000u64), (SAND, 30_000_000u64), (ROCKY, 1u64)]);
    assert(snow@ =~= seq![(GRASS, 10_000_000u64), (SAND, 1_000_000u64), (SNOW, 25_000_000u64), (ROCKY, 5_000_000u64)]);
    assert(rocky@ =~= seq![(WATER, 1u64), (GRASS, 1_000_000u64), (SAND, 1u64), (SNOW, 45_000_000u64), (ROCKY, 70_000_000u64)]);
    let rules = vec![
        (WATER, undirected(water)),
        (GRASS, undirected(grass)),
        (SAND, undirected(sand)),
        (SNOW, undirected(snow)),
        (ROCKY, undirected(rocky)),
    ];
    proof {
        lemma_all_positive(water@);
        lemma_all_positive(grass@);
        lemma_all_positive(sand@);
        lemma_all_positive(snow@);
        lemma_all_positive(rocky@);
    }
    let r = MapColoringAssigner::with_rules(rules);
    assert forall|l: Label| #[trigger] r.rule_spec(l) is Some <==> 1 <= l <= 5 by {
        reveal_with_fuel(crate::assigner::last_rule, 6);
        assert(rules@.drop_last().drop_last().drop_last().drop_last().drop_last().len() == 0);
    }
    proof {
        reveal_with_fuel(crate::assigner::last_rule, 6);
    }
    r
}

} // verus!
