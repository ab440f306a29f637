//! Weighted categorical distributions over labels: construction, total
//! weight, the joint (pointwise) product and weighted sampling.
//!
//! Weights are non-negative integers. Only proportions matter to every
//! operation (sampling, entropy order, the joint product), so a distribution
//! stands for the real one obtained by dividing each weight by the total.
use vstd::prelude::*;

verus! {

/// A label of a tile kind.
pub type Label = i32;

/// The sum of the weights of `s`.
pub open spec fn sum_weights(s: Seq<(Label, u64)>) -> nat
    decreases s.len(),
{
    if s.len() == 0 {
        0
    } else {
        s[0].1 as nat + sum_weights(s.drop_first())
    }
}

/// The weight that `s` gives to `l` (0 where `l` is absent).
pub open spec fn weight_in(s: Seq<(Label, u64)>, l: Label) -> nat
    decreases s.len(),
{
    if s.len() == 0 {
        0
    } else {
        (if s[0].0 == l {
            s[0].1 as nat
        } else {
            0nat
        }) + weight_in(s.drop_first(), l)
    }
}

pub open spec fn has_label(s: Seq<(Label, u64)>, l: Label) -> bool {
    exists|i: int| 0 <= i < s.len() && s[i].0 == l
}

pub open spec fn unique_labels(s: Seq<(Label, u64)>) -> bool {
    forall|i: int, j: int| 0 <= i < j < s.len() ==> s[i].0 != s[j].0
}

pub open spec fn positive_weights(s: Seq<(Label, u64)>) -> bool {
    forall|i: int| 0 <= i < s.len() ==> s[i].1 > 0
}

/// Entries of a live distribution: each label once, each weight positive.
pub open spec fn well_formed(s: Seq<(Label, u64)>) -> bool {
    unique_labels(s) && positive_weights(s)
}

/// The mapping from label to weight that `s` describes.
pub open spec fn weight_map(s: Seq<(Label, u64)>) -> Map<Label, nat> {
    Map::new(|l: Label| has_label(s, l), |l: Label| weight_in(s, l))
}

/// `s` without its zero-weight entries, order kept.
pub open spec fn nonzero_entries(s: Seq<(Label, u64)>) -> Seq<(Label, u64)>
    decreases s.len(),
{
    if s.len() == 0 {
        s
    } else {
        (if s[0].1 > 0 {
            seq![s[0]]
        } else {
            Seq::<(Label, u64)>::empty()
        }) + nonzero_entries(s.drop_first())
    }
}

/// The largest product of a weight of `a` with the weight of the same label
/// in `b`.
pub open spec fn max_product(a: Seq<(Label, u64)>, b: Seq<(Label, u64)>) -> nat
    decreases a.len(),
{
    if a.len() == 0 {
        0
    } else {
        let p = (a.last().1 * weight_in(b, a.last().0)) as nat;
        let m = max_product(a.drop_last(), b);
        if p > m {
            p
        } else {
            m
        }
    }
}

/// The least power of two by which `m` must be divided to fit in a `u64`.
pub open spec fn divisor_for(m: nat) -> nat
    decreases m,
{
    if m <= u64::MAX {
        1
    } else {
        2 * divisor_for(m / 2)
    }
}

/// The common divisor of the joint of `a` with `b`: 1 when every product
/// fits in a `u64`.
pub open spec fn joint_divisor(a: Seq<(Label, u64)>, b: Seq<(Label, u64)>) -> nat {
    divisor_for(max_product(a, b))
}

/// A positive product `p` divided by `d`, held to at least 1 so that no label
/// of the joint is lost.
pub open spec fn scale_down(p: nat, d: nat) -> nat {
    if p / d == 0 {
        1
    } else {
        p / d
    }
}

/// The entries of the joint of `a` with `b` with common divisor `d`.
pub open spec fn joint_with(a: Seq<(Label, u64)>, b: Seq<(Label, u64)>, d: nat) -> Seq<(Label, u64)>
    decreases a.len(),
{
    if a.len() == 0 {
        a
    } else {
        (if a[0].1 > 0 && weight_in(b, a[0].0) > 0 {
            seq![(a[0].0, scale_down((a[0].1 * weight_in(b, a[0].0)) as nat, d) as u64)]
        } else {
            Seq::<(Label, u64)>::empty()
        }) + joint_with(a.drop_first(), b, d)
    }
}

/// The joint product of `a` with `b`: in the order of `a`, each label that
/// both hold, weighted by the product of its two weights divided by
/// `joint_divisor(a, b)`.
///
/// The real joint weight is the product divided by the total of `b`; every
/// entry shares that factor, so it is left out. The divisor is 1 unless some
/// product exceeds a `u64`; it then scales all products alike (to within
/// rounding) so that the weights stay bounded however many joints a
/// distribution goes through.
pub open spec fn joint_entries(a: Seq<(Label, u64)>, b: Seq<(Label, u64)>) -> Seq<(Label, u64)> {
    joint_with(a, b, joint_divisor(a, b))
}

/// The weight that the joint of `a` with `b` gives to `l`.
pub open spec fn joint_weight(a: Seq<(Label, u64)>, b: Seq<(Label, u64)>, l: Label) -> nat {
    if weight_in(a, l) * weight_in(b, l) > 0 {
        scale_down(weight_in(a, l) * weight_in(b, l), joint_divisor(a, b))
    } else {
        0
    }
}

/// The label that a draw `u` in `[0, sum_weights(s))` selects: the entries
/// are laid end to end in order, each over a stretch as long as its weight.
pub open spec fn pick(s: Seq<(Label, u64)>, u: int) -> Label
    decreases s.len(),
{
    if s.len() == 0 {
        0
    } else if u < s[0].1 {
        s[0].0
    } else {
        pick(s.drop_first(), u - s[0].1)
    }
}

/// The total weight of the entries that stand before label `l`.
pub open spec fn weight_before(s: Seq<(Label, u64)>, l: Label) -> nat
    decreases s.len(),
{
    if s.len() == 0 {
        0
    } else if s[0].0 == l {
        0
    } else {
        s[0].1 as nat + weight_before(s.drop_first(), l)
    }
}

pub proof fn lemma_weight_absent(s: Seq<(Label, u64)>, l: Label)
    requires
        !has_label(s, l),
    ensures
        weight_in(s, l) == 0,
    decreases s.len(),
{
    if s.len() > 0 {
        assert(s[0].0 != l);
        assert forall|i: int| 0 <= i < s.drop_first().len() implies s.drop_first()[i].0 != l by {
            assert(s.drop_first()[i] == s[i + 1]);
        }
        lemma_weight_absent(s.drop_first(), l);
    }
}

pub proof fn lemma_weight_at(s: Seq<(Label, u64)>, i: int)
    requires
        unique_labels(s),
        0 <= i < s.len(),
    ensures
        weight_in(s, s[i].0) == s[i].1,
    decreases s.len(),
{
    let t = s.drop_first();
    if i == 0 {
        assert forall|j: int| 0 <= j < t.len() implies t[j].0 != s[0].0 by {
            assert(t[j] == s[j + 1]);
        }
        lemma_weight_absent(t, s[0].0);
    } else {
        assert(t[i - 1] == s[i]);
        lemma_weight_at(t, i - 1);
    }
}

/// In a well-formed sequence a label is present exactly when its weight is positive.
pub proof fn lemma_weight_positive(s: Seq<(Label, u64)>, l: Label)
    requires
        well_formed(s),
    ensures
        has_label(s, l) <==> weight_in(s, l) > 0,
{
    if has_label(s, l) {
        let i = choose|i: int| 0 <= i < s.len() && s[i].0 == l;
        lemma_weight_at(s, i);
    } else {
        lemma_weight_absent(s, l);
    }
}

proof fn lemma_nonzero_entries(s: Seq<(Label, u64)>)
    ensures
        forall|l: Label| #[trigger] weight_in(nonzero_entries(s), l) == weight_in(s, l),
        forall|l: Label|
            #[trigger] has_label(nonzero_entries(s), l) <==> (has_label(s, l) && weight_in(s, l)
                > 0),
        positive_weights(nonzero_entries(s)),
        unique_labels(s) ==> unique_labels(nonzero_entries(s)),
        forall|j: int|
            0 <= j < nonzero_entries(s).len() ==> has_label(s, #[trigger] nonzero_entries(s)[j].0),
    decreases s.len(),
{
    if s.len() == 0 {
        assert forall|l: Label| #[trigger] has_label(nonzero_entries(s), l) <==> (has_label(s, l) && weight_in(s, l) > 0) by {}
    } else {
        let t = s.drop_first();
        lemma_nonzero_entries(t);
        let head = if s[0].1 > 0 {
            seq![s[0]]
        } else {
            Seq::<(Label, u64)>::empty()
        };
        let r = nonzero_entries(s);
        assert(r == head + nonzero_entries(t));
        let nt = nonzero_entries(t);
        assert forall|j: int| 0 <= j < r.len() implies has_label(s, #[trigger] r[j].0) by {
            if j < head.len() {
                assert(r[j] == s[0]);
            } else {
                assert(r[j] == nt[j - head.len()]);
                let k = choose|k: int| 0 <= k < t.len() && t[k].0 == nt[j - head.len()].0;
                assert(t[k] == s[k + 1]);
            }
        }
        assert forall|l: Label| #[trigger] weight_in(r, l) == weight_in(s, l) by {
            assert(weight_in(nt, l) == weight_in(t, l));
            if s[0].1 > 0 {
                assert(r[0] == s[0]);
                assert(r.drop_first() =~= nt);
                assert(weight_in(r, l) == (if s[0].0 == l { s[0].1 as nat } else { 0nat }) + weight_in(r.drop_first(), l));
            } else {
                assert(r =~= nt);
            }
        }
        assert forall|j: int| 0 <= j < r.len() implies r[j].1 > 0 by {
            if j < head.len() {
                assert(r[j] == s[0]);
            } else {
                assert(r[j] == nt[j - head.len()]);
            }
        }
        assert forall|l: Label| #[trigger]
            has_label(r, l) <==> (has_label(s, l) && weight_in(s, l) > 0) by {
            if has_label(r, l) {
                let j = choose|j: int| 0 <= j < r.len() && r[j].0 == l;
                if j < head.len() {
                    assert(r[j] == s[0]);
                    assert(weight_in(s, l) >= s[0].1);
                } else {
                    assert(r[j] == nt[j - head.len()]);
                    assert(has_label(nt, l));
                }
            }
            if has_label(s, l) && weight_in(s, l) > 0 {
                if s[0].0 == l && s[0].1 > 0 {
                    assert(r[0] == s[0]);
                } else {
                    assert(weight_in(t, l) > 0);
                    if !has_label(t, l) {
                        lemma_weight_absent(t, l);
                    }
                    assert(has_label(nt, l));
                    let j = choose|j: int| 0 <= j < nt.len() && nt[j].0 == l;
                    assert(r[j + head.len()] == nt[j]);
                }
            }
        }
        if unique_labels(s) {
            assert forall|i: int, j: int| 0 <= i < j < t.len() implies t[i].0 != t[j].0 by {
                assert(t[i] == s[i + 1] && t[j] == s[j + 1]);
            }
            assert forall|i: int, j: int| 0 <= i < j < r.len() implies r[i].0 != r[j].0 by {
                if i < head.len() {
                    assert(r[i] == s[0]);
                    assert(r[j] == nt[j - head.len()]);
                    let k = choose|k: int| 0 <= k < t.len() && t[k].0 == nt[j - head.len()].0;
                    assert(t[k] == s[k + 1]);
                } else {
                    assert(r[i] == nt[i - head.len()]);
                    assert(r[j] == nt[j - head.len()]);
                }
            }
        }
    }
}

proof fn lemma_tail_well_formed(s: Seq<(Label, u64)>)
    requires
        well_formed(s),
        s.len() > 0,
    ensures
        well_formed(s.drop_first()),
        !has_label(s.drop_first(), s[0].0),
        weight_in(s.drop_first(), s[0].0) == 0,
{
    let t = s.drop_first();
    assert forall|i: int, j: int| 0 <= i < j < t.len() implies t[i].0 != t[j].0 by {
        assert(t[i] == s[i + 1] && t[j] == s[j + 1]);
    }
    assert forall|i: int| 0 <= i < t.len() implies t[i].1 > 0 by {
        assert(t[i] == s[i + 1]);
    }
    assert forall|i: int| 0 <= i < t.len() implies t[i].0 != s[0].0 by {
        assert(t[i] == s[i + 1]);
    }
    lemma_weight_absent(t, s[0].0);
}

pub proof fn lemma_divisor_for(m: nat)
    ensures
        divisor_for(m) >= 1,
        m / divisor_for(m) <= u64::MAX,
        m <= u64::MAX ==> divisor_for(m) == 1,
    decreases m,
{
    if m > u64::MAX {
        lemma_divisor_for(m / 2);
        vstd::arithmetic::div_mod::lemma_div_denominator(m as int, 2, divisor_for(m / 2) as int);
    }
}

/// Every product that the joint of `a` with `b` forms is at most the largest.
pub proof fn lemma_max_product(a: Seq<(Label, u64)>, b: Seq<(Label, u64)>)
    requires
        well_formed(a),
    ensures
        forall|l: Label| #[trigger] (weight_in(a, l) * weight_in(b, l)) <= max_product(a, b),
        max_product(a, b) == 0 || exists|l: Label| #[trigger] (weight_in(a, l) * weight_in(b, l))
            == max_product(a, b),
{
    assert forall|l: Label| #[trigger] (weight_in(a, l) * weight_in(b, l)) <= max_product(a, b) by {
        if has_label(a, l) {
            let i = choose|i: int| 0 <= i < a.len() && a[i].0 == l;
            lemma_weight_at(a, i);
            lemma_max_product_at(a, b, i);
        } else {
            lemma_weight_absent(a, l);
        }
    }
    if max_product(a, b) > 0 {
        let i = lemma_max_product_attained(a, b);
        lemma_weight_at(a, i);
        assert(weight_in(a, a[i].0) * weight_in(b, a[i].0) == max_product(a, b));
    }
}

proof fn lemma_max_product_at(a: Seq<(Label, u64)>, b: Seq<(Label, u64)>, i: int)
    requires
        0 <= i < a.len(),
    ensures
        a[i].1 * weight_in(b, a[i].0) <= max_product(a, b),
    decreases a.len(),
{
    if i < a.len() - 1 {
        lemma_max_product_at(a.drop_last(), b, i);
    }
}

proof fn lemma_max_product_attained(a: Seq<(Label, u64)>, b: Seq<(Label, u64)>) -> (i: int)
    requires
        max_product(a, b) > 0,
    ensures
        0 <= i < a.len(),
        a[i].1 * weight_in(b, a[i].0) == max_product(a, b),
    decreases a.len(),
{
    let p = (a.last().1 * weight_in(b, a.last().0)) as nat;
    if p > max_product(a.drop_last(), b) {
        a.len() - 1
    } else {
        lemma_max_product_attained(a.drop_last(), b)
    }
}

/// The weights of a joint with divisor `d` are the products of the weights
/// of its two sides divided by `d`, none below 1.
pub proof fn lemma_joint_with(a: Seq<(Label, u64)>, b: Seq<(Label, u64)>, d: nat)
    requires
        well_formed(a),
        d >= 1,
        forall|l: Label| #[trigger] (weight_in(a, l) * weight_in(b, l)) / d <= u64::MAX,
    ensures
        well_formed(joint_with(a, b, d)),
        forall|l: Label| #[trigger]
            weight_in(joint_with(a, b, d), l) == if weight_in(a, l) * weight_in(b, l) > 0 {
                scale_down(weight_in(a, l) * weight_in(b, l), d)
            } else {
                0
            },
    decreases a.len(),
{
    if a.len() > 0 {
        let t = a.drop_first();
        lemma_tail_well_formed(a);
        assert forall|l: Label| #[trigger] (weight_in(t, l) * weight_in(b, l)) / d <= u64::MAX by {
            assert(weight_in(a, l) >= weight_in(t, l));
            assert(weight_in(a, l) * weight_in(b, l) / d <= u64::MAX);
            assert(weight_in(t, l) * weight_in(b, l) <= weight_in(a, l) * weight_in(b, l))
                by (nonlinear_arith)
                requires
                    weight_in(a, l) >= weight_in(t, l),
            ;
            vstd::arithmetic::div_mod::lemma_div_is_ordered(
                (weight_in(t, l) * weight_in(b, l)) as int,
                (weight_in(a, l) * weight_in(b, l)) as int,
                d as int,
            );
        }
        lemma_joint_with(t, b, d);
        let jt = joint_with(t, b, d);
        let j = joint_with(a, b, d);
        let wb0 = weight_in(b, a[0].0);
        lemma_weight_at(a, 0);
        assert(weight_in(a, a[0].0) * weight_in(b, a[0].0) / d <= u64::MAX);
        let head = if a[0].1 > 0 && wb0 > 0 {
            seq![(a[0].0, scale_down((a[0].1 * wb0) as nat, d) as u64)]
        } else {
            Seq::<(Label, u64)>::empty()
        };
        assert(j == head + jt);
        assert(a[0].1 > 0);
        assert forall|l: Label| #[trigger]
            weight_in(j, l) == if weight_in(a, l) * weight_in(b, l) > 0 {
                scale_down(weight_in(a, l) * weight_in(b, l), d)
            } else {
                0
            } by {
            let wb = weight_in(b, l);
            if a[0].0 == l {
                assert(weight_in(t, l) == 0);
                assert(weight_in(a, l) == a[0].1);
                assert(weight_in(t, l) * wb == 0) by (nonlinear_arith)
                    requires
                        weight_in(t, l) == 0,
                ;
                assert(weight_in(jt, l) == 0);
                if wb0 > 0 {
                    let p = (a[0].1 * wb0) as nat;
                    assert(p / d <= u64::MAX);
                    assert(scale_down(p, d) <= u64::MAX);
                    assert(j[0] == head[0]);
                    assert(j[0].1 == scale_down(p, d));
                    assert(j.drop_first() =~= jt);
                    assert(weight_in(j, l) == (if j[0].0 == l { j[0].1 as nat } else { 0nat }) + weight_in(j.drop_first(), l));
                    assert(weight_in(a, l) * weight_in(b, l) == p);
                    assert(p > 0) by (nonlinear_arith)
                        requires
                            a[0].1 > 0,
                            wb0 > 0,
                            p == a[0].1 * wb0,
                    ;
                    assert(a[0].1 * wb0 > 0) by (nonlinear_arith)
                        requires
                            a[0].1 > 0,
                            wb0 > 0,
                    ;
                } else {
                    assert(j =~= jt);
                    assert(a[0].1 * wb0 == 0) by (nonlinear_arith)
                        requires
                            wb0 == 0,
                    ;
                }
            } else {
                assert(weight_in(a, l) == weight_in(t, l));
                if wb0 > 0 {
                    assert(j[0] == head[0]);
                    assert(j.drop_first() =~= jt);
                    assert(weight_in(j, l) == (if j[0].0 == l { j[0].1 as nat } else { 0nat }) + weight_in(j.drop_first(), l));
                } else {
                    assert(j =~= jt);
                }
            }
        }
        assert forall|i: int| 0 <= i < j.len() implies j[i].1 > 0 by {
            if i < head.len() {
                assert(j[i] == head[0]);
            } else {
                assert(j[i] == jt[i - head.len()]);
            }
        }
        assert(weight_in(t, a[0].0) == 0);
        assert(weight_in(jt, a[0].0) == 0);
        lemma_weight_positive(jt, a[0].0);
        assert forall|x: int, y: int| 0 <= x < y < j.len() implies j[x].0 != j[y].0 by {
            if x < head.len() {
                assert(j[x] == head[0]);
                assert(j[y] == jt[y - head.len()]);
                assert(has_label(jt, jt[y - head.len()].0));
            } else {
                assert(j[x] == jt[x - head.len()]);
                assert(j[y] == jt[y - head.len()]);
            }
        }
    } else {
        assert forall|l: Label| #[trigger]
            weight_in(joint_with(a, b, d), l) == if weight_in(a, l) * weight_in(b, l) > 0 {
                scale_down(weight_in(a, l) * weight_in(b, l), d)
            } else {
                0
            } by {
            assert(weight_in(a, l) == 0);
            assert(weight_in(a, l) * weight_in(b, l) == 0) by (nonlinear_arith)
                requires
                    weight_in(a, l) == 0,
            ;
        }
    }
}

/// The joint is well formed, and gives each label `joint_weight`.
pub proof fn lemma_joint_entries(a: Seq<(Label, u64)>, b: Seq<(Label, u64)>)
    requires
        well_formed(a),
    ensures
        well_formed(joint_entries(a, b)),
        forall|l: Label| #[trigger] weight_in(joint_entries(a, b), l) == joint_weight(a, b, l),
        forall|l: Label| has_label(joint_entries(a, b), l) <==> weight_in(a, l) * weight_in(b, l) > 0,
{
    let m = max_product(a, b);
    let d = joint_divisor(a, b);
    lemma_max_product(a, b);
    lemma_divisor_for(m);
    assert forall|l: Label| #[trigger] (weight_in(a, l) * weight_in(b, l)) / d <= u64::MAX by {
        vstd::arithmetic::div_mod::lemma_div_is_ordered((weight_in(a, l) * weight_in(b, l)) as int, m as int, d as int);
    }
    lemma_joint_with(a, b, d);
    assert forall|l: Label| has_label(joint_entries(a, b), l) <==> weight_in(a, l) * weight_in(b, l) > 0 by {
        lemma_weight_positive(joint_entries(a, b), l);
    }
}

/// A label of a joint is a label of its second side.
pub proof fn lemma_joint_labels(a: Seq<(Label, u64)>, b: Seq<(Label, u64)>, l: Label)
    requires
        has_label(joint_entries(a, b), l),
    ensures
        has_label(b, l),
{
    lemma_joint_with_labels(a, b, joint_divisor(a, b), l);
}

proof fn lemma_joint_with_labels(a: Seq<(Label, u64)>, b: Seq<(Label, u64)>, d: nat, l: Label)
    requires
        has_label(joint_with(a, b, d), l),
    ensures
        has_label(b, l),
    decreases a.len(),
{
    if a.len() > 0 {
        let j = joint_with(a, b, d);
        let jt = joint_with(a.drop_first(), b, d);
        let k = choose|k: int| 0 <= k < j.len() && j[k].0 == l;
        if a[0].1 > 0 && weight_in(b, a[0].0) > 0 {
            assert(j == seq![(a[0].0, scale_down((a[0].1 * weight_in(b, a[0].0)) as nat, d) as u64)] + jt);
            if k == 0 {
                assert(j[0].0 == a[0].0);
                if !has_label(b, l) {
                    lemma_weight_absent(b, l);
                }
            } else {
                assert(jt[k - 1] == j[k]);
                lemma_joint_with_labels(a.drop_first(), b, d, l);
            }
        } else {
            assert(j == jt);
            lemma_joint_with_labels(a.drop_first(), b, d, l);
        }
    }
}

pub proof fn lemma_sum_positive(s: Seq<(Label, u64)>)
    requires
        well_formed(s),
        s.len() > 0,
    ensures
        sum_weights(s) > 0,
{
}

pub proof fn lemma_pick_has_label(s: Seq<(Label, u64)>, u: int)
    requires
        0 <= u < sum_weights(s),
    ensures
        has_label(s, pick(s, u)),
    decreases s.len(),
{
    if u >= s[0].1 {
        let t = s.drop_first();
        lemma_pick_has_label(t, u - s[0].1);
        let i = choose|i: int| 0 <= i < t.len() && t[i].0 == pick(t, u - s[0].1);
        assert(t[i] == s[i + 1]);
    }
}

/// Sampling law: among the equally likely draws `0 <= u < sum_weights(s)`,
/// those that select `l` are exactly the `weight_in(s, l)` consecutive draws
/// that start at `weight_before(s, l)`; so `l` is drawn with probability
/// `weight_in(s, l) / sum_weights(s)`.
pub proof fn lemma_sampling_law(s: Seq<(Label, u64)>, l: Label, u: int)
    requires
        well_formed(s),
        0 <= u < sum_weights(s),
    ensures
        pick(s, u) == l <==> weight_before(s, l) <= u < weight_before(s, l) + weight_in(s, l),
    decreases s.len(),
{
    let t = s.drop_first();
    lemma_tail_well_formed(s);
    if s[0].0 == l {
        if u >= s[0].1 {
            lemma_pick_has_label(t, u - s[0].1);
        }
    } else if u >= s[0].1 {
        lemma_sampling_law(t, l, u - s[0].1);
    }
}

/// Constructing a distribution from a mapping of weights and reading its
/// weights back gives the same mapping, without its zero-weight entries.
pub proof fn lemma_weights_round_trip(pairs: Seq<(Label, u64)>)
    requires
        unique_labels(pairs),
    ensures
        weight_map(nonzero_entries(pairs)) == Map::new(
            |l: Label| has_label(pairs, l) && weight_in(pairs, l) > 0,
            |l: Label| weight_in(pairs, l),
        ),
{
    lemma_nonzero_entries(pairs);
    assert(weight_map(nonzero_entries(pairs)) =~= Map::new(
        |l: Label| has_label(pairs, l) && weight_in(pairs, l) > 0,
        |l: Label| weight_in(pairs, l),
    ));
}

/// The joint product is commutative: both orders give the same weight to
/// every label, so the same support and the same ratios.
pub proof fn lemma_joint_commutative(a: Seq<(Label, u64)>, b: Seq<(Label, u64)>)
    requires
        well_formed(a),
        well_formed(b),
    ensures
        weight_map(joint_entries(a, b)) == weight_map(joint_entries(b, a)),
{
    assert forall|l: Label| #[trigger] (weight_in(a, l) * weight_in(b, l)) == weight_in(b, l) * weight_in(a, l) by {
        assert(weight_in(a, l) * weight_in(b, l) == weight_in(b, l) * weight_in(a, l)) by (nonlinear_arith);
    }
    lemma_max_product(a, b);
    lemma_max_product(b, a);
    let mab = max_product(a, b);
    let mba = max_product(b, a);
    if mab > 0 {
        let l = choose|l: Label| #[trigger] (weight_in(a, l) * weight_in(b, l)) == mab;
        assert(weight_in(b, l) * weight_in(a, l) <= mba);
    }
    if mba > 0 {
        let l = choose|l: Label| #[trigger] (weight_in(b, l) * weight_in(a, l)) == mba;
        assert(weight_in(a, l) * weight_in(b, l) <= mab);
    }
    assert(mab == mba);
    lemma_joint_entries(a, b);
    lemma_joint_entries(b, a);
    let ab = joint_entries(a, b);
    let ba = joint_entries(b, a);
    assert forall|l: Label| has_label(ab, l) <==> has_label(ba, l) by {}
    assert forall|l: Label| #[trigger] weight_in(ab, l) == weight_in(ba, l) by {
        assert(joint_weight(a, b, l) == joint_weight(b, a, l));
    }
    assert(weight_map(ab) =~= weight_map(ba));
}

/// Draws a value uniformly from `[0, bound)`.
///
/// Relies on `rand::Rng::gen_range` over `rand::thread_rng()`: for a
/// non-empty range it returns a value inside it.
#[verifier::external_body]
pub(crate) fn random_below(bound: u128) -> (r: u128)
    requires
        bound > 0,
    ensures
        r < bound,
{
    rand::Rng::gen_range(&mut rand::thread_rng(), 0..bound)
}

fn copy_entries(v: &Vec<(Label, u64)>) -> (r: Vec<(Label, u64)>)
    ensures
        r@ == v@,
{
    let mut r: Vec<(Label, u64)> = Vec::new();
    let mut i: usize = 0;
    while i < v.len()
        invariant
            i <= v.len(),
            r@ == v@.subrange(0, i as int),
        decreases v.len() - i,
    {
        r.push(v[i]);
        assert(r@ =~= v@.subrange(0, i + 1));
        i += 1;
    }
    assert(r@ =~= v@);
    r
}

/// Why a mapping of weights was refused.
#[derive(Clone, Copy, Debug, PartialEq, Eq)]
pub enum DistributionError {
    /// The same label was given twice.
    DuplicateLabel,
}

/// A weighted categorical distribution over labels, entries kept in the order
/// in which they were given.
#[derive(Debug)]
pub struct MultinomialDistribution {
    entries: Vec<(Label, u64)>,
}

impl View for MultinomialDistribution {
    type V = Seq<(Label, u64)>;

    closed spec fn view(&self) -> Seq<(Label, u64)> {
        self.entries@
    }
}

impl MultinomialDistribution {
    #[verifier::type_invariant]
    spec fn inv(self) -> bool {
        well_formed(self.entries@)
    }

    /// The entries of a distribution are always well formed.
    pub fn is_well_formed(&self) -> (r: bool)
        ensures
            r,
            well_formed(self@),
    {
        proof {
            use_type_invariant(self);
        }
        true
    }

    /// The distribution with no entries.
    pub fn empty() -> (r: Self)
        ensures
            r@.len() == 0,
    {
        Self { entries: Vec::new() }
    }

    /// Weight 1 for each listed label, a label listed twice counted once.
    pub fn uniform_over(keys: Vec<Label>) -> (r: Self)
        ensures
            weight_map(r@) == Map::new(|l: Label| keys@.contains(l), |l: Label| 1nat),
    {
        let mut entries: Vec<(Label, u64)> = Vec::new();
        let mut i: usize = 0;
        while i < keys.len()
            invariant
                i <= keys.len(),
                well_formed(entries@),
                forall|j: int| 0 <= j < entries@.len() ==> #[trigger] entries@[j].1 == 1,
                forall|l: Label| has_label(entries@, l) <==> keys@.subrange(0, i as int).contains(l),
            decreases keys.len() - i,
        {
            let k = keys[i];
            let mut found = false;
            let mut j: usize = 0;
            while j < entries.len()
                invariant
                    j <= entries.len(),
                    found <==> exists|m: int| 0 <= m < j && entries@[m].0 == k,
                decreases entries.len() - j,
            {
                if entries[j].0 == k {
                    found = true;
                }
                j += 1;
            }
            let ghost prev = entries@;
            assert(found <==> has_label(entries@, k));
            if !found {
                entries.push((k, 1));
                assert forall|a: int, b: int| 0 <= a < b < entries@.len() implies entries@[a].0
                    != entries@[b].0 by {
                    if b == prev.len() {
                        assert(entries@[a] == prev[a]);
                    } else {
                        assert(entries@[a] == prev[a] && entries@[b] == prev[b]);
                    }
                }
                assert forall|l: Label| has_label(entries@, l) implies has_label(prev, l) || l == k by {
                    let m = choose|m: int| 0 <= m < entries@.len() && entries@[m].0 == l;
                    if m < prev.len() {
                        assert(entries@[m] == prev[m]);
                    }
                }
                assert forall|l: Label| has_label(prev, l) implies has_label(entries@, l) by {
                    let m = choose|m: int| 0 <= m < prev.len() && prev[m].0 == l;
                    assert(entries@[m] == prev[m]);
                }
                assert(entries@[prev.len() as int].0 == k);
                assert(has_label(entries@, k));
            }
            assert(keys@.subrange(0, i + 1) =~= keys@.subrange(0, i as int).push(k));
            assert forall|l: Label| #[trigger] keys@.subrange(0, i + 1).contains(l) <==> (keys@.subrange(0, i as int).contains(l) || l == k) by {
                let pre = keys@.subrange(0, i as int);
                let post = keys@.subrange(0, i + 1);
                assert(post == pre.push(k));
                if post.contains(l) {
                    let m = choose|m: int| 0 <= m < post.len() && post[m] == l;
                    if m < i {
                        assert(pre[m] == l);
                    }
                }
                if l == k {
                    assert(post[i as int] == k);
                }
                if pre.contains(l) {
                    let m = choose|m: int| 0 <= m < pre.len() && pre[m] == l;
                    assert(post[m] == l);
                }
            }
            assert forall|l: Label| has_label(entries@, l) <==> keys@.subrange(0, i + 1).contains(l) by {
                assert(keys@.subrange(0, i + 1).contains(l) <==> (keys@.subrange(0, i as int).contains(l) || l == k));
                assert(has_label(prev, l) <==> keys@.subrange(0, i as int).contains(l));
                if found {
                    assert(has_label(prev, k));
                }
            }
            i += 1;
        }
        assert(keys@.subrange(0, keys.len() as int) == keys@);
        let r = Self { entries };
        assert forall|l: Label| #[trigger] weight_map(r@).contains_key(l) implies weight_map(r@)[l] == 1nat by {
            let m = choose|m: int| 0 <= m < r@.len() && r@[m].0 == l;
            lemma_weight_at(r@, m);
        }
        assert(weight_map(r@) =~= Map::new(|l: Label| keys@.contains(l), |l: Label| 1nat));
        r
    }

    /// The distribution with the given weights, in the given order; entries of
    /// weight 0 are left out. Refused when a label occurs twice.
    pub fn from_weights(pairs: Vec<(Label, u64)>) -> (r: Result<Self, DistributionError>)
        ensures
            r is Err <==> !unique_labels(pairs@),
            r matches Ok(d) ==> d@ == nonzero_entries(pairs@),
    {
        let n = pairs.len();
        let mut i: usize = 0;
        while i < n
            invariant
                n == pairs@.len(),
                i <= n,
                forall|a: int, b: int| 0 <= a < b < i ==> pairs@[a].0 != pairs@[b].0,
            decreases n - i,
        {
            let mut j: usize = 0;
            while j < i
                invariant
                    j <= i < n,
                    n == pairs@.len(),
                    forall|a: int| 0 <= a < j ==> pairs@[a].0 != pairs@[i as int].0,
                decreases i - j,
            {
                if pairs[j].0 == pairs[i].0 {
                    return Err(DistributionError::DuplicateLabel);
                }
                j += 1;
            }
            i += 1;
        }
        let mut entries: Vec<(Label, u64)> = Vec::new();
        assert(pairs@.subrange(0, n as int) =~= pairs@);
        assert(entries@ + nonzero_entries(pairs@) =~= nonzero_entries(pairs@));
        let mut k: usize = 0;
        while k < n
            invariant
                n == pairs@.len(),
                k <= n,
                entries@ + nonzero_entries(pairs@.subrange(k as int, n as int)) == nonzero_entries(
                    pairs@,
                ),
            decreases n - k,
        {
            let ghost rest = pairs@.subrange(k as int, n as int);
            assert(rest.drop_first() =~= pairs@.subrange(k + 1, n as int));
            let p = pairs[k];
            if p.1 > 0 {
                entries.push(p);
            }
            assert(entries@ + nonzero_entries(pairs@.subrange(k + 1, n as int)) =~= nonzero_entries(pairs@));
            k += 1;
        }
        assert(pairs@.subrange(n as int, n as int) =~= Seq::<(Label, u64)>::empty());
        assert(entries@ =~= nonzero_entries(pairs@));
        proof {
            lemma_nonzero_entries(pairs@);
        }
        Ok(Self { entries })
    }

    /// The entries, in order.
    pub fn weights(&self) -> (r: Vec<(Label, u64)>)
        ensures
            r@ == self@,
    {
        copy_entries(&self.entries)
    }

    /// The number of labels with positive weight.
    pub fn len(&self) -> (r: usize)
        ensures
            r == self@.len(),
    {
        self.entries.len()
    }

    pub fn is_empty(&self) -> (r: bool)
        ensures
            r == (self@.len() == 0),
    {
        self.entries.len() == 0
    }

    /// The sum of all weights.
    pub fn total_weights(&self) -> (r: u128)
        ensures
            r == sum_weights(self@),
    {
        let n = self.entries.len();
        let mut acc: u128 = 0;
        let mut i: usize = 0;
        assert(self@.subrange(0, n as int) =~= self@);
        while i < n
            invariant
                n == self@.len(),
                i <= n,
                acc <= i * (u64::MAX as int),
                acc + sum_weights(self@.subrange(i as int, n as int)) == sum_weights(self@),
            decreases n - i,
        {
            assert(self@.subrange(i as int, n as int).drop_first() =~= self@.subrange(i + 1, n as int));
            let w = self.entries[i].1;
            assert((i + 1) * (u64::MAX as int) <= (usize::MAX as int) * (u64::MAX as int)) by (nonlinear_arith)
                requires
                    i < n,
                    n <= usize::MAX,
            ;
            assert((usize::MAX as int) * (u64::MAX as int) < u128::MAX) by (nonlinear_arith)
                requires
                    usize::MAX <= u64::MAX,
            ;
            acc = acc + w as u128;
            i += 1;
        }
        assert(self@.subrange(n as int, n as int) =~= Seq::<(Label, u64)>::empty());
        acc
    }

    /// The joint weights of `self` with `other`, in the order of `self`: each
    /// label that both hold, weighted by the product of its two weights
    /// divided by `joint_divisor` (1 unless some product exceeds a `u64`),
    /// each at least 1.
    pub fn joint_probability_weights(&self, other: &Self) -> (r: Vec<(Label, u64)>)
        ensures
            r@ == joint_entries(self@, other@),
            forall|l: Label| #[trigger] weight_in(r@, l) == joint_weight(self@, other@, l),
            max_product(self@, other@) <= u64::MAX ==> joint_divisor(self@, other@) == 1,
    {
        proof {
            use_type_invariant(self);
        }
        let n = self.entries.len();
        let mut prods: Vec<u128> = Vec::new();
        let mut m: u128 = 0;
        let mut i: usize = 0;
        while i < n
            invariant
                n == self@.len(),
                i <= n,
                prods@.len() == i,
                forall|j: int| 0 <= j < i ==> #[trigger] prods@[j] == self@[j].1 * weight_in(other@, self@[j].0),
                m == max_product(self@.subrange(0, i as int), other@),
            decreases n - i,
        {
            let (l, w) = self.entries[i];
            let o = other.weight_of(l);
            assert((w as int) * (o as int) <= u128::MAX) by (nonlinear_arith)
                requires
                    w <= u64::MAX,
                    o <= u64::MAX,
            ;
            let p = (w as u128) * (o as u128);
            prods.push(p);
            assert(self@.subrange(0, i + 1).drop_last() =~= self@.subrange(0, i as int));
            if p > m {
                m = p;
            }
            i += 1;
        }
        assert(self@.subrange(0, n as int) =~= self@);
        let mut d: u128 = 1;
        let mut cur: u128 = m;
        proof {
            lemma_divisor_for(m as nat);
        }
        while cur > u64::MAX as u128
            invariant
                d >= 1,
                cur == m / d,
                d * cur <= m,
                divisor_for(m as nat) == d * divisor_for(cur as nat),
            decreases cur,
        {
            assert(d < 0x1_0000_0000_0000_0000) by (nonlinear_arith)
                requires
                    d * cur <= m,
                    cur > u64::MAX,
                    m <= u128::MAX,
            ;
            proof {
                vstd::arithmetic::div_mod::lemma_div_denominator(m as int, d as int, 2);
                assert(divisor_for(cur as nat) == 2 * divisor_for((cur / 2) as nat));
                assert(d * divisor_for(cur as nat) == (d * 2) * divisor_for((cur / 2) as nat)) by (nonlinear_arith)
                    requires
                        divisor_for(cur as nat) == 2 * divisor_for((cur / 2) as nat),
                ;
            }
            assert((d * 2) * (cur / 2) <= d * cur) by (nonlinear_arith)
                requires
                    d >= 1,
            ;
            d = d * 2;
            cur = cur / 2;
        }
        assert(divisor_for(cur as nat) == 1);
        assert(divisor_for(m as nat) == d * divisor_for(cur as nat));
        assert(divisor_for(m as nat) == d) by (nonlinear_arith)
            requires
                divisor_for(m as nat) == d * divisor_for(cur as nat),
                divisor_for(cur as nat) == 1,
        ;
        assert(m == max_product(self@, other@));
        assert(joint_divisor(self@, other@) == divisor_for(m as nat));
        assert(d == joint_divisor(self@, other@));
        proof {
            lemma_divisor_for(m as nat);
        }
        let mut out: Vec<(Label, u64)> = Vec::new();
        let mut k: usize = 0;
        assert(out@ + joint_with(self@, other@, d as nat) =~= joint_with(self@, other@, d as nat));
        while k < n
            invariant
                n == self@.len(),
                k <= n,
                well_formed(self@),
                d == joint_divisor(self@, other@),
                d >= 1,
                m == max_product(self@, other@),
                m / d <= u64::MAX,
                prods@.len() == n,
                forall|j: int| 0 <= j < n ==> #[trigger] prods@[j] == self@[j].1 * weight_in(other@, self@[j].0),
                out@ + joint_with(self@.subrange(k as int, n as int), other@, d as nat) == joint_with(
                    self@,
                    other@,
                    d as nat,
                ),
            decreases n - k,
        {
            let ghost rest = self@.subrange(k as int, n as int);
            assert(rest.drop_first() =~= self@.subrange(k + 1, n as int));
            assert(rest[0] == self@[k as int]);
            let (l, w) = self.entries[k];
            let p = prods[k];
            if p > 0 {
                proof {
                    lemma_max_product_at(self@, other@, k as int);
                    vstd::arithmetic::div_mod::lemma_div_is_ordered(p as int, m as int, d as int);
                    assert(w * weight_in(other@, l) > 0);
                    assert(weight_in(other@, l) > 0) by (nonlinear_arith)
                        requires
                            w * weight_in(other@, l) > 0,
                            w >= 0,
                            weight_in(other@, l) >= 0,
                    ;
                }
                let q = p / d;
                let wq: u64 = if q == 0 {
                    1
                } else {
                    q as u64
                };
                out.push((l, wq));
            } else {
                proof {
                    assert(self@[k as int].1 > 0);
                    assert(weight_in(other@, l) == 0) by (nonlinear_arith)
                        requires
                            w * weight_in(other@, l) == 0,
                            w > 0,
                    ;
                }
            }
            assert(out@ + joint_with(self@.subrange(k + 1, n as int), other@, d as nat) =~= joint_with(
                self@,
                other@,
                d as nat,
            ));
            k += 1;
        }
        assert(self@.subrange(n as int, n as int) =~= Seq::<(Label, u64)>::empty());
        assert(out@ =~= joint_entries(self@, other@));
        proof {
            lemma_joint_entries(self@, other@);
        }
        out
    }

    /// The joint product of `self` with `other`: the labels that both hold,
    /// in the order of `self`, weighted as `joint_probability_weights` says.
    /// The result is empty when the two share no label.
    pub fn joint_probability(&self, other: &Self) -> (r: Self)
        ensures
            r@ == joint_entries(self@, other@),
            forall|l: Label| #[trigger] weight_in(r@, l) == joint_weight(self@, other@, l),
            forall|l: Label| has_label(r@, l) <==> weight_in(self@, l) > 0 && weight_in(other@, l) > 0,
    {
        proof {
            use_type_invariant(self);
            lemma_joint_entries(self@, other@);
            assert forall|l: Label| has_label(joint_entries(self@, other@), l) <==> weight_in(self@, l) > 0
                && weight_in(other@, l) > 0 by {
                assert(weight_in(self@, l) * weight_in(other@, l) > 0 <==> (weight_in(self@, l) > 0 && weight_in(other@, l) > 0)) by (nonlinear_arith);
            }
        }
        let entries = self.joint_probability_weights(other);
        Self { entries }
    }

    /// The label that the draw `draw` selects, the entries laid end to end in
    /// order, each over a stretch as long as its weight.
    pub fn sample_at(&self, draw: u128) -> (r: Label)
        requires
            draw < sum_weights(self@),
        ensures
            r == pick(self@, draw as int),
            has_label(self@, r),
    {
        proof {
            lemma_pick_has_label(self@, draw as int);
        }
        let n = self.entries.len();
        let mut acc: u128 = 0;
        let mut i: usize = 0;
        assert(self@.subrange(0, n as int) =~= self@);
        while i < n
            invariant
                n == self@.len(),
                i <= n,
                acc <= draw,
                acc + sum_weights(self@.subrange(i as int, n as int)) == sum_weights(self@),
                pick(self@.subrange(i as int, n as int), draw - acc) == pick(self@, draw as int),
            decreases n - i,
        {
            let ghost rest = self@.subrange(i as int, n as int);
            assert(rest.drop_first() =~= self@.subrange(i + 1, n as int));
            assert(rest[0] == self@[i as int]);
            let w = self.entries[i].1;
            if draw - acc < w as u128 {
                return self.entries[i].0;
            }
            acc = acc + w as u128;
            i += 1;
        }
        assert(self@.subrange(n as int, n as int) =~= Seq::<(Label, u64)>::empty());
        0
    }

    /// A label drawn at random with probability proportional to its weight;
    /// `None` for the empty distribution.
    pub fn sample_with_default_rng(&self) -> (r: Option<Label>)
        ensures
            r is None <==> self@.len() == 0,
            r matches Some(l) ==> has_label(self@, l) && exists|u: int|
                0 <= u < sum_weights(self@) && pick(self@, u) == l,
    {
        proof {
            use_type_invariant(self);
        }
        if self.entries.len() == 0 {
            return None;
        }
        let total = self.total_weights();
        proof {
            lemma_sum_positive(self@);
        }
        let draw = random_below(total);
        let l = self.sample_at(draw);
        assert(0 <= draw < sum_weights(self@) && pick(self@, draw as int) == l);
        Some(l)
    }

    /// The weight of `label`, 0 where it is absent.
    pub fn weight_of(&self, label: Label) -> (r: u64)
        ensures
            r == weight_in(self@, label),
    {
        proof {
            use_type_invariant(self);
        }
        assert(well_formed(self@));
        let n = self.entries.len();
        let mut i: usize = 0;
        while i < n
            invariant
                n == self@.len(),
                i <= n,
                well_formed(self@),
                forall|j: int| 0 <= j < i ==> self@[j].0 != label,
            decreases n - i,
        {
            if self.entries[i].0 == label {
                proof {
                    lemma_weight_at(self@, i as int);
                }
                return self.entries[i].1;
            }
            i += 1;
        }
        proof {
            lemma_weight_absent(self@, label);
        }
        0
    }
}

impl Clone for MultinomialDistribution {
    fn clone(&self) -> (r: Self)
        ensures
            r@ == self@,
    {
        proof {
            use_type_invariant(self);
        }
        Self { entries: copy_entries(&self.entries) }
    }
}

} // verus!
