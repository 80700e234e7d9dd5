//! The laws of a build, proved once and for all against the model:
//! budget conservation, minima and maxima, required children, priority
//! order, order-sensitive failure, fixed sizes and no-growth stability.

use vstd::prelude::*;

use crate::types::ChildConstraints;
use crate::types::is_required;
use crate::types::priority_of;
use crate::types::wf_constraints;
use crate::model::build_state;
use crate::model::can_take;
use crate::model::count_seated;
use crate::model::growth_at;
use crate::model::margin_cost;
use crate::model::margin_total;
use crate::model::ord_of;
use crate::model::phase1;
use crate::model::phase2;
use crate::model::phase3;
use crate::model::phase3b;
use crate::model::sat_bound;
use crate::model::size_at;
use crate::model::spec_build;
use crate::model::sum_growth;
use crate::model::sum_sizes;
use crate::model::wf_all;
use crate::lemmas::lemma_count_bounds;
use crate::lemmas::lemma_growth_at_bounds;
use crate::lemmas::lemma_ord_props;
use crate::lemmas::lemma_phase1_state;
use crate::lemmas::lemma_phase2_state;
use crate::lemmas::lemma_phase3_state;
use crate::lemmas::lemma_phase3b_state;
use crate::lemmas::lemma_sum_growth_props;
use crate::lemmas::untouched;

verus! {

/// The state phase 2 leaves behind, as a function of the inputs.
pub open spec fn mid_state(cs: Seq<ChildConstraints>, available: int, margin: int) -> (
    Seq<Option<int>>,
    int,
    int,
) {
    let st1 = phase1(cs, margin, available, cs.len() as int)->Some_0;
    phase2(cs, margin, ord_of(cs), st1, ord_of(cs).len() as int)
}

/// The total growth share of a build, as a function of the inputs.
pub open spec fn total_growth(cs: Seq<ChildConstraints>, available: int, margin: int) -> int {
    let st2 = mid_state(cs, available, margin);
    sum_growth(cs, st2.0, st2.1, cs.len() as int)
}

/// The state the proportional phase leaves behind, as a function of the
/// inputs.
pub open spec fn grown_state(cs: Seq<ChildConstraints>, available: int, margin: int) -> (
    Seq<Option<int>>,
    int,
) {
    let st2 = mid_state(cs, available, margin);
    let total = total_growth(cs, available, margin);
    if total <= 0 {
        (st2.0, st2.1)
    } else {
        phase3(cs, st2.0, st2.1, total, cs.len() as int)
    }
}

/// The facts every successful build satisfies, phase by phase; the
/// other laws are read off from these.
pub proof fn lemma_build_pipeline(cs: Seq<ChildConstraints>, available: usize, margin: usize)
    requires
        wf_all(cs),
        cs.len() <= usize::MAX,
        build_state(cs, available as int, margin as int) is Some,
    ensures
        ({
            let st1 = phase1(cs, margin as int, available as int, cs.len() as int)->Some_0;
            let st2 = mid_state(cs, available as int, margin as int);
            let st3 = grown_state(cs, available as int, margin as int);
            let q = build_state(cs, available as int, margin as int)->Some_0;
            &&& phase1(cs, margin as int, available as int, cs.len() as int) is Some
            &&& q == phase3b(cs, st3)
            &&& q.0.len() == cs.len()
            &&& st2.0.len() == cs.len()
            &&& st3.0.len() == cs.len()
            &&& 0 <= q.1 <= st3.1
            &&& 0 <= st3.1 <= st2.1
            &&& sum_sizes(q.0) + margin_total(margin as int, count_seated(q.0)) + q.1
                == available as int
            &&& count_seated(q.0) == st2.2
            &&& forall|j: int| 0 <= j < cs.len() ==> (q.0[j] is Some <==> st2.0[j] is Some)
            &&& forall|j: int| 0 <= j < cs.len() ==> (st3.0[j] is Some <==> st2.0[j] is Some)
            &&& forall|j: int|
                0 <= j < cs.len() && #[trigger] st2.0[j] is Some ==> st2.0[j] == Option::Some(
                    cs[j].min as int,
                )
            &&& forall|j: int| 0 <= j < cs.len() ==> size_at(st2.0, j) <= size_at(st3.0, j)
            &&& forall|j: int| 0 <= j < cs.len() ==> size_at(st3.0, j) <= size_at(q.0, j)
            &&& forall|j: int|
                0 <= j < cs.len() && is_required(#[trigger] cs[j]) ==> q.0[j] is Some
            &&& forall|j: int|
                0 <= j < cs.len() ==> 0 <= #[trigger] growth_at(cs, st2.0, st2.1, j)
                    <= sat_bound()
            &&& (q.1 == 0 || forall|j: int|
                0 <= j < cs.len() && q.0[j] is Some ==> !can_take(cs[j], size_at(q.0, j)))
            &&& forall|j: int|
                0 <= j < cs.len() && !can_take(cs[j], size_at(st3.0, j)) ==> q.0[j] == st3.0[j]
            &&& forall|j: int|
                0 <= j < cs.len() && growth_at(cs, st2.0, st2.1, j) == 0 ==> st3.0[j] == st2.0[j]
        }),
{
    let m = margin as int;
    let a0 = available as int;
    let n = cs.len() as int;
    lemma_phase1_state(cs, m, a0, n);
    lemma_ord_props(cs);
    let st1 = phase1(cs, m, a0, n)->Some_0;
    let ord = ord_of(cs);
    assert forall|t: int| 0 <= t < ord.len() implies 0 <= (#[trigger] ord[t]).1 < cs.len()
        && st1.0[ord[t].1 as int] is None by {
        assert(!is_required(cs[ord[t].1 as int]));
    }
    lemma_phase2_state(cs, m, ord, st1, ord.len() as int);
    let st2 = mid_state(cs, a0, m);
    assert forall|j: int| 0 <= j < cs.len() && #[trigger] st2.0[j] is Some implies st2.0[j]
        == Option::Some(cs[j].min as int) by {
        assert(st2.0[j] == st1.0[j] || st2.0[j] == Option::Some(cs[j].min as int));
    }
    assert forall|j: int| 0 <= j < cs.len() implies 0 <= #[trigger] growth_at(cs, st2.0, st2.1, j)
        <= sat_bound() by {
        assert(wf_constraints(cs[j]));
        lemma_growth_at_bounds(cs, st2.0, st2.1, j);
    }
    lemma_sum_growth_props(cs, st2.0, st2.1, n);
    let total = total_growth(cs, a0, m);
    let st3 = grown_state(cs, a0, m);
    if total > 0 {
        lemma_phase3_state(cs, st2.0, st2.1, total, n);
    }
    lemma_phase3b_state(cs, st3);
    let q = build_state(cs, a0, m)->Some_0;
    lemma_count_bounds(st2.0);
    if st2.2 > 0 {
        vstd::arithmetic::mul::lemma_mul_nonnegative(m, st2.2 - 1);
    }
    assert(count_seated(q.0) == count_seated(st3.0));
    assert(count_seated(st3.0) == count_seated(st2.0));
    assert(sum_sizes(q.0) + q.1 == sum_sizes(st3.0) + st3.1);
    assert(sum_sizes(st3.0) + st3.1 == sum_sizes(st2.0) + st2.1);
    assert(sum_sizes(st2.0) + margin_total(m, st2.2) + st2.1 == a0);
}

/// Budget conservation: on success, the seated sizes plus the margins
/// between the seated children never exceed the budget.
pub proof fn lemma_budget_conservation(cs: Seq<ChildConstraints>, available: usize, margin: usize)
    requires
        wf_all(cs),
        cs.len() <= usize::MAX,
        spec_build(cs, available as int, margin as int) is Some,
    ensures
        ({
            let sizes = spec_build(cs, available as int, margin as int)->Some_0;
            sum_sizes(sizes) + margin_total(margin as int, count_seated(sizes))
                <= available as int
        }),
{
    lemma_build_pipeline(cs, available, margin);
}

/// Minimum respected: on success, every seated child's resolved size is
/// at least its declared minimum.
pub proof fn lemma_minimum_respected(
    cs: Seq<ChildConstraints>,
    available: usize,
    margin: usize,
    i: int,
)
    requires
        wf_all(cs),
        cs.len() <= usize::MAX,
        spec_build(cs, available as int, margin as int) is Some,
        0 <= i < cs.len(),
        spec_build(cs, available as int, margin as int)->Some_0[i] is Some,
    ensures
        size_at(spec_build(cs, available as int, margin as int)->Some_0, i) >= cs[i].min,
{
    lemma_build_pipeline(cs, available, margin);
}

/// Required always seated: on success, no required child is excluded.
pub proof fn lemma_required_seated(
    cs: Seq<ChildConstraints>,
    available: usize,
    margin: usize,
    i: int,
)
    requires
        wf_all(cs),
        cs.len() <= usize::MAX,
        spec_build(cs, available as int, margin as int) is Some,
        0 <= i < cs.len(),
        is_required(cs[i]),
    ensures
        spec_build(cs, available as int, margin as int)->Some_0[i] is Some,
{
    lemma_build_pipeline(cs, available, margin);
}

/// Fixed size: a seated child whose minimum and maximum coincide always
/// resolves to exactly that size, whatever slack is left over.
pub proof fn lemma_fixed_size(cs: Seq<ChildConstraints>, available: usize, margin: usize, i: int)
    requires
        wf_all(cs),
        cs.len() <= usize::MAX,
        spec_build(cs, available as int, margin as int) is Some,
        0 <= i < cs.len(),
        cs[i].max == Option::Some(cs[i].min),
        spec_build(cs, available as int, margin as int)->Some_0[i] is Some,
    ensures
        spec_build(cs, available as int, margin as int)->Some_0[i] == Option::Some(
            cs[i].min as int,
        ),
{
    lemma_build_pipeline(cs, available, margin);
    let st2 = mid_state(cs, available as int, margin as int);
    let st3 = grown_state(cs, available as int, margin as int);
    assert(st2.0[i] == Option::Some(cs[i].min as int));
    assert(growth_at(cs, st2.0, st2.1, i) == cs[i].grow * 0);
    assert(cs[i].grow * 0 == 0) by (nonlinear_arith);
    assert(st3.0[i] == st2.0[i]);
    assert(!can_take(cs[i], size_at(st3.0, i)));
}

/// When every growth share is zero, so is their sum.
proof fn lemma_sum_growth_zero(
    cs: Seq<ChildConstraints>,
    sizes: Seq<Option<int>>,
    avail: int,
    k: int,
)
    requires
        0 <= k <= cs.len(),
        forall|i: int| 0 <= i < cs.len() ==> #[trigger] growth_at(cs, sizes, avail, i) == 0,
    ensures
        sum_growth(cs, sizes, avail, k) == 0,
    decreases k,
{
    if k > 0 {
        lemma_sum_growth_zero(cs, sizes, avail, k - 1);
    }
}

/// No-growth stability, children all at their maximum: when every
/// seated child's minimum and maximum coincide, the growth phases
/// change nothing and every seated child resolves to its minimum.
pub proof fn lemma_no_growth_all_fixed(cs: Seq<ChildConstraints>, available: usize, margin: usize)
    requires
        wf_all(cs),
        cs.len() <= usize::MAX,
        spec_build(cs, available as int, margin as int) is Some,
        forall|i: int|
            0 <= i < cs.len() && #[trigger] spec_build(cs, available as int, margin as int)->Some_0[i]
                is Some ==> cs[i].max == Option::Some(cs[i].min),
    ensures
        forall|i: int|
            0 <= i < cs.len() && #[trigger] spec_build(cs, available as int, margin as int)->Some_0[i]
                is Some ==> spec_build(cs, available as int, margin as int)->Some_0[i]
                == Option::Some(cs[i].min as int),
{
    lemma_build_pipeline(cs, available, margin);
    assert forall|i: int|
        0 <= i < cs.len() && #[trigger] spec_build(cs, available as int, margin as int)->Some_0[i]
            is Some implies spec_build(cs, available as int, margin as int)->Some_0[i]
        == Option::Some(cs[i].min as int) by {
        lemma_fixed_size(cs, available, margin, i);
    }
}

/// No-growth stability, exact fill: when every seated child either has
/// growth weight 0 or sits at its maximum already, and some seated
/// child has no maximum, the round-robin phase hands out exactly the
/// remaining space: the budget is consumed to the last unit.
pub proof fn lemma_no_growth_exact_fill(
    cs: Seq<ChildConstraints>,
    available: usize,
    margin: usize,
    witness: int,
)
    requires
        wf_all(cs),
        cs.len() <= usize::MAX,
        spec_build(cs, available as int, margin as int) is Some,
        forall|i: int|
            0 <= i < cs.len() && #[trigger] spec_build(cs, available as int, margin as int)->Some_0[i]
                is Some ==> (cs[i].grow == 0 || cs[i].max == Option::Some(cs[i].min)),
        0 <= witness < cs.len(),
        spec_build(cs, available as int, margin as int)->Some_0[witness] is Some,
        cs[witness].max is None,
    ensures
        ({
            let sizes = spec_build(cs, available as int, margin as int)->Some_0;
            sum_sizes(sizes) + margin_total(margin as int, count_seated(sizes))
                == available as int
        }),
{
    lemma_build_pipeline(cs, available, margin);
    let st2 = mid_state(cs, available as int, margin as int);
    let st3 = grown_state(cs, available as int, margin as int);
    let q = build_state(cs, available as int, margin as int)->Some_0;
    assert forall|i: int| 0 <= i < cs.len() implies #[trigger] growth_at(cs, st2.0, st2.1, i)
        == 0 by {
        if st2.0[i] is Some {
            assert(q.0[i] is Some);
            assert(st2.0[i] == Option::Some(cs[i].min as int));
            if cs[i].grow == 0 {
                assert(0 * crate::model::cap_of(cs[i], cs[i].min as int, st2.1) == 0)
                    by (nonlinear_arith);
            } else {
                assert(cs[i].max == Option::Some(cs[i].min));
                assert(cs[i].grow * 0 == 0) by (nonlinear_arith);
            }
        }
    }
    lemma_sum_growth_zero(cs, st2.0, st2.1, cs.len() as int);
    assert(st3 == (st2.0, st2.1));
    assert(q.0[witness] is Some);
    assert(can_take(cs[witness], size_at(q.0, witness)));
    assert(q.1 == 0);
}

/// Whether the proportional phase keeps every child with a declared
/// maximum within it. This is exactly the set of builds on which the
/// maximum is honoured: a growth share out of proportion to a small
/// capacity can push a bounded child past its maximum, and the
/// round-robin phase never does.
pub open spec fn growth_within_max(cs: Seq<ChildConstraints>, available: int, margin: int) -> bool {
    phase1(cs, margin, available, cs.len() as int) is Some ==> {
        let st3 = grown_state(cs, available, margin);
        forall|j: int|
            0 <= j < cs.len() && (#[trigger] cs[j]).max is Some ==> size_at(st3.0, j)
                <= cs[j].max->Some_0
    }
}

/// Maximum respected: on a successful build whose proportional phase
/// stays within the declared maxima, every child with a maximum
/// resolves to at most that maximum.
pub proof fn lemma_maximum_respected(
    cs: Seq<ChildConstraints>,
    available: usize,
    margin: usize,
    i: int,
)
    requires
        wf_all(cs),
        cs.len() <= usize::MAX,
        spec_build(cs, available as int, margin as int) is Some,
        growth_within_max(cs, available as int, margin as int),
        0 <= i < cs.len(),
        cs[i].max is Some,
    ensures
        size_at(spec_build(cs, available as int, margin as int)->Some_0, i)
            <= cs[i].max->Some_0,
{
    lemma_build_pipeline(cs, available, margin);
    let st3 = grown_state(cs, available as int, margin as int);
    let q = build_state(cs, available as int, margin as int)->Some_0;
    lemma_phase3b_state(cs, st3);
    if st3.0[i] is Some {
        assert(size_at(st3.0, i) <= cs[i].max->Some_0);
    } else {
        assert(q.0[i] is None);
        assert(size_at(q.0, i) == 0);
    }
}

/// The subsequence of the required children, in input order.
pub open spec fn required_only(cs: Seq<ChildConstraints>) -> Seq<ChildConstraints>
    decreases cs.len(),
{
    if cs.len() <= 0 {
        Seq::empty()
    } else {
        let prev = required_only(cs.drop_last());
        if is_required(cs.last()) {
            prev.push(cs.last())
        } else {
            prev
        }
    }
}

/// Phase 1 reads only the first `k` children.
proof fn lemma_phase1_prefix(
    cs1: Seq<ChildConstraints>,
    cs2: Seq<ChildConstraints>,
    margin: int,
    avail0: int,
    k: int,
)
    requires
        0 <= k,
        forall|t: int| 0 <= t < k ==> cs1[t] == cs2[t],
    ensures
        phase1(cs1, margin, avail0, k) == phase1(cs2, margin, avail0, k),
    decreases k,
{
    if k > 0 {
        lemma_phase1_prefix(cs1, cs2, margin, avail0, k - 1);
    }
}

/// Phase 1 passes over the optional children without reading them: its
/// outcome over a prefix equals its outcome over just the required
/// children of that prefix.
proof fn lemma_phase1_required_only(cs: Seq<ChildConstraints>, margin: int, avail0: int, i: int)
    requires
        0 <= i <= cs.len(),
    ensures
        ({
            let a = phase1(cs, margin, avail0, i);
            let ro = required_only(cs.take(i));
            let b = phase1(ro, margin, avail0, ro.len() as int);
            &&& (a is Some <==> b is Some)
            &&& (a is Some ==> a->Some_0.1 == b->Some_0.1 && a->Some_0.2 == b->Some_0.2)
        }),
    decreases i,
{
    if i == 0 {
        assert(cs.take(0) =~= Seq::<ChildConstraints>::empty());
    } else {
        lemma_phase1_required_only(cs, margin, avail0, i - 1);
        assert(cs.take(i).drop_last() =~= cs.take(i - 1));
        assert(cs.take(i).last() == cs[i - 1]);
        let ro_prev = required_only(cs.take(i - 1));
        if is_required(cs[i - 1]) {
            let ro = ro_prev.push(cs[i - 1]);
            assert(required_only(cs.take(i)) == ro);
            assert forall|t: int| 0 <= t < ro_prev.len() implies ro[t] == ro_prev[t] by {}
            lemma_phase1_prefix(ro, ro_prev, margin, avail0, ro_prev.len() as int);
            assert(ro[ro.len() - 1] == cs[i - 1]);
        } else {
            assert(required_only(cs.take(i)) == ro_prev);
        }
    }
}

/// Order-sensitive failure: a build fails exactly when the build of its
/// required children alone fails, in the same order and with the same
/// budget and margin. Optional children neither cause nor prevent the
/// failure, whatever space skipping them would free.
pub proof fn lemma_failure_required_only(
    cs: Seq<ChildConstraints>,
    available: usize,
    margin: usize,
)
    ensures
        spec_build(cs, available as int, margin as int) is None <==> spec_build(
            required_only(cs),
            available as int,
            margin as int,
        ) is None,
{
    lemma_phase1_required_only(cs, margin as int, available as int, cs.len() as int);
    assert(cs.take(cs.len() as int) =~= cs);
}

/// Phase 2 keeps the number of slots.
proof fn lemma_phase2_len(
    cs: Seq<ChildConstraints>,
    margin: int,
    ord: Seq<(usize, usize)>,
    st1: (Seq<Option<int>>, int, int),
    k: int,
)
    requires
        0 <= k <= ord.len(),
        forall|u: int| 0 <= u < ord.len() ==> (#[trigger] ord[u]).1 < st1.0.len(),
    ensures
        phase2(cs, margin, ord, st1, k).0.len() == st1.0.len(),
    decreases k,
{
    if k > 0 {
        lemma_phase2_len(cs, margin, ord, st1, k - 1);
    }
}

/// Space never grows and the seated count never shrinks as phase 2
/// proceeds, and a seated slot stays seated.
proof fn lemma_phase2_mono(
    cs: Seq<ChildConstraints>,
    margin: int,
    ord: Seq<(usize, usize)>,
    st1: (Seq<Option<int>>, int, int),
    k1: int,
    k2: int,
)
    requires
        margin >= 0,
        0 <= k1 <= k2 <= ord.len(),
        forall|u: int| 0 <= u < ord.len() ==> (#[trigger] ord[u]).1 < st1.0.len(),
    ensures
        phase2(cs, margin, ord, st1, k2).1 <= phase2(cs, margin, ord, st1, k1).1,
        phase2(cs, margin, ord, st1, k2).2 >= phase2(cs, margin, ord, st1, k1).2,
        forall|j: int|
            0 <= j < st1.0.len() && #[trigger] phase2(cs, margin, ord, st1, k1).0[j] is Some
                ==> phase2(cs, margin, ord, st1, k2).0[j] is Some,
    decreases k2,
{
    if k2 > k1 {
        lemma_phase2_mono(cs, margin, ord, st1, k1, k2 - 1);
        let st = phase2(cs, margin, ord, st1, k2 - 1);
        lemma_phase2_len(cs, margin, ord, st1, k2 - 1);
        let mc = margin_cost(margin, st.2);
        assert(mc >= 0);
        assert forall|j: int|
            0 <= j < st1.0.len() && #[trigger] phase2(cs, margin, ord, st1, k1).0[j]
                is Some implies phase2(cs, margin, ord, st1, k2).0[j] is Some by {
            assert(st.0[j] is Some);
        }
    }
}

/// After the step that touches a slot, phase 2 leaves it alone.
proof fn lemma_phase2_after(
    cs: Seq<ChildConstraints>,
    margin: int,
    ord: Seq<(usize, usize)>,
    st1: (Seq<Option<int>>, int, int),
    k: int,
    t: int,
)
    requires
        0 <= t < k <= ord.len(),
        forall|u: int, v: int|
            0 <= u < v < ord.len() ==> (#[trigger] ord[u]).1 != (#[trigger] ord[v]).1,
        forall|u: int| 0 <= u < ord.len() ==> (#[trigger] ord[u]).1 < st1.0.len(),
    ensures
        phase2(cs, margin, ord, st1, k).0[ord[t].1 as int] == phase2(
            cs,
            margin,
            ord,
            st1,
            t + 1,
        ).0[ord[t].1 as int],
    decreases k,
{
    if k > t + 1 {
        lemma_phase2_after(cs, margin, ord, st1, k - 1, t);
        lemma_phase2_len(cs, margin, ord, st1, k - 1);
        assert(ord[t].1 != ord[k - 1].1);
    }
}

/// Priority ordering: a higher-priority optional child that asks for no
/// more space than a seated lower-priority one is itself seated,
/// wherever the two stand in the input.
pub proof fn lemma_priority_order(
    cs: Seq<ChildConstraints>,
    available: usize,
    margin: usize,
    i: int,
    j: int,
)
    requires
        wf_all(cs),
        cs.len() <= usize::MAX,
        spec_build(cs, available as int, margin as int) is Some,
        0 <= i < cs.len(),
        0 <= j < cs.len(),
        !is_required(cs[i]),
        !is_required(cs[j]),
        priority_of(cs[i]) > priority_of(cs[j]),
        cs[i].min <= cs[j].min,
        spec_build(cs, available as int, margin as int)->Some_0[j] is Some,
    ensures
        spec_build(cs, available as int, margin as int)->Some_0[i] is Some,
{
    let m = margin as int;
    let a0 = available as int;
    let n = cs.len() as int;
    lemma_build_pipeline(cs, available, margin);
    lemma_phase1_state(cs, m, a0, n);
    lemma_ord_props(cs);
    let st1 = phase1(cs, m, a0, n)->Some_0;
    let ord = ord_of(cs);
    let st2 = mid_state(cs, a0, m);
    let q = build_state(cs, a0, m)->Some_0;
    let pi = (priority_of(cs[i]), i as usize);
    let pj = (priority_of(cs[j]), j as usize);
    assert(ord.contains(pi));
    assert(ord.contains(pj));
    let a = choose|t: int| 0 <= t < ord.len() && ord[t] == pi;
    let b = choose|t: int| 0 <= t < ord.len() && ord[t] == pj;
    assert(a != b);
    if b < a {
        assert(crate::model::pair_le(ord[b], ord[a]));
        assert(false);
    }
    assert(a < b);
    assert forall|t: int| 0 <= t < ord.len() implies 0 <= (#[trigger] ord[t]).1 < cs.len()
        && st1.0[ord[t].1 as int] is None by {
        assert(!is_required(cs[ord[t].1 as int]));
    }
    // the step at b seated child j, so its check passed
    lemma_phase2_state(cs, m, ord, st1, b);
    let stb = phase2(cs, m, ord, st1, b);
    assert(untouched(ord, b, j)) by {
        assert forall|t: int| 0 <= t < b implies (#[trigger] ord[t]).1 != j by {
            assert(ord[t].1 != ord[b].1);
        }
    }
    assert(stb.0[j] == st1.0[j]);
    assert(stb.0[j] is None);
    lemma_phase2_after(cs, m, ord, st1, ord.len() as int, b);
    assert(st2.0[j] is Some);
    assert(phase2(cs, m, ord, st1, b + 1).0[j] is Some);
    assert(cs[j].min + margin_cost(m, stb.2) <= stb.1);
    // monotonicity back to the earlier step at a
    lemma_phase2_state(cs, m, ord, st1, a);
    let sta = phase2(cs, m, ord, st1, a);
    lemma_phase2_mono(cs, m, ord, st1, a, b);
    lemma_count_bounds(st1.0);
    assert(sta.2 >= st1.2 >= 0);
    assert(margin_cost(m, sta.2) <= margin_cost(m, stb.2));
    assert(cs[i].min + margin_cost(m, sta.2) <= stb.1 <= sta.1);
    assert(phase2(cs, m, ord, st1, a + 1).0[i] == Option::Some(cs[i].min as int));
    lemma_phase2_after(cs, m, ord, st1, ord.len() as int, a);
    assert(st2.0[i] is Some);
    assert(q.0[i] is Some);
}

} // verus!