//! Supporting lemmas about the model: how the bookkeeping functions
//! behave under `push` and `update`, and what state each phase of the
//! pipeline leaves behind.

use vstd::prelude::*;

use crate::types::ChildConstraints;
use crate::types::is_required;
use crate::types::wf_constraints;
use crate::types::priority_of;
use crate::model::can_take;
use crate::model::cap_of;
use crate::model::count_seated;
use crate::model::growth_at;
use crate::model::pass3b;
use crate::model::phase3;
use crate::model::phase3b;
use crate::model::sat_bound;
use crate::model::sat_mul128;
use crate::model::sum_growth;
use crate::model::insert_pair;
use crate::model::margin_cost;
use crate::model::margin_total;
use crate::model::opt_pairs;
use crate::model::ord_of;
use crate::model::pair_before;
use crate::model::pair_le;
use crate::model::phase1;
use crate::model::phase2;
use crate::model::size_at;
use crate::model::sort_pairs;
use crate::model::sum_sizes;

verus! {

/// Pushing a slot adds its size (0 when empty) to the sum and, when
/// filled, one to the seated count.
pub proof fn lemma_sum_push(s: Seq<Option<int>>, x: Option<int>)
    ensures
        sum_sizes(s.push(x)) == sum_sizes(s) + (match x {
            Option::None => 0int,
            Option::Some(v) => v,
        }),
        count_seated(s.push(x)) == count_seated(s) + (if x is Some {
            1int
        } else {
            0int
        }),
{
    assert(s.push(x).drop_last() =~= s);
    assert(size_at(s.push(x), s.len() as int) == (match x {
        Option::None => 0int,
        Option::Some(v) => v,
    }));
}

/// Updating a slot replaces its contribution to the sum and to the
/// seated count.
pub proof fn lemma_sum_update(s: Seq<Option<int>>, i: int, x: Option<int>)
    requires
        0 <= i < s.len(),
    ensures
        sum_sizes(s.update(i, x)) == sum_sizes(s) - size_at(s, i) + (match x {
            Option::None => 0int,
            Option::Some(v) => v,
        }),
        count_seated(s.update(i, x)) == count_seated(s) - (if s[i] is Some {
            1int
        } else {
            0int
        }) + (if x is Some {
            1int
        } else {
            0int
        }),
    decreases s.len(),
{
    if i == s.len() - 1 {
        assert(s.update(i, x).drop_last() =~= s.drop_last());
    } else {
        assert(s.update(i, x).drop_last() =~= s.drop_last().update(i, x));
        lemma_sum_update(s.drop_last(), i, x);
    }
}

/// Every slot's size is between 0 and the whole sum, when no slot is
/// negative.
pub proof fn lemma_sum_bounds(s: Seq<Option<int>>, i: int)
    requires
        0 <= i < s.len(),
        forall|j: int| 0 <= j < s.len() ==> size_at(s, j) >= 0,
    ensures
        size_at(s, i) <= sum_sizes(s),
        sum_sizes(s) >= 0,
    decreases s.len(),
{
    assert forall|j: int|
        0 <= j < s.drop_last().len() implies size_at(s.drop_last(), j) >= 0 by {
        assert(s.drop_last()[j] == s[j]);
        assert(size_at(s, j) >= 0);
    }
    if i == s.len() - 1 {
        lemma_sum_nonneg(s.drop_last());
    } else {
        assert(size_at(s.drop_last(), i) == size_at(s, i));
        lemma_sum_bounds(s.drop_last(), i);
    }
}

/// The sum of an all-nonnegative slot sequence is nonnegative.
pub proof fn lemma_sum_nonneg(s: Seq<Option<int>>)
    requires
        forall|j: int| 0 <= j < s.len() ==> size_at(s, j) >= 0,
    ensures
        sum_sizes(s) >= 0,
    decreases s.len(),
{
    if s.len() > 0 {
        assert forall|j: int|
            0 <= j < s.drop_last().len() implies size_at(s.drop_last(), j) >= 0 by {
            assert(s.drop_last()[j] == s[j]);
            assert(size_at(s, j) >= 0);
        }
        lemma_sum_nonneg(s.drop_last());
    }
}

/// Seating one more child costs one more margin step.
pub proof fn lemma_margin_total_step(margin: int, count: int)
    requires
        margin >= 0,
        count >= 0,
    ensures
        margin_total(margin, count + 1) == margin_total(margin, count) + margin_cost(margin, count),
{
    if count > 0 {
        assert(margin_total(margin, count + 1) == margin * count);
        assert(margin_total(margin, count) == margin * (count - 1));
        assert(margin * count == margin * (count - 1) + margin) by (nonlinear_arith);
    } else {
        assert(margin_total(margin, count + 1) == margin * 0);
        assert(margin * 0 == 0) by (nonlinear_arith);
    }
}

/// Once phase 1 has failed on a prefix, it fails on every longer one.
pub proof fn lemma_phase1_none_mono(
    cs: Seq<ChildConstraints>,
    margin: int,
    avail0: int,
    i: int,
    j: int,
)
    requires
        0 <= i <= j,
        phase1(cs, margin, avail0, i) is None,
    ensures
        phase1(cs, margin, avail0, j) is None,
    decreases j,
{
    if j > i {
        lemma_phase1_none_mono(cs, margin, avail0, i, j - 1);
    }
}

/// The state a successful phase 1 leaves over the first `i` children:
/// one slot per child, required children seated at exactly their
/// minimum, optional ones unseated, and minimum plus margin deducted
/// from the budget for each seated child.
pub proof fn lemma_phase1_state(cs: Seq<ChildConstraints>, margin: int, avail0: int, i: int)
    requires
        0 <= i <= cs.len(),
        margin >= 0,
        avail0 >= 0,
        phase1(cs, margin, avail0, i) is Some,
    ensures
        ({
            let st = phase1(cs, margin, avail0, i)->Some_0;
            &&& st.0.len() == i
            &&& st.2 == count_seated(st.0)
            &&& 0 <= st.2 <= i
            &&& 0 <= st.1 <= avail0
            &&& sum_sizes(st.0) + margin_total(margin, st.2) + st.1 == avail0
            &&& forall|j: int|
                0 <= j < i ==> st.0[j] == (if is_required(cs[j]) {
                    Option::Some(cs[j].min as int)
                } else {
                    Option::<int>::None
                })
        }),
    decreases i,
{
    if i > 0 {
        lemma_phase1_state(cs, margin, avail0, i - 1);
        let st = phase1(cs, margin, avail0, i - 1)->Some_0;
        let c = cs[i - 1];
        if is_required(c) {
            let mc = margin_cost(margin, st.2);
            if !(c.min + mc > st.1) {
                lemma_sum_push(st.0, Option::Some(c.min as int));
                lemma_margin_total_step(margin, st.2);
            }
        } else {
            lemma_sum_push(st.0, Option::None);
        }
    }
}

/// `insert_pair` puts the new pair exactly in front of the first
/// element it strictly precedes.
pub proof fn lemma_insert_pair_at(x: (usize, usize), s: Seq<(usize, usize)>, k: int)
    requires
        0 <= k <= s.len(),
        forall|j: int| 0 <= j < k ==> !pair_before(x, #[trigger] s[j]),
        k < s.len() ==> pair_before(x, s[k]),
    ensures
        insert_pair(x, s) == s.insert(k, x),
    decreases s.len(),
{
    if s.len() == 0 {
        assert(insert_pair(x, s) =~= s.insert(0, x));
    } else if k == 0 {
        assert(insert_pair(x, s) == seq![x] + s);
        assert(seq![x] + s =~= s.insert(0, x));
    } else {
        assert(!pair_before(x, s[0]));
        let rest = s.drop_first();
        assert forall|j: int| 0 <= j < k - 1 implies !pair_before(x, #[trigger] rest[j]) by {
            assert(rest[j] == s[j + 1]);
        }
        if k - 1 < rest.len() {
            assert(rest[k - 1] == s[k]);
        }
        lemma_insert_pair_at(x, rest, k - 1);
        assert(seq![s[0]] + rest.insert(k - 1, x) =~= s.insert(k, x));
    }
}

/// Sortedness under the phase-2 processing order.
pub open spec fn sorted_pairs(s: Seq<(usize, usize)>) -> bool {
    forall|a: int, b: int| 0 <= a < b < s.len() ==> pair_le(#[trigger] s[a], #[trigger] s[b])
}

/// Pairwise distinct child indices.
pub open spec fn distinct_indices(s: Seq<(usize, usize)>) -> bool {
    forall|t: int, u: int| 0 <= t < u < s.len() ==> (#[trigger] s[t]).1 != (#[trigger] s[u]).1
}

/// What `opt_pairs` builds: one pair per optional child among the first
/// `i`, carrying its priority and its index, indices strictly
/// increasing, and nothing else.
pub proof fn lemma_opt_pairs_form(cs: Seq<ChildConstraints>, i: int)
    requires
        0 <= i <= cs.len(),
        cs.len() <= usize::MAX,
    ensures
        ({
            let op = opt_pairs(cs, i);
            &&& op.len() <= i
            &&& forall|t: int|
                0 <= t < op.len() ==> {
                    &&& 0 <= (#[trigger] op[t]).1 < i
                    &&& !is_required(cs[op[t].1 as int])
                    &&& op[t].0 == priority_of(cs[op[t].1 as int])
                }
            &&& forall|t: int, u: int|
                0 <= t < u < op.len() ==> (#[trigger] op[t]).1 < (#[trigger] op[u]).1
        }),
    decreases i,
{
    if i > 0 {
        lemma_opt_pairs_form(cs, i - 1);
    }
}

/// Every optional child among the first `i` has its pair in
/// `opt_pairs`.
pub proof fn lemma_opt_pairs_complete(cs: Seq<ChildConstraints>, i: int, j: int)
    requires
        0 <= j < i <= cs.len(),
        cs.len() <= usize::MAX,
        !is_required(cs[j]),
    ensures
        opt_pairs(cs, i).contains((priority_of(cs[j]), j as usize)),
    decreases i,
{
    let op = opt_pairs(cs, i);
    let prev = opt_pairs(cs, i - 1);
    if j == i - 1 {
        assert(op[prev.len() as int] == (priority_of(cs[j]), j as usize));
    } else {
        lemma_opt_pairs_complete(cs, i - 1, j);
        let t = choose|t: int| 0 <= t < prev.len() && prev[t] == (priority_of(cs[j]), j as usize);
        assert(op[t] == (priority_of(cs[j]), j as usize));
    }
}

/// Inserting into a sorted sequence keeps it sorted, adds exactly the
/// new element, and keeps the child indices distinct when the new index
/// is fresh.
pub proof fn lemma_insert_pair_props(x: (usize, usize), s: Seq<(usize, usize)>)
    requires
        sorted_pairs(s),
    ensures
        insert_pair(x, s).len() == s.len() + 1,
        forall|y: (usize, usize)|
            #![trigger insert_pair(x, s).contains(y)]
            #![trigger s.contains(y)]
            insert_pair(x, s).contains(y) <==> (y == x || s.contains(y)),
        sorted_pairs(insert_pair(x, s)),
        (distinct_indices(s) && (forall|t: int|
            0 <= t < s.len() ==> (#[trigger] s[t]).1 != x.1)) ==> distinct_indices(
            insert_pair(x, s),
        ),
    decreases s.len(),
{
    let r = insert_pair(x, s);
    if s.len() == 0 {
        assert(r =~= seq![x]);
        assert forall|y: (usize, usize)| r.contains(y) implies (y == x || s.contains(y)) by {
            let t = choose|t: int| 0 <= t < r.len() && r[t] == y;
            assert(r[0] == x);
        }
        assert(r.contains(x)) by {
            assert(r[0] == x);
        }
    } else if pair_before(x, s[0]) {
        assert(r == seq![x] + s);
        assert forall|a: int, b: int| 0 <= a < b < r.len() implies pair_le(r[a], r[b]) by {
            if a == 0 {
                assert(r[b] == s[b - 1]);
                if b > 1 {
                    assert(pair_le(s[0], s[b - 1]));
                }
            } else {
                assert(r[a] == s[a - 1] && r[b] == s[b - 1]);
            }
        }
        assert forall|y: (usize, usize)| r.contains(y) implies (y == x || s.contains(y)) by {
            let t = choose|t: int| 0 <= t < r.len() && r[t] == y;
            if t > 0 {
                assert(s[t - 1] == y);
            }
        }
        assert forall|y: (usize, usize)| (y == x || s.contains(y)) implies r.contains(y) by {
            if y == x {
                assert(r[0] == y);
            } else {
                let t = choose|t: int| 0 <= t < s.len() && s[t] == y;
                assert(r[t + 1] == y);
            }
        }
        if distinct_indices(s) && (forall|t: int| 0 <= t < s.len() ==> (#[trigger] s[t]).1 != x.1) {
            assert forall|t: int, u: int| 0 <= t < u < r.len() implies r[t].1 != r[u].1 by {
                if t == 0 {
                    assert(r[u] == s[u - 1]);
                } else {
                    assert(r[t] == s[t - 1] && r[u] == s[u - 1]);
                }
            }
        }
    } else {
        let rest = s.drop_first();
        assert forall|a: int, b: int| 0 <= a < b < rest.len() implies pair_le(rest[a], rest[b]) by {
            assert(rest[a] == s[a + 1] && rest[b] == s[b + 1]);
        }
        lemma_insert_pair_props(x, rest);
        let inner = insert_pair(x, rest);
        assert(r == seq![s[0]] + inner);
        // every element of the tail is x or an element of s
        assert forall|y: (usize, usize)| inner.contains(y) implies pair_le(s[0], y) by {
            if y == x {
            } else {
                assert(rest.contains(y));
                let t = choose|t: int| 0 <= t < rest.len() && rest[t] == y;
                assert(s[t + 1] == y);
                assert(pair_le(s[0], s[t + 1]));
            }
        }
        assert forall|a: int, b: int| 0 <= a < b < r.len() implies pair_le(r[a], r[b]) by {
            if a == 0 {
                assert(r[b] == inner[b - 1]);
                assert(inner.contains(inner[b - 1]));
            } else {
                assert(r[a] == inner[a - 1] && r[b] == inner[b - 1]);
            }
        }
        assert forall|y: (usize, usize)| r.contains(y) implies (y == x || s.contains(y)) by {
            let t = choose|t: int| 0 <= t < r.len() && r[t] == y;
            if t == 0 {
                assert(s[0] == y);
            } else {
                assert(inner[t - 1] == y);
                assert(inner.contains(y));
                assert(y == x || rest.contains(y));
                if y != x {
                    assert(rest.contains(y));
                    let u = choose|u: int| 0 <= u < rest.len() && rest[u] == y;
                    assert(s[u + 1] == y);
                }
            }
        }
        assert forall|y: (usize, usize)| (y == x || s.contains(y)) implies r.contains(y) by {
            if y == x {
                assert(inner.contains(x));
                let t = choose|t: int| 0 <= t < inner.len() && inner[t] == x;
                assert(r[t + 1] == x);
            } else {
                let t = choose|t: int| 0 <= t < s.len() && s[t] == y;
                if t == 0 {
                    assert(r[0] == y);
                } else {
                    assert(rest[t - 1] == y);
                    assert(rest.contains(y));
                    assert(inner.contains(y));
                    let u = choose|u: int| 0 <= u < inner.len() && inner[u] == y;
                    assert(r[u + 1] == y);
                }
            }
        }
        if distinct_indices(s) && (forall|t: int| 0 <= t < s.len() ==> (#[trigger] s[t]).1 != x.1) {
            assert forall|t: int| 0 <= t < rest.len() implies (#[trigger] rest[t]).1 != x.1 by {
                assert(rest[t] == s[t + 1]);
            }
            assert forall|t: int, u: int| 0 <= t < u < rest.len() implies (#[trigger] rest[t]).1
                != (#[trigger] rest[u]).1 by {
                assert(rest[t] == s[t + 1] && rest[u] == s[u + 1]);
            }
            assert forall|t: int, u: int| 0 <= t < u < r.len() implies r[t].1 != r[u].1 by {
                if t == 0 {
                    assert(r[u] == inner[u - 1]);
                    assert(inner.contains(inner[u - 1]));
                    let y = inner[u - 1];
                    if y == x {
                    } else {
                        let w = choose|w: int| 0 <= w < rest.len() && rest[w] == y;
                        assert(s[w + 1] == y);
                    }
                } else {
                    assert(r[t] == inner[t - 1] && r[u] == inner[u - 1]);
                }
            }
        }
    }
}

/// The sorted order of the optional pairs: same elements, sorted,
/// indices still distinct.
pub proof fn lemma_sort_pairs_props(s: Seq<(usize, usize)>)
    requires
        distinct_indices(s),
    ensures
        sort_pairs(s).len() == s.len(),
        forall|y: (usize, usize)|
            #![trigger sort_pairs(s).contains(y)]
            #![trigger s.contains(y)]
            sort_pairs(s).contains(y) <==> s.contains(y),
        sorted_pairs(sort_pairs(s)),
        distinct_indices(sort_pairs(s)),
    decreases s.len(),
{
    if s.len() > 0 {
        let butlast = s.drop_last();
        let x = s.last();
        assert forall|t: int, u: int| 0 <= t < u < butlast.len() implies (#[trigger] butlast[t]).1
            != (#[trigger] butlast[u]).1 by {
            assert(butlast[t] == s[t] && butlast[u] == s[u]);
        }
        lemma_sort_pairs_props(butlast);
        let sorted_prev = sort_pairs(butlast);
        assert forall|t: int| 0 <= t < sorted_prev.len() implies (#[trigger] sorted_prev[t]).1
            != x.1 by {
            assert(sorted_prev.contains(sorted_prev[t]));
            assert(butlast.contains(sorted_prev[t]));
            let u = choose|u: int| 0 <= u < butlast.len() && butlast[u] == sorted_prev[t];
            assert(s[u] == sorted_prev[t]);
            assert(s[u].1 != s[s.len() - 1].1);
        }
        lemma_insert_pair_props(x, sorted_prev);
        assert(sort_pairs(s) == insert_pair(x, sorted_prev));
        assert forall|y: (usize, usize)| sort_pairs(s).contains(y) implies s.contains(y) by {
            if y == x {
                assert(s[s.len() - 1] == y);
            } else {
                assert(sorted_prev.contains(y));
                assert(butlast.contains(y));
                let u = choose|u: int| 0 <= u < butlast.len() && butlast[u] == y;
                assert(s[u] == y);
            }
        }
        assert forall|y: (usize, usize)| s.contains(y) implies sort_pairs(s).contains(y) by {
            let t = choose|t: int| 0 <= t < s.len() && s[t] == y;
            if t == s.len() - 1 {
                assert(y == x);
                assert(insert_pair(x, sorted_prev).contains(y));
            } else {
                assert(butlast[t] == y);
                assert(butlast.contains(y));
                assert(sorted_prev.contains(y));
                assert(insert_pair(x, sorted_prev).contains(y));
            }
        }
    }
}

/// The seated count lies between 0 and the number of slots.
pub proof fn lemma_count_bounds(s: Seq<Option<int>>)
    ensures
        0 <= count_seated(s) <= s.len(),
    decreases s.len(),
{
    if s.len() > 0 {
        lemma_count_bounds(s.drop_last());
    }
}

/// No entry among the first `k` of the processing order touches slot
/// `j`.
pub open spec fn untouched(ord: Seq<(usize, usize)>, k: int, j: int) -> bool {
    forall|t: int| 0 <= t < k ==> (#[trigger] ord[t]).1 != j
}

/// The processing order of phase 2: the pair of every optional child
/// and no other, sorted by descending priority with input order
/// breaking ties, each child at most once.
pub proof fn lemma_ord_props(cs: Seq<ChildConstraints>)
    requires
        cs.len() <= usize::MAX,
    ensures
        ({
            let ord = ord_of(cs);
            &&& ord.len() <= cs.len()
            &&& forall|t: int|
                0 <= t < ord.len() ==> {
                    &&& 0 <= (#[trigger] ord[t]).1 < cs.len()
                    &&& !is_required(cs[ord[t].1 as int])
                    &&& ord[t].0 == priority_of(cs[ord[t].1 as int])
                }
            &&& distinct_indices(ord)
            &&& sorted_pairs(ord)
            &&& forall|j: int|
                0 <= j < cs.len() && !is_required(#[trigger] cs[j]) ==> ord.contains(
                    (priority_of(cs[j]), j as usize),
                )
        }),
{
    let n = cs.len() as int;
    let op = opt_pairs(cs, n);
    let ord = ord_of(cs);
    lemma_opt_pairs_form(cs, n);
    assert(distinct_indices(op));
    lemma_sort_pairs_props(op);
    assert forall|t: int| 0 <= t < ord.len() implies {
        &&& 0 <= (#[trigger] ord[t]).1 < cs.len()
        &&& !is_required(cs[ord[t].1 as int])
        &&& ord[t].0 == priority_of(cs[ord[t].1 as int])
    } by {
        assert(ord.contains(ord[t]));
        assert(op.contains(ord[t]));
        let u = choose|u: int| 0 <= u < op.len() && op[u] == ord[t];
    }
    assert forall|j: int|
        0 <= j < cs.len() && !is_required(#[trigger] cs[j]) implies ord.contains(
        (priority_of(cs[j]), j as usize),
    ) by {
        lemma_opt_pairs_complete(cs, n, j);
    }
}

/// What phase 2 does to the state: it seats some still-unseated
/// optional children at exactly their minimum, deducts minimum plus
/// margin for each, and touches nothing else.
pub proof fn lemma_phase2_state(
    cs: Seq<ChildConstraints>,
    margin: int,
    ord: Seq<(usize, usize)>,
    st1: (Seq<Option<int>>, int, int),
    k: int,
)
    requires
        0 <= k <= ord.len(),
        margin >= 0,
        st1.0.len() == cs.len(),
        st1.1 >= 0,
        st1.2 == count_seated(st1.0),
        forall|t: int|
            0 <= t < ord.len() ==> 0 <= (#[trigger] ord[t]).1 < cs.len() && st1.0[ord[t].1 as int]
                is None,
        distinct_indices(ord),
    ensures
        ({
            let st = phase2(cs, margin, ord, st1, k);
            &&& st.0.len() == cs.len()
            &&& st.2 == count_seated(st.0)
            &&& 0 <= st.1 <= st1.1
            &&& st.2 >= st1.2
            &&& sum_sizes(st.0) + margin_total(margin, st.2) + st.1 == sum_sizes(st1.0)
                + margin_total(margin, st1.2) + st1.1
            &&& forall|j: int|
                0 <= j < cs.len() && untouched(ord, k, j) ==> st.0[j] == st1.0[j]
            &&& forall|j: int|
                0 <= j < cs.len() ==> st.0[j] == st1.0[j] || st.0[j] == Option::Some(
                    #[trigger] cs[j].min as int,
                )
        }),
    decreases k,
{
    if k > 0 {
        lemma_phase2_state(cs, margin, ord, st1, k - 1);
        let st = phase2(cs, margin, ord, st1, k - 1);
        let idx = ord[k - 1].1 as int;
        assert(untouched(ord, k - 1, idx)) by {
            assert forall|t: int| 0 <= t < k - 1 implies (#[trigger] ord[t]).1 != ord[k - 1].1 by {
                assert(distinct_indices(ord));
            }
        }
        assert(st.0[idx] == st1.0[idx]);
        assert(st.0[idx] is None);
        let c = cs[idx];
        let mc = margin_cost(margin, st.2);
        if !(c.min + mc > st.1) {
            lemma_sum_update(st.0, idx, Option::Some(c.min as int));
            lemma_count_bounds(st.0);
            lemma_margin_total_step(margin, st.2);
        }
    }
}

/// The growth share of one child is nonnegative and below the
/// saturation bound, at the state phase 2 leaves behind.
pub proof fn lemma_growth_at_bounds(
    cs: Seq<ChildConstraints>,
    sizes: Seq<Option<int>>,
    avail: int,
    i: int,
)
    requires
        0 <= i < cs.len(),
        sizes.len() == cs.len(),
        0 <= avail <= usize::MAX,
        wf_constraints(cs[i]),
        sizes[i] is Some ==> sizes[i]->Some_0 == cs[i].min,
    ensures
        0 <= growth_at(cs, sizes, avail, i) <= sat_bound(),
{
    match sizes[i] {
        Option::None => {},
        Option::Some(sz) => {
            let c = cs[i];
            let cap = cap_of(c, sz, avail);
            assert(usize::MAX <= u64::MAX);
            assert(0 <= cap <= u64::MAX);
            assert(0 <= c.grow <= u64::MAX);
            vstd::arithmetic::mul::lemma_mul_nonnegative(c.grow as int, cap);
            vstd::arithmetic::mul::lemma_mul_inequality(c.grow as int, u64::MAX as int, cap);
            vstd::arithmetic::mul::lemma_mul_inequality(cap, u64::MAX as int, u64::MAX as int);
            assert(u64::MAX as int * cap == cap * u64::MAX as int) by (nonlinear_arith);
            assert(u64::MAX as int * u64::MAX as int <= sat_bound());
        },
    }
}

/// The saturating sum of the growth shares dominates each share and
/// stays within bounds.
pub proof fn lemma_sum_growth_props(
    cs: Seq<ChildConstraints>,
    sizes: Seq<Option<int>>,
    avail: int,
    k: int,
)
    requires
        0 <= k <= cs.len(),
        sizes.len() == cs.len(),
        forall|i: int| 0 <= i < cs.len() ==> 0 <= #[trigger] growth_at(cs, sizes, avail, i) <= sat_bound(),
    ensures
        0 <= sum_growth(cs, sizes, avail, k) <= sat_bound(),
        forall|i: int|
            0 <= i < k ==> #[trigger] growth_at(cs, sizes, avail, i) <= sum_growth(
                cs,
                sizes,
                avail,
                k,
            ),
    decreases k,
{
    if k > 0 {
        lemma_sum_growth_props(cs, sizes, avail, k - 1);
    }
}

/// What phase 3 does to the state: seated children only grow, the space
/// given out equals the space deducted, seatedness is untouched, and a
/// child with a zero growth share keeps its size.
pub proof fn lemma_phase3_state(
    cs: Seq<ChildConstraints>,
    sizes2: Seq<Option<int>>,
    avail2: int,
    total: int,
    k: int,
)
    requires
        0 <= k <= cs.len(),
        sizes2.len() == cs.len(),
        avail2 >= 0,
        total > 0,
        forall|i: int| 0 <= i < cs.len() ==> 0 <= #[trigger] growth_at(cs, sizes2, avail2, i) <= total,
    ensures
        ({
            let p = phase3(cs, sizes2, avail2, total, k);
            &&& p.0.len() == cs.len()
            &&& 0 <= p.1 <= avail2
            &&& sum_sizes(p.0) + p.1 == sum_sizes(sizes2) + avail2
            &&& count_seated(p.0) == count_seated(sizes2)
            &&& forall|j: int| 0 <= j < cs.len() ==> (p.0[j] is Some <==> sizes2[j] is Some)
            &&& forall|j: int| k <= j < cs.len() ==> p.0[j] == sizes2[j]
            &&& forall|j: int| 0 <= j < cs.len() ==> size_at(sizes2, j) <= size_at(p.0, j)
            &&& forall|j: int|
                0 <= j < k && growth_at(cs, sizes2, avail2, j) == 0 ==> p.0[j] == sizes2[j]
            &&& forall|j: int|
                0 <= j < k && sizes2[j] is Some ==> p.0[j] == Option::Some(
                    size_at(sizes2, j) + sat_mul128(
                        growth_at(cs, sizes2, avail2, j),
                        phase3(cs, sizes2, avail2, total, j).1,
                    ) / total,
                )
        }),
    decreases k,
{
    if k > 0 {
        lemma_phase3_state(cs, sizes2, avail2, total, k - 1);
        let st = phase3(cs, sizes2, avail2, total, k - 1);
        match sizes2[k - 1] {
            Option::None => {},
            Option::Some(sz) => {
                let g = growth_at(cs, sizes2, avail2, k - 1);
                let sm = sat_mul128(g, st.1);
                let gr = sm / total;
                vstd::arithmetic::mul::lemma_mul_nonnegative(g, st.1);
                assert(0 <= sm <= g * st.1);
                vstd::arithmetic::mul::lemma_mul_inequality(g, total, st.1);
                vstd::arithmetic::div_mod::lemma_div_is_ordered(sm, total * st.1, total);
                vstd::arithmetic::div_mod::lemma_div_multiples_vanish(st.1, total);
                vstd::arithmetic::div_mod::lemma_div_pos_is_pos(sm, total);
                assert(0 <= gr <= st.1);
                lemma_sum_update(st.0, k - 1, Option::Some(sz + gr));
                if g == 0 {
                    assert(sat_mul128(0, st.1) == 0) by {
                        assert(0int * st.1 == 0) by (nonlinear_arith);
                    }
                    assert(0int / total == 0) by {
                        vstd::arithmetic::div_mod::lemma_basic_div(0, total);
                    }
                    assert(st.0.update(k - 1, Option::Some(sz + 0)) =~= st.0);
                }
            },
        }
    }
}

/// What one round-robin pass does to the state: each slot keeps its
/// size or takes exactly one unit (only when below its maximum), the
/// units given match the space deducted, and a pass that gives nothing
/// changes nothing.
pub proof fn lemma_pass3b_state(cs: Seq<ChildConstraints>, st: (Seq<Option<int>>, int), k: int)
    requires
        0 <= k <= cs.len(),
        st.0.len() == cs.len(),
        st.1 >= 0,
    ensures
        ({
            let p = pass3b(cs, st, k);
            &&& p.0.len() == cs.len()
            &&& 0 <= p.2 <= k
            &&& p.1 == st.1 - p.2
            &&& p.1 >= 0
            &&& sum_sizes(p.0) + p.1 == sum_sizes(st.0) + st.1
            &&& count_seated(p.0) == count_seated(st.0)
            &&& forall|j: int| 0 <= j < cs.len() ==> (p.0[j] is Some <==> st.0[j] is Some)
            &&& forall|j: int| k <= j < cs.len() ==> p.0[j] == st.0[j]
            &&& forall|j: int|
                0 <= j < cs.len() ==> (p.0[j] == st.0[j] || (st.0[j] is Some && can_take(
                    cs[j],
                    size_at(st.0, j),
                ) && p.0[j] == Option::Some(size_at(st.0, j) + 1)))
            &&& (p.2 == 0 ==> p.0 =~= st.0)
        }),
    decreases k,
{
    if k > 0 {
        lemma_pass3b_state(cs, st, k - 1);
        let prev = pass3b(cs, st, k - 1);
        if prev.1 > 0 {
            match prev.0[k - 1] {
                Option::None => {},
                Option::Some(sz) => {
                    if can_take(cs[k - 1], sz) {
                        assert(prev.0[k - 1] == st.0[k - 1]);
                        lemma_sum_update(prev.0, k - 1, Option::Some(sz + 1));
                    }
                },
            }
        }
    }
}

/// What phase 3b does to the state: seated children only grow, never
/// past their maximum, the space given out equals the space deducted,
/// and at the end either the space is gone or every seated child sits
/// at its maximum.
pub proof fn lemma_phase3b_state(cs: Seq<ChildConstraints>, st: (Seq<Option<int>>, int))
    requires
        st.0.len() == cs.len(),
        st.1 >= 0,
    ensures
        ({
            let q = phase3b(cs, st);
            &&& q.0.len() == cs.len()
            &&& 0 <= q.1 <= st.1
            &&& sum_sizes(q.0) + q.1 == sum_sizes(st.0) + st.1
            &&& count_seated(q.0) == count_seated(st.0)
            &&& forall|j: int| 0 <= j < cs.len() ==> (q.0[j] is Some <==> st.0[j] is Some)
            &&& forall|j: int| 0 <= j < cs.len() ==> size_at(st.0, j) <= size_at(q.0, j)
            &&& forall|j: int|
                0 <= j < cs.len() && !can_take(cs[j], size_at(st.0, j)) ==> q.0[j] == st.0[j]
            &&& forall|j: int|
                0 <= j < cs.len() && st.0[j] is Some && cs[j].max is Some && size_at(st.0, j)
                    <= cs[j].max->Some_0 ==> size_at(q.0, j) <= cs[j].max->Some_0
            &&& (q.1 == 0 || forall|j: int|
                0 <= j < cs.len() && q.0[j] is Some ==> !can_take(cs[j], size_at(q.0, j)))
        }),
    decreases st.1,
{
    if st.1 > 0 {
        lemma_pass3b_state(cs, st, cs.len() as int);
        let p = pass3b(cs, st, cs.len() as int);
        if p.2 > 0 {
            lemma_phase3b_state(cs, (p.0, p.1));
        } else {
            let q = phase3b(cs, st);
            assert(q.0 == p.0 && q.1 == p.1);
            assert(p.0 =~= st.0);
            assert forall|j: int|
                0 <= j < cs.len() && q.0[j] is Some implies !can_take(
                cs[j],
                size_at(q.0, j),
            ) by {
                if can_take(cs[j], size_at(st.0, j)) {
                    lemma_pass3b_take(cs, st, cs.len() as int, j);
                }
            }
        }
    }
}

/// In a pass that starts with space left, a seated child below its
/// maximum takes a unit unless the space ran out earlier in the pass.
pub proof fn lemma_pass3b_take(cs: Seq<ChildConstraints>, st: (Seq<Option<int>>, int), k: int, j: int)
    requires
        0 <= j < k <= cs.len(),
        st.0.len() == cs.len(),
        st.1 > 0,
        st.0[j] is Some,
        can_take(cs[j], size_at(st.0, j)),
    ensures
        pass3b(cs, st, k).2 > 0,
    decreases k,
{
    lemma_pass3b_state(cs, st, k - 1);
    let prev = pass3b(cs, st, k - 1);
    if j == k - 1 {
        if prev.1 > 0 {
            assert(prev.0[j] == st.0[j]);
        } else {
            assert(prev.2 == st.1 - prev.1);
        }
    } else {
        lemma_pass3b_take(cs, st, k - 1, j);
        assert(pass3b(cs, st, k).2 >= prev.2);
    }
}

} // verus!
