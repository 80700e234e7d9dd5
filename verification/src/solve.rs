//! The executable allocation algorithm, verified against the model of
//! `model`.

use vstd::prelude::*;

use crate::types::ChildConstraints;
use crate::types::Error;
use crate::types::is_required;
use crate::types::wf_constraints;
use crate::types::Optionality;
use crate::model::build_state;
use crate::model::can_take;
use crate::model::cap_of;
use crate::model::count_seated;
use crate::model::growth_at;
use crate::model::i_sizes;
use crate::model::margin_total;
use crate::model::opt_pairs;
use crate::model::ord_of;
use crate::model::pair_before;
use crate::model::pass3b;
use crate::model::phase1;
use crate::model::phase2;
use crate::model::phase3;
use crate::model::phase3b;
use crate::model::sat_add128;
use crate::model::sat_bound;
use crate::model::sat_mul128;
use crate::model::size_at;
use crate::model::sort_pairs;
use crate::model::spec_build;
use crate::model::sum_growth;
use crate::model::sum_sizes;
use crate::model::wf_all;
use crate::lemmas::distinct_indices;
use crate::lemmas::lemma_count_bounds;
use crate::lemmas::lemma_growth_at_bounds;
use crate::lemmas::lemma_insert_pair_at;
use crate::lemmas::lemma_ord_props;
use crate::lemmas::lemma_pass3b_state;
use crate::lemmas::lemma_phase1_none_mono;
use crate::lemmas::lemma_phase1_state;
use crate::lemmas::lemma_phase2_state;
use crate::lemmas::lemma_phase3_state;
use crate::lemmas::lemma_sum_bounds;
use crate::lemmas::lemma_sum_growth_props;
use crate::lemmas::untouched;

verus! {

/// Phase 1: seat the required children at their minimum in input order,
/// deducting minimum plus margin; fail the moment one does not fit.
/// Returns the size slots, the remaining space, and the seated count.
fn seat_required(cs: &Vec<ChildConstraints>, avail0: usize, margin: usize) -> (r: Option<
    (Vec<Option<usize>>, usize, usize),
>)
    ensures
        match r {
            Option::None => phase1(cs@, margin as int, avail0 as int, cs@.len() as int) is None,
            Option::Some(t) => {
                let p = phase1(cs@, margin as int, avail0 as int, cs@.len() as int);
                &&& p is Some
                &&& i_sizes(t.0@) == p->Some_0.0
                &&& t.1 as int == p->Some_0.1
                &&& t.2 as int == p->Some_0.2
            },
        },
{
    let n = cs.len();
    let mut sizes: Vec<Option<usize>> = Vec::new();
    let mut avail: usize = avail0;
    let mut count: usize = 0;
    let mut i: usize = 0;
    while i < n
        invariant
            i <= n,
            n == cs@.len(),
            sizes@.len() == i as int,
            count <= i,
            ({
                let p = phase1(cs@, margin as int, avail0 as int, i as int);
                &&& p is Some
                &&& i_sizes(sizes@) == p->Some_0.0
                &&& avail as int == p->Some_0.1
                &&& count as int == p->Some_0.2
            }),
        decreases n - i,
    {
        let ghost pre = phase1(cs@, margin as int, avail0 as int, i as int)->Some_0;
        let c = cs[i];
        if matches!(c.optionality, Optionality::Required) {
            let mc: usize = if count > 0 {
                margin
            } else {
                0
            };
            if c.min > avail || mc > avail - c.min {
                proof {
                    assert(phase1(cs@, margin as int, avail0 as int, i as int + 1) is None);
                    lemma_phase1_none_mono(
                        cs@,
                        margin as int,
                        avail0 as int,
                        i as int + 1,
                        n as int,
                    );
                }
                return None;
            }
            avail = avail - c.min;
            avail = avail - mc;
            sizes.push(Some(c.min));
            count = count + 1;
            proof {
                assert(i_sizes(sizes@) =~= pre.0.push(Option::Some(c.min as int)));
            }
        } else {
            sizes.push(None);
            proof {
                assert(i_sizes(sizes@) =~= pre.0.push(Option::<int>::None));
            }
        }
        i = i + 1;
    }
    Some((sizes, avail, count))
}

/// The (priority, index) pairs of the optional children, in input
/// order.
fn collect_optionals(cs: &Vec<ChildConstraints>) -> (r: Vec<(usize, usize)>)
    ensures
        r@ == opt_pairs(cs@, cs@.len() as int),
{
    let n = cs.len();
    let mut out: Vec<(usize, usize)> = Vec::new();
    let mut i: usize = 0;
    while i < n
        invariant
            i <= n,
            n == cs@.len(),
            out@ == opt_pairs(cs@, i as int),
        decreases n - i,
    {
        let c = cs[i];
        match c.optionality {
            Optionality::Required => {},
            Optionality::Optional { priority } => {
                out.push((priority, i));
            },
        }
        i = i + 1;
    }
    out
}

/// Insertion sort of the (priority, index) pairs: higher priority
/// first, input order breaking ties.
fn sort_optionals(pairs: &Vec<(usize, usize)>) -> (r: Vec<(usize, usize)>)
    ensures
        r@ == sort_pairs(pairs@),
{
    let n = pairs.len();
    let mut out: Vec<(usize, usize)> = Vec::new();
    let mut j: usize = 0;
    while j < n
        invariant
            j <= n,
            n == pairs@.len(),
            out@ == sort_pairs(pairs@.subrange(0, j as int)),
        decreases n - j,
    {
        let x = pairs[j];
        let mut k: usize = 0;
        while k < out.len() && !(x.0 > out[k].0 || (x.0 == out[k].0 && x.1 < out[k].1))
            invariant
                k <= out@.len(),
                forall|t: int| 0 <= t < k ==> !pair_before(x, #[trigger] out@[t]),
            decreases out@.len() - k,
        {
            k = k + 1;
        }
        proof {
            lemma_insert_pair_at(x, out@, k as int);
        }
        out.insert(k, x);
        proof {
            assert(pairs@.subrange(0, j as int + 1).drop_last() =~= pairs@.subrange(0, j as int));
            assert(pairs@.subrange(0, j as int + 1).last() == pairs@[j as int]);
        }
        j = j + 1;
    }
    proof {
        assert(pairs@.subrange(0, n as int) =~= pairs@);
    }
    out
}

/// Phase 2: seat the optional children at their minimum, in the given
/// processing order, skipping each one whose minimum plus margin does
/// not fit.
fn seat_optionals(
    cs: &Vec<ChildConstraints>,
    ord: &Vec<(usize, usize)>,
    sizes: Vec<Option<usize>>,
    avail1: usize,
    count1: usize,
    margin: usize,
) -> (r: (Vec<Option<usize>>, usize, usize))
    requires
        sizes@.len() == cs@.len(),
        count1 as int == count_seated(i_sizes(sizes@)),
        forall|t: int|
            0 <= t < ord@.len() ==> 0 <= (#[trigger] ord@[t]).1 < cs@.len()
                && i_sizes(sizes@)[ord@[t].1 as int] is None,
        distinct_indices(ord@),
    ensures
        ({
            let st = phase2(
                cs@,
                margin as int,
                ord@,
                (i_sizes(sizes@), avail1 as int, count1 as int),
                ord@.len() as int,
            );
            &&& i_sizes(r.0@) == st.0
            &&& r.1 as int == st.1
            &&& r.2 as int == st.2
        }),
{
    let ghost st1 = (i_sizes(sizes@), avail1 as int, count1 as int);
    let ncs = cs.len();
    let m = ord.len();
    let mut sizes = sizes;
    let mut avail: usize = avail1;
    let mut count: usize = count1;
    let mut k: usize = 0;
    while k < m
        invariant
            k <= m,
            m == ord@.len(),
            ncs == cs@.len(),
            st1.0.len() == cs@.len(),
            st1.1 == avail1 as int,
            st1.2 == count1 as int,
            st1.2 == count_seated(st1.0),
            forall|t: int|
                0 <= t < ord@.len() ==> 0 <= (#[trigger] ord@[t]).1 < cs@.len()
                    && st1.0[ord@[t].1 as int] is None,
            distinct_indices(ord@),
            sizes@.len() == cs@.len(),
            ({
                let st = phase2(cs@, margin as int, ord@, st1, k as int);
                &&& i_sizes(sizes@) == st.0
                &&& avail as int == st.1
                &&& count as int == st.2
            }),
        decreases m - k,
    {
        let ghost st = phase2(cs@, margin as int, ord@, st1, k as int);
        proof {
            lemma_phase2_state(cs@, margin as int, ord@, st1, k as int);
        }
        let idx = ord[k].1;
        let c = cs[idx];
        let mc: usize = if count > 0 {
            margin
        } else {
            0
        };
        if !(c.min > avail || mc > avail - c.min) {
            proof {
                assert forall|t: int| 0 <= t < k implies (#[trigger] ord@[t]).1
                    != ord@[k as int].1 by {
                    assert(distinct_indices(ord@));
                }
                assert(untouched(ord@, k as int, idx as int));
                assert(st.0[idx as int] == st1.0[idx as int]);
                lemma_count_bounds(st.0.update(idx as int, Option::Some(c.min as int)));
                crate::lemmas::lemma_sum_update(st.0, idx as int, Option::Some(c.min as int));
            }
            sizes.set(idx, Some(c.min));
            avail = avail - c.min;
            avail = avail - mc;
            count = count + 1;
            proof {
                assert(i_sizes(sizes@) =~= st.0.update(idx as int, Option::Some(c.min as int)));
            }
        }
        k = k + 1;
    }
    (sizes, avail, count)
}

/// Saturating 128-bit addition.
fn sat_add_u128(a: u128, b: u128) -> (r: u128)
    ensures
        r as int == sat_add128(a as int, b as int),
{
    if a > u128::MAX - b {
        u128::MAX
    } else {
        a + b
    }
}

/// Saturating 128-bit multiplication.
fn sat_mul_u128(a: u128, b: u128) -> (r: u128)
    ensures
        r as int == sat_mul128(a as int, b as int),
{
    if b == 0 {
        proof {
            assert(a as int * 0 == 0) by (nonlinear_arith);
        }
        0
    } else if a > u128::MAX / b {
        proof {
            let m = u128::MAX as int;
            let q = m / (b as int);
            vstd::arithmetic::div_mod::lemma_fundamental_div_mod(m, b as int);
            vstd::arithmetic::mul::lemma_mul_inequality(q + 1, a as int, b as int);
            assert((q + 1) * (b as int) == q * (b as int) + b) by (nonlinear_arith);
            assert(q * (b as int) == (b as int) * q) by (nonlinear_arith);
        }
        u128::MAX
    } else {
        proof {
            let m = u128::MAX as int;
            let q = m / (b as int);
            vstd::arithmetic::div_mod::lemma_fundamental_div_mod(m, b as int);
            vstd::arithmetic::mul::lemma_mul_inequality(a as int, q, b as int);
            assert(q * (b as int) == (b as int) * q) by (nonlinear_arith);
            vstd::arithmetic::div_mod::lemma_mod_bound(m, b as int);
        }
        a * b
    }
}

/// The growth shares of the children at the state phase 2 left behind,
/// and their saturating sum.
fn compute_growth(cs: &Vec<ChildConstraints>, sizes: &Vec<Option<usize>>, avail: usize) -> (r: (
    Vec<u128>,
    u128,
))
    requires
        sizes@.len() == cs@.len(),
        wf_all(cs@),
        forall|t: int|
            0 <= t < cs@.len() && #[trigger] i_sizes(sizes@)[t] is Some ==> i_sizes(
                sizes@,
            )[t]->Some_0 == cs@[t].min,
    ensures
        r.0@.len() == cs@.len(),
        forall|j: int|
            0 <= j < cs@.len() ==> #[trigger] r.0@[j] as int == growth_at(
                cs@,
                i_sizes(sizes@),
                avail as int,
                j,
            ),
        r.1 as int == sum_growth(cs@, i_sizes(sizes@), avail as int, cs@.len() as int),
{
    let ghost s2 = i_sizes(sizes@);
    let n = cs.len();
    let mut g: Vec<u128> = Vec::new();
    let mut total: u128 = 0;
    let mut i: usize = 0;
    while i < n
        invariant
            i <= n,
            n == cs@.len(),
            sizes@.len() == cs@.len(),
            s2 == i_sizes(sizes@),
            wf_all(cs@),
            forall|t: int|
                0 <= t < cs@.len() && #[trigger] s2[t] is Some ==> s2[t]->Some_0 == cs@[t].min,
            g@.len() == i as int,
            forall|j: int|
                0 <= j < i as int ==> #[trigger] g@[j] as int == growth_at(
                    cs@,
                    s2,
                    avail as int,
                    j,
                ),
            total as int == sum_growth(cs@, s2, avail as int, i as int),
        decreases n - i,
    {
        let sl = sizes[i];
        match sl {
            None => {
                proof {
                    assert(s2[i as int] is None);
                    assert(growth_at(cs@, s2, avail as int, i as int) == 0);
                }
                g.push(0);
                total = sat_add_u128(total, 0);
            },
            Some(sz) => {
                let c = cs[i];
                proof {
                    assert(s2[i as int] == Option::Some(sz as int));
                    assert(sz == cs@[i as int].min);
                }
                let cap: usize = match c.max {
                    None => avail,
                    Some(mx) => mx - sz,
                };
                proof {
                    assert(usize::MAX <= u64::MAX);
                    vstd::arithmetic::mul::lemma_mul_nonnegative(c.grow as int, cap as int);
                    vstd::arithmetic::mul::lemma_mul_inequality(
                        c.grow as int,
                        u64::MAX as int,
                        cap as int,
                    );
                    vstd::arithmetic::mul::lemma_mul_inequality(
                        cap as int,
                        u64::MAX as int,
                        u64::MAX as int,
                    );
                    assert(u64::MAX as int * cap as int == cap as int * u64::MAX as int)
                        by (nonlinear_arith);
                }
                let gi: u128 = (c.grow as u128) * (cap as u128);
                proof {
                    assert(cap_of(cs@[i as int], sz as int, avail as int) == cap as int);
                    assert(gi as int == growth_at(cs@, s2, avail as int, i as int));
                }
                g.push(gi);
                total = sat_add_u128(total, gi);
            },
        }
        i = i + 1;
    }
    (g, total)
}

/// Phase 3: hand each seated child the floor of its growth share times
/// the space still remaining at its turn, divided by the total share.
fn distribute(
    cs: &Vec<ChildConstraints>,
    g: &Vec<u128>,
    total: u128,
    sizes: Vec<Option<usize>>,
    avail2: usize,
) -> (r: (Vec<Option<usize>>, usize))
    requires
        sizes@.len() == cs@.len(),
        g@.len() == cs@.len(),
        total > 0,
        forall|j: int|
            0 <= j < cs@.len() ==> #[trigger] g@[j] as int == growth_at(
                cs@,
                i_sizes(sizes@),
                avail2 as int,
                j,
            ),
        forall|j: int|
            0 <= j < cs@.len() ==> 0 <= #[trigger] growth_at(cs@, i_sizes(sizes@), avail2 as int, j)
                <= total as int,
        sum_sizes(i_sizes(sizes@)) + avail2 as int <= usize::MAX as int,
    ensures
        ({
            let p = phase3(cs@, i_sizes(sizes@), avail2 as int, total as int, cs@.len() as int);
            &&& i_sizes(r.0@) == p.0
            &&& r.1 as int == p.1
        }),
{
    let ghost s2 = i_sizes(sizes@);
    let n = cs.len();
    let mut sizes = sizes;
    let mut avail: usize = avail2;
    let mut i: usize = 0;
    while i < n
        invariant
            i <= n,
            n == cs@.len(),
            s2.len() == cs@.len(),
            g@.len() == cs@.len(),
            total > 0,
            forall|j: int|
                0 <= j < cs@.len() ==> #[trigger] g@[j] as int == growth_at(
                    cs@,
                    s2,
                    avail2 as int,
                    j,
                ),
            forall|j: int|
                0 <= j < cs@.len() ==> 0 <= #[trigger] growth_at(cs@, s2, avail2 as int, j)
                    <= total as int,
            sum_sizes(s2) + avail2 as int <= usize::MAX as int,
            sizes@.len() == cs@.len(),
            ({
                let p = phase3(cs@, s2, avail2 as int, total as int, i as int);
                &&& i_sizes(sizes@) == p.0
                &&& avail as int == p.1
            }),
        decreases n - i,
    {
        proof {
            lemma_phase3_state(cs@, s2, avail2 as int, total as int, i as int);
        }
        let ghost p = phase3(cs@, s2, avail2 as int, total as int, i as int);
        let sl = sizes[i];
        match sl {
            None => {
                proof {
                    assert(p.0[i as int] == s2[i as int]);
                    assert(s2[i as int] is None);
                }
            },
            Some(sz) => {
                proof {
                    assert(p.0[i as int] == s2[i as int]);
                    assert(s2[i as int] == Option::Some(sz as int));
                }
                let gr128 = sat_mul_u128(g[i], avail as u128);
                let grq: u128 = gr128 / total;
                proof {
                    let gint = growth_at(cs@, s2, avail2 as int, i as int);
                    vstd::arithmetic::mul::lemma_mul_nonnegative(gint, avail as int);
                    vstd::arithmetic::mul::lemma_mul_inequality(
                        gint,
                        total as int,
                        avail as int,
                    );
                    vstd::arithmetic::div_mod::lemma_div_is_ordered(
                        sat_mul128(gint, avail as int),
                        total as int * avail as int,
                        total as int,
                    );
                    vstd::arithmetic::div_mod::lemma_div_multiples_vanish(
                        avail as int,
                        total as int,
                    );
                    vstd::arithmetic::div_mod::lemma_div_pos_is_pos(
                        sat_mul128(gint, avail as int),
                        total as int,
                    );
                    assert(grq as int <= avail as int);
                    assert forall|j: int| 0 <= j < p.0.len() implies size_at(p.0, j) >= 0 by {
                        assert(p.0[j] == i_sizes(sizes@)[j]);
                    }
                    assert(size_at(p.0, i as int) == sz as int);
                    lemma_sum_bounds(p.0, i as int);
                    assert(sz as int + grq as int <= usize::MAX as int);
                }
                let gr: usize = grq as usize;
                sizes.set(i, Some(sz + gr));
                avail = avail - gr;
                proof {
                    assert(i_sizes(sizes@) =~= p.0.update(
                        i as int,
                        Option::Some(sz as int + gr as int),
                    ));
                }
            },
        }
        i = i + 1;
    }
    (sizes, avail)
}

/// One round-robin pass of phase 3b: every seated child still below its
/// maximum takes one unit, until the remaining space hits 0. Returns
/// how many units were given.
fn round_pass(cs: &Vec<ChildConstraints>, sizes: &mut Vec<Option<usize>>, avail: &mut usize) -> (given:
    usize)
    requires
        old(sizes)@.len() == cs@.len(),
        sum_sizes(i_sizes(old(sizes)@)) + *old(avail) as int <= usize::MAX as int,
    ensures
        ({
            let p = pass3b(cs@, (i_sizes(old(sizes)@), *old(avail) as int), cs@.len() as int);
            &&& i_sizes(final(sizes)@) == p.0
            &&& *final(avail) as int == p.1
            &&& given as int == p.2
        }),
{
    let ghost st0 = (i_sizes(old(sizes)@), *old(avail) as int);
    let n = cs.len();
    let mut given: usize = 0;
    let mut i: usize = 0;
    while i < n
        invariant
            i <= n,
            n == cs@.len(),
            st0.0.len() == cs@.len(),
            st0.1 >= 0,
            sum_sizes(st0.0) + st0.1 <= usize::MAX as int,
            sizes@.len() == cs@.len(),
            ({
                let p = pass3b(cs@, st0, i as int);
                &&& i_sizes(sizes@) == p.0
                &&& *avail as int == p.1
                &&& given as int == p.2
            }),
        decreases n - i,
    {
        proof {
            lemma_pass3b_state(cs@, st0, i as int);
        }
        let ghost p = pass3b(cs@, st0, i as int);
        if *avail > 0 {
            let sl = sizes[i];
            match sl {
                None => {
                    proof {
                        assert(p.0[i as int] is None);
                    }
                },
                Some(sz) => {
                    let can = match cs[i].max {
                        None => true,
                        Some(mx) => sz < mx,
                    };
                    proof {
                        assert(p.0[i as int] == Option::Some(sz as int));
                        assert(can == can_take(cs@[i as int], sz as int));
                    }
                    if can {
                        proof {
                            assert forall|j: int| 0 <= j < p.0.len() implies size_at(p.0, j)
                                >= 0 by {
                                assert(p.0[j] == i_sizes(sizes@)[j]);
                            }
                            assert(size_at(p.0, i as int) == sz as int);
                            lemma_sum_bounds(p.0, i as int);
                        }
                        sizes.set(i, Some(sz + 1));
                        *avail = *avail - 1;
                        given = given + 1;
                        proof {
                            assert(i_sizes(sizes@) =~= p.0.update(
                                i as int,
                                Option::Some(sz as int + 1),
                            ));
                        }
                    }
                },
            }
        }
        i = i + 1;
    }
    given
}

/// Phase 3b: round-robin passes until the remaining space is gone or a
/// full pass gives nothing away.
fn round_robin(cs: &Vec<ChildConstraints>, sizes: Vec<Option<usize>>, avail3: usize) -> (r: (
    Vec<Option<usize>>,
    usize,
))
    requires
        sizes@.len() == cs@.len(),
        sum_sizes(i_sizes(sizes@)) + avail3 as int <= usize::MAX as int,
    ensures
        ({
            let p = phase3b(cs@, (i_sizes(sizes@), avail3 as int));
            &&& i_sizes(r.0@) == p.0
            &&& r.1 as int == p.1
        }),
{
    let ghost st3 = (i_sizes(sizes@), avail3 as int);
    let mut sizes = sizes;
    let mut avail: usize = avail3;
    while avail > 0
        invariant_except_break
            sizes@.len() == cs@.len(),
            sum_sizes(i_sizes(sizes@)) + avail as int <= usize::MAX as int,
            phase3b(cs@, (i_sizes(sizes@), avail as int)) == phase3b(cs@, st3),
        ensures
            ({
                let p = phase3b(cs@, st3);
                &&& i_sizes(sizes@) == p.0
                &&& avail as int == p.1
            }),
        decreases avail,
    {
        let ghost pre = (i_sizes(sizes@), avail as int);
        let given = round_pass(cs, &mut sizes, &mut avail);
        proof {
            lemma_pass3b_state(cs@, pre, cs@.len() as int);
        }
        if given == 0 {
            proof {
                let p = pass3b(cs@, pre, cs@.len() as int);
                assert(p.0 =~= pre.0);
                assert(phase3b(cs@, pre) == (p.0, p.1));
                assert(phase3b(cs@, pre) == (i_sizes(sizes@), avail as int));
            }
            break ;
        }
        proof {
            let p = pass3b(cs@, pre, cs@.len() as int);
            assert(phase3b(cs@, pre) == phase3b(cs@, (p.0, p.1)));
        }
    }
    (sizes, avail)
}

/// The whole allocation: given the constraints, the budget and the
/// margin, the resolved size slots (`Some` per seated child, `None` per
/// excluded one), exactly as the model `spec_build` describes — or
/// `NotEnoughSpace` exactly when the model fails.
pub fn solve(cs: &Vec<ChildConstraints>, available: usize, margin_between: usize) -> (r: Result<
    Vec<Option<usize>>,
    Error,
>)
    requires
        wf_all(cs@),
    ensures
        match r {
            Result::Ok(sizes) => {
                &&& sizes@.len() == cs@.len()
                &&& spec_build(cs@, available as int, margin_between as int) == Option::Some(
                    i_sizes(sizes@),
                )
            },
            Result::Err(e) => {
                &&& e == Error::NotEnoughSpace
                &&& spec_build(cs@, available as int, margin_between as int) is None
            },
        },
{
    let n = cs.len();
    let ghost m = margin_between as int;
    let ghost a0 = available as int;
    let (sizes1, avail1, count1) = match seat_required(cs, available, margin_between) {
        None => {
            return Err(Error::NotEnoughSpace);
        },
        Some(t) => t,
    };
    let ghost st1 = phase1(cs@, m, a0, cs@.len() as int)->Some_0;
    proof {
        lemma_phase1_state(cs@, m, a0, cs@.len() as int);
        lemma_ord_props(cs@);
    }
    let pairs = collect_optionals(cs);
    let ord = sort_optionals(&pairs);
    proof {
        assert(ord@ == ord_of(cs@));
        assert forall|t: int| 0 <= t < ord@.len() implies 0 <= (#[trigger] ord@[t]).1 < cs@.len()
            && i_sizes(sizes1@)[ord@[t].1 as int] is None by {
            assert(!is_required(cs@[ord@[t].1 as int]));
            assert(st1.0[ord@[t].1 as int] is None);
        }
    }
    let (sizes2, avail2, _count2) = seat_optionals(
        cs,
        &ord,
        sizes1,
        avail1,
        count1,
        margin_between,
    );
    let ghost st2 = phase2(cs@, m, ord_of(cs@), st1, ord_of(cs@).len() as int);
    proof {
        lemma_phase2_state(cs@, m, ord_of(cs@), st1, ord_of(cs@).len() as int);
        assert forall|t: int|
            0 <= t < cs@.len() && #[trigger] i_sizes(sizes2@)[t] is Some implies i_sizes(
            sizes2@,
        )[t]->Some_0 == cs@[t].min by {
            assert(st2.0[t] == st1.0[t] || st2.0[t] == Option::Some(cs@[t].min as int));
        }
        assert forall|j: int|
            0 <= j < cs@.len() implies 0 <= #[trigger] growth_at(cs@, st2.0, avail2 as int, j)
                <= sat_bound() by {
            assert(wf_constraints(cs@[j]));
            lemma_growth_at_bounds(cs@, st2.0, avail2 as int, j);
        }
        lemma_sum_growth_props(cs@, st2.0, avail2 as int, cs@.len() as int);
        lemma_count_bounds(st2.0);
        if st2.2 > 0 {
            vstd::arithmetic::mul::lemma_mul_nonnegative(m, st2.2 - 1);
        }
        assert(margin_total(m, st2.2) >= 0);
        assert(sum_sizes(st2.0) + avail2 as int <= a0);
    }
    let (g, total) = compute_growth(cs, &sizes2, avail2);
    let ghost total_g = sum_growth(cs@, st2.0, avail2 as int, cs@.len() as int);
    let (sizes3, avail3) = if total == 0 {
        (sizes2, avail2)
    } else {
        proof {
            lemma_phase3_state(cs@, st2.0, avail2 as int, total_g, cs@.len() as int);
        }
        distribute(cs, &g, total, sizes2, avail2)
    };
    let ghost st3 = if total_g <= 0 {
        (st2.0, st2.1)
    } else {
        phase3(cs@, st2.0, avail2 as int, total_g, cs@.len() as int)
    };
    proof {
        assert(st2.1 == avail2 as int);
        if total_g > 0 {
            lemma_phase3_state(cs@, st2.0, avail2 as int, total_g, cs@.len() as int);
        }
        assert(i_sizes(sizes3@) == st3.0);
        assert(avail3 as int == st3.1);
        assert(sum_sizes(st3.0) + st3.1 == sum_sizes(st2.0) + avail2 as int);
    }
    let (sizes4, _avail4) = round_robin(cs, sizes3, avail3);
    proof {
        assert(build_state(cs@, a0, m) == Option::Some(phase3b(cs@, st3)));
        assert(i_sizes(sizes4@) == phase3b(cs@, st3).0);
        assert(spec_build(cs@, a0, m) == Option::Some(i_sizes(sizes4@)));
        crate::lemmas::lemma_phase3b_state(cs@, st3);
    }
    Ok(sizes4)
}

} // verus!
