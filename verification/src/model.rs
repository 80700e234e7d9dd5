//! The mathematical model of a build.
//!
//! A build runs in three phases over an ordered list of constraints and
//! a budget: seat the required children at their minimum (phase 1,
//! failing when one does not fit), seat the optional children at their
//! minimum in descending priority order (phase 2, skipping those that
//! do not fit), then distribute the remaining space to the seated
//! children in proportion to growth weight times capacity (phase 3),
//! handing out the rounding remainder one unit at a time (phase 3b).
//!
//! The state threaded through the phases is a triple of the size slots
//! (one per child, in input order), the remaining space, and the number
//! of seated children.

use vstd::prelude::*;

use crate::types::ChildConstraints;
use crate::types::Child;
use crate::types::is_required;
use crate::types::priority_of;
use crate::types::wf_constraints;

verus! {

/// The saturation bound of the 128-bit intermediates of phase 3.
pub open spec fn sat_bound() -> int {
    u128::MAX as int
}

/// 128-bit saturating addition.
pub open spec fn sat_add128(a: int, b: int) -> int {
    if a + b > sat_bound() {
        sat_bound()
    } else {
        a + b
    }
}

/// 128-bit saturating multiplication.
pub open spec fn sat_mul128(a: int, b: int) -> int {
    if a * b > sat_bound() {
        sat_bound()
    } else {
        a * b
    }
}

/// The size of slot `i`, counting an empty slot as 0.
pub open spec fn size_at(s: Seq<Option<int>>, i: int) -> int {
    match s[i] {
        Option::None => 0,
        Option::Some(v) => v,
    }
}

/// The sum of the filled size slots.
pub open spec fn sum_sizes(s: Seq<Option<int>>) -> int
    decreases s.len(),
{
    if s.len() <= 0 {
        0
    } else {
        sum_sizes(s.drop_last()) + size_at(s, s.len() - 1)
    }
}

/// The number of filled size slots.
pub open spec fn count_seated(s: Seq<Option<int>>) -> int
    decreases s.len(),
{
    if s.len() <= 0 {
        0
    } else {
        count_seated(s.drop_last()) + if s.last() is Some {
            1int
        } else {
            0int
        }
    }
}

/// The margin paid by the next seated child: nothing before the first
/// one, `margin` afterwards.
pub open spec fn margin_cost(margin: int, count: int) -> int {
    if count > 0 {
        margin
    } else {
        0
    }
}

/// The total margin inserted between `count` seated children.
pub open spec fn margin_total(margin: int, count: int) -> int {
    if count > 0 {
        margin * (count - 1)
    } else {
        0
    }
}

/// Phase 1 over the first `i` children: required children are seated at
/// their minimum in input order, deducting minimum plus margin from the
/// remaining space; optional children are left unseated. `None` when a
/// required child does not fit at the point it is processed.
pub open spec fn phase1(
    cs: Seq<ChildConstraints>,
    margin: int,
    avail0: int,
    i: int,
) -> Option<(Seq<Option<int>>, int, int)>
    decreases i,
{
    if i <= 0 {
        Option::Some((Seq::empty(), avail0, 0))
    } else {
        match phase1(cs, margin, avail0, i - 1) {
            Option::None => Option::None,
            Option::Some(st) => {
                let c = cs[i - 1];
                if is_required(c) {
                    let mc = margin_cost(margin, st.2);
                    if c.min + mc > st.1 {
                        Option::None
                    } else {
                        Option::Some(
                            (st.0.push(Option::Some(c.min as int)), st.1 - c.min - mc, st.2 + 1),
                        )
                    }
                } else {
                    Option::Some((st.0.push(Option::None), st.1, st.2))
                }
            },
        }
    }
}

/// The (priority, index) pairs of the optional children among the first
/// `i`, in input order.
pub open spec fn opt_pairs(cs: Seq<ChildConstraints>, i: int) -> Seq<(usize, usize)>
    decreases i,
{
    if i <= 0 {
        Seq::empty()
    } else {
        let prev = opt_pairs(cs, i - 1);
        if is_required(cs[i - 1]) {
            prev
        } else {
            prev.push((priority_of(cs[i - 1]), (i - 1) as usize))
        }
    }
}

/// The strict processing order of phase 2 on (priority, index) pairs:
/// higher priority first, input order breaking ties.
pub open spec fn pair_before(a: (usize, usize), b: (usize, usize)) -> bool {
    a.0 > b.0 || (a.0 == b.0 && a.1 < b.1)
}

/// The reflexive closure of `pair_before`.
pub open spec fn pair_le(a: (usize, usize), b: (usize, usize)) -> bool {
    a.0 > b.0 || (a.0 == b.0 && a.1 <= b.1)
}

/// Insertion of a pair into a sequence sorted by `pair_before`, in
/// front of the first element it precedes.
pub open spec fn insert_pair(x: (usize, usize), s: Seq<(usize, usize)>) -> Seq<(usize, usize)>
    decreases s.len(),
{
    if s.len() <= 0 {
        seq![x]
    } else if pair_before(x, s[0]) {
        seq![x] + s
    } else {
        seq![s[0]] + insert_pair(x, s.drop_first())
    }
}

/// Insertion sort by `pair_before`; stable, because an element is
/// inserted after everything it does not strictly precede.
pub open spec fn sort_pairs(s: Seq<(usize, usize)>) -> Seq<(usize, usize)>
    decreases s.len(),
{
    if s.len() <= 0 {
        Seq::empty()
    } else {
        insert_pair(s.last(), sort_pairs(s.drop_last()))
    }
}

/// The order in which phase 2 processes the optional children.
pub open spec fn ord_of(cs: Seq<ChildConstraints>) -> Seq<(usize, usize)> {
    sort_pairs(opt_pairs(cs, cs.len() as int))
}

/// Phase 2 over the first `k` entries of the processing order `ord`:
/// each optional child is seated at its minimum when minimum plus
/// margin fit in the remaining space, and skipped otherwise.
pub open spec fn phase2(
    cs: Seq<ChildConstraints>,
    margin: int,
    ord: Seq<(usize, usize)>,
    st1: (Seq<Option<int>>, int, int),
    k: int,
) -> (Seq<Option<int>>, int, int)
    decreases k,
{
    if k <= 0 {
        st1
    } else {
        let st = phase2(cs, margin, ord, st1, k - 1);
        let idx = ord[k - 1].1 as int;
        let c = cs[idx];
        let mc = margin_cost(margin, st.2);
        if c.min + mc > st.1 {
            st
        } else {
            (st.0.update(idx, Option::Some(c.min as int)), st.1 - c.min - mc, st.2 + 1)
        }
    }
}

/// The capacity of a seated child: how much it could still grow. A
/// child without a maximum can absorb the whole remaining space.
pub open spec fn cap_of(c: ChildConstraints, size: int, avail: int) -> int {
    match c.max {
        Option::None => avail,
        Option::Some(m) => m - size,
    }
}

/// The growth share of child `i` at the start of phase 3: growth weight
/// times capacity for a seated child, 0 for an excluded one.
pub open spec fn growth_at(
    cs: Seq<ChildConstraints>,
    sizes: Seq<Option<int>>,
    avail: int,
    i: int,
) -> int {
    match sizes[i] {
        Option::None => 0,
        Option::Some(sz) => cs[i].grow * cap_of(cs[i], sz, avail),
    }
}

/// The (saturating) sum of the growth shares of the first `k` children.
pub open spec fn sum_growth(
    cs: Seq<ChildConstraints>,
    sizes: Seq<Option<int>>,
    avail: int,
    k: int,
) -> int
    decreases k,
{
    if k <= 0 {
        0
    } else {
        sat_add128(sum_growth(cs, sizes, avail, k - 1), growth_at(cs, sizes, avail, k - 1))
    }
}

/// Phase 3 over the first `k` children, from the phase-2 state
/// (`sizes2`, `avail2`) with total growth share `total`: each seated
/// child receives the floor of its growth share times the space still
/// remaining at its turn, divided by `total`.
pub open spec fn phase3(
    cs: Seq<ChildConstraints>,
    sizes2: Seq<Option<int>>,
    avail2: int,
    total: int,
    k: int,
) -> (Seq<Option<int>>, int)
    decreases k,
{
    if k <= 0 {
        (sizes2, avail2)
    } else {
        let st = phase3(cs, sizes2, avail2, total, k - 1);
        match sizes2[k - 1] {
            Option::None => st,
            Option::Some(sz) => {
                let gr = sat_mul128(growth_at(cs, sizes2, avail2, k - 1), st.1) / total;
                (st.0.update(k - 1, Option::Some(sz + gr)), st.1 - gr)
            },
        }
    }
}

/// Whether a seated child of size `size` may take one more unit in
/// phase 3b: it has no maximum, or is still below it.
pub open spec fn can_take(c: ChildConstraints, size: int) -> bool {
    match c.max {
        Option::None => true,
        Option::Some(m) => size < m,
    }
}

/// One round-robin pass of phase 3b over the first `k` children: every
/// seated child still below its maximum takes one unit, until the
/// remaining space hits 0. The third component counts the units given.
pub open spec fn pass3b(
    cs: Seq<ChildConstraints>,
    st: (Seq<Option<int>>, int),
    k: int,
) -> (Seq<Option<int>>, int, int)
    decreases k,
{
    if k <= 0 {
        (st.0, st.1, 0)
    } else {
        let prev = pass3b(cs, st, k - 1);
        if prev.1 <= 0 {
            prev
        } else {
            match prev.0[k - 1] {
                Option::None => prev,
                Option::Some(sz) => {
                    if can_take(cs[k - 1], sz) {
                        (prev.0.update(k - 1, Option::Some(sz + 1)), prev.1 - 1, prev.2 + 1)
                    } else {
                        prev
                    }
                },
            }
        }
    }
}

/// A pass gives away exactly the units it deducts, and never drives the
/// remaining space negative.
pub proof fn lemma_pass3b_avail(cs: Seq<ChildConstraints>, st: (Seq<Option<int>>, int), k: int)
    requires
        st.1 >= 0,
    ensures
        pass3b(cs, st, k).2 >= 0,
        pass3b(cs, st, k).1 == st.1 - pass3b(cs, st, k).2,
        pass3b(cs, st, k).1 >= 0,
    decreases k,
{
    if k > 0 {
        lemma_pass3b_avail(cs, st, k - 1);
    }
}

/// Phase 3b: round-robin passes until the remaining space is gone or a
/// full pass gives nothing away (every seated child at its maximum).
pub open spec fn phase3b(
    cs: Seq<ChildConstraints>,
    st: (Seq<Option<int>>, int),
) -> (Seq<Option<int>>, int)
    decreases st.1,
    when st.1 >= 0
    via phase3b_decreases
{
    if st.1 <= 0 {
        st
    } else {
        let p = pass3b(cs, st, cs.len() as int);
        if p.2 <= 0 {
            (p.0, p.1)
        } else {
            phase3b(cs, (p.0, p.1))
        }
    }
}

#[via_fn]
proof fn phase3b_decreases(cs: Seq<ChildConstraints>, st: (Seq<Option<int>>, int)) {
    if st.1 > 0 {
        lemma_pass3b_avail(cs, st, cs.len() as int);
    }
}

/// The whole pipeline: the final state (size slots and leftover space)
/// of a build, or `None` when phase 1 fails.
pub open spec fn build_state(
    cs: Seq<ChildConstraints>,
    avail0: int,
    margin: int,
) -> Option<(Seq<Option<int>>, int)> {
    match phase1(cs, margin, avail0, cs.len() as int) {
        Option::None => Option::None,
        Option::Some(st1) => {
            let ord = ord_of(cs);
            let st2 = phase2(cs, margin, ord, st1, ord.len() as int);
            let total = sum_growth(cs, st2.0, st2.1, cs.len() as int);
            let st3 = if total <= 0 {
                (st2.0, st2.1)
            } else {
                phase3(cs, st2.0, st2.1, total, cs.len() as int)
            };
            Option::Some(phase3b(cs, st3))
        },
    }
}

/// The size slots of a build: `Some(size)` per seated child, `None` per
/// excluded one, in input order; `None` overall when a required child
/// did not fit.
pub open spec fn spec_build(
    cs: Seq<ChildConstraints>,
    avail0: int,
    margin: int,
) -> Option<Seq<Option<int>>> {
    match build_state(cs, avail0, margin) {
        Option::None => Option::None,
        Option::Some(st) => Option::Some(st.0),
    }
}

/// The mathematical reading of an executable size slot.
pub open spec fn o2i(o: Option<usize>) -> Option<int> {
    match o {
        Option::None => Option::None,
        Option::Some(v) => Option::Some(v as int),
    }
}

/// The mathematical reading of a sequence of executable size slots.
pub open spec fn i_sizes(v: Seq<Option<usize>>) -> Seq<Option<int>> {
    Seq::new(v.len(), |i: int| o2i(v[i]))
}

/// The resolved size slots of a sequence of children, in order.
pub open spec fn sizes_of<C>(children: Seq<Child<C>>) -> Seq<Option<usize>> {
    Seq::new(children.len(), |i: int| children[i].spec_size())
}

/// The constraints of a sequence of children, in order.
pub open spec fn cons_of<C>(children: Seq<Child<C>>) -> Seq<ChildConstraints> {
    Seq::new(children.len(), |i: int| children[i].spec_constraints())
}

/// Every constraint of the sequence is well formed.
pub open spec fn wf_all(cs: Seq<ChildConstraints>) -> bool {
    forall|i: int| 0 <= i < cs.len() ==> wf_constraints(#[trigger] cs[i])
}

} // verus!
