//! The builder API around the allocation algorithm, and the resolved
//! container.

use vstd::prelude::*;

use crate::types::Child;
use crate::types::ChildConstraints;
use crate::types::Error;
use crate::model::cons_of;
use crate::model::i_sizes;
use crate::model::sizes_of;
use crate::model::spec_build;
use crate::model::wf_all;
use crate::solve::solve;

verus! {

/// Collects the budget, the margin, and the children before a build.
pub struct ContainerBuilder<C> {
    available: usize,
    margin_between: usize,
    children: Vec<Child<C>>,
}

/// The children after a successful build, each with its resolved size,
/// in the order they were added.
pub struct Container<C> {
    pub children: Vec<Child<C>>,
}

impl<C> ContainerBuilder<C> {
    /// The budget, as contracts see it.
    pub closed spec fn spec_available(&self) -> usize {
        self.available
    }

    /// The margin, as contracts see it.
    pub closed spec fn spec_margin_between(&self) -> usize {
        self.margin_between
    }

    /// The children added so far, as contracts see them.
    pub closed spec fn spec_children(&self) -> Seq<Child<C>> {
        self.children@
    }

    /// A builder for the given total budget, with no margin and no
    /// children yet.
    pub fn with_available(available: usize) -> (r: Self)
        ensures
            r.spec_available() == available,
            r.spec_margin_between() == 0,
            r.spec_children().len() == 0,
    {
        ContainerBuilder { available, children: Vec::new(), margin_between: 0 }
    }

    /// Sets the margin inserted between every pair of adjacent seated
    /// children.
    pub fn with_margin_between(self, margin: usize) -> (r: Self)
        ensures
            r.spec_available() == self.spec_available(),
            r.spec_margin_between() == margin,
            r.spec_children() == self.spec_children(),
    {
        let ContainerBuilder { available, margin_between: _, children } = self;
        ContainerBuilder { available, margin_between: margin, children }
    }

    /// Appends a child, chaining.
    pub fn with(self, child: Child<C>) -> (r: Self)
        ensures
            r.spec_available() == self.spec_available(),
            r.spec_margin_between() == self.spec_margin_between(),
            r.spec_children() == self.spec_children().push(child),
    {
        let mut b = self;
        b.add(child);
        b
    }

    /// Appends a child.
    pub fn add(&mut self, child: Child<C>)
        ensures
            final (self).spec_available() == old(self).spec_available(),
            final (self).spec_margin_between() == old(self).spec_margin_between(),
            final (self).spec_children() == old(self).spec_children().push(child),
    {
        self.children.push(child);
    }

    /// Resolves the children against the budget: seats the required
    /// children at their minimum in input order (failing with
    /// `NotEnoughSpace` when one does not fit), seats the optional
    /// children by descending priority as long as they fit, then
    /// distributes the remaining space by growth weight and capacity,
    /// exactly as `spec_build` describes. Payloads, constraints and
    /// order are kept.
    pub fn build(self) -> (r: Result<Container<C>, Error>)
        requires
            wf_all(cons_of(self.spec_children())),
        ensures
            match r {
                Result::Ok(con) => {
                    &&& con.children@.len() == self.spec_children().len()
                    &&& forall|i: int|
                        0 <= i < con.children@.len() ==> {
                            &&& (#[trigger] con.children@[i]).spec_constraints()
                                == self.spec_children()[i].spec_constraints()
                            &&& con.children@[i].spec_content()
                                == self.spec_children()[i].spec_content()
                        }
                    &&& Option::Some(i_sizes(sizes_of(con.children@))) == spec_build(
                        cons_of(self.spec_children()),
                        self.spec_available() as int,
                        self.spec_margin_between() as int,
                    )
                },
                Result::Err(e) => {
                    &&& e == Error::NotEnoughSpace
                    &&& spec_build(
                        cons_of(self.spec_children()),
                        self.spec_available() as int,
                        self.spec_margin_between() as int,
                    ) is None
                },
            },
    {
        let ContainerBuilder { available, margin_between, mut children } = self;
        let ghost orig = children@;
        let n = children.len();
        let mut cs: Vec<ChildConstraints> = Vec::new();
        let mut i: usize = 0;
        while i < n
            invariant
                i <= n,
                n == children@.len(),
                children@ == orig,
                cs@.len() == i as int,
                forall|j: int| 0 <= j < i as int ==> cs@[j] == orig[j].spec_constraints(),
            decreases n - i,
        {
            cs.push(children[i].constraints());
            i = i + 1;
        }
        proof {
            assert(cs@ =~= cons_of(orig));
        }
        let sizes = match solve(&cs, available, margin_between) {
            Result::Err(e) => {
                return Err(e);
            },
            Result::Ok(s) => s,
        };
        let mut out: Vec<Child<C>> = Vec::new();
        let mut i: usize = 0;
        while i < n
            invariant
                i <= n,
                n == orig.len(),
                sizes@.len() == orig.len(),
                children@.len() == n - i,
                forall|j: int| 0 <= j < n - i ==> children@[j] == orig[i as int + j],
                out@.len() == i as int,
                forall|j: int|
                    0 <= j < i as int ==> {
                        &&& (#[trigger] out@[j]).spec_constraints() == orig[j].spec_constraints()
                        &&& out@[j].spec_content() == orig[j].spec_content()
                        &&& out@[j].spec_size() == sizes@[j]
                    },
            decreases n - i,
        {
            let c = children.remove(0);
            let s = sizes[i];
            out.push(c.with_resolved_size(s));
            i = i + 1;
        }
        proof {
            assert(i_sizes(sizes_of(out@)) =~= i_sizes(sizes@));
        }
        Ok(Container { children: out })
    }
}

impl<C> Container<C> {
    /// A builder for the given total budget.
    pub fn builder_in(available: usize) -> (r: ContainerBuilder<C>)
        ensures
            r.spec_available() == available,
            r.spec_margin_between() == 0,
            r.spec_children().len() == 0,
    {
        ContainerBuilder::with_available(available)
    }

    /// The sizes of the children, in the order they were added, with 0
    /// for children that were not included.
    pub fn sizes(&self) -> (r: Vec<usize>)
        ensures
            r@.len() == self.children@.len(),
            forall|i: int|
                0 <= i < r@.len() ==> #[trigger] r@[i] == (match self.children@[i].spec_size() {
                    Option::None => 0usize,
                    Option::Some(v) => v,
                }),
    {
        let n = self.children.len();
        let mut out: Vec<usize> = Vec::new();
        let mut i: usize = 0;
        while i < n
            invariant
                i <= n,
                n == self.children@.len(),
                out@.len() == i as int,
                forall|j: int|
                    0 <= j < i as int ==> #[trigger] out@[j] == (
                    match self.children@[j].spec_size() {
                        Option::None => 0usize,
                        Option::Some(v) => v,
                    }),
            decreases n - i,
        {
            let s = match self.children[i].size() {
                None => 0,
                Some(v) => v,
            };
            out.push(s);
            i = i + 1;
        }
        out
    }

    /// A borrow of the children.
    pub fn children(&self) -> (r: &[Child<C>])
        ensures
            r@ == self.children@,
    {
        self.children.as_slice()
    }

    /// The children, by value.
    pub fn to_children(self) -> (r: Vec<Child<C>>)
        ensures
            r@ == self.children@,
    {
        self.children
    }
}

} // verus!