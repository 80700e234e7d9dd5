//! Data model: child constraints, the optionality flag, and the error type.

use vstd::prelude::*;

verus! {

/// Whether a child must be seated, or may be dropped when space runs out.
#[derive(Debug, Clone, Copy, PartialEq, Eq)]
pub enum Optionality {
    /// The child must receive a size; otherwise the whole build fails.
    Required,
    /// The child is seated only if space permits; bigger priority is
    /// more important.
    Optional { priority: usize },
}

impl Default for Optionality {
    /// Children are required unless marked otherwise.
    fn default() -> (r: Self)
        ensures
            r == Optionality::Required,
    {
        Optionality::Required
    }
}

/// The immutable constraints of one child: a minimum size, an optional
/// maximum, the optionality flag, and a growth weight.
///
/// The growth weight is a relative, dimensionless integer: only the
/// ratios between the weights of the seated children matter when spare
/// space is distributed, so any common scale may be used.
#[derive(Debug, Clone, Copy, PartialEq)]
pub struct ChildConstraints {
    pub min: usize,
    pub max: Option<usize>,
    pub optionality: Optionality,
    pub grow: u64,
}

/// The constraints a freshly created child starts from: no minimum, no
/// maximum, required, growth weight 1.
pub open spec fn default_constraints() -> ChildConstraints {
    ChildConstraints { min: 0, max: None, optionality: Optionality::Required, grow: 1 }
}

/// A child is well formed when its declared maximum, if any, is at
/// least its declared minimum.
pub open spec fn wf_constraints(c: ChildConstraints) -> bool {
    match c.max {
        None => true,
        Some(m) => c.min <= m,
    }
}

/// True when the child must be seated.
pub open spec fn is_required(c: ChildConstraints) -> bool {
    c.optionality is Required
}

/// The priority of an optional child (0 for a required one, which is
/// never looked up).
pub open spec fn priority_of(c: ChildConstraints) -> usize {
    match c.optionality {
        Optionality::Required => 0,
        Optionality::Optional { priority } => priority,
    }
}

impl Default for ChildConstraints {
    fn default() -> (r: Self)
        ensures
            r == default_constraints(),
    {
        ChildConstraints { min: 0, max: None, optionality: Optionality::Required, grow: 1 }
    }
}

/// The one failure of a build: a required child's minimum (plus its
/// margin) does not fit in the space remaining when it is processed.
#[derive(Debug, Clone, PartialEq, Eq, Structural)]
pub enum Error {
    NotEnoughSpace,
}

impl Error {
    /// A short human-readable description of the error.
    pub fn describe(&self) -> (r: &'static str)
        ensures
            r@ == "Not enough space"@,
    {
        "Not enough space"
    }
}

/// One allocation candidate: an opaque payload, its constraints, and
/// the size slot filled in by a successful build (`None` when the child
/// was excluded, or not yet resolved).
pub struct Child<C> {
    content: C,
    constraints: ChildConstraints,
    size: Option<usize>,
}

impl<C> Child<C> {
    /// The constraints, as contracts see them.
    pub closed spec fn spec_constraints(&self) -> ChildConstraints {
        self.constraints
    }

    /// The payload, as contracts see it.
    pub closed spec fn spec_content(&self) -> C {
        self.content
    }

    /// The resolved size, as contracts see it.
    pub closed spec fn spec_size(&self) -> Option<usize> {
        self.size
    }

    /// A new child around `content`, with the default constraints and
    /// no resolved size.
    pub fn new(content: C) -> (r: Self)
        ensures
            r.spec_constraints() == default_constraints(),
            r.spec_content() == content,
            r.spec_size() is None,
    {
        Child { content, constraints: ChildConstraints::default(), size: None }
    }

    /// A borrow of the payload.
    pub fn content(&self) -> (r: &C)
        ensures
            *r == self.spec_content(),
    {
        &self.content
    }

    /// Marks the child optional, with the lowest priority.
    pub fn optional(self) -> (r: Self)
        ensures
            r.spec_constraints() == (ChildConstraints {
                optionality: Optionality::Optional { priority: 0 },
                ..self.spec_constraints()
            }),
            r.spec_content() == self.spec_content(),
            r.spec_size() == self.spec_size(),
    {
        self.optional_with_priority(0)
    }

    /// Marks the child optional with the given priority; bigger is more
    /// important.
    pub fn optional_with_priority(self, priority: usize) -> (r: Self)
        ensures
            r.spec_constraints() == (ChildConstraints {
                optionality: Optionality::Optional { priority },
                ..self.spec_constraints()
            }),
            r.spec_content() == self.spec_content(),
            r.spec_size() == self.spec_size(),
    {
        let Child { content, constraints, size } = self;
        Child {
            content,
            constraints: ChildConstraints {
                optionality: Optionality::Optional { priority },
                ..constraints
            },
            size,
        }
    }

    /// Sets the minimum size.
    pub fn with_min(self, min: usize) -> (r: Self)
        ensures
            r.spec_constraints() == (ChildConstraints { min, ..self.spec_constraints() }),
            r.spec_content() == self.spec_content(),
            r.spec_size() == self.spec_size(),
    {
        let Child { content, constraints, size } = self;
        Child { content, constraints: ChildConstraints { min, ..constraints }, size }
    }

    /// Sets the maximum size.
    pub fn with_max(self, max: usize) -> (r: Self)
        ensures
            r.spec_constraints() == (ChildConstraints {
                max: Some(max),
                ..self.spec_constraints()
            }),
            r.spec_content() == self.spec_content(),
            r.spec_size() == self.spec_size(),
    {
        let Child { content, constraints, size } = self;
        Child { content, constraints: ChildConstraints { max: Some(max), ..constraints }, size }
    }

    /// Sets both the minimum and the maximum size.
    pub fn clamp(self, min: usize, max: usize) -> (r: Self)
        ensures
            r.spec_constraints() == (ChildConstraints {
                min,
                max: Some(max),
                ..self.spec_constraints()
            }),
            r.spec_content() == self.spec_content(),
            r.spec_size() == self.spec_size(),
    {
        let Child { content, constraints, size } = self;
        Child {
            content,
            constraints: ChildConstraints { min, max: Some(max), ..constraints },
            size,
        }
    }

    /// Fixes the size: minimum and maximum both equal to `size`.
    pub fn with_size(self, size: usize) -> (r: Self)
        ensures
            r.spec_constraints() == (ChildConstraints {
                min: size,
                max: Some(size),
                ..self.spec_constraints()
            }),
            r.spec_content() == self.spec_content(),
            r.spec_size() == self.spec_size(),
    {
        self.clamp(size, size)
    }

    /// Sets the growth weight.
    pub fn with_grow(self, grow: u64) -> (r: Self)
        ensures
            r.spec_constraints() == (ChildConstraints { grow, ..self.spec_constraints() }),
            r.spec_content() == self.spec_content(),
            r.spec_size() == self.spec_size(),
    {
        let Child { content, constraints, size } = self;
        Child { content, constraints: ChildConstraints { grow, ..constraints }, size }
    }

    /// The constraints of this child.
    pub fn constraints(&self) -> (r: ChildConstraints)
        ensures
            r == self.spec_constraints(),
    {
        self.constraints
    }

    /// The resolved size: `Some` when the child was seated by a build,
    /// `None` when there was not enough space to include it (or no
    /// build has run yet).
    pub fn size(&self) -> (r: Option<usize>)
        ensures
            r == self.spec_size(),
    {
        self.size
    }

    /// Rebuilds the child with the given resolved size; used by the
    /// build once the sizes are computed.
    pub(crate) fn with_resolved_size(self, size: Option<usize>) -> (r: Self)
        ensures
            r.spec_constraints() == self.spec_constraints(),
            r.spec_content() == self.spec_content(),
            r.spec_size() == size,
    {
        let Child { content, constraints, size: _ } = self;
        Child { content, constraints, size }
    }
}

} // verus!
