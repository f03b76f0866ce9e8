use vstd::prelude::*;

verus! {

/// The four-way classification a cache read returns: a fresh value, a
/// declared key with no value written yet, a key never declared, or a
/// value whose deadline has passed.
#[derive(PartialEq)]
pub enum CacheOption<T> {
    Value(T),
    Empty,
    Undefined,
    Expired,
}

impl<T> CacheOption<T> {
    /// Returns the payload of a `Value` outcome. Calling this on any other
    /// outcome is a caller contract violation (a missing-value fault), so
    /// those outcomes are ruled out up front.
    pub fn unwrap(self) -> (r: T)
        requires
            self is Value,
        ensures
            self == CacheOption::Value(r),
    {
        match self {
            CacheOption::Value(value) => value,
            _ => vstd::pervasive::unreached(),
        }
    }

    /// Returns the payload of a `Value` outcome, and the given default for
    /// every other outcome.
    pub fn unwrap_or(self, or: T) -> (r: T)
        ensures
            r == (match self {
                CacheOption::Value(value) => value,
                _ => or,
            }),
    {
        match self {
            CacheOption::Value(value) => value,
            _ => or,
        }
    }

    pub fn is_value(&self) -> (r: bool)
        ensures
            r == (self is Value),
    {
        match self {
            CacheOption::Value(_) => true,
            _ => false,
        }
    }

    pub fn is_empty(&self) -> (r: bool)
        ensures
            r == (self is Empty),
    {
        match self {
            CacheOption::Empty => true,
            _ => false,
        }
    }

    pub fn is_undefined(&self) -> (r: bool)
        ensures
            r == (self is Undefined),
    {
        match self {
            CacheOption::Undefined => true,
            _ => false,
        }
    }

    pub fn is_expired(&self) -> (r: bool)
        ensures
            r == (self is Expired),
    {
        match self {
            CacheOption::Expired => true,
            _ => false,
        }
    }
}

/// Whether `r` is a `Value` outcome carrying a clone of `v`.
pub open spec fn is_cloned_value<T: Clone>(r: CacheOption<T>, v: T) -> bool {
    match r {
        CacheOption::Value(rv) => cloned(v, rv),
        _ => false,
    }
}

/// Whether the outcome `r` reports the classification `expected`: the same
/// variant, with a `Value` payload cloned out of the stored one.
pub open spec fn outcome_for<T: Clone>(expected: CacheOption<T>, r: CacheOption<T>) -> bool {
    match expected {
        CacheOption::Value(v) => is_cloned_value(r, v),
        _ => r == expected,
    }
}

} // verus!
