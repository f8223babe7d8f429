//! Name and value pairs, from which a variable store is built.

use crate::template::{Context, TemplateVariable};
use vstd::prelude::*;

verus! {

/// A name and the value stored under it.
pub struct Pair(pub String, pub TemplateVariable);

/// Makes a pair from a name and a plain value of type `T`.
pub trait PairGenerator<T> {
    /// Whether `variable` is the stored form of `value`.
    spec fn holds(value: T, variable: TemplateVariable) -> bool;

    /// The pair that stores `value` under `key`.
    fn of(key: &str, value: T) -> (pair: Pair)
        ensures
            pair.0@ == key@,
            Self::holds(value, pair.1),
    ;
}

impl PairGenerator<bool> for Pair {
    open spec fn holds(value: bool, variable: TemplateVariable) -> bool {
        variable == TemplateVariable::Boolean(value)
    }

    fn of(key: &str, value: bool) -> (pair: Pair) {
        Pair(key.to_owned(), TemplateVariable::Boolean(value))
    }
}

impl PairGenerator<Context> for Pair {
    open spec fn holds(value: Context, variable: TemplateVariable) -> bool {
        variable == TemplateVariable::SubContext(value)
    }

    fn of(key: &str, value: Context) -> (pair: Pair) {
        Pair(key.to_owned(), TemplateVariable::SubContext(value))
    }
}

impl PairGenerator<i64> for Pair {
    open spec fn holds(value: i64, variable: TemplateVariable) -> bool {
        variable == TemplateVariable::Integer(value)
    }

    fn of(key: &str, value: i64) -> (pair: Pair) {
        Pair(key.to_owned(), TemplateVariable::Integer(value))
    }
}

impl PairGenerator<String> for Pair {
    open spec fn holds(value: String, variable: TemplateVariable) -> bool {
        variable == TemplateVariable::String(value)
    }

    fn of(key: &str, value: String) -> (pair: Pair) {
        Pair(key.to_owned(), TemplateVariable::String(value))
    }
}

impl<'a> PairGenerator<&'a str> for Pair {
    open spec fn holds(value: &'a str, variable: TemplateVariable) -> bool {
        match variable {
            TemplateVariable::String(text) => text@ == value@,
            _ => false,
        }
    }

    fn of(key: &str, value: &'a str) -> (pair: Pair) {
        Pair(key.to_owned(), TemplateVariable::String(value.to_owned()))
    }
}

} // verus!
