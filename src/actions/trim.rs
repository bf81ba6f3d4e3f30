use vstd::prelude::*;

verus! {

/// Which ends of a string a trim cuts whitespace from.
#[derive(Debug, Clone, Copy, PartialEq, Eq)]
pub enum Type {
    Trim,
    TrimStart,
    TrimEnd,
}

} // verus!
