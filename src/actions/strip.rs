use vstd::prelude::*;

verus! {

/// Which end of a string a strip removes its literal from.
#[derive(Debug, Clone, Copy, PartialEq, Eq)]
pub enum Type {
    StripPrefix,
    StripSuffix,
}

} // verus!
