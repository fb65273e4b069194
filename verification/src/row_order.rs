//! The order of rows: the larger count comes first.

use core::cmp::Ordering;
use vstd::prelude::*;
use vstd::std_specs::cmp::{PartialEqSpecImpl, PartialOrdSpecImpl};
use crate::row::MyStruct;

verus! {

impl PartialEq for MyStruct {
    fn eq(&self, other: &Self) -> (r: bool) {
        self.count == other.count
    }
}

impl PartialEqSpecImpl for MyStruct {
    open spec fn obeys_eq_spec() -> bool {
        true
    }

    open spec fn eq_spec(&self, other: &Self) -> bool {
        self.count == other.count
    }
}

impl PartialOrd for MyStruct {
    fn partial_cmp(&self, other: &Self) -> (r: Option<Ordering>) {
        if other.count < self.count {
            Some(Ordering::Less)
        } else if other.count == self.count {
            Some(Ordering::Equal)
        } else {
            Some(Ordering::Greater)
        }
    }
}

impl PartialOrdSpecImpl for MyStruct {
    open spec fn obeys_partial_cmp_spec() -> bool {
        true
    }

    open spec fn partial_cmp_spec(&self, other: &Self) -> Option<Ordering> {
        if other.count < self.count {
            Some(Ordering::Less)
        } else if other.count == self.count {
            Some(Ordering::Equal)
        } else {
            Some(Ordering::Greater)
        }
    }
}

} // verus!
