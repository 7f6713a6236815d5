//! A person record with a name and an age.

use vstd::prelude::*;

verus! {

/// A person, as exchanged with callers that serialize records.
#[derive(Debug)]
pub struct Person {
    pub name: String,
    pub age: u32,
}

} // verus!
