//! The concurrent map that the tables of this library are kept in.
//!
//! Each module that keeps one names what its map holds, and states what it
//! relies on of the methods that it calls.

use dashmap::DashMap;
use vstd::prelude::*;

verus! {

/// `dashmap::DashMap`, of which nothing is known here but its name.
#[verifier::external_type_specification]
#[verifier::external_body]
#[verifier::reject_recursive_types(Q)]
#[verifier::reject_recursive_types(V)]
#[verifier::reject_recursive_types(S)]
pub struct ExDashMap<Q, V, S>(DashMap<Q, V, S>);

} // verus!
