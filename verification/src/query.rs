//! Query markers over component groups.

use core::marker::PhantomData;
use vstd::prelude::*;

use crate::world::IComponentGroup;

verus! {

/// Marker excluding a component type from a query.
pub struct Not<C>(PhantomData<C>);

/// Marker for anything a group query can range over.
pub trait Query {

}

impl<G: IComponentGroup> Query for G {

}

} // verus!
