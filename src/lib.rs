use vstd::prelude::*;

mod handles;
pub mod iter;
pub mod model;
pub mod pool;
pub mod theorems;

pub use iter::{Iter, IterMut};
pub use pool::{OutOfBounds, Pool, Recyclable};

verus! {

} // verus!
