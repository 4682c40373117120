use vstd::prelude::*;

pub mod bits;
pub mod construct;
pub mod error;
pub mod hash;
pub mod params;
pub mod value;
pub mod map;
pub mod model;

pub use value::StaticFuseValue;
pub use map::{StaticFuseMap, VerifiedStaticFuseMap, StaticFuseMapSeed, VerifiedStaticFuseMapSeed};
pub use error::BuildError;
pub use params::{Sizing, ParamsError};

verus! {

/// Largest number of seeds tried before construction gives up.
pub const MAX_ITERATIONS: u32 = 100;

} // verus!
