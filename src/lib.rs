use vstd::prelude::*;

pub mod modpow;
pub mod totient;
pub mod graham;

verus! {

} // verus!
