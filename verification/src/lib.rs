use vstd::prelude::*;

pub mod chat;
pub mod isl;
pub mod jobs;
pub mod lrcp;
pub mod means;
pub mod mob;
pub mod number_theory;
pub mod primality;
pub mod speed;
pub mod text;
pub mod udb;
pub mod unicode;

verus! {

} // verus!
