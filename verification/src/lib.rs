pub mod ga;
mod rng;
