pub mod call;
pub mod place;
pub mod runner;
