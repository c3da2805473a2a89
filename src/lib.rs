pub mod rational;
pub mod polynomial;
pub mod fold;
pub mod qap;
pub mod laws;
