//! Reading container contents.

pub mod sim;
