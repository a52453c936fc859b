//! Statistics that planning relies on, and what it assumes without them.

pub mod assumptions;
pub mod value;
