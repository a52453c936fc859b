//! Values and how they are shown.

pub mod datatype;
pub mod format;
pub mod scalar;
