//! What planning and execution need of the machine they run on.

pub mod time;
