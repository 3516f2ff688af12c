//! Reference vectors in files of the second format, and the searches in them.

pub mod ivf;
pub mod reference;
pub mod short;
