//! The symbolic verification engine: the rule compiler, neighborhoods and
//! the two-region traversal.
pub mod device;
pub mod flow;
pub mod lec;
pub mod lec_model;
pub mod neighborhood;
pub mod npnet;
pub mod progress;
pub mod proximity;
pub mod toponet;
