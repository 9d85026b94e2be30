//! Lambda terms with multi-argument abstractions, a text parser for them,
//! a flat binary encoding, and Krivine and SECD abstract machines that
//! evaluate terms either in tree form or in binary form.

pub mod term;
pub mod parse;
pub mod machine;
pub mod binlam;
pub mod rslam;
pub mod simulation;
pub mod laws;
pub mod wellformed;
pub mod semantics;
