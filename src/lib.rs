pub mod asp;
pub mod error;
pub mod ilasp;
pub mod literal;
pub mod set;
pub mod synth;
pub mod task;
