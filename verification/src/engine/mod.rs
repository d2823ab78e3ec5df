pub mod components;
pub mod math;
