//! Verified core of the Biot-Savart sandbox: the expression language used to
//! describe parametric wires, the command-line dispatch and the sequencing of
//! the viewer's UI actions. Floating-point physics and rendering live in the
//! application crate.
pub mod cli;
pub mod constants;
pub mod engine;
pub mod test;
pub mod ui;
