//! Turns a raster image of a hand-drawn logic circuit into a steppable
//! simulation: wires are bright pixel runs, NOT gates and crossings are
//! recognised from small pixel patterns.

pub mod simulator;
