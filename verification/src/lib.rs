//! Semantic model extraction for SystemVerilog modules and packages, built on
//! a verified four-state multi-precision integer engine.

pub mod words;
pub mod sv_primlit_integral;
pub mod laws;
pub mod tree;
pub mod structures;
pub mod text_num;
pub mod sv_port;
pub mod sv_instance;
pub mod sv_module;
pub mod sv_package;
pub mod sv_data;
