//! Recovers symbol names in a stripped binary by comparing the control flow
//! graphs of its functions against those of reference binaries.
//!
//! Similarities are fixed-point numbers, each level rounded to nearest:
//! `SCALE` stands for 1.0.

pub mod fingerprint;
pub mod control_flow_graph;
pub mod error;
pub mod similarity;
pub mod grapher;
pub mod matching;
pub mod disassembly;
pub mod compare_report;
pub mod laws;
pub mod decoder;

pub use compare_report::{CompareReport, ComputeTime};
pub use control_flow_graph::{BasicBlock, ControlFlowGraph, Instruction};
pub use decoder::decode_sample;
pub use disassembly::{DecodeOutcome, DecodedFunction, Disassembly, SampleData};
pub use error::Error;
pub use grapher::Grapher;
pub use matching::{BinaryMatch, MethodMatch};
pub use similarity::SCALE;
