//! Groth16 with dynamic proof updates ("Dynark") over BLS12-381, with the
//! index bookkeeping, sparse accumulators, FFT scheduling and proof-update
//! algebra stated as contracts and checked by Verus.

pub mod field;
pub mod group;
pub mod sorting;
pub mod dynamic_cache;
pub mod relations;
pub mod domain;
pub mod utils;
pub mod fft_handler;
pub mod data_structures;
pub mod r1cs_to_qap;
pub mod groth16;
pub mod dynark_generator;
pub mod dynark_prover;
pub mod instance_generator;
pub mod generator;
pub mod updates;
pub mod four_step;
