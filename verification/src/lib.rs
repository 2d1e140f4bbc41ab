//! Conway's Game of Life on a toroidal board, with a verified model of the
//! board, the generation rule, the flat encoding the GPU path exchanges, and
//! the decisions the GPU path takes.

pub mod gol_instance;
pub mod solver;
pub mod generators;
pub mod solver_gpu;
pub mod gpu_utils;
