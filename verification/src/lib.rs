//! Tilt and center-of-rotation estimation for CT projection stacks.

pub mod algorithms;
pub mod app;
pub mod axis_laws;
pub mod consensus_laws;
pub mod correction;
pub mod estimate_laws;
pub mod file_laws;
pub mod fit;
pub mod fit_laws;
pub mod ieee;
pub mod job;
pub mod json;
pub mod labels;
pub mod logger;
pub mod nan_laws;
pub mod npy;
pub mod order;
pub mod pair_laws;
pub mod pairs;
pub mod profile;
pub mod profile_laws;
pub mod recon;
pub mod recon_laws;
pub mod recovery_laws;
pub mod repeat_laws;
pub mod resample;
pub mod rotation_laws;
pub mod sampling_laws;
pub mod stack;
pub mod state_laws;
pub mod text;
pub mod turn_laws;
pub mod unit;
pub mod value_laws;
pub mod view;
pub mod view_laws;
