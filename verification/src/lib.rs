//! ShiShuA, a fast pseudo-random generator, with every backend verified
//! against one mathematical model of the generator.
pub mod avx2_backend;
pub mod le;
pub mod model;
pub mod neon_backend;
pub mod rand;
pub mod scalar_backend;
pub mod simd;
pub mod sse2_backend;
pub mod ssse3_backend;
pub mod state;
pub mod xtask;

pub use crate::rand::ShiShuARng;
pub use crate::model::{STATE_LANES, STATE_SIZE};
pub use crate::state::{Backend, ShiShuAState, TargetFeatures};
