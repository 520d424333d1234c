pub mod base243_prediv;
pub mod base3;
pub mod bct;
pub mod dpt;
pub mod engine;
pub mod trit;

pub use crate::base243_prediv::Base243PreDiv;
pub use crate::base3::Base3;
pub use crate::bct::BCT;
pub use crate::dpt::DPT;
pub use crate::engine::Engine;
pub use crate::trit::Trit;
