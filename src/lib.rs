pub mod bounds;
pub mod candle;
pub mod engine;
pub mod laws;
pub mod model;

pub use candle::Candle;
pub use engine::{AdxEngine, IndicatorError, IndicatorSample, calculate_adx, compute};
pub use model::FULL_SCALE;
