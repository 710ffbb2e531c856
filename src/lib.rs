pub mod laws;
pub mod orderbook;

pub use orderbook::{Level, LevelInfo, Operation, Orderbook, Source, UNITS_PER_WHOLE};
