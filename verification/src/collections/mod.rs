pub mod hasher;
pub mod traits;
pub mod open_address;

pub mod set;
pub mod static_map;
pub mod chained;
