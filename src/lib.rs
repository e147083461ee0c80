pub mod buffer;
pub mod name;
pub mod packet;
pub mod relay;
pub mod round_trip;
pub mod wire;
