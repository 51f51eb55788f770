pub mod dispatch;
pub mod keyed;
pub mod world;
