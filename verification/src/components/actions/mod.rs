pub mod grab;
pub mod throw;
