pub mod engine;
pub mod laws;
pub mod matcher;
pub mod model;
pub mod window;
