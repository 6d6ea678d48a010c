pub mod codec;
pub mod model;
pub mod net;
pub mod persist;
pub mod queries;
