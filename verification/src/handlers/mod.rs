pub mod kubectl;
pub mod psql;
pub mod make;
pub mod util;
pub mod log;
pub mod gh;
pub mod npm;
pub mod tree;
pub mod curl;
pub mod json;
