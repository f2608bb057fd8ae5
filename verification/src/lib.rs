//! Containers that keep their elements in ascending order.

pub mod error;
pub mod laws;
pub mod ord_map;
pub mod ord_vec;
pub mod order;
pub mod scan;
pub mod text;

pub use error::Error;
pub use error::Result;
pub use ord_map::Indexed;
pub use ord_map::OrdMap;
pub use ord_vec::OrdVec;
