pub use crate::common::point::Point;
