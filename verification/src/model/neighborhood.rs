pub use crate::common::neighborhood::{Adjacence, Neighborhood};
