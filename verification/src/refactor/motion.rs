pub use crate::model::motion::{Agreement, Motion};
