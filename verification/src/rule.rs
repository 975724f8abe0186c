pub mod frozen;
pub mod item;
pub mod lookup;
pub mod snapshot;
