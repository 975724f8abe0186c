pub mod background;
pub mod cache;
pub mod collection;
pub mod extension;
pub mod item;
pub mod lookup;
pub mod motion;
pub mod movement;
pub mod neighborhood;
pub mod restriction;
pub mod types;
