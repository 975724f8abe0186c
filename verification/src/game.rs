pub mod cube;
pub mod direction;
pub mod group;
pub mod location;
pub mod lookup;
pub mod near;
pub mod seed;
pub mod toml_source;
pub mod unit;
pub mod vicinity;
pub mod behavior;
pub mod calculate;
