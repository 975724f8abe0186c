pub mod cube;
pub mod kind;
pub mod lookup;
pub mod motion;
pub mod movement;
pub mod point;
pub mod stopping;
pub mod absorbing;
