pub mod neighborhood;
pub mod point;
pub mod forest;
pub mod race;
