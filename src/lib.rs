pub mod bundle;
pub mod farm;
pub mod fill;
pub mod geom;
pub mod layout;
pub mod random;
pub mod shape;
pub mod vec2;
