pub mod model;
pub mod area;
pub mod layout;
