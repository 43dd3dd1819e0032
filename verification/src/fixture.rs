pub mod multi;
pub mod single;
