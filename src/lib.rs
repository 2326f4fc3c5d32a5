pub mod governance;
pub mod index;
pub mod laws;
pub mod registry;
