//! Resolution of repository paths to owning services through an ordered list
//! of glob rules, where the last matching rule wins.

pub mod text;
pub mod pattern;
pub mod glob;
pub mod mapper;
pub mod services;
pub mod bootstrap;
