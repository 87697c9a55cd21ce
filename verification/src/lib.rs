//! Verified core of `mkdir2`: brace expansion, path normalization, color
//! themes, option parsing and the directory-creation decision engine.

pub mod text;
pub mod brace;
pub mod pathnorm;
pub mod color;
pub mod cli;
pub mod mkdir;
