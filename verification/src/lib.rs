//! Discovery of deployable Solidity contracts and generation of Foundry
//! deployment scripts, with the scanning, parsing and rendering logic
//! specified and proved.

pub mod text;
pub mod tracker;
pub mod scan;
pub mod comments;
pub mod params;
pub mod contracts;
pub mod cli;
pub mod render;
pub mod input;
pub mod json;
pub mod paths;
pub mod select;
pub mod discover;
pub mod plan;
