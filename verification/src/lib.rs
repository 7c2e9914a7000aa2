pub mod cli;
pub mod components;
pub mod helpers;
pub mod internals;
