//! Skyrim mod manager: load orders, profiles, the mod store and deployment.

pub mod app_paths;
pub mod audit;
pub mod backup;
pub mod bsa;
pub mod bytes;
pub mod check;
pub mod cli;
pub mod color;
pub mod commands;
pub mod config;
pub mod disk;
pub mod doctor;
pub mod fomod;
pub mod game;
pub mod graph;
pub mod ini;
pub mod install;
pub mod lists;
pub mod mount;
pub mod nxm;
pub mod paths;
pub mod prefix;
pub mod profile;
pub mod saves;
pub mod sorting;
pub mod store;
pub mod tes4;
pub mod text;
pub mod validate;
pub mod vfs;
pub mod window;
pub mod xml;
