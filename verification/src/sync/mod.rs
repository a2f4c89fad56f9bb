pub mod algo;
pub mod backing;
pub mod folder;
pub mod manifest;
pub mod mesh;
pub mod mirror;
pub mod pipe;
pub mod strategy;
pub mod tree;
pub mod workspace;
