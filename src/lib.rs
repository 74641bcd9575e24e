//! Builds the textual device-tree mapping that lets a boot shim pick a dtb
//! by the primary compatible string of a board.
pub mod dtb_data;
pub mod laws;
pub mod order;
pub mod mapping;
pub mod render;
