//! Core text and record logic of the memory palace: script-aware
//! segmentation of text into comparison tokens (`script`, with its laws in
//! `script_laws`), and the drawer record with its canonical byte form
//! (`drawer`, with its laws in `drawer_laws`).

pub mod drawer;
pub mod drawer_laws;
pub mod script;
pub mod script_laws;
pub mod text;
