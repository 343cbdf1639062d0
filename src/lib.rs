//! A retained-mode UI engine core: a generational arena of presentation nodes
//! and the tree they form, their style cascade, pointer and focus state with
//! the tab order, the font registry, and the Unicode utilities that the text
//! engine builds on.

pub mod breaks;
pub mod ctx;
pub mod fonts;
pub mod gui;
pub mod style;
pub mod unicode;
