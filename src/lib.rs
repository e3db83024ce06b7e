//! A fixed-capacity, growable slot arena that threads its occupied slots into
//! a doubly linked list addressed by stable `u32` indices.

pub mod laws;
pub mod quick_array;

pub use quick_array::{ErrDefine, QuickArray, QuickArrayIterator, INVALID_INDEX};
