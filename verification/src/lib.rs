//! A miniature compiler and virtual machine for arithmetic over 4-bit binary
//! literals combined with `*` and `/`.
//!
//! The pipeline runs leaves first: [`tokens`] turns characters into tokens,
//! [`parsing`] turns tokens into trees, [`compile`] lowers the trees to
//! bytecode for a five-register machine, and [`execute`] interprets that
//! bytecode. [`calculator`] goes the whole way from a line of text to its
//! value.
//!
//! [`meaning`] says what a tree does to the registers and proves that its
//! compiled code does the same. [`arithmetic`] proves what the two loops of
//! the compiled code compute, and [`chains`] what expressions come to.
pub mod arithmetic;
pub mod calculator;
pub mod chains;
pub mod compile;
pub mod execute;
pub mod meaning;
pub mod parsing;
pub mod tokens;
