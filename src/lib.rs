//! Evaluation of arithmetic infix expressions in three stages: a scanner
//! that turns bytes into tokens, a shunting-yard translator that reorders
//! them into postfix order, and a stack evaluator that folds the postfix
//! stream into an expression tree. Numbers keep the digit runs they were
//! scanned from; computing a floating-point value from a tree is left to
//! the caller. The `reference` module reads the same input by recursive
//! descent and proves that the pipeline agrees with it.

pub mod error;
pub mod evaluator;
pub mod reference;
pub mod scanner;
pub mod token;
pub mod translator;
