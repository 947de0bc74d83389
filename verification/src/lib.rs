//! An interpreter for Mu, a small imperative language with ownership and
//! borrowing: a type checker that tracks moves, borrows and lifetimes, an
//! evaluator over an explicit store, and checks that the static environment
//! describes the dynamic state.
/// Safe abstraction under allocation, definition and declaration.
pub mod abstraction;
/// The annotations that the type checker writes on the places that terms read.
pub mod annotation;
/// Values, places, terms and programs.
pub mod ast;
/// Type errors and other failures, with their messages.
pub mod constants;
/// The cell that a `let` adds, the cells that an assignment frees, and that
/// no address is used twice.
pub mod effects;
/// Borrow exclusivity, and that every check keeps it.
pub mod exclusivity;
/// The driver that checks and runs a program.
pub mod interpreter;
/// From a text to tokens.
pub mod lexer;
/// The invariant of ownership, and that tame terms keep it.
pub mod ownership;
/// From tokens to a program.
pub mod parser;
/// Values have the types that the check finds.
pub mod preservation;
/// Consistency of the type environment with the state.
pub mod properties;
/// The evaluator.
pub mod reduction;
/// The store and the stack.
pub mod state;
/// Insertion-ordered association tables.
pub mod table;
/// Decimal notation.
pub mod text;
/// What holds of moves, copies, borrows, dropped lifetimes and runs.
pub mod theorems;
/// Tokens.
pub mod token;
/// The type checker.
pub mod typecheck;
/// Types and the type environment.
pub mod typing;
