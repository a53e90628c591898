//! A small calculator language (lexer, grammar-driven parser and evaluation
//! context) together with a set of verified numeric, string and collection
//! routines.

pub mod syntax;
pub mod text;
pub mod lexer;
pub mod parser;
pub mod context;
pub mod integer;
pub mod numeric;
pub mod stats;
pub mod strings;
pub mod weekday;
pub mod sequences;
pub mod rational;
pub mod bigint;
pub mod storage;
pub mod transform;
pub mod grid;
pub mod shell;
pub mod organization;
pub mod lists;
pub mod linked_list;
pub mod tree;
pub mod functions;
pub mod labyrinth;
pub mod du;
pub mod generator;
pub mod semiring;
pub mod pythagorean;
pub mod means;
pub mod cycle;
