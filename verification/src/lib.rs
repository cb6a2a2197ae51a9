//! The Crow compiler and the logic of its runtime.
//!
//! A source text is lexed ([`lexer`]), parsed ([`parser`], by the rules in
//! [`grammar`]), checked ([`typeck`], by the rules in [`typing`] and
//! [`rules`]), instantiated ([`mono`]) and lowered ([`codegen`], as [`lower`]
//! says) to a unit of functions and data ([`ir`]). What a running program needs
//! decided or computed is in [`object`], [`builtins`], [`stackmaps`] and [`gc`].
//! [`heap`] and [`arrays`] are a model of the collector and of arrays, on
//! handles in place of addresses; the runtime that programs are linked with
//! works on raw memory, and nothing ties it to the model.
//!
//! The other modules state what all this is for, and how far. [`memory`],
//! [`machine`] and [`meaning`] say what instructions do. [`evaluate`] says what
//! expressions mean, over memory, and [`statements`] what statements do.
//! [`computing`], [`expressions`], [`building`], [`choosing`] and [`handing`],
//! on the operations in [`objects`] and what [`writing`] says of added code, say
//! that the code of an expression computes just what it means, and
//! [`performing`], [`assigning`], [`branching`] and [`looping`] that the code of
//! a statement does what the statement does: of all of them, those on type
//! parameters at the types they are instantiated at. [`floats`] says what
//! floating-point numbers are and what is computed on them, and [`casting`] what
//! the code of a cast gives. [`routines`] says what the bodies of a unit do that
//! call one another, and [`programs`] that a program is compiled to the bodies
//! of its functions, instantiations and lambdas, and so what a compiled program
//! does. [`scalars`], [`execute`] and [`calling`] say more of programs over
//! integers and truth values without type parameters, and [`soundness`] that the
//! checker accepts only such of these as run. [`concrete`] says that no type
//! parameter is left, in the signatures of what the checker accepts and in trees
//! that refer to nothing outside the tables. [`judging`] says when a tree is
//! well typed, and [`agreeing`] that every tree of a program that the checker
//! accepts is. [`accepting`] says what the checker may not reject, and
//! [`naming`] what a name stands for. [`checking`] says what the parts of the
//! checker promise, [`matching`] that a match leaves nothing out, [`keeping`]
//! and [`joining`] what checking and lexing keep, and [`sharing`] what is
//! compiled only once. [`precedence`] says how operators bind, and [`spelling`]
//! that the tokens of functions are parsed as these functions.
use vstd::prelude::*;

pub mod accepting;
pub mod agreeing;
pub mod arrays;
pub mod assigning;
pub mod ast;
pub mod branching;
pub mod building;
pub mod builtins;
pub mod calling;
pub mod casting;
pub mod checking;
pub mod choosing;
pub mod cli;
pub mod codegen;
pub mod computing;
pub mod concrete;
mod counting;
pub mod evaluate;
pub mod execute;
pub mod expressions;
pub mod floats;
pub mod gc;
pub mod grammar;
pub mod handing;
pub mod heap;
pub mod ir;
pub mod joining;
pub mod judging;
pub mod keeping;
pub mod lexer;
pub mod looping;
pub mod lower;
pub mod machine;
pub mod matching;
pub mod meaning;
pub mod memory;
pub mod mono;
pub mod object;
pub mod naming;
pub mod objects;
pub mod parser;
pub mod performing;
pub mod precedence;
pub mod programs;
pub mod routines;
pub mod rules;
pub mod scalars;
pub mod sharing;
pub mod soundness;
pub mod spelling;
pub mod stackmaps;
pub mod statements;
pub mod text;
pub mod typeck;
pub mod types;
pub mod typing;
pub mod walk;
pub mod writing;

verus! {

} // verus!
