//! The verified core of a parallelizing compiler for a small loop language.
//!
//! A program comes in as syntax with what a checker found out about it, and as an
//! intermediate form in single assignment. From there:
//!
//! - `graph`, `loops`, `canon`, `access`, `deps`, `reduce`, `plan` and `verdicts` find the
//!   loops, test their accesses for dependences, and say which loops may run in parallel;
//! - `outline`, `ctx`, `rename`, `body`, `names`, `bodies` and `parallel` take such loops out
//!   of their functions;
//! - `iterate`, `folds`, `twins`, `partials` and `parts` say what that does: running the
//!   iterations of a loop in any order does what the loop does;
//! - `clif`, `lower`, `machine`, `operators`, `elements`, `transfer` and `jit` turn functions
//!   into machine functions, with a guard in front of everything that can go wrong;
//! - `cpu` runs machine functions and `acts` runs functions on addresses; `functions`, `lays`,
//!   `drives`, `faithful`, `opening` and `finished` say that the two do the same, and `cells`
//!   and `compiled` that both do what the function does with its arrays;
//! - `captures` says that bodies read back what was stashed for them;
//! - `dispatch`, `traps` and `host` are what machine code calls;
//! - `adapter`, `interp`, `interp_laws`, `value`, `floats`, `error` and `run` are the
//!   interpreter that everything is held against;
//! - `kernels`, `resize`, `clock`, `timing`, `variants`, `campaign`, `measure`, `triad` and
//!   `meta` measure programs;
//! - `command`, `diag`, `selftest` and `pipeline` are behind the command line.
//!
//! What these do is also stated from the outside, by laws that name only what goes in and what
//! comes out: `cycles` of loops, `subscripts` and `counting` of accesses and ranges, `findings`
//! and `recognition` of dependences and reductions, `planned`, `regions`, `carried` and
//! `handover` of the loops that are handed over, `arithmetic`, `evaluation` and `calls` of the
//! interpreter, `backends` of the two ways of running a program, `measured` of campaigns, and
//! `invoked`, `located` and `shown` of the command line.
//!
//! Floating-point numbers are bit patterns; what is done with them is supplied from
//! outside. Laws that span several functions are the proof functions named `law_…`.
pub mod access;
pub mod acts;
pub mod adapter;
pub mod arithmetic;
pub mod ast;
pub mod backends;
pub mod bodies;
pub mod body;
pub mod calls;
pub mod campaign;
pub mod canon;
pub mod captures;
pub mod carried;
pub mod cells;
pub mod clif;
pub mod clock;
pub mod command;
pub mod compiled;
pub mod counting;
pub mod cpu;
pub mod ctx;
pub mod cycles;
pub mod deps;
pub mod diag;
pub mod dispatch;
pub mod drives;
pub mod elements;
pub mod error;
pub mod evaluation;
pub mod faithful;
pub mod findings;
pub mod finished;
pub mod floats;
pub mod folds;
pub mod functions;
pub mod graph;
pub mod handover;
pub mod host;
pub mod interp;
pub mod interp_laws;
pub mod invoked;
pub mod ir;
pub mod iterate;
pub mod jit;
pub mod kernels;
pub mod lays;
pub mod lines;
pub mod located;
pub mod loops;
pub mod lower;
pub mod machine;
pub mod measure;
pub mod measured;
pub mod meta;
pub mod names;
pub mod numbers;
pub mod opening;
pub mod operators;
pub mod outline;
pub mod parallel;
pub mod partials;
pub mod parts;
pub mod pipeline;
pub mod plan;
pub mod planned;
pub mod recognition;
pub mod reduce;
pub mod regions;
pub mod rename;
pub mod resize;
pub mod run;
pub mod search;
pub mod selftest;
pub mod shown;
pub mod subscripts;
pub mod text;
pub mod timing;
pub mod transfer;
pub mod traps;
pub mod tree;
pub mod triad;
pub mod twins;
pub mod value;
pub mod variants;
pub mod verdicts;
