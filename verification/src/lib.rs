//! A small relational query engine over an entity-attribute-value store.
//!
//! A program is a text of blocks, each a list of pattern and assert
//! statements over expressions. A block is compiled into a plan: a linear
//! program of constraints over slots, where a slot stands for a class of
//! expressions that have to be equal. The plan is run against a bag of
//! triples by building, for every row of the plan, an index of the bag
//! that is sorted in the order in which the plan searches the row's
//! columns, and then searching these indexes with a galloping search,
//! slot by slot and with backtracking.
//!
//! The modules, from the data up:
//!
//! - [`value`] and [`order`]: values, entities, and their total order;
//! - [`bag`]: the store;
//! - [`gallop`]: the galloping search;
//! - [`index`]: sorting the triples of a bag into an index;
//! - [`plan`], [`semantics`] and [`shape`]: plans, what running one
//!   yields, and when one can be run;
//! - [`solve`]: the executor;
//! - [`ast`], [`lex`], [`parse`] and [`program`]: the surface language;
//! - [`ir`], [`planner`] and [`compile`]: the compiler, what it computes
//!   and how;
//! - [`aligned`], [`slots`], [`meaning`] and [`answers`]: what holds of
//!   compiled plans and of their results;
//! - [`text`] and [`runner`]: writing values out, and the runner that
//!   reports on the block at the cursor.

pub mod aligned;
pub mod answers;
pub mod ast;
pub mod bag;
pub mod compile;
pub mod gallop;
pub mod index;
pub mod ir;
pub mod lex;
pub mod meaning;
pub mod order;
pub mod parse;
pub mod plan;
pub mod planner;
pub mod program;
pub mod runner;
pub mod semantics;
pub mod shape;
pub mod slots;
pub mod solve;
pub mod text;
pub mod value;
