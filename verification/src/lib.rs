//! A HashLife engine for Life-like cellular automata.
//!
//! The universe is an unbounded quadtree of square macrocells centred at the
//! origin. Structurally equal macrocells are interned, so a handle stands for
//! a pattern, and the future of each macrocell is computed at most once.
//!
//! - [`life`] says what a generation is, on the unbounded plane.
//! - [`rule`], [`bits`], [`table`] and [`node`] hold the rule, cells packed
//!   into words, the transition tables and the macrocells.
//! - [`index`] is the interning index, the one part taken on trust.
//! - [`store`] and [`canon`] are the node store as a mathematical object.
//! - [`universe`], [`envelope`], [`step`] and [`simulate`] are the engine.
//! - [`bounds`], [`export`], [`rows`] and [`rle`] read the universe out, and
//!   patterns in.
//! - [`laws`] states what the operations obey together.

pub mod bits;
pub mod block;
pub mod bounds;
pub mod canon;
pub mod envelope;
pub mod export;
pub mod index;
pub mod laws;
pub mod life;
pub mod node;
pub mod rle;
pub mod rows;
pub mod rule;
pub mod simulate;
pub mod step;
pub mod store;
pub mod table;
pub mod universe;
