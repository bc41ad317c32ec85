//! Library learning by compression.
//!
//! Given a corpus of symbolic programs, the library finds abstractions
//! ("inventions"): named, parameterised expressions that occur in the
//! corpus again and again. It commits the one that shortens the corpus
//! most, rewrites the corpus to call it, and repeats.
//!
//! Everything here is verified. The contracts are stated over a
//! mathematical model of expressions ([`expr::Expr`]); the code works on an
//! arena that holds every expression once ([`store::ExprStore`]).
//!
//! - [`expr`], [`debruijn`], [`pattern`], [`antiunify`], [`invention`]: the
//!   model: expressions, binders, matching, the pattern two expressions
//!   share, rewriting.
//! - [`syntax`], [`roundtrip`]: the textual syntax as a grammar on bytes,
//!   and the proof that it is a faithful serialisation.
//! - [`store`], [`text`], [`scope`], [`matcher`], [`generalizer`],
//!   [`rewriter`], [`unfolder`], [`subterms`]: the arena and the operations
//!   of the model on it.
//! - [`corpus`], [`ranking`], [`score`], [`search`], [`survey`]: the corpus
//!   with its weights, the score of a candidate and the order of
//!   preference, and the search for the best candidate of a round.
//! - [`names`], [`mapping`], [`config`], [`driver`], [`api`]: the multistep
//!   driver and the two entry points, [`api::multistep_compression`] and
//!   [`api::rewrite_with_inventions`].
//! - [`hygiene`], [`idempotence`]: what rewriting preserves.
//!
//! Weights and weighted sizes are fixed-point numbers in thousandths
//! ([`corpus::UNIT`] stands for 1.0).

pub mod antiunify;
pub mod api;
pub mod config;
pub mod corpus;
pub mod debruijn;
pub mod driver;
pub mod error;
pub mod expr;
pub mod generalizer;
pub mod hygiene;
pub mod idempotence;
pub mod invention;
pub mod mapping;
pub mod matcher;
pub mod names;
pub mod pattern;
pub mod ranking;
pub mod rewriter;
pub mod roundtrip;
pub mod scope;
pub mod score;
pub mod search;
pub mod store;
pub mod subterms;
pub mod survey;
pub mod symbol;
pub mod syntax;
pub mod text;
pub mod unfolder;
