//! Markov chains of several orders at once, with back-off and smoothing, for
//! making up sequences that resemble the ones they were trained on.
//!
//! A [`MultiMarkovBuilder`] learns from training sequences how often each
//! state followed each context: each run of one state up to `order` states.
//! Built into a [`MultiMarkov`], the table is smoothed with a prior, so that
//! every state that was seen may follow every context that was seen, and the
//! model draws a next state for a sequence from the row of the longest suffix
//! of the sequence that has one.
//!
//! Weights are whole numbers of millionths of an observation: one observed
//! transition weighs [`training::ONE`], and a prior of 5000 stands for five
//! thousandths of an observation. A draw takes 64 bits from the generator, a
//! [`source::Generator`], and reads their 53 high bits as a point of the unit
//! interval; the point is laid against the weights of the row, walked in the
//! order of the states. All of this is exact integer arithmetic, so a seeded
//! generator gives the same sequence wherever the model runs. Where no suffix
//! of the sequence has a row, nothing is drawn.
//!
//! The state type implements [`state::State`]: an equality and a strict total
//! order, both stated over the view of the type.

pub mod builder;
pub mod keyed;
pub mod known;
pub mod laws;
pub mod model;
pub mod row;
pub mod sampling;
pub mod source;
pub mod state;
pub mod table;
pub mod text;
pub mod training;

pub use crate::builder::MultiMarkovBuilder;
pub use crate::model::MultiMarkov;
