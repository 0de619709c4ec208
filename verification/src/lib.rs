//! The decoder of a text-to-speech model: attention with rotary positions and a cache, the
//! layers and the model made of it, the choice of tokens and the rounds of generation.

pub mod array;
pub mod attention;
pub mod choosing;
pub mod config;
pub mod decoder;
pub mod error;
pub mod formulas;
pub mod generation;
pub mod heads;
pub mod idle;
pub mod interrupted;
pub mod laws;
pub mod layers;
pub mod meaning;
pub mod model;
pub mod names;
pub mod outcomes;
pub mod owed;
pub mod pieces;
pub mod positions;
pub mod ranking;
pub mod refusals;
pub mod rotary;
pub mod rounds;
pub mod sampling;
pub mod shape;
pub mod steps;
pub mod turning;
pub mod view;
