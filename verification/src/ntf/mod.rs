//! The stages of the resolver.
//!
//! From metadata to candidates: [`prefix`], [`provenance`], [`scratch`], [`cands`].
//! From candidates to leaves: [`names`], [`seeds`], [`reach`], [`offsets`], [`hydrate`],
//! [`traverse`], and all of these in a row: [`pipeline`].
//! The output and its check: [`bins`], [`verify`].
//! What they share: [`graph`], [`common`], [`entries`], [`bits`], [`maps`], [`sorted`],
//! [`order`], [`text`], [`columns`].
//! What holds of several of them together: [`laws`], [`scratch_laws`], [`bins_laws`].
//! What each of them means in terms of its inputs: [`text_laws`], [`provenance_laws`],
//! [`seed_laws`], [`walk_laws`], [`verify_laws`], [`stage_laws`], [`band_laws`], with
//! [`counting`].

pub mod band_laws;
pub mod bins;
pub mod bins_laws;
pub mod bits;
pub mod cands;
pub mod columns;
pub mod common;
pub mod counting;
pub mod entries;
pub mod graph;
pub mod hydrate;
pub mod laws;
pub mod maps;
pub mod names;
pub mod offsets;
pub mod order;
pub mod pipeline;
pub mod prefix;
pub mod provenance;
pub mod provenance_laws;
pub mod reach;
pub mod scratch;
pub mod scratch_laws;
pub mod seed_laws;
pub mod seeds;
pub mod sorted;
pub mod stage_laws;
pub mod text;
pub mod text_laws;
pub mod traverse;
pub mod verify;
pub mod verify_laws;
pub mod walk_laws;
