//! Verified core of the SIGINT ML SDK: identifiers, ontology and pattern
//! reasoning, evidence graphs, artifact checks and deterministic verification.
#![allow(unused_imports)]

pub mod error;
pub mod text;
pub mod io;
pub mod hashing;
pub mod verification;
pub mod order;
pub mod ontology;
pub mod evidence_graph;
pub mod artifact;
pub mod mixing;
pub mod embedding;
pub mod iq;
pub mod sorting;
pub mod pattern;
pub mod quantization;
pub mod spectrum_encoder;
pub mod synthetic_adapter;
pub mod backend;
pub mod benchmark;
pub mod edge;
pub mod emitter_discovery;
pub mod metadata;
pub mod service;
pub mod types;
pub mod cli;
pub mod dataset;
pub mod evaluation;
