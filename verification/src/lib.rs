//! CodeAtlas builds an evidence-backed model of a source repository and presents
//! what is known about it.
//!
//! The library holds everything that is decided or computed:
//!
//! - identities and plain values: [`id`], [`path`], [`source`], [`schema`], [`ir`],
//!   [`explanation`], [`model`], [`tool`], [`session`], [`app`], [`error`];
//! - answers and the rules of evidence: [`evidence`], [`refusals`], [`checks`];
//! - scanning and indexing: [`scanner`], [`scanning`], [`diagnostic`], [`registry`], [`parser`],
//!   [`assembler`], [`renumbering`], [`reassembly`], [`relations`], [`listing`], [`indexer`],
//!   [`caching`], [`store`];
//! - parsing Rust and Python: [`syntax`], [`lang_rust`], [`lang_python`],
//!   [`coherence`], [`tree`], [`naming`], [`rust_reading`],
//!   [`python_reading`];
//! - drawing diagrams: [`layers`], [`layout`], [`wrap`], [`svg`], [`diagram`],
//!   [`canonical`], [`spacing`], [`markup`], [`drawing`], [`labelling`];
//! - the workspace of the user interface: [`gui_model`], [`gui_state`], [`workspace`],
//!   [`markdown`], [`markdown_reading`], [`presentation`];
//! - text, bytes and order: [`text`], [`digest`], [`sort`].
//!
//! Functions that state a property of the library as a whole have names that begin
//! with `law_`.
pub mod app;
pub mod assembler;
pub mod caching;
pub mod canonical;
pub mod checks;
pub mod coherence;
pub mod diagnostic;
pub mod diagram;
pub mod digest;
pub mod drawing;
pub mod error;
pub mod evidence;
pub mod explanation;
pub mod gui_model;
pub mod gui_state;
pub mod id;
pub mod indexer;
pub mod ir;
pub mod labelling;
pub mod lang_python;
pub mod lang_rust;
pub mod layers;
pub mod layout;
pub mod listing;
pub mod markdown;
pub mod markdown_reading;
pub mod markup;
pub mod model;
pub mod naming;
pub mod parser;
pub mod path;
pub mod presentation;
pub mod python_reading;
pub mod reassembly;
pub mod refusals;
pub mod registry;
pub mod relations;
pub mod renumbering;
pub mod rust_reading;
pub mod scanner;
pub mod scanning;
pub mod schema;
pub mod session;
pub mod sort;
pub mod source;
pub mod spacing;
pub mod store;
pub mod svg;
pub mod syntax;
pub mod text;
pub mod tool;
pub mod tree;
pub mod workspace;
pub mod wrap;
