//! Blast: agents working in one repository see each other and learn what they
//! broke, with no server, no account, and no model in the loop.
//!
//! Source goes in, and symbols and edges come out: `engine` parses a file with
//! its grammar, `graph` resolves what its symbols call, and `index` puts the
//! repository together. `radius` reads the edges backwards from what changed,
//! `verify` picks the tests to run and reads what they said, `peers` keeps the
//! room, `hook` answers the harness and `settings` wires it in. `edit` applies
//! typed ops to source; `community` clusters the graph.
//!
//! What holds of several functions together stands in the modules that end in
//! `_laws`: which calls an op reaches, where a name leads, what a file says,
//! which tests are run and what is told of them.
//!
//! Nothing here touches the network, the filesystem, or any state. Every
//! function says in its contract what it returns; what it says rests on the
//! grammars, the digest and the character tables of the outside crates alone.
use vstd::prelude::*;

pub mod atomic;
pub mod binding_laws;
pub mod bodies;
pub mod calls;
pub mod changes;
pub mod community;
pub mod config;
pub mod definition_laws;
pub mod doc_laws;
pub mod docs;
pub mod edit;
pub mod edit_laws;
pub mod engine;
pub mod graph;
pub mod graph_laws;
pub mod hook;
pub mod import_laws;
pub mod import_text_laws;
pub mod imports;
pub mod index;
pub mod index_laws;
pub mod json;
pub mod kinds;
pub mod langs;
pub mod language_laws;
pub mod module_laws;
pub mod names;
pub mod ops;
pub mod order;
pub mod parse_laws;
pub mod path_laws;
pub mod peers;
pub mod radius;
pub mod reach_laws;
pub mod report;
pub mod report_laws;
pub mod settings;
pub mod site_laws;
pub mod sites;
pub mod specifier_laws;
pub mod table;
pub mod talk_laws;
pub mod text;
pub mod text_laws;
pub mod tree;
pub mod verify;

pub use engine::{parse, ParseOutput, Symbol};
pub use graph::{node_id, resolve_edges, Edge, ImportSpec, SymbolEdges};
