//! A hierarchy of nodes whose parameters are computed by expressions.
//!
//! Every node has named parameters. The value of a parameter comes from an
//! expression, a small script that may read context variables, such as the
//! current time, and the parameters of other nodes. The library keeps the
//! graph of these dependencies free of cycles, marks exactly the dependents
//! of an edited parameter as out of date, and recomputes values only when
//! they are read.
//!
//! The modules, from the ground up: `arena`, `depgraph`, `payload` and
//! `script` give contracts to the collections and to the script engine that
//! the library builds on; `reach` and `closure` reason about walks in the
//! dependency graph; `network` holds the nodes and their invariant, `path`
//! and `refs` resolve names, `edit` and `batch` change expressions, `prune`
//! deletes subtrees, `eval` and `engine` evaluate, `wording` reads the
//! messages of the script engine, `order` orders a refresh,
//! `transaction` groups edits, `ports` and `server` serve clients, and
//! `laws` states what holds across these operations.

pub mod arena;
pub mod batch;
pub mod closure;
pub mod depgraph;
pub mod edit;
pub mod engine;
pub mod error;
pub mod eval;
pub mod expr;
pub mod laws;
pub mod network;
pub mod op;
pub mod order;
pub mod param;
pub mod path;
pub mod payload;
pub mod ports;
pub mod prune;
pub mod reach;
pub mod refs;
pub mod script;
pub mod server;
pub mod transaction;
pub mod wording;
