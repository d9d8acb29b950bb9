//! Repairs the `uses` clauses of Delphi project files.
//!
//! The library works on a [`source_tree::SourceTree`], the files of a run
//! as they were read, and gives back the texts to write. It reads unit
//! files into caches (`unit_cache`), reads the clause of a project file
//! (`dpr_parse`), resolves the declared units (`dpr_resolve`), walks the
//! units that they use (`dpr_walk`, `dpr_closure`), and puts the missing
//! entries into the clause (`dpr_insert`, `dpr_edit`).
//!
//! What is proved of reading an edited clause again stands in
//! `dpr_roundtrip`, `dpr_layout` and `dpr_steps`, and what is proved of a
//! second run in `dpr_rerun` and `dpr_second`, with the lemmas behind
//! them in `dpr_shift`, `dpr_prefix`, `dpr_place`, `dpr_alike` and
//! `dpr_apart`; what is proved of the files that a run writes stands in
//! `dpr_writes`.
#![verifier::loop_isolation(false)]

pub mod cli;
pub mod delphi;
pub mod dpr_alike;
pub mod dpr_apart;
pub mod dpr_closure;
pub mod dpr_edit;
pub mod dpr_insert;
pub mod dpr_layout;
pub mod dpr_parse;
pub mod dpr_place;
pub mod dpr_prefix;
pub mod dpr_rerun;
pub mod dpr_resolve;
pub mod dpr_roundtrip;
pub mod dpr_second;
pub mod dpr_shift;
pub mod dpr_steps;
pub mod dpr_walk;
pub mod dpr_writes;
pub mod fs_walk;
pub mod glob;
pub mod graph;
pub mod pas_index;
pub mod pas_lex;
pub mod paths;
pub mod source_tree;
pub mod text;
pub mod text_map;
pub mod unit_cache;
pub mod uses_include;
