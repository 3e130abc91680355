//! A personal bookmark store with a fuzzy-filtered, modal selection engine.
//!
//! The modules, leaves first:
//!
//! * [`text`]: character sequences, case folding and the order on identifiers.
//! * [`bookmarks`]: the record collection and its add / update / delete rules.
//! * [`matcher`]: greedy ordered-subsequence matching with a quality score.
//! * [`ranker`]: field-priority relevance of one record for one query.
//! * [`filter`]: the visible set, an ordered list of indices into the collection.
//! * [`selection`]: the highlighted row of the visible set.
//! * [`form`]: the draft record edited while adding or editing.
//! * [`session`]: the modal interaction state machine.
//! * [`render`]: the text of rows, title and hints.
//! * [`cli`]: the commands of the scriptable front end.
use vstd::prelude::*;

pub mod text;
pub mod bookmarks;
pub mod matcher;
pub mod ranker;
pub mod filter;
pub mod selection;
pub mod form;
pub mod session;
pub mod render;
pub mod cli;
