//! A library of project templates: directory skeletons whose file contents and
//! path segments may hold placeholder tokens.  The core here is the
//! materialization engine: token discovery, value resolution, dependency-safe
//! ordering of entries, collision-safe instantiation, and the merge semantics
//! of the portable archive used for export and import.

pub mod archive;
pub mod chars;
pub mod errors;
pub mod scanner;
pub mod materializer;
pub mod patterns;
pub mod store;
pub mod subst;
pub mod walker;

pub use errors::TplError;
pub use scanner::extract_replacements;
pub use subst::{ResolutionMap, replace_replacements};
pub use walker::{Entry, EntryKind, order_entries};
pub use materializer::{WriteAction, collect_tokens, needed_names, materialize_plan};
pub use store::TemplateStore;
pub use patterns::select_templates;
pub use archive::{ArchiveEntry, TemplateTree, ImportAction, build_export, plan_import};
