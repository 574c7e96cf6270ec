//! Categorised changelog assembly: commit records, issue records, the
//! label-driven categoriser, the paginated issue fetcher's decisions and the
//! markdown renderer.

pub mod text;
pub mod issue;
pub mod commit;
pub mod categorize;
pub mod fetch;
pub mod render;
pub mod laws;
