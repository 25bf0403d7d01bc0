//! Dependency and symbol index for JavaScript / TypeScript source trees.
//!
//! A scan takes the files found below a root directory, extracts from each
//! the specifiers it imports, requires or re-exports and the symbols it
//! defines (`extract`), resolves every relative specifier to a project file
//! (`resolve`), and assembles the result (`scan`). Report sections are then
//! built from that result (`report`, `contents`), optionally narrowed by a
//! substring filter (`filter`).
//!
//! Paths are `/`-separated strings (`paths`); names and paths can be ordered
//! naturally, numbers inside them by value (`natural`).
pub mod text;
pub mod paths;
pub mod resolve;
pub mod model;
pub mod extract;
pub mod syntax;
pub mod sort;
pub mod natural;
pub mod scan;
pub mod group;
pub mod report;
pub mod contents;
pub mod filter;
