//! Narrative engine core: wire contracts, content identity, admission
//! ledgers, expression typing and the author-side text revision rules.
pub mod format;
pub mod strings;
pub mod identity;
pub mod text;
pub mod locale;
pub mod content;
pub mod assets;
pub mod expr;
pub mod dialogue;
pub mod table;
pub mod eval;
pub mod assoc;
pub mod diagnostics;
pub mod texts;
pub mod project;
pub mod release;
pub mod executable;
pub mod modules;
pub mod dependencies;
pub mod scene;
pub mod assigned;
pub mod program;
pub mod flow;
pub mod source;
pub mod order;
pub mod packages;
pub mod residency;
pub mod ownership;
pub mod snapshot;
pub mod manifest;
pub mod rootindex;
pub mod machine;
pub mod roothead;
pub mod admission;
pub mod catalog;
pub mod packaging;
pub mod waits;
