//! Layered configuration resolver for a binary-format dispatcher.
//!
//! The dispatcher chooses, for a binary of a foreign format, the interpreter
//! that runs it. This library resolves its settings: it lays the
//! configuration sources over the built-in defaults in the order of their
//! precedence, decodes the merged tree into typed settings, and derives for
//! each interpreter the paths that must exist before it may be invoked.
//!
//! - [`tree`]: configuration trees, and [`assoc`], the lists behind their tables;
//! - [`source`]: reading the text of one source into a tree;
//! - [`merge`]: laying one tree over another;
//! - [`defaults`]: the built-in defaults;
//! - [`settings`]: the typed settings, and [`decode`], which reads them from a tree;
//! - [`requirements`]: completing every interpreter entry;
//! - [`resolve`]: resolution as a whole, from the sources to the settings;
//! - [`locations`]: where the sources are found;
//! - [`system`]: decisions on what the operating system and the desktop report.
//!
//! The library reads no file and no environment: its callers hand it what
//! they found.

pub mod assoc;
pub mod decode;
pub mod defaults;
pub mod locations;
pub mod merge;
pub mod requirements;
pub mod resolve;
pub mod settings;
pub mod source;
pub mod system;
pub mod tree;
