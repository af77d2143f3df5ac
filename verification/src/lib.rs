//! A minimal placeholder-substitution templating engine.
//!
//! A document declares placeholders with the marker syntax `@[name]@`, chosen
//! to be inert in the document's own language. Constructing a [`Template`]
//! scans the document once and freezes the set of discovered names; callers
//! then bind a value to each name and render the final text, in which every
//! exact marker occurrence is replaced by its bound value. A
//! [`TemplateAssembler`] composes several templates, broadcasting binds to
//! every member that declares the name and concatenating their rendered
//! outputs.

pub mod assembler;
pub mod errors;
pub mod scan;
pub mod script;
pub mod subst;
pub mod template;

pub use assembler::TemplateAssembler;
pub use errors::TemplateError;
pub use script::TemplateRef;
pub use template::Template;
