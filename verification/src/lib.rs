//! Text templates with named placeholders.
//!
//! A [`Template`] is text in which every `{{name}}` stands for a value that
//! is bound later. Binding checks the name against the placeholders that
//! the text declares, and rendering asks for a value for each of them. An
//! [`Assembler`] renders several templates as one text under values that
//! they share, and an [`ExecutableReference`] prepares a rendered template
//! for being run as a program with its dependencies.
//!
//! Every function is verified against its contract. The contracts speak of
//! the mathematical content of the types: see [`grammar`] for what a
//! placeholder is and what rendering means. Beyond what Verus's own library
//! assumes of std, one contract is assumed and not proved: that of
//! `String::push`, in [`text`].
//!
//! The library reads no files and starts no processes. A caller that wants
//! to run a rendered program takes its text from
//! [`ExecutableReference::script`], builds and runs it, and hands what came
//! of the run to [`RunOutcome::into_result`].

pub mod assembler;
pub mod commands;
pub mod dependency;
pub mod error;
pub mod executable;
pub mod grammar;
pub mod pairs;
pub mod template;
pub mod text;

pub use assembler::Assembler;
pub use dependency::DependencySpec;
pub use error::TemplateError;
pub use executable::{ExecutableReference, RunOutcome};
pub use pairs::{KeyValues, parse_key_values};
pub use template::Template;
