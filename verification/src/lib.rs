//! unxml: renders XML/HTML element trees as terse, indented, Pug-like notation.
//!
//! The crate is organised around a generic element tree (`XmlElement`), a
//! rendering engine with a fixed precedence of rewrite rules, an XSLT
//! instruction mapper, and a template registry that resolves
//! `apply-templates` selections for inline expansion.
use vstd::prelude::*;

pub mod attrs;
pub mod chars;
pub mod detect;
pub mod elem;
pub mod htmlparse;
pub mod laws;
pub mod process;
pub mod registry;
pub mod render;
pub mod strutil;
pub mod xmlparse;

verus! {

} // verus!
