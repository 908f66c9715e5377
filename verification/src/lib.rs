//! A verified text-diff library.
//!
//! The pipeline: a tokenizer splits raw text into lines, words or characters
//! ([`modes`]); an edit-script engine computes a minimal Equal/Insert/Delete
//! stream between two token sequences ([`myers`]); an anchor stabilizer biases
//! the result toward unique synchronization points ([`patience`]); a hunk
//! assembler regroups the flat stream into context-bounded blocks ([`hunks`]);
//! and renderers turn streams and hunks into text ([`render`],
//! [`render_unified`], [`render_word`], [`render_html`]). The general
//! properties that tie these contracts together are proved in [`laws`].

pub mod cli;
pub mod data;
pub mod hunks;
pub mod laws;
pub mod modes;
pub mod myers;
pub mod patience;
pub mod render;
pub mod render_html;
pub mod render_unified;
pub mod render_word;
pub mod text;
