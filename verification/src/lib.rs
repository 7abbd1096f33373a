//! Verified text coloring for a character-cell display.
//!
//! Two independent components share one output contract: a rule-based
//! renderer that colors arbitrary text through declarative character and
//! substring rules, and an importer that replays a truecolor ANSI text file.
//! Both compute the exact sequence of output events — colored puts and plain
//! host-console writes — and hand them to an unverified sink adapter, which
//! alone talks to the display.

pub mod color;
pub mod color_img;
pub mod renderer;
pub mod text;
