//! Parser and analysis engine for the BTOR2 model-checker witness format:
//! the textual counterexample trace that a symbolic model checker emits when
//! it finds a violated property. The trace text is parsed into a structured
//! witness object, optionally enriched with property names extracted from the
//! original model source, and rendered as a human-readable signal-flow report.

pub mod btor;
