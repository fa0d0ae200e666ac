//! Compiled OpenType and AAT layout tables, and the rules for applying them.
//!
//! A font's layout tables are read once and turned into something worth running
//! twice: coverages become sets that answer in one probe, class definitions
//! become direct maps, state machines become flat arrays of transitions. The
//! modules here hold those compiled forms, the code that builds them, and the
//! decisions made when they are applied to a line of glyphs.

pub mod aat_context;
pub mod aat_glyph_set;
pub mod aat_lookup;
pub mod apply;
pub mod arabic_fallback;
pub mod bits;
pub mod buffer;
pub mod bytes;
pub mod cache;
pub mod charmap;
pub mod class_map;
pub mod compiler;
pub mod contextual;
pub mod digest;
pub mod ext_machine;
pub mod fallback_lookup;
pub mod font_answers;
pub mod font_file;
pub mod font_funcs;
pub mod glyph_metrics;
pub mod glyphs;
pub mod interner;
pub mod kern_machine;
pub mod kern_run;
pub mod kern_table;
pub mod kerning;
pub mod layout;
pub mod lookup;
pub mod lookup_info;
pub mod meaning;
pub mod numbers;
pub mod order;
pub mod pick;
pub mod position;
pub mod program;
pub mod seconds;
pub mod set;
pub mod shape_plan;
pub mod substitute;
pub mod summary;
pub mod tables;
pub mod text;
pub mod text_buffer;
