//! A verified core of an OpenType text shaper: the glyph buffer, the
//! lookup digests, tag handling, syllable segmentation, table parsing and
//! the Unicode algorithms that feed shaping.

pub mod digest;
pub mod tag;
pub mod unicode;
pub mod buffer;
pub mod syllable;
pub mod ot;
pub mod layout;
pub mod offered;
pub mod bidi;
pub mod itemize;
pub mod segment;
pub mod map;
pub mod plan;
pub mod shape;
pub mod gpos;
pub mod kern;
pub mod kerx;
pub mod passes;
pub mod fallback;
pub mod normalize;
pub mod context;
pub mod arabic;
pub mod hebrew;
pub mod thai;
pub mod khmer;
pub mod universal;
pub mod gsub;
pub mod apply;
pub mod linebreak;
