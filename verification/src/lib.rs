//! Reconstruction of document structure from positioned glyphs: text derivation,
//! lines, words, blocks, paragraphs, tables, running elements, the document model
//! and the frames its text runs through; and the plain values, requests and
//! handles through which a caller on the other side of a binding works with it.

pub mod agl;
pub mod annots;
pub mod answers;
pub mod codes;
pub mod content;
pub mod convert;
pub mod encoding;
pub mod extract;
pub mod frames;
pub mod geometry;
pub mod glyphdata;
pub mod graphics;
pub mod grouping;
pub mod lines;
pub mod model;
pub mod objects;
pub mod paragraphs;
pub mod partition;
pub mod regions;
pub mod rules;
pub mod running;
pub mod scalar;
pub mod script;
pub mod session;
pub mod sorting;
pub mod stats;
pub mod structure;
pub mod tables;
pub mod tags;
pub mod text;
pub mod unicode;
pub mod values;
pub mod widths;
pub mod words;

pub use annots::{Annotation, Kind as AnnotKind};
pub use extract::{page_text, resolve_runs, ResolveReport, ResolvedRun};
pub use frames::{Frame, FrameSet};
pub use graphics::{Graphics, ImageBlock, VectorBlock};
pub use lines::{assemble, place, Line, PlacedGlyph};
pub use model::{
    Block, BlockId, DeclineReason, DocumentModel, OrderSource, PageInput, PageModel, RawBlock,
};
pub use paragraphs::{reconstruct, Alignment, Paragraph, SplitReason, Style, StyleRun};
pub use regions::{detect, Origin, Region};
pub use rules::Rule;
pub use running::{footnotes, running_elements, Footnote, PageRegions, Placement, RunningElement};
pub use script::Script;
pub use structure::{StructElement, StructTree};
pub use tables::{detect_page, Cell, Table, TableOrigin};
pub use tags::{validate as validate_tags, Finding, TagReport, TaggedStatus};
pub use unicode::{Decoder, Strategy, TextConfidence};
pub use widths::Standard14Widths;
pub use words::{line_text, segment, BoundaryReason, Word};
