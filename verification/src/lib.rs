//! A minimal document rendering pipeline: selector matching, cascade
//! resolution, style-tree construction, and CSS block-box layout.
//!
//! The pipeline takes a parsed markup tree (`dom`) and a parsed stylesheet
//! (`css_parser`), builds a styled tree (`style`), then a tree of layout
//! boxes with fully resolved box-model geometry (`layout`). All pixel
//! lengths are integral.

use vstd::prelude::*;

pub mod css_parser;
pub mod dom;
pub mod layout;
pub mod parser;
pub mod strmap;
pub mod style;
pub mod text;

verus! {

/// Error taxonomy for the pipeline.
///
/// `MalformedDocument` covers invalid markup input (an unterminated or
/// mismatched tag, a malformed attribute). `MalformedStylesheet` covers
/// invalid stylesheet input (unknown unit, truncated declaration, invalid
/// color literal, a rule with no selectors or no declarations).
/// `UnsupportedLayoutFeature` marks layout modes this engine does not
/// compute. `InvariantViolation` marks internal programming errors, such
/// as a root node resolving to `display: none`.
#[derive(Debug, Clone, Copy, PartialEq, Eq, Structural)]
pub enum PipelineError {
    MalformedDocument,
    MalformedStylesheet,
    UnsupportedLayoutFeature,
    InvariantViolation,
}

} // verus!
