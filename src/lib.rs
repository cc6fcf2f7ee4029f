//! Composites the pages of a manuscript document onto a larger canvas.
//!
//! The library works on an in-memory model of a document's object graph: an
//! object store indexed by object number, values that may reference other
//! objects, and streams whose payload is either opaque bytes or a sequence of
//! drawing operations.
//!
//! - `object`: the model, with deep copies and dictionary access.
//! - `transplant`: cycle-safe copying of an object subgraph between documents.
//! - `resources`: merging resource dictionaries without displacing bindings.
//! - `geometry`, `overlay`: numbers, centering, and the overlay's drawing.
//! - `fonts`: embedding the footer font.
//! - `stamp`: widening each page in place and drawing the overlay around it.
//! - `content`, `compose`: rehosting pages as forms in a fresh document.
use vstd::prelude::*;

pub mod object;
pub mod transplant;
pub mod resources;
pub mod geometry;
pub mod overlay;
pub mod fonts;
pub mod stamp;
pub mod content;
pub mod compose;
