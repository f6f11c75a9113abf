//! A crease: an anchor range with the host's rendering payload and optional metadata.
use crate::anchor::Anchor;
use std::ops::Range;
use vstd::prelude::*;

verus! {

/// Display metadata of a crease, kept so that the crease can be persisted.
#[derive(Clone, Debug, PartialEq, Eq)]
pub struct CreaseMetadata {
    pub icon: String,
    pub label: String,
}

/// A collapsible region. `R` is whatever the host renders the region with; it is
/// stored and handed back as it was given, never inspected.
#[derive(Debug)]
pub enum Crease<R> {
    Fold { range: Range<Anchor>, render: R, metadata: Option<CreaseMetadata> },
}

impl<R> Crease<R> {
    pub open spec fn range_spec(&self) -> Range<Anchor> {
        match self {
            Crease::Fold { range, .. } => *range,
        }
    }

    pub open spec fn render_spec(&self) -> R {
        match self {
            Crease::Fold { render, .. } => *render,
        }
    }

    pub open spec fn metadata_spec(&self) -> Option<CreaseMetadata> {
        match self {
            Crease::Fold { metadata, .. } => *metadata,
        }
    }

    /// A fold crease over `range`, without metadata.
    pub fn new(range: Range<Anchor>, render: R) -> (r: Crease<R>)
        ensures
            r.range_spec() == range,
            r.render_spec() == render,
            r.metadata_spec() is None,
    {
        Crease::Fold { range, render, metadata: None }
    }

    /// The same crease, carrying `metadata`.
    pub fn with_metadata(self, metadata: CreaseMetadata) -> (r: Crease<R>)
        ensures
            r.range_spec() == self.range_spec(),
            r.render_spec() == self.render_spec(),
            r.metadata_spec() == Some(metadata),
    {
        match self {
            Crease::Fold { range, render, .. } => Crease::Fold {
                range,
                render,
                metadata: Some(metadata),
            },
        }
    }

    pub fn range(&self) -> (r: &Range<Anchor>)
        ensures
            *r == self.range_spec(),
    {
        match self {
            Crease::Fold { range, .. } => range,
        }
    }

    pub fn metadata(&self) -> (r: &Option<CreaseMetadata>)
        ensures
            *r == self.metadata_spec(),
    {
        match self {
            Crease::Fold { metadata, .. } => metadata,
        }
    }

    pub fn render(&self) -> (r: &R)
        ensures
            *r == self.render_spec(),
    {
        match self {
            Crease::Fold { render, .. } => render,
        }
    }
}

} // verus!
