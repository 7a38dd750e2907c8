//! The compiled form of one pattern string, and what it means for a subject
//! to match it.

use vstd::prelude::*;

verus! {

/// What the capture region of a pattern does with the text it covers.
#[derive(Debug, Clone, PartialEq, Eq)]
pub enum Capture {
    /// The covered text is bound to this name.
    Named(String),
    /// The covered text is matched and thrown away (`{_}`).
    Wild,
}

/// A pattern string after compilation: either one exact byte string, or a
/// fixed prefix and a fixed suffix around a single capture region.
#[derive(Debug, Clone, PartialEq, Eq)]
pub enum PatternDescriptor {
    /// No capture: the subject has to equal these bytes.
    Single(Vec<u8>),
    /// Prefix bytes, the capture, suffix bytes.
    Triple(Vec<u8>, Capture, Vec<u8>),
}

/// Mathematical model of a [`Capture`].
pub enum CaptureView {
    Named(Seq<char>),
    Wild,
}

/// Mathematical model of a [`PatternDescriptor`].
pub enum DescriptorView {
    Single(Seq<u8>),
    Triple(Seq<u8>, CaptureView, Seq<u8>),
}

impl View for Capture {
    type V = CaptureView;

    open spec fn view(&self) -> CaptureView {
        match self {
            Capture::Named(name) => CaptureView::Named(name@),
            Capture::Wild => CaptureView::Wild,
        }
    }
}

impl View for PatternDescriptor {
    type V = DescriptorView;

    open spec fn view(&self) -> DescriptorView {
        match self {
            PatternDescriptor::Single(bytes) => DescriptorView::Single(bytes@),
            PatternDescriptor::Triple(prefix, capture, suffix) => DescriptorView::Triple(
                prefix@,
                capture@,
                suffix@,
            ),
        }
    }
}

impl DescriptorView {
    /// The fixed bytes a matching subject starts with.
    pub open spec fn prefix(self) -> Seq<u8> {
        match self {
            DescriptorView::Single(bytes) => bytes,
            DescriptorView::Triple(prefix, _, _) => prefix,
        }
    }

    /// The fixed bytes a matching subject ends with, after the capture.
    pub open spec fn suffix(self) -> Seq<u8> {
        match self {
            DescriptorView::Single(_) => Seq::empty(),
            DescriptorView::Triple(_, _, suffix) => suffix,
        }
    }

    /// Whether the subject `x` matches: an exact pattern wants `x` itself, a
    /// pattern with a capture wants its prefix at the start of `x`, its
    /// suffix at the end, and the two not to overlap.
    pub open spec fn matches(self, x: Seq<u8>) -> bool {
        match self {
            DescriptorView::Single(bytes) => x == bytes,
            DescriptorView::Triple(prefix, _, suffix) => {
                &&& prefix.len() + suffix.len() <= x.len()
                &&& x.take(prefix.len() as int) == prefix
                &&& x.skip(x.len() - suffix.len()) == suffix
            },
        }
    }

    /// The part of a matching subject that the capture region covers.
    pub open spec fn captured(self, x: Seq<u8>) -> Seq<u8> {
        x.subrange(self.prefix().len() as int, x.len() - self.suffix().len())
    }

    /// The name that a match binds, if the pattern has a named capture.
    pub open spec fn bound_name(self) -> Option<Seq<char>> {
        match self {
            DescriptorView::Triple(_, CaptureView::Named(name), _) => Some(name),
            _ => None,
        }
    }
}

} // verus!
