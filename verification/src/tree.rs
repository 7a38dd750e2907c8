//! Pattern trees: what the arms of a `match` hold before and after the
//! rewriting. `T` is the host's syntax, carried through untouched; `S` is
//! the host's idea of a source location.

use vstd::prelude::*;
use crate::descriptor::Capture;
use crate::descriptor::CaptureView;
use crate::grammar::PatternError;

verus! {

/// A pattern as written in an arm.
#[derive(Debug, PartialEq, Eq)]
pub enum PatternTree<T, S> {
    /// A string literal, to be read as a pattern string.
    Literal { text: String, span: S },
    /// A name that binds the whole subject. The three flags record the
    /// modifiers it was written with: by reference, mutable, and with a
    /// sub-pattern behind `@`.
    Binding { name: String, by_ref: bool, mutable: bool, subpattern: bool, span: S },
    /// Alternatives, in source order.
    Or { leading_separator: bool, branches: Vec<PatternTree<T, S>> },
    /// Any other pattern.
    Opaque(T),
}

/// A pattern over the bytes of the subject.
#[derive(Debug, PartialEq, Eq)]
pub enum BytePattern<T, S> {
    /// Matches exactly these bytes.
    Exact(Vec<u8>),
    /// Matches the prefix, then any bytes, then the suffix; the bytes in
    /// the middle are bound if the capture has a name.
    Split { prefix: Vec<u8>, capture: Capture, suffix: Vec<u8>, span: S },
    /// Binds the whole byte sequence to a name.
    Bind { name: String, span: S },
    /// Alternatives, in source order.
    Or { leading_separator: bool, branches: Vec<BytePattern<T, S>> },
    /// Any other pattern, as it was.
    Opaque(T),
}

/// What went wrong in a pattern.
#[derive(Debug, Clone, Copy, PartialEq, Eq, Structural)]
pub enum ErrorKind {
    /// A string literal is not a pattern string.
    Pattern(PatternError),
    /// A binding with modifiers.
    ComplexPattern,
}

/// An error and the place of the literal or binding that caused it.
#[derive(Debug, Clone, PartialEq, Eq)]
pub struct CompileError<S> {
    pub kind: ErrorKind,
    pub span: S,
}

/// Mathematical model of a [`PatternTree`].
pub enum TreeView<T, S> {
    Literal { text: Seq<char>, span: S },
    Binding { name: Seq<char>, by_ref: bool, mutable: bool, subpattern: bool, span: S },
    Or { leading_separator: bool, branches: Seq<TreeView<T, S>> },
    Opaque(T),
}

/// Mathematical model of a [`BytePattern`].
pub enum BytePatternView<T, S> {
    Exact(Seq<u8>),
    Split { prefix: Seq<u8>, capture: CaptureView, suffix: Seq<u8>, span: S },
    Bind { name: Seq<char>, span: S },
    Or { leading_separator: bool, branches: Seq<BytePatternView<T, S>> },
    Opaque(T),
}

impl<T, S> PatternTree<T, S> {
    /// The model of this tree: strings and vectors become sequences.
    pub open spec fn model(self) -> TreeView<T, S>
        decreases self,
    {
        match self {
            PatternTree::Literal { text, span } => TreeView::Literal { text: text@, span },
            PatternTree::Binding { name, by_ref, mutable, subpattern, span } => TreeView::Binding {
                name: name@,
                by_ref,
                mutable,
                subpattern,
                span,
            },
            PatternTree::Or { leading_separator, branches } => TreeView::Or {
                leading_separator,
                branches: Seq::new(
                    branches@.len(),
                    |i: int|
                        if 0 <= i < branches@.len() {
                            branches@[i].model()
                        } else {
                            arbitrary()
                        },
                ),
            },
            PatternTree::Opaque(other) => TreeView::Opaque(other),
        }
    }
}

impl<T, S> View for PatternTree<T, S> {
    type V = TreeView<T, S>;

    open spec fn view(&self) -> TreeView<T, S> {
        self.model()
    }
}

impl<T, S> BytePattern<T, S> {
    /// The model of this pattern: strings and vectors become sequences.
    pub open spec fn model(self) -> BytePatternView<T, S>
        decreases self,
    {
        match self {
            BytePattern::Exact(bytes) => BytePatternView::Exact(bytes@),
            BytePattern::Split { prefix, capture, suffix, span } => BytePatternView::Split {
                prefix: prefix@,
                capture: capture@,
                suffix: suffix@,
                span,
            },
            BytePattern::Bind { name, span } => BytePatternView::Bind { name: name@, span },
            BytePattern::Or { leading_separator, branches } => BytePatternView::Or {
                leading_separator,
                branches: Seq::new(
                    branches@.len(),
                    |i: int|
                        if 0 <= i < branches@.len() {
                            branches@[i].model()
                        } else {
                            arbitrary()
                        },
                ),
            },
            BytePattern::Opaque(other) => BytePatternView::Opaque(other),
        }
    }
}

impl<T, S> View for BytePattern<T, S> {
    type V = BytePatternView<T, S>;

    open spec fn view(&self) -> BytePatternView<T, S> {
        self.model()
    }
}

} // verus!
