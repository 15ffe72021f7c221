//! The ways in which elaboration and checking fail.

use crate::term::{Expr, ExprView};
use vstd::prelude::*;

verus! {

/// A failure of elaboration or checking. The first one met ends the work.
#[derive(Debug)]
pub enum TypeError {
    /// A head name that is neither a local, nor a global, nor a universe.
    UnknownIdentifier { name: String },
    /// A reference to a position outside the global table.
    UnboundGlobal { index: usize },
    /// A reference to a position outside the local context.
    UnboundLocal { index: usize },
    /// A universe was given arguments.
    UniverseApplied,
    /// Arguments are left, but the type no longer is a function type.
    NotAFunction { ty: Expr },
    /// The type found differs from the type asked for.
    TypeMismatch { expr: Expr, actual: Expr, expected: Expr },
    /// A term that must be a type does not inhabit a universe.
    ExpectedUniverse,
    /// The result of a function type does not inhabit a universe.
    ExpectedUniverseResult,
    /// A function type or a universe was put where arguments follow.
    ArrowInHead,
    /// The annotation and the definition disagree on the name.
    NameMismatch { annotation: String, definition: String },
    /// An item with neither annotation nor definition.
    EmptyItem,
    /// A definition with parameters and no annotation.
    MissingAnnotation,
    /// A definition with more parameters than its type has binders.
    TooManyParameters,
    /// A form that is accepted by the grammar and not handled yet.
    NotImplemented,
    /// An index or a universe level left the machine's range.
    IndexOverflow,
    /// Unfolding went deeper than the given budget.
    OutOfFuel,
}

/// The mathematical value of a [`TypeError`].
pub enum TypeErrorView {
    UnknownIdentifier { name: Seq<char> },
    UnboundGlobal { index: usize },
    UnboundLocal { index: usize },
    UniverseApplied,
    NotAFunction { ty: ExprView },
    TypeMismatch { expr: ExprView, actual: ExprView, expected: ExprView },
    ExpectedUniverse,
    ExpectedUniverseResult,
    ArrowInHead,
    NameMismatch { annotation: Seq<char>, definition: Seq<char> },
    EmptyItem,
    MissingAnnotation,
    TooManyParameters,
    NotImplemented,
    IndexOverflow,
    OutOfFuel,
}

impl View for TypeError {
    type V = TypeErrorView;

    open spec fn view(&self) -> TypeErrorView {
        match *self {
            TypeError::UnknownIdentifier { name } => TypeErrorView::UnknownIdentifier { name: name@ },
            TypeError::UnboundGlobal { index } => TypeErrorView::UnboundGlobal { index },
            TypeError::UnboundLocal { index } => TypeErrorView::UnboundLocal { index },
            TypeError::UniverseApplied => TypeErrorView::UniverseApplied,
            TypeError::NotAFunction { ty } => TypeErrorView::NotAFunction { ty: ty@ },
            TypeError::TypeMismatch { expr, actual, expected } => TypeErrorView::TypeMismatch {
                expr: expr@,
                actual: actual@,
                expected: expected@,
            },
            TypeError::ExpectedUniverse => TypeErrorView::ExpectedUniverse,
            TypeError::ExpectedUniverseResult => TypeErrorView::ExpectedUniverseResult,
            TypeError::ArrowInHead => TypeErrorView::ArrowInHead,
            TypeError::NameMismatch { annotation, definition } => TypeErrorView::NameMismatch {
                annotation: annotation@,
                definition: definition@,
            },
            TypeError::EmptyItem => TypeErrorView::EmptyItem,
            TypeError::MissingAnnotation => TypeErrorView::MissingAnnotation,
            TypeError::TooManyParameters => TypeErrorView::TooManyParameters,
            TypeError::NotImplemented => TypeErrorView::NotImplemented,
            TypeError::IndexOverflow => TypeErrorView::IndexOverflow,
            TypeError::OutOfFuel => TypeErrorView::OutOfFuel,
        }
    }
}

/// A result that carries a term, by value.
pub type Checked = Result<ExprView, TypeErrorView>;

/// The value of a result that carries a term.
pub open spec fn checked_view(r: Result<Expr, TypeError>) -> Checked {
    match r {
        Ok(e) => Ok(e@),
        Err(x) => Err(x@),
    }
}

/// The value of a result that carries a list of terms.
pub open spec fn list_view(r: Result<Vec<Expr>, TypeError>) -> Result<
    Seq<ExprView>,
    TypeErrorView,
> {
    match r {
        Ok(v) => Ok(crate::term::views(v@)),
        Err(x) => Err(x@),
    }
}

/// The value of a result that carries nothing.
pub open spec fn unit_view(r: Result<(), TypeError>) -> Result<(), TypeErrorView> {
    match r {
        Ok(_) => Ok(()),
        Err(x) => Err(x@),
    }
}

} // verus!
