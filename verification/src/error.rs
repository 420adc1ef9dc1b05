//! The typed failures of the analysis.

use vstd::prelude::*;

verus! {

/// A failure: what could not be done, and a detail that names the things involved.
#[derive(Clone, PartialEq, Eq, Debug)]
pub enum Error {
    /// The input is malformed or violates a rule.
    Invalid { what: String, detail: String },
    /// Something that was named does not exist.
    NotFound { what: String, detail: String },
    /// Two parts of the input claim the same thing.
    Conflict { what: String, detail: String },
    /// The input asks for something that is not offered.
    Unsupported { what: &'static str, detail: String },
}

/// The model of an [`Error`].
pub enum ErrorView {
    Invalid { what: Seq<char>, detail: Seq<char> },
    NotFound { what: Seq<char>, detail: Seq<char> },
    Conflict { what: Seq<char>, detail: Seq<char> },
    Unsupported { what: Seq<char>, detail: Seq<char> },
}

impl View for Error {
    type V = ErrorView;

    open spec fn view(&self) -> ErrorView {
        match self {
            Error::Invalid { what, detail } => ErrorView::Invalid { what: what@, detail: detail@ },
            Error::NotFound { what, detail } => ErrorView::NotFound { what: what@, detail: detail@ },
            Error::Conflict { what, detail } => ErrorView::Conflict { what: what@, detail: detail@ },
            Error::Unsupported { what, detail } => ErrorView::Unsupported {
                what: what@,
                detail: detail@,
            },
        }
    }
}

/// The model of an outcome: the model of the value, or of the failure.
pub open spec fn outcome<T: View>(r: Result<T, Error>) -> Result<T::V, ErrorView> {
    match r {
        Ok(t) => Ok(t@),
        Err(e) => Err(e@),
    }
}

/// An [`Error::Invalid`] with the given texts.
pub fn invalid(what: &str, detail: String) -> (r: Error)
    ensures
        r@ == (ErrorView::Invalid { what: what@, detail: detail@ }),
{
    Error::Invalid { what: what.to_owned(), detail }
}

/// An [`Error::NotFound`] with the given texts.
pub fn not_found(what: &str, detail: String) -> (r: Error)
    ensures
        r@ == (ErrorView::NotFound { what: what@, detail: detail@ }),
{
    Error::NotFound { what: what.to_owned(), detail }
}

// ---- Laws of outcomes ----

/// An outcome is a value exactly where there is one, and otherwise the failure with both its texts.
pub proof fn law_outcomes_keep_values_and_failures<T: View>(t: T, e: Error)
    ensures
        outcome(Ok::<T, Error>(t)) == Ok::<T::V, ErrorView>(t@),
        outcome(Err::<T, Error>(e)) == Err::<T::V, ErrorView>(e@),
        e matches Error::Invalid { what, detail } ==> e@ == (ErrorView::Invalid {
            what: what@,
            detail: detail@,
        }),
        e matches Error::NotFound { what, detail } ==> e@ == (ErrorView::NotFound {
            what: what@,
            detail: detail@,
        }),
        e matches Error::Conflict { what, detail } ==> e@ == (ErrorView::Conflict {
            what: what@,
            detail: detail@,
        }),
        e matches Error::Unsupported { what, detail } ==> e@ == (ErrorView::Unsupported {
            what: what@,
            detail: detail@,
        }),
{
}

} // verus!
