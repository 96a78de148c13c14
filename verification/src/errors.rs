//! What can go wrong while patching.

use vstd::prelude::*;

verus! {

/// An error of the patcher.
#[derive(Debug)]
pub enum WizPatchError {
    /// A reply or an argument that is not as it should be.
    Protocol(String),
    /// A URL that names no revision.
    NoRevision(String),
    /// A failed HTTP request.
    Http(String),
    /// A failed read or write.
    Io(String),
    /// Bytes that should be text and are not UTF-8.
    Utf8(Vec<u8>),
}

/// What a [`WizPatchError`] says.
pub ghost enum ErrorView {
    Protocol(Seq<char>),
    NoRevision(Seq<char>),
    Http(Seq<char>),
    Io(Seq<char>),
    Utf8(Seq<u8>),
}

impl View for WizPatchError {
    type V = ErrorView;

    open spec fn view(&self) -> ErrorView {
        match self {
            WizPatchError::Protocol(s) => ErrorView::Protocol(s@),
            WizPatchError::NoRevision(s) => ErrorView::NoRevision(s@),
            WizPatchError::Http(s) => ErrorView::Http(s@),
            WizPatchError::Io(s) => ErrorView::Io(s@),
            WizPatchError::Utf8(b) => ErrorView::Utf8(b@),
        }
    }
}

/// What a result holds: the view of its value or of its error.
pub open spec fn viewed<T: View>(r: Result<T, WizPatchError>) -> Result<T::V, ErrorView> {
    match r {
        Ok(value) => Ok(value@),
        Err(error) => Err(error@),
    }
}

/// An error's view is its kind and the whole of what it says, and a result's view keeps the two
/// sides apart: results with the same view are equally good, and errors with the same view are of
/// the same kind and say the same.
pub proof fn law_views_tell_errors_apart<T: View>(
    a: Result<T, WizPatchError>,
    b: Result<T, WizPatchError>,
)
    requires
        viewed(a) == viewed(b),
    ensures
        match (a, b) {
            (Ok(x), Ok(y)) => x@ == y@,
            (Err(WizPatchError::Protocol(x)), Err(WizPatchError::Protocol(y))) => x@ == y@,
            (Err(WizPatchError::NoRevision(x)), Err(WizPatchError::NoRevision(y))) => x@ == y@,
            (Err(WizPatchError::Http(x)), Err(WizPatchError::Http(y))) => x@ == y@,
            (Err(WizPatchError::Io(x)), Err(WizPatchError::Io(y))) => x@ == y@,
            (Err(WizPatchError::Utf8(x)), Err(WizPatchError::Utf8(y))) => x@ == y@,
            _ => false,
        },
{
}

} // verus!
