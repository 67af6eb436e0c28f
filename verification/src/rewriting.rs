//! What becomes of a document that is written out piece by piece.

use vstd::prelude::*;

use crate::error::ProxyError;

verus! {

/// `rest` with `front` before it, where `rest` is no error.
pub open spec fn prefixed(front: Seq<u8>, rest: Result<Seq<u8>, ProxyError>) -> Result<
    Seq<u8>,
    ProxyError,
> {
    match rest {
        Ok(bytes) => Ok(front + bytes),
        Err(e) => Err(e),
    }
}

/// What the end of a document gives: nothing, or the error that ended its reading.
pub open spec fn at_end(failure: Option<quick_xml::Error>) -> Result<Seq<u8>, ProxyError> {
    match failure {
        Some(e) => Err(ProxyError::Xml(e)),
        None => Ok(Seq::empty()),
    }
}

/// Nothing put before a result leaves it as it is.
pub proof fn lemma_prefix_empty(r: Result<Seq<u8>, ProxyError>)
    ensures
        prefixed(Seq::<u8>::empty(), r) == r,
{
    if let Ok(bytes) = r {
        assert(Seq::<u8>::empty() + bytes =~= bytes);
    }
}

/// Putting two pieces before a result is putting their concatenation before it.
pub proof fn lemma_prefix_twice(a: Seq<u8>, b: Seq<u8>, r: Result<Seq<u8>, ProxyError>)
    ensures
        prefixed(a, prefixed(b, r)) == prefixed(a + b, r),
{
    if let Ok(bytes) = r {
        assert(a + (b + bytes) =~= (a + b) + bytes);
    }
}

} // verus!
