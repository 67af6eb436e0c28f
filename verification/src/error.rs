//! What can go wrong while a catalog or a book is rewritten.

use vstd::prelude::*;

verus! {

/// quick-xml's error type. It is carried through unread.
#[verifier::external_type_specification]
#[verifier::external_body]
pub struct ExXmlError(quick_xml::Error);

/// url's error type. It is carried through unread.
#[verifier::external_type_specification]
#[verifier::external_body]
pub struct ExUrlError(url::ParseError);

/// Why a rewrite failed.
#[derive(Debug)]
pub enum ProxyError {
    /// A text that has to be a URL is none.
    Url(url::ParseError),
    /// A document is not well-formed XML.
    Xml(quick_xml::Error),
    /// An archive is not a usable EPUB; the text says why.
    Epub(String),
}

/// The error that stands for an XML failure.
pub fn xml_err(e: quick_xml::Error) -> (r: ProxyError)
    ensures
        r == ProxyError::Xml(e),
{
    ProxyError::Xml(e)
}

/// The error that stands for a text that is no URL.
pub fn invalid_url(e: url::ParseError) -> (r: ProxyError)
    ensures
        r == ProxyError::Url(e),
{
    ProxyError::Url(e)
}

} // verus!
