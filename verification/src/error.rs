//! Errors of reading and exporting proxies.

use vstd::prelude::*;

verus! {

/// Why a link could not be read as a proxy.
#[derive(Debug, Clone, PartialEq, Eq)]
pub enum ProcessorError {
    UnsupportedProtocol(String),
    InvalidLinkFormat(String),
    Base64DecodeFailed(String),
    JsonParseFailed(String),
    GeoIpDbError(String),
    UrlParse(String),
    MissingComponent(&'static str),
    InvalidValue(String),
}

#[verifier::ext_equal]
pub enum ProcessorErrorView {
    UnsupportedProtocol(Seq<char>),
    InvalidLinkFormat(Seq<char>),
    Base64DecodeFailed(Seq<char>),
    JsonParseFailed(Seq<char>),
    GeoIpDbError(Seq<char>),
    UrlParse(Seq<char>),
    MissingComponent(Seq<char>),
    InvalidValue(Seq<char>),
}

impl View for ProcessorError {
    type V = ProcessorErrorView;

    open spec fn view(&self) -> ProcessorErrorView {
        match self {
            ProcessorError::UnsupportedProtocol(s) => ProcessorErrorView::UnsupportedProtocol(s@),
            ProcessorError::InvalidLinkFormat(s) => ProcessorErrorView::InvalidLinkFormat(s@),
            ProcessorError::Base64DecodeFailed(s) => ProcessorErrorView::Base64DecodeFailed(s@),
            ProcessorError::JsonParseFailed(s) => ProcessorErrorView::JsonParseFailed(s@),
            ProcessorError::GeoIpDbError(s) => ProcessorErrorView::GeoIpDbError(s@),
            ProcessorError::UrlParse(s) => ProcessorErrorView::UrlParse(s@),
            ProcessorError::MissingComponent(s) => ProcessorErrorView::MissingComponent(s@),
            ProcessorError::InvalidValue(s) => ProcessorErrorView::InvalidValue(s@),
        }
    }
}

/// The view of a result whose error is a `ProcessorError`.
pub open spec fn result_view<T: View>(r: Result<T, ProcessorError>) -> Result<T::V, ProcessorErrorView> {
    match r {
        Ok(x) => Ok(x@),
        Err(e) => Err(e@),
    }
}

#[verifier::external_type_specification]
#[verifier::external_body]
pub struct ExJsonError(serde_json::Error);

/// Why proxies could not be exported.
#[derive(Debug)]
pub enum ExportError {
    UnsupportedProtocol(String),
    JsonSerializationFailed(serde_json::Error),
}

} // verus!
