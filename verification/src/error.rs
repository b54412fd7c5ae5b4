//! The errors of the library.

use vstd::prelude::*;

use crate::text::concat;

verus! {

/// What went wrong, with a message.
#[derive(Debug)]
pub enum InspectorError {
    /// The Android debug bridge failed or gave no hierarchy.
    Adb(String),
    /// The Appium server failed or answered unexpectedly.
    Appium(String),
    /// The XML text could not be parsed.
    XmlParse(String),
    /// The XPath expression could not be compiled or evaluated.
    XPath(String),
    /// An attribute filter was not a valid regular expression.
    Filter(String),
    /// The configuration could not be read or written.
    Config(String),
    /// Reading or writing a file failed; the text of the I/O error.
    Io(String),
    /// An HTTP request failed; the text of the client's error.
    Http(String),
    /// JSON could not be read or written; the text of the JSON error.
    Json(String),
}

/// An error as plain text.
pub enum ErrorView {
    Adb(Seq<char>),
    Appium(Seq<char>),
    XmlParse(Seq<char>),
    XPath(Seq<char>),
    Filter(Seq<char>),
    Config(Seq<char>),
    Io(Seq<char>),
    Http(Seq<char>),
    Json(Seq<char>),
}

impl View for InspectorError {
    type V = ErrorView;

    open spec fn view(&self) -> ErrorView {
        match self {
            InspectorError::Adb(m) => ErrorView::Adb(m@),
            InspectorError::Appium(m) => ErrorView::Appium(m@),
            InspectorError::XmlParse(m) => ErrorView::XmlParse(m@),
            InspectorError::XPath(m) => ErrorView::XPath(m@),
            InspectorError::Filter(m) => ErrorView::Filter(m@),
            InspectorError::Config(m) => ErrorView::Config(m@),
            InspectorError::Io(m) => ErrorView::Io(m@),
            InspectorError::Http(m) => ErrorView::Http(m@),
            InspectorError::Json(m) => ErrorView::Json(m@),
        }
    }
}

/// The one-line description of an error: a prefix naming its kind, then
/// its message.
pub open spec fn error_message(e: ErrorView) -> Seq<char> {
    match e {
        ErrorView::Adb(m) => "adb error: "@ + m,
        ErrorView::Appium(m) => "appium error: "@ + m,
        ErrorView::XmlParse(m) => "xml parse error: "@ + m,
        ErrorView::XPath(m) => "xpath error: "@ + m,
        ErrorView::Filter(m) => "filter error: "@ + m,
        ErrorView::Config(m) => "config error: "@ + m,
        ErrorView::Io(m) => "io error: "@ + m,
        ErrorView::Http(m) => "http error: "@ + m,
        ErrorView::Json(m) => "json error: "@ + m,
    }
}

impl InspectorError {
    /// The one-line description of the error.
    pub fn message(&self) -> (r: String)
        ensures
            r@ == error_message(self@),
    {
        match self {
            InspectorError::Adb(m) => concat("adb error: ", m.as_str()),
            InspectorError::Appium(m) => concat("appium error: ", m.as_str()),
            InspectorError::XmlParse(m) => concat("xml parse error: ", m.as_str()),
            InspectorError::XPath(m) => concat("xpath error: ", m.as_str()),
            InspectorError::Filter(m) => concat("filter error: ", m.as_str()),
            InspectorError::Config(m) => concat("config error: ", m.as_str()),
            InspectorError::Io(m) => concat("io error: ", m.as_str()),
            InspectorError::Http(m) => concat("http error: ", m.as_str()),
            InspectorError::Json(m) => concat("json error: ", m.as_str()),
        }
    }
}

} // verus!
