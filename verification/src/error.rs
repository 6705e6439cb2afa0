//! Errors of the order-book library.
use vstd::prelude::*;
use crate::decimal::DecimalError;

verus! {

/// An error that the service reports and then carries on.
#[derive(Debug)]
pub enum GeneralError {
    /// Data that the service cannot use, but no fatal condition.
    DataError(String),
    /// Text that does not read as what it should be.
    ParseError(String),
    /// A connection that failed.
    ConnectionError(String),
}

/// What an error says, as plain values.
pub enum ErrorView {
    DataError(Seq<char>),
    ParseError(Seq<char>),
    ConnectionError(Seq<char>),
}

impl View for GeneralError {
    type V = ErrorView;

    open spec fn view(&self) -> ErrorView {
        match self {
            GeneralError::DataError(m) => ErrorView::DataError(m@),
            GeneralError::ParseError(m) => ErrorView::ParseError(m@),
            GeneralError::ConnectionError(m) => ErrorView::ConnectionError(m@),
        }
    }
}

pub type OrderbookResult<T> = Result<T, GeneralError>;

/// The message of the error given for inconsistent exchange data.
pub open spec fn format_error_text() -> Seq<char> {
    "Exchange provided inconsistent data"@
}

/// The error given for inconsistent exchange data.
pub open spec fn format_error() -> ErrorView {
    ErrorView::DataError(format_error_text())
}

/// The message of a parse error for text that is not a number.
pub open spec fn decimal_error_text(e: DecimalError) -> Seq<char> {
    match e {
        DecimalError::Empty => "cannot parse float from empty string"@,
        DecimalError::Invalid => "invalid float literal"@,
        DecimalError::NotFinite => "number is not finite"@,
        DecimalError::OutOfRange => "number too large to fit in target type"@,
    }
}

/// The error kind's name that the message of an error starts with.
pub open spec fn kind_name(e: ErrorView) -> Seq<char> {
    match e {
        ErrorView::DataError(_) => "DataError: "@,
        ErrorView::ParseError(_) => "ParseError: "@,
        ErrorView::ConnectionError(_) => "ConnectionError: "@,
    }
}

pub open spec fn detail(e: ErrorView) -> Seq<char> {
    match e {
        ErrorView::DataError(m) => m,
        ErrorView::ParseError(m) => m,
        ErrorView::ConnectionError(m) => m,
    }
}

impl GeneralError {
    /// The error for an exchange that sent inconsistent data.
    pub fn orders_format_error() -> (r: Self)
        ensures
            r@ == format_error(),
    {
        GeneralError::DataError(String::from_str("Exchange provided inconsistent data"))
    }

    /// The error for a failed connection, with its message.
    pub fn connection_error(error_message: String) -> (r: Self)
        ensures
            r@ == ErrorView::ConnectionError(error_message@),
    {
        GeneralError::ConnectionError(error_message)
    }

    /// The error for text that could not be read, with the reader's message.
    pub fn parse_error(error_message: String) -> (r: Self)
        ensures
            r@ == ErrorView::ParseError(error_message@),
    {
        GeneralError::ParseError(error_message)
    }

    /// The error for text that is not a fixed-point number.
    pub fn from_decimal_error(error: DecimalError) -> (r: Self)
        ensures
            r@ == ErrorView::ParseError(decimal_error_text(error)),
    {
        let text = match error {
            DecimalError::Empty => String::from_str("cannot parse float from empty string"),
            DecimalError::Invalid => String::from_str("invalid float literal"),
            DecimalError::NotFinite => String::from_str("number is not finite"),
            DecimalError::OutOfRange => String::from_str("number too large to fit in target type"),
        };
        GeneralError::ParseError(text)
    }

    /// The error's message: its kind, a colon and its detail.
    pub fn message(&self) -> (r: String)
        ensures
            r@ == kind_name(self@) + detail(self@),
    {
        let (mut text, m) = match self {
            GeneralError::DataError(m) => (String::from_str("DataError: "), m),
            GeneralError::ParseError(m) => (String::from_str("ParseError: "), m),
            GeneralError::ConnectionError(m) => (String::from_str("ConnectionError: "), m),
        };
        text.append(m.as_str());
        text
    }
}

} // verus!
