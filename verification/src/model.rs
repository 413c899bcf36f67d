//! The values that a document holds.

use vstd::prelude::*;

verus! {

/// A document: the entries of its header block, in their order.
#[derive(Clone, Debug, Eq, PartialEq)]
pub struct Ofx {
    pub headers: Vec<HeaderEntry>,
}

/// The message sets, by kind, direction and version.
#[derive(Clone, Debug, Eq, Ord, PartialEq, PartialOrd)]
pub enum MessageSetAggregate {
    SignonRequestsV1,
    SignonRequestsV2,
    SignonResponsesV1,
    SignonResponsesV2,
    SignupRequestsV1,
    SignupRequestsV2,
    SignupResponsesV1,
    SignupResponsesV2,
    BankingRequestsV1,
    BankingRequestsV2,
    BankingResponsesV1,
    BankingResponsesV2,
    CreditCardStatementsRequestsV1,
    CreditCardStatementsRequestsV2,
    CreditCardStatementsResponsesV1,
    CreditCardStatementsResponsesV2,
    LoanStatementsRequestsV1,
    LoanStatementsResponsesV1,
    InvestmentStatementsRequestsV1,
    InvestmentStatementsRequestsV2,
    InvestmentStatementsResponsesV1,
    InvestmentStatementsResponsesV2,
    InterbankFundsTransfersRequestsV1,
    InterbankFundsTransfersRequestsV2,
    InterbankFundsTransfersResponsesV1,
    InterbankFundsTransfersResponsesV2,
    WireFundsTransfersRequestsV1,
    WireFundsTransfersRequestsV2,
    WireFundsTransfersResponsesV1,
    WireFundsTransfersResponsesV2,
    PaymentsRequestsV1,
    PaymentsRequestsV2,
    PaymentsResponsesV1,
    PaymentsResponsesV2,
    GeneralEmailRequestsV1,
    GeneralEmailRequestsV2,
    GeneralEmailResponsesV1,
    GeneralEmailResponsesV2,
    InvestmentSecurityListRequestsV1,
    InvestmentSecurityListRequestsV2,
    InvestmentSecurityListResponsesV1,
    InvestmentSecurityListResponsesV2,
    BillerDirectoryRequestsV1,
    BillerDirectoryResponsesV1,
    BillDeliveryRequestsV1,
    BillDeliveryResponsesV1,
    FIProfileRequestsV1,
    FIProfileRequestsV2,
    FIProfileResponsesV1,
    FIProfileResponsesV2,
    ImageDownloadRequestsV1,
    ImageDownloadResponsesV1,
    Other(String),
}

/// A moment in time, with the distance from UTC of the clock that gave it.
#[derive(Clone, Copy, Debug, Eq, PartialEq, Structural)]
pub struct ServerTime {
    /// Whole seconds since the start of 1970, UTC.
    pub timestamp: i64,
    /// Nanoseconds since the last whole second; a leap second counts on
    /// beyond one second.
    pub nanosecond: u32,
    /// Seconds that the local clock is ahead of UTC.
    pub utc_offset: i32,
}

impl ServerTime {
    /// The parts of the second and the offset are within their ranges.
    pub open spec fn well_formed(self) -> bool {
        self.nanosecond < 2_000_000_000 && -86_400 < self.utc_offset < 86_400
    }
}

/// The response to a signon request.
#[derive(Clone, Debug, Eq, PartialEq)]
pub struct SignonResponseMessage {
    pub status: Status,
    pub dt_server: ServerTime,
}

/// The status that a response carries.
#[derive(Clone, Debug, Eq, PartialEq)]
pub struct Status {
    pub code: u32,
    pub severity: Severity,
    pub message: String,
}

/// How a status is to be taken.
#[derive(Clone, Copy, Debug, Eq, PartialEq, Structural)]
pub enum Severity {
    Error,
    Info,
    Warn,
}

/// One entry of the header block.
#[derive(Clone, Debug, Eq, PartialEq)]
pub enum HeaderEntry {
    Charset(Option<Charset>),
    /// The key was there; its value says nothing.
    Compression,
    Data(Data),
    Encoding(Encoding),
    NewFileUid(Option<String>),
    OfxHeader(u32),
    OldFileUid(Option<String>),
    Security(Option<Security>),
    Version(u32),
    /// A key that is none of the others, and its value as it was written.
    Unknown(String, String),
}

/// The character set of the text.
#[derive(Clone, Copy, Debug, Eq, PartialEq, Structural)]
pub enum Charset {
    Iso88591,
    Windows1252,
}

/// The format of the body.
#[derive(Clone, Debug, Eq, PartialEq)]
pub enum Data {
    OfxSgml,
    Other(String),
}

/// The encoding of the text.
#[derive(Clone, Copy, Debug, Eq, PartialEq, Structural)]
pub enum Encoding {
    UsAscii,
    Utf8,
}

/// The security that the document asks for.
#[derive(Clone, Copy, Debug, Eq, PartialEq, Structural)]
pub enum Security {
    Type1,
}

/// The format of the body, as a mathematical value.
pub enum DataView {
    OfxSgml,
    Other(Seq<char>),
}

/// An entry of the header block, as a mathematical value.
pub enum HeaderEntryView {
    Charset(Option<Charset>),
    Compression,
    Data(DataView),
    Encoding(Encoding),
    NewFileUid(Option<Seq<char>>),
    OfxHeader(u32),
    OldFileUid(Option<Seq<char>>),
    Security(Option<Security>),
    Version(u32),
    Unknown(Seq<char>, Seq<char>),
}

/// The view of a string that may be absent.
pub open spec fn option_view(s: Option<String>) -> Option<Seq<char>> {
    match s {
        Some(s) => Some(s@),
        None => None,
    }
}

impl View for Data {
    type V = DataView;

    open spec fn view(&self) -> DataView {
        match self {
            Data::OfxSgml => DataView::OfxSgml,
            Data::Other(s) => DataView::Other(s@),
        }
    }
}

impl View for HeaderEntry {
    type V = HeaderEntryView;

    open spec fn view(&self) -> HeaderEntryView {
        match self {
            HeaderEntry::Charset(v) => HeaderEntryView::Charset(*v),
            HeaderEntry::Compression => HeaderEntryView::Compression,
            HeaderEntry::Data(v) => HeaderEntryView::Data(v@),
            HeaderEntry::Encoding(v) => HeaderEntryView::Encoding(*v),
            HeaderEntry::NewFileUid(v) => HeaderEntryView::NewFileUid(option_view(*v)),
            HeaderEntry::OfxHeader(v) => HeaderEntryView::OfxHeader(*v),
            HeaderEntry::OldFileUid(v) => HeaderEntryView::OldFileUid(option_view(*v)),
            HeaderEntry::Security(v) => HeaderEntryView::Security(*v),
            HeaderEntry::Version(v) => HeaderEntryView::Version(*v),
            HeaderEntry::Unknown(key, value) => HeaderEntryView::Unknown(key@, value@),
        }
    }
}

/// The entries of `entries` as mathematical values, in their order.
pub open spec fn entries_view(entries: Seq<HeaderEntry>) -> Seq<HeaderEntryView> {
    Seq::new(entries.len(), |j: int| entries[j]@)
}

impl View for Ofx {
    type V = Seq<HeaderEntryView>;

    open spec fn view(&self) -> Seq<HeaderEntryView> {
        entries_view(self.headers@)
    }
}

} // verus!
