//! The errors of the request layer, each with the code under which it is
//! reported and the message that it carries.

use crate::json::{json_text, value_json, value_text};
use serde_json::Value;
use crate::store::Error;
use crate::text::{decimal_text, push_decimal};
use byte_unit::Byte;
use vstd::prelude::*;
use vstd::string::*;

verus! {

/// The code under which an error is reported.
#[derive(Clone, Copy, Debug, PartialEq, Eq, Structural, Hash)]
pub enum Code {
    BadRequest,
    DocumentNotFound,
    IndexAlreadyExists,
    IndexNotFound,
    Internal,
    InvalidContentType,
    InvalidDocumentFilter,
    InvalidIndexUid,
    InvalidSearchFilter,
    InvalidSimilarFilter,
    InvalidSimilarId,
    InvalidSwapIndexes,
    MalformedPayload,
    MissingContentType,
    MissingPayload,
    MissingSearchHybrid,
    NoSpaceLeftOnDevice,
    NotFoundSimilarId,
    PayloadTooLarge,
    TaskNotFound,
    TooManySearchRequests,
    UnsupportedMediaType,
}

/// The format of a payload of documents.
#[derive(Clone, Copy, Debug, PartialEq, Eq, Structural)]
pub enum PayloadType {
    Ndjson,
    Json,
    Csv,
}

/// An error that comes from a collaborator: the code that the collaborator
/// gives it, and its message.
#[derive(Debug)]
pub struct ForeignError {
    pub code: Code,
    pub message: String,
}

/// Where the parser of JSON stopped.
#[derive(Clone, Copy, Debug, PartialEq, Eq, Structural)]
pub enum JsonCategory {
    Io,
    Syntax,
    Data,
    Eof,
}

/// An error of the parser of JSON: its category, the line and the column at
/// which it occurred, and the message that the parser gives it.
#[derive(Debug)]
pub struct JsonError {
    pub category: JsonCategory,
    pub line: usize,
    pub column: usize,
    pub message: String,
}

/// What went wrong while the body of a request was received.
#[derive(Debug)]
pub enum AwebPayloadError {
    Incomplete,
    EncodingCorrupted,
    Overflow,
    UnknownLength,
    Http2Payload,
    Io,
}

/// A failure to receive the body of a request: the body was incomplete,
/// or something else went wrong.
#[derive(Debug)]
pub enum ActixPayloadError {
    IncompleteError,
    OtherError(AwebPayloadError),
}

/// What went wrong while a JSON body was extracted. `Other` holds the
/// whole message of a failure that is none of the others.
#[derive(Debug)]
pub enum JsonPayloadError {
    Overflow { limit: usize },
    ContentType,
    Payload(AwebPayloadError),
    Deserialize(JsonError),
    Serialize(JsonError),
    Other(String),
}

/// What went wrong while the parameters of a query were extracted: the
/// message of the deserializer, or the whole message of any other failure.
#[derive(Debug)]
pub enum QueryPayloadError {
    Deserialize(String),
    Other(String),
}

/// What is wrong with the payload of a request.
#[derive(Debug)]
pub enum PayloadError {
    Payload(ActixPayloadError),
    Json(JsonPayloadError),
    Query(QueryPayloadError),
    MalformedPayload(JsonError),
    MissingPayload,
    ReceivePayload(String),
}

/// An error of the request layer.
#[derive(Debug)]
pub enum MeilisearchHttpError {
    MissingContentType(Vec<String>),
    AlreadyUsedLogRoute,
    CsvDelimiterWithWrongContentType(String),
    InvalidContentType(String, Vec<String>),
    DocumentNotFound(String),
    EmptyFilter,
    /// The kinds of value that were expected, and the value that was found.
    InvalidExpression(Vec<String>, Value),
    MissingPayload(PayloadType),
    TooManySearchRequests(usize),
    SearchLimiterIsDown,
    PayloadTooLarge(usize),
    SwapIndexPayloadWrongLength(Vec<String>),
    /// An index name that is not well formed.
    IndexUid(String),
    SerdeJson(JsonError),
    HeedError(String),
    IndexScheduler(Error),
    Milli(ForeignError),
    Payload(PayloadError),
    FileStore(String),
    DocumentFormat(ForeignError),
    Join(String),
    MissingSearchHybrid,
}

/// The code of an error of the scheduler.
pub open spec fn scheduler_code(e: Error) -> Code {
    match e {
        Error::TaskNotFound(_) => Code::TaskNotFound,
        Error::InvalidTransition { .. } => Code::Internal,
        Error::InvalidDetails => Code::Internal,
        Error::NoSpaceLeftInTaskQueue => Code::NoSpaceLeftOnDevice,
        Error::IndexNotFound(_) => Code::IndexNotFound,
        Error::IndexAlreadyExists(_) => Code::IndexAlreadyExists,
        Error::CorruptedTaskQueue => Code::Internal,
    }
}

/// The code of an error of the scheduler.
pub fn scheduler_error_code(e: &Error) -> (c: Code)
    ensures
        c == scheduler_code(*e),
{
    match e {
        Error::TaskNotFound(_) => Code::TaskNotFound,
        Error::InvalidTransition { .. } => Code::Internal,
        Error::InvalidDetails => Code::Internal,
        Error::NoSpaceLeftInTaskQueue => Code::NoSpaceLeftOnDevice,
        Error::IndexNotFound(_) => Code::IndexNotFound,
        Error::IndexAlreadyExists(_) => Code::IndexAlreadyExists,
        Error::CorruptedTaskQueue => Code::Internal,
    }
}

impl PayloadError {
    /// The code under which the error is reported.
    pub open spec fn code(self) -> Code {
        match self {
            PayloadError::Payload(e) => match e {
                ActixPayloadError::IncompleteError => Code::BadRequest,
                ActixPayloadError::OtherError(error) => match error {
                    AwebPayloadError::Overflow => Code::PayloadTooLarge,
                    _ => Code::Internal,
                },
            },
            PayloadError::Json(err) => match err {
                JsonPayloadError::Overflow { .. } => Code::PayloadTooLarge,
                JsonPayloadError::ContentType => Code::UnsupportedMediaType,
                JsonPayloadError::Payload(AwebPayloadError::Overflow) => Code::PayloadTooLarge,
                JsonPayloadError::Payload(_) => Code::BadRequest,
                JsonPayloadError::Deserialize(_) => Code::BadRequest,
                JsonPayloadError::Serialize(_) => Code::Internal,
                _ => Code::Internal,
            },
            PayloadError::Query(err) => match err {
                QueryPayloadError::Deserialize(_) => Code::BadRequest,
                _ => Code::Internal,
            },
            PayloadError::MissingPayload => Code::MissingPayload,
            PayloadError::MalformedPayload(_) => Code::MalformedPayload,
            PayloadError::ReceivePayload(_) => Code::Internal,
        }
    }

    /// The code under which the error is reported.
    pub fn error_code(&self) -> (c: Code)
        ensures
            c == self.code(),
    {
        match self {
            PayloadError::Payload(e) => match e {
                ActixPayloadError::IncompleteError => Code::BadRequest,
                ActixPayloadError::OtherError(error) => match error {
                    AwebPayloadError::EncodingCorrupted => Code::Internal,
                    AwebPayloadError::Overflow => Code::PayloadTooLarge,
                    AwebPayloadError::UnknownLength => Code::Internal,
                    AwebPayloadError::Http2Payload => Code::Internal,
                    AwebPayloadError::Io => Code::Internal,
                    AwebPayloadError::Incomplete => Code::Internal,
                },
            },
            PayloadError::Json(err) => match err {
                JsonPayloadError::Overflow { .. } => Code::PayloadTooLarge,
                JsonPayloadError::ContentType => Code::UnsupportedMediaType,
                JsonPayloadError::Payload(AwebPayloadError::Overflow) => Code::PayloadTooLarge,
                JsonPayloadError::Payload(_) => Code::BadRequest,
                JsonPayloadError::Deserialize(_) => Code::BadRequest,
                JsonPayloadError::Serialize(_) => Code::Internal,
                _ => Code::Internal,
            },
            PayloadError::Query(err) => match err {
                QueryPayloadError::Deserialize(_) => Code::BadRequest,
                _ => Code::Internal,
            },
            PayloadError::MissingPayload => Code::MissingPayload,
            PayloadError::MalformedPayload(_) => Code::MalformedPayload,
            PayloadError::ReceivePayload(_) => Code::Internal,
        }
    }

    /// The error that a failed extraction of a JSON body becomes. A body
    /// that ends before anything was read is a missing payload; a body that
    /// is no JSON is a malformed payload; anything else stays what it is.
    pub open spec fn of_json(other: JsonPayloadError) -> PayloadError {
        match other {
            JsonPayloadError::Deserialize(e) => if e.category == JsonCategory::Eof && e.line == 1
                && e.column == 0 {
                PayloadError::MissingPayload
            } else if e.category != JsonCategory::Data {
                PayloadError::MalformedPayload(e)
            } else {
                PayloadError::Json(other)
            },
            _ => PayloadError::Json(other),
        }
    }

    /// The error that a failed extraction of a JSON body becomes.
    pub fn from_json(other: JsonPayloadError) -> (r: PayloadError)
        ensures
            r == Self::of_json(other),
    {
        match other {
            JsonPayloadError::Deserialize(e) => {
                if e.category == JsonCategory::Eof && e.line == 1 && e.column == 0 {
                    PayloadError::MissingPayload
                } else if e.category != JsonCategory::Data {
                    PayloadError::MalformedPayload(e)
                } else {
                    PayloadError::Json(JsonPayloadError::Deserialize(e))
                }
            },
            other => PayloadError::Json(other),
        }
    }

    /// The error that a failed extraction of the parameters of a query
    /// becomes.
    pub fn from_query(other: QueryPayloadError) -> (r: PayloadError)
        ensures
            r == PayloadError::Query(other),
    {
        PayloadError::Query(other)
    }
}

impl MeilisearchHttpError {
    /// The code under which the error is reported.
    pub open spec fn code(self) -> Code {
        match self {
            MeilisearchHttpError::MissingContentType(_) => Code::MissingContentType,
            MeilisearchHttpError::AlreadyUsedLogRoute => Code::BadRequest,
            MeilisearchHttpError::CsvDelimiterWithWrongContentType(_) => Code::InvalidContentType,
            MeilisearchHttpError::MissingPayload(_) => Code::MissingPayload,
            MeilisearchHttpError::InvalidContentType(_, _) => Code::InvalidContentType,
            MeilisearchHttpError::DocumentNotFound(_) => Code::DocumentNotFound,
            MeilisearchHttpError::EmptyFilter => Code::InvalidDocumentFilter,
            MeilisearchHttpError::InvalidExpression(_, _) => Code::InvalidSearchFilter,
            MeilisearchHttpError::PayloadTooLarge(_) => Code::PayloadTooLarge,
            MeilisearchHttpError::TooManySearchRequests(_) => Code::TooManySearchRequests,
            MeilisearchHttpError::SearchLimiterIsDown => Code::Internal,
            MeilisearchHttpError::SwapIndexPayloadWrongLength(_) => Code::InvalidSwapIndexes,
            MeilisearchHttpError::IndexUid(_) => Code::InvalidIndexUid,
            MeilisearchHttpError::SerdeJson(_) => Code::Internal,
            MeilisearchHttpError::HeedError(_) => Code::Internal,
            MeilisearchHttpError::IndexScheduler(e) => scheduler_code(e),
            MeilisearchHttpError::Milli(e) => e.code,
            MeilisearchHttpError::Payload(e) => e.code(),
            MeilisearchHttpError::FileStore(_) => Code::Internal,
            MeilisearchHttpError::DocumentFormat(e) => e.code,
            MeilisearchHttpError::Join(_) => Code::Internal,
            MeilisearchHttpError::MissingSearchHybrid => Code::MissingSearchHybrid,
        }
    }

    /// The code under which the error is reported.
    pub fn error_code(&self) -> (c: Code)
        ensures
            c == self.code(),
    {
        match self {
            MeilisearchHttpError::MissingContentType(_) => Code::MissingContentType,
            MeilisearchHttpError::AlreadyUsedLogRoute => Code::BadRequest,
            MeilisearchHttpError::CsvDelimiterWithWrongContentType(_) => Code::InvalidContentType,
            MeilisearchHttpError::MissingPayload(_) => Code::MissingPayload,
            MeilisearchHttpError::InvalidContentType(_, _) => Code::InvalidContentType,
            MeilisearchHttpError::DocumentNotFound(_) => Code::DocumentNotFound,
            MeilisearchHttpError::EmptyFilter => Code::InvalidDocumentFilter,
            MeilisearchHttpError::InvalidExpression(_, _) => Code::InvalidSearchFilter,
            MeilisearchHttpError::PayloadTooLarge(_) => Code::PayloadTooLarge,
            MeilisearchHttpError::TooManySearchRequests(_) => Code::TooManySearchRequests,
            MeilisearchHttpError::SearchLimiterIsDown => Code::Internal,
            MeilisearchHttpError::SwapIndexPayloadWrongLength(_) => Code::InvalidSwapIndexes,
            MeilisearchHttpError::IndexUid(_) => Code::InvalidIndexUid,
            MeilisearchHttpError::SerdeJson(_) => Code::Internal,
            MeilisearchHttpError::HeedError(_) => Code::Internal,
            MeilisearchHttpError::IndexScheduler(e) => scheduler_error_code(e),
            MeilisearchHttpError::Milli(e) => e.code,
            MeilisearchHttpError::Payload(e) => e.error_code(),
            MeilisearchHttpError::FileStore(_) => Code::Internal,
            MeilisearchHttpError::DocumentFormat(e) => e.code,
            MeilisearchHttpError::Join(_) => Code::Internal,
            MeilisearchHttpError::MissingSearchHybrid => Code::MissingSearchHybrid,
        }
    }

    /// The error that a failure to receive the body of a request becomes.
    pub open spec fn of_payload(error: AwebPayloadError) -> MeilisearchHttpError {
        match error {
            AwebPayloadError::Incomplete => MeilisearchHttpError::Payload(
                PayloadError::Payload(ActixPayloadError::IncompleteError),
            ),
            _ => MeilisearchHttpError::Payload(
                PayloadError::Payload(ActixPayloadError::OtherError(error)),
            ),
        }
    }

    /// The error that a failure to receive the body of a request becomes.
    pub fn from_payload(error: AwebPayloadError) -> (r: MeilisearchHttpError)
        ensures
            r == Self::of_payload(error),
    {
        match error {
            AwebPayloadError::Incomplete => MeilisearchHttpError::Payload(
                PayloadError::Payload(ActixPayloadError::IncompleteError),
            ),
            error => MeilisearchHttpError::Payload(
                PayloadError::Payload(ActixPayloadError::OtherError(error)),
            ),
        }
    }
}

/// Names between backquotes, separated by a comma and a space.
pub open spec fn backquoted_list(names: Seq<String>) -> Seq<char>
    decreases names.len(),
{
    if names.len() == 0 {
        Seq::<char>::empty()
    } else if names.len() == 1 {
        "`"@ + names[0]@ + "`"@
    } else {
        backquoted_list(names.drop_last()) + ", "@ + "`"@ + names.last()@ + "`"@
    }
}

/// Names between double quotes, separated by a comma and a space.
pub open spec fn quoted_list(names: Seq<String>) -> Seq<char>
    decreases names.len(),
{
    if names.len() == 0 {
        Seq::<char>::empty()
    } else if names.len() == 1 {
        "\""@ + names[0]@ + "\""@
    } else {
        quoted_list(names.drop_last()) + ", "@ + "\""@ + names.last()@ + "\""@
    }
}

/// Names separated by a comma and a space.
pub open spec fn plain_list(names: Seq<String>) -> Seq<char>
    decreases names.len(),
{
    if names.len() == 0 {
        Seq::<char>::empty()
    } else if names.len() == 1 {
        names[0]@
    } else {
        plain_list(names.drop_last()) + ", "@ + names.last()@
    }
}

/// Names between two marks, separated by a comma and a space.
fn join_marked(names: &Vec<String>, mark: &str) -> (out: String)
    ensures
        mark@ == "`"@ ==> out@ == backquoted_list(names@),
        mark@ == "\""@ ==> out@ == quoted_list(names@),
        mark@ == ""@ ==> out@ == plain_list(names@),
{
    let mut out = String::new();
    let mut i: usize = 0;
    proof {
        assert(names@.take(0).len() == 0);
    }
    while i < names.len()
        invariant
            i <= names@.len(),
            mark@ == "`"@ ==> out@ == backquoted_list(names@.take(i as int)),
            mark@ == "\""@ ==> out@ == quoted_list(names@.take(i as int)),
            mark@ == ""@ ==> out@ == plain_list(names@.take(i as int)),
        decreases names.len() - i,
    {
        proof {
            assert(names@.take(i + 1).drop_last() =~= names@.take(i as int));
            assert(names@.take(i + 1).last() == names@[i as int]);
            assert(names@.take(i + 1)[0] == names@[0]);
            reveal_strlit("");
        }
        if i > 0 {
            out.append(", ");
            out.append(mark);
            out.append(names[i].as_str());
            out.append(mark);
            proof {
                let prev = names@.take(i as int);
                if mark@ == ""@ {
                    assert(out@ =~= plain_list(prev) + ", "@ + names@[i as int]@);
                }
            }
        } else {
            out.append(mark);
            out.append(names[i].as_str());
            out.append(mark);
            proof {
                if mark@ == "`"@ {
                    assert(out@ =~= "`"@ + names@[0]@ + "`"@);
                }
                if mark@ == "\""@ {
                    assert(out@ =~= "\""@ + names@[0]@ + "\""@);
                }
                if mark@ == ""@ {
                    assert(out@ =~= names@[0]@);
                }
            }
        }
        i = i + 1;
    }
    proof {
        assert(names@.take(names@.len() as int) =~= names@);
    }
    out
}

/// A number of bytes with the unit that suits it, as `byte_unit` writes it:
/// `12 B` below a kibibyte, and two decimals before a binary unit above.
pub uninterp spec fn size_text(bytes: u64) -> Seq<char>;

/// `Byte::from_bytes(bytes).get_appropriate_unit(true)`, written out. The
/// result is named by [`size_text`]; nothing more is claimed of it.
#[verifier::external_body]
fn appropriate_size(bytes: u64) -> (r: String)
    ensures
        r@ == size_text(bytes),
{
    format!("{}", Byte::from_bytes(bytes).get_appropriate_unit(true))
}

/// The name of a format of payload.
pub open spec fn payload_type_text(t: PayloadType) -> Seq<char> {
    match t {
        PayloadType::Ndjson => "ndjson"@,
        PayloadType::Json => "json"@,
        PayloadType::Csv => "csv"@,
    }
}

/// The message of an error of the scheduler.
pub open spec fn scheduler_message(e: Error) -> Seq<char> {
    match e {
        Error::TaskNotFound(uid) => "Task `"@ + decimal_text(uid as nat) + "` not found."@,
        Error::InvalidTransition { uid, from, to } => "Task `"@ + decimal_text(uid as nat)
            + "` cannot pass from `"@ + from.name() + "` to `"@ + to.name() + "`."@,
        Error::InvalidDetails => "The details do not belong to the kind of the task."@,
        Error::NoSpaceLeftInTaskQueue => "Meilisearch cannot receive write operations because the limit of the task database has been reached. Please delete tasks to continue performing write operations."@,
        Error::IndexNotFound(name) => "Index `"@ + name@ + "` not found."@,
        Error::IndexAlreadyExists(name) => "Index `"@ + name@ + "` already exists."@,
        Error::CorruptedTaskQueue => "Corrupted task queue."@,
    }
}

/// The message of an error of the scheduler.
pub fn scheduler_error_message(e: &Error) -> (m: String)
    ensures
        m@ == scheduler_message(*e),
{
    match e {
        Error::TaskNotFound(uid) => {
            let mut m = "Task `".to_owned();
            push_decimal(&mut m, *uid as u64);
            m.append("` not found.");
            m
        },
        Error::InvalidTransition { uid, from, to } => {
            let mut m = "Task `".to_owned();
            push_decimal(&mut m, *uid as u64);
            m.append("` cannot pass from `");
            m.append(from.as_str());
            m.append("` to `");
            m.append(to.as_str());
            m.append("`.");
            m
        },
        Error::InvalidDetails => "The details do not belong to the kind of the task.".to_owned(),
        Error::NoSpaceLeftInTaskQueue => "Meilisearch cannot receive write operations because the limit of the task database has been reached. Please delete tasks to continue performing write operations.".to_owned(),
        Error::IndexNotFound(name) => {
            let mut m = "Index `".to_owned();
            m.append(name.as_str());
            m.append("` not found.");
            m
        },
        Error::IndexAlreadyExists(name) => {
            let mut m = "Index `".to_owned();
            m.append(name.as_str());
            m.append("` already exists.");
            m
        },
        Error::CorruptedTaskQueue => "Corrupted task queue.".to_owned(),
    }
}

impl AwebPayloadError {
    /// The message that the web framework gives the failure. Where the
    /// message is that of an error of the system or of the connection,
    /// it has no text here.
    pub open spec fn text(self) -> Option<Seq<char>> {
        match self {
            AwebPayloadError::EncodingCorrupted => Some("can not decode content-encoding"@),
            AwebPayloadError::Overflow => Some("payload reached size limit"@),
            AwebPayloadError::UnknownLength => Some("payload length is unknown"@),
            _ => None,
        }
    }

    /// The message that the web framework gives the failure, where it has
    /// a text here.
    pub fn message(&self) -> (m: Option<String>)
        ensures
            match m {
                Some(m) => self.text() == Some(m@),
                None => self.text() is None,
            },
    {
        match self {
            AwebPayloadError::EncodingCorrupted => Some(
                "can not decode content-encoding".to_owned(),
            ),
            AwebPayloadError::Overflow => Some("payload reached size limit".to_owned()),
            AwebPayloadError::UnknownLength => Some("payload length is unknown".to_owned()),
            _ => None,
        }
    }
}

impl PayloadError {
    /// The message of the error. An error of the web framework has the
    /// whole message that the framework gives it: the framework's words,
    /// and behind them the message of the parser or of the failure to
    /// receive the body. Where that failure is an error of the system or
    /// of the connection, the message has no text here.
    pub open spec fn text(self) -> Option<Seq<char>> {
        match self {
            PayloadError::Payload(ActixPayloadError::IncompleteError) => Some(
                "The provided payload is incomplete and cannot be parsed"@,
            ),
            PayloadError::MalformedPayload(e) => Some(
                "The json payload provided is malformed. `"@ + e.message@ + "`."@,
            ),
            PayloadError::MissingPayload => Some("A json payload is missing."@),
            PayloadError::ReceivePayload(m) => Some(
                "Error while receiving the playload. `"@ + m@ + "`."@,
            ),
            PayloadError::Payload(ActixPayloadError::OtherError(e)) => e.text(),
            PayloadError::Json(JsonPayloadError::Payload(e)) => match e.text() {
                Some(t) => Some("Error that occur during reading payload: "@ + t),
                None => None,
            },
            PayloadError::Json(JsonPayloadError::Overflow { limit }) => Some(
                "JSON payload has exceeded limit ("@ + decimal_text(limit as nat) + " bytes)."@,
            ),
            PayloadError::Json(JsonPayloadError::ContentType) => Some("Content type error"@),
            PayloadError::Json(JsonPayloadError::Other(m)) => Some(m@),
            PayloadError::Json(JsonPayloadError::Deserialize(e)) => Some(
                "Json deserialize error: "@ + e.message@,
            ),
            PayloadError::Json(JsonPayloadError::Serialize(e)) => Some(
                "Json serialize error: "@ + e.message@,
            ),
            PayloadError::Query(QueryPayloadError::Deserialize(m)) => Some(
                "Query deserialize error: "@ + m@,
            ),
            PayloadError::Query(QueryPayloadError::Other(m)) => Some(m@),
        }
    }

    /// The message of the error, where it has a text here.
    pub fn message(&self) -> (m: Option<String>)
        ensures
            match m {
                Some(m) => self.text() == Some(m@),
                None => self.text() is None,
            },
    {
        match self {
            PayloadError::Payload(ActixPayloadError::IncompleteError) => Some(
                "The provided payload is incomplete and cannot be parsed".to_owned(),
            ),
            PayloadError::MalformedPayload(e) => {
                let mut m = "The json payload provided is malformed. `".to_owned();
                m.append(e.message.as_str());
                m.append("`.");
                Some(m)
            },
            PayloadError::MissingPayload => Some("A json payload is missing.".to_owned()),
            PayloadError::ReceivePayload(r) => {
                let mut m = "Error while receiving the playload. `".to_owned();
                m.append(r.as_str());
                m.append("`.");
                Some(m)
            },
            PayloadError::Payload(ActixPayloadError::OtherError(e)) => e.message(),
            PayloadError::Json(JsonPayloadError::Payload(e)) => match e.message() {
                Some(t) => {
                    let mut m = "Error that occur during reading payload: ".to_owned();
                    m.append(t.as_str());
                    Some(m)
                },
                None => None,
            },
            PayloadError::Json(JsonPayloadError::Overflow { limit }) => {
                let mut m = "JSON payload has exceeded limit (".to_owned();
                push_decimal(&mut m, *limit as u64);
                m.append(" bytes).");
                Some(m)
            },
            PayloadError::Json(JsonPayloadError::ContentType) => Some(
                "Content type error".to_owned(),
            ),
            PayloadError::Json(JsonPayloadError::Other(m)) => Some(m.clone()),
            PayloadError::Json(JsonPayloadError::Deserialize(e)) => {
                let mut m = "Json deserialize error: ".to_owned();
                m.append(e.message.as_str());
                Some(m)
            },
            PayloadError::Json(JsonPayloadError::Serialize(e)) => {
                let mut m = "Json serialize error: ".to_owned();
                m.append(e.message.as_str());
                Some(m)
            },
            PayloadError::Query(QueryPayloadError::Deserialize(m)) => {
                let mut text = "Query deserialize error: ".to_owned();
                text.append(m.as_str());
                Some(text)
            },
            PayloadError::Query(QueryPayloadError::Other(m)) => Some(m.clone()),
        }
    }
}

impl MeilisearchHttpError {
    /// The message of the error. The value that was found where a filter
    /// was expected stands in it as JSON text. A failure to receive a body
    /// that is an error of the system or of the connection has no text
    /// here.
    pub open spec fn text(self) -> Option<Seq<char>> {
        match self {
            MeilisearchHttpError::MissingContentType(accepted) => Some(
                "A Content-Type header is missing. Accepted values for the Content-Type header are: "@
                    + backquoted_list(accepted@),
            ),
            MeilisearchHttpError::AlreadyUsedLogRoute => Some(
                "The `/logs/stream` route is currently in use by someone else."@,
            ),
            MeilisearchHttpError::CsvDelimiterWithWrongContentType(t) => Some(
                "The Content-Type `"@ + t@
                    + "` does not support the use of a csv delimiter. The csv delimiter can only be used with the Content-Type `text/csv`."@,
            ),
            MeilisearchHttpError::InvalidContentType(t, accepted) => Some(
                "The Content-Type `"@ + t@
                    + "` is invalid. Accepted values for the Content-Type header are: "@
                    + backquoted_list(accepted@),
            ),
            MeilisearchHttpError::DocumentNotFound(id) => Some(
                "Document `"@ + id@ + "` not found."@,
            ),
            MeilisearchHttpError::EmptyFilter => Some("Sending an empty filter is forbidden."@),
            MeilisearchHttpError::InvalidExpression(expected, found) => Some(
                "Invalid syntax for the filter parameter: `expected "@ + plain_list(expected@)
                    + ", found: "@ + json_text(value_json(found)) + "`."@,
            ),
            MeilisearchHttpError::MissingPayload(t) => Some(
                "A "@ + payload_type_text(t) + " payload is missing."@,
            ),
            MeilisearchHttpError::TooManySearchRequests(n) => Some(
                "Too many search requests running at the same time: "@ + decimal_text(n as nat)
                    + ". Retry after 10s."@,
            ),
            MeilisearchHttpError::SearchLimiterIsDown => Some(
                "Internal error: Search limiter is down."@,
            ),
            MeilisearchHttpError::PayloadTooLarge(n) => Some(
                "The provided payload reached the size limit. The maximum accepted payload size is "@
                    + size_text(n as u64) + "."@,
            ),
            MeilisearchHttpError::SwapIndexPayloadWrongLength(uids) => Some(
                "Two indexes must be given for each swap. The list `["@ + quoted_list(uids@)
                    + "]` contains "@ + decimal_text(uids@.len()) + " indexes."@,
            ),
            MeilisearchHttpError::IndexUid(m) => Some(m@),
            MeilisearchHttpError::SerdeJson(e) => Some(e.message@),
            MeilisearchHttpError::HeedError(m) => Some(m@),
            MeilisearchHttpError::IndexScheduler(e) => Some(scheduler_message(e)),
            MeilisearchHttpError::Milli(e) => Some(e.message@),
            MeilisearchHttpError::Payload(e) => e.text(),
            MeilisearchHttpError::FileStore(m) => Some(m@),
            MeilisearchHttpError::DocumentFormat(e) => Some(e.message@),
            MeilisearchHttpError::Join(m) => Some(m@),
            MeilisearchHttpError::MissingSearchHybrid => Some(
                "Invalid request: missing `hybrid` parameter when both `q` and `vector` are present."@,
            ),
        }
    }

    /// The message of the error, where it has a text here.
    pub fn message(&self) -> (m: Option<String>)
        ensures
            match m {
                Some(m) => self.text() == Some(m@),
                None => self.text() is None,
            },
    {
        match self {
            MeilisearchHttpError::MissingContentType(accepted) => {
                let mut m = "A Content-Type header is missing. Accepted values for the Content-Type header are: ".to_owned();
                let list = join_marked(accepted, "`");
                m.append(list.as_str());
                Some(m)
            },
            MeilisearchHttpError::AlreadyUsedLogRoute => Some(
                "The `/logs/stream` route is currently in use by someone else.".to_owned(),
            ),
            MeilisearchHttpError::CsvDelimiterWithWrongContentType(t) => {
                let mut m = "The Content-Type `".to_owned();
                m.append(t.as_str());
                m.append(
                    "` does not support the use of a csv delimiter. The csv delimiter can only be used with the Content-Type `text/csv`.",
                );
                Some(m)
            },
            MeilisearchHttpError::InvalidContentType(t, accepted) => {
                let mut m = "The Content-Type `".to_owned();
                m.append(t.as_str());
                m.append("` is invalid. Accepted values for the Content-Type header are: ");
                let list = join_marked(accepted, "`");
                m.append(list.as_str());
                Some(m)
            },
            MeilisearchHttpError::DocumentNotFound(id) => {
                let mut m = "Document `".to_owned();
                m.append(id.as_str());
                m.append("` not found.");
                Some(m)
            },
            MeilisearchHttpError::EmptyFilter => Some(
                "Sending an empty filter is forbidden.".to_owned(),
            ),
            MeilisearchHttpError::InvalidExpression(expected, found) => {
                let mut m = "Invalid syntax for the filter parameter: `expected ".to_owned();
                let kinds = join_marked(expected, "");
                m.append(kinds.as_str());
                m.append(", found: ");
                let value = value_text(found);
                m.append(value.as_str());
                m.append("`.");
                Some(m)
            },
            MeilisearchHttpError::MissingPayload(t) => {
                let mut m = "A ".to_owned();
                match t {
                    PayloadType::Ndjson => {
                        m.append("ndjson");
                    },
                    PayloadType::Json => {
                        m.append("json");
                    },
                    PayloadType::Csv => {
                        m.append("csv");
                    },
                }
                m.append(" payload is missing.");
                Some(m)
            },
            MeilisearchHttpError::TooManySearchRequests(n) => {
                let mut m = "Too many search requests running at the same time: ".to_owned();
                push_decimal(&mut m, *n as u64);
                m.append(". Retry after 10s.");
                Some(m)
            },
            MeilisearchHttpError::SearchLimiterIsDown => Some(
                "Internal error: Search limiter is down.".to_owned(),
            ),
            MeilisearchHttpError::PayloadTooLarge(n) => {
                let mut m = "The provided payload reached the size limit. The maximum accepted payload size is ".to_owned();
                let size = appropriate_size(*n as u64);
                m.append(size.as_str());
                m.append(".");
                Some(m)
            },
            MeilisearchHttpError::SwapIndexPayloadWrongLength(uids) => {
                let mut m = "Two indexes must be given for each swap. The list `[".to_owned();
                let list = join_marked(uids, "\"");
                m.append(list.as_str());
                m.append("]` contains ");
                push_decimal(&mut m, uids.len() as u64);
                m.append(" indexes.");
                Some(m)
            },
            MeilisearchHttpError::IndexUid(m) => Some(m.clone()),
            MeilisearchHttpError::SerdeJson(e) => Some(e.message.clone()),
            MeilisearchHttpError::HeedError(m) => Some(m.clone()),
            MeilisearchHttpError::IndexScheduler(e) => Some(scheduler_error_message(e)),
            MeilisearchHttpError::Milli(e) => Some(e.message.clone()),
            MeilisearchHttpError::Payload(e) => e.message(),
            MeilisearchHttpError::FileStore(m) => Some(m.clone()),
            MeilisearchHttpError::DocumentFormat(e) => Some(e.message.clone()),
            MeilisearchHttpError::Join(m) => Some(m.clone()),
            MeilisearchHttpError::MissingSearchHybrid => Some(
                "Invalid request: missing `hybrid` parameter when both `q` and `vector` are present.".to_owned(),
            ),
        }
    }

    /// The kinds of value that an invalid expression was expected to be,
    /// separated by a comma and a space.
    pub fn expected_kinds(expected: &Vec<String>) -> (m: String)
        ensures
            m@ == plain_list(expected@),
    {
        join_marked(expected, "")
    }
}

impl From<JsonPayloadError> for PayloadError {
    fn from(other: JsonPayloadError) -> (r: Self) {
        PayloadError::from_json(other)
    }
}

impl vstd::std_specs::convert::FromSpecImpl<JsonPayloadError> for PayloadError {
    open spec fn obeys_from_spec() -> bool {
        true
    }

    open spec fn from_spec(other: JsonPayloadError) -> Self {
        PayloadError::of_json(other)
    }
}

impl From<QueryPayloadError> for PayloadError {
    fn from(other: QueryPayloadError) -> (r: Self) {
        PayloadError::from_query(other)
    }
}

impl vstd::std_specs::convert::FromSpecImpl<QueryPayloadError> for PayloadError {
    open spec fn obeys_from_spec() -> bool {
        true
    }

    open spec fn from_spec(other: QueryPayloadError) -> Self {
        PayloadError::Query(other)
    }
}

impl From<AwebPayloadError> for MeilisearchHttpError {
    fn from(error: AwebPayloadError) -> (r: Self) {
        MeilisearchHttpError::from_payload(error)
    }
}

impl vstd::std_specs::convert::FromSpecImpl<AwebPayloadError> for MeilisearchHttpError {
    open spec fn obeys_from_spec() -> bool {
        true
    }

    open spec fn from_spec(error: AwebPayloadError) -> Self {
        MeilisearchHttpError::of_payload(error)
    }
}

} // verus!
