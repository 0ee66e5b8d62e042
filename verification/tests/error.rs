use index_scheduler::error::{
    scheduler_error_code, scheduler_error_message, ActixPayloadError, AwebPayloadError, Code,
    ForeignError, JsonCategory, JsonError, JsonPayloadError, MeilisearchHttpError, PayloadError,
    PayloadType, QueryPayloadError,
};
use index_scheduler::store::Error;
use index_scheduler::task::Status;
use serde_json::Value;

fn json_error(category: JsonCategory, line: usize, column: usize) -> JsonError {
    JsonError { category, line, column, message: "expected value".to_string() }
}

fn strings(list: &[&str]) -> Vec<String> {
    list.iter().map(|s| s.to_string()).collect()
}

#[test]
fn codes_of_the_http_errors() {
    let foreign = |code| ForeignError { code, message: "m".to_string() };
    let cases = vec![
        (MeilisearchHttpError::MissingContentType(vec![]), Code::MissingContentType),
        (MeilisearchHttpError::AlreadyUsedLogRoute, Code::BadRequest),
        (MeilisearchHttpError::CsvDelimiterWithWrongContentType("a".to_string()), Code::InvalidContentType),
        (MeilisearchHttpError::InvalidContentType("a".to_string(), vec![]), Code::InvalidContentType),
        (MeilisearchHttpError::DocumentNotFound("a".to_string()), Code::DocumentNotFound),
        (MeilisearchHttpError::EmptyFilter, Code::InvalidDocumentFilter),
        (MeilisearchHttpError::InvalidExpression(vec![], Value::Null), Code::InvalidSearchFilter),
        (MeilisearchHttpError::MissingPayload(PayloadType::Json), Code::MissingPayload),
        (MeilisearchHttpError::TooManySearchRequests(3), Code::TooManySearchRequests),
        (MeilisearchHttpError::SearchLimiterIsDown, Code::Internal),
        (MeilisearchHttpError::PayloadTooLarge(3), Code::PayloadTooLarge),
        (MeilisearchHttpError::SwapIndexPayloadWrongLength(vec![]), Code::InvalidSwapIndexes),
        (MeilisearchHttpError::IndexUid("bad".to_string()), Code::InvalidIndexUid),
        (MeilisearchHttpError::SerdeJson(json_error(JsonCategory::Syntax, 1, 1)), Code::Internal),
        (MeilisearchHttpError::HeedError("m".to_string()), Code::Internal),
        (MeilisearchHttpError::IndexScheduler(Error::TaskNotFound(3)), Code::TaskNotFound),
        (MeilisearchHttpError::IndexScheduler(Error::IndexNotFound("a".to_string())), Code::IndexNotFound),
        (MeilisearchHttpError::Milli(foreign(Code::InvalidSearchFilter)), Code::InvalidSearchFilter),
        (MeilisearchHttpError::Payload(PayloadError::MissingPayload), Code::MissingPayload),
        (MeilisearchHttpError::FileStore("m".to_string()), Code::Internal),
        (MeilisearchHttpError::DocumentFormat(foreign(Code::MalformedPayload)), Code::MalformedPayload),
        (MeilisearchHttpError::Join("m".to_string()), Code::Internal),
        (MeilisearchHttpError::MissingSearchHybrid, Code::MissingSearchHybrid),
    ];
    for (error, code) in cases {
        assert_eq!(error.error_code(), code, "{:?}", error);
    }
}

#[test]
fn codes_of_the_scheduler_errors() {
    assert_eq!(scheduler_error_code(&Error::TaskNotFound(1)), Code::TaskNotFound);
    assert_eq!(
        scheduler_error_code(&Error::InvalidTransition {
            uid: 1,
            from: Status::Failed,
            to: Status::Enqueued
        }),
        Code::Internal
    );
    assert_eq!(scheduler_error_code(&Error::InvalidDetails), Code::Internal);
    assert_eq!(scheduler_error_code(&Error::NoSpaceLeftInTaskQueue), Code::NoSpaceLeftOnDevice);
    assert_eq!(scheduler_error_code(&Error::IndexNotFound("a".to_string())), Code::IndexNotFound);
    assert_eq!(
        scheduler_error_code(&Error::IndexAlreadyExists("a".to_string())),
        Code::IndexAlreadyExists
    );
    assert_eq!(scheduler_error_code(&Error::CorruptedTaskQueue), Code::Internal);
    assert_eq!(scheduler_error_message(&Error::CorruptedTaskQueue), "Corrupted task queue.");
}

#[test]
fn codes_of_the_payload_errors() {
    let other = |e| PayloadError::Payload(ActixPayloadError::OtherError(e));
    assert_eq!(
        PayloadError::Payload(ActixPayloadError::IncompleteError).error_code(),
        Code::BadRequest
    );
    assert_eq!(other(AwebPayloadError::EncodingCorrupted).error_code(), Code::Internal);
    assert_eq!(other(AwebPayloadError::Overflow).error_code(), Code::PayloadTooLarge);
    assert_eq!(other(AwebPayloadError::UnknownLength).error_code(), Code::Internal);
    assert_eq!(other(AwebPayloadError::Http2Payload).error_code(), Code::Internal);
    assert_eq!(other(AwebPayloadError::Io).error_code(), Code::Internal);
    let json = PayloadError::Json;
    assert_eq!(json(JsonPayloadError::Overflow { limit: 3 }).error_code(), Code::PayloadTooLarge);
    assert_eq!(json(JsonPayloadError::ContentType).error_code(), Code::UnsupportedMediaType);
    assert_eq!(json(JsonPayloadError::Payload(AwebPayloadError::Overflow)).error_code(), Code::PayloadTooLarge);
    assert_eq!(json(JsonPayloadError::Payload(AwebPayloadError::Io)).error_code(), Code::BadRequest);
    assert_eq!(
        json(JsonPayloadError::Deserialize(json_error(JsonCategory::Data, 1, 1))).error_code(),
        Code::BadRequest
    );
    assert_eq!(
        json(JsonPayloadError::Serialize(json_error(JsonCategory::Io, 1, 1))).error_code(),
        Code::Internal
    );
    assert_eq!(json(JsonPayloadError::Other("m".to_string())).error_code(), Code::Internal);
    assert_eq!(
        PayloadError::Query(QueryPayloadError::Deserialize("m".to_string())).error_code(),
        Code::BadRequest
    );
    assert_eq!(
        PayloadError::Query(QueryPayloadError::Other("m".to_string())).error_code(),
        Code::Internal
    );
    assert_eq!(PayloadError::MissingPayload.error_code(), Code::MissingPayload);
    assert_eq!(
        PayloadError::MalformedPayload(json_error(JsonCategory::Syntax, 1, 1)).error_code(),
        Code::MalformedPayload
    );
    assert_eq!(PayloadError::ReceivePayload("m".to_string()).error_code(), Code::Internal);
}

#[test]
fn a_failed_extraction_of_json() {
    let r = PayloadError::from_json(JsonPayloadError::Deserialize(json_error(JsonCategory::Eof, 1, 0)));
    assert!(matches!(r, PayloadError::MissingPayload));
    let r = PayloadError::from_json(JsonPayloadError::Deserialize(json_error(JsonCategory::Eof, 1, 4)));
    assert!(matches!(r, PayloadError::MalformedPayload(e) if e.column == 4));
    let r = PayloadError::from_json(JsonPayloadError::Deserialize(json_error(JsonCategory::Eof, 2, 0)));
    assert!(matches!(r, PayloadError::MalformedPayload(_)));
    let r = PayloadError::from_json(JsonPayloadError::Deserialize(json_error(JsonCategory::Syntax, 1, 0)));
    assert!(matches!(r, PayloadError::MalformedPayload(_)));
    let r = PayloadError::from_json(JsonPayloadError::Deserialize(json_error(JsonCategory::Io, 3, 3)));
    assert!(matches!(r, PayloadError::MalformedPayload(_)));
    let r = PayloadError::from_json(JsonPayloadError::Deserialize(json_error(JsonCategory::Data, 1, 0)));
    assert!(matches!(r, PayloadError::Json(JsonPayloadError::Deserialize(e)) if e.line == 1));
    let r = PayloadError::from_json(JsonPayloadError::Serialize(json_error(JsonCategory::Eof, 1, 0)));
    assert!(matches!(r, PayloadError::Json(JsonPayloadError::Serialize(_))));
    let r = PayloadError::from_json(JsonPayloadError::ContentType);
    assert!(matches!(r, PayloadError::Json(JsonPayloadError::ContentType)));
    let r = PayloadError::from_query(QueryPayloadError::Other("m".to_string()));
    assert!(matches!(r, PayloadError::Query(QueryPayloadError::Other(_))));
}

#[test]
fn a_failure_to_receive_the_body() {
    let r = MeilisearchHttpError::from_payload(AwebPayloadError::Incomplete);
    assert!(matches!(
        r,
        MeilisearchHttpError::Payload(PayloadError::Payload(ActixPayloadError::IncompleteError))
    ));
    assert_eq!(r.error_code(), Code::BadRequest);
    let r = MeilisearchHttpError::from_payload(AwebPayloadError::Overflow);
    assert!(matches!(
        r,
        MeilisearchHttpError::Payload(PayloadError::Payload(ActixPayloadError::OtherError(
            AwebPayloadError::Overflow
        )))
    ));
    assert_eq!(r.error_code(), Code::PayloadTooLarge);
}

fn message(e: MeilisearchHttpError) -> String {
    e.message().unwrap()
}

#[test]
fn messages_of_the_http_errors() {
    assert_eq!(
        message(MeilisearchHttpError::MissingContentType(strings(&["application/json", "text/csv"]))),
        "A Content-Type header is missing. Accepted values for the Content-Type header are: `application/json`, `text/csv`"
    );
    assert_eq!(
        message(MeilisearchHttpError::MissingContentType(strings(&[]))),
        "A Content-Type header is missing. Accepted values for the Content-Type header are: "
    );
    assert_eq!(
        message(MeilisearchHttpError::AlreadyUsedLogRoute),
        "The `/logs/stream` route is currently in use by someone else."
    );
    assert_eq!(
        message(MeilisearchHttpError::CsvDelimiterWithWrongContentType("application/json".to_string())),
        "The Content-Type `application/json` does not support the use of a csv delimiter. The csv delimiter can only be used with the Content-Type `text/csv`."
    );
    assert_eq!(
        message(MeilisearchHttpError::InvalidContentType("text/plain".to_string(), strings(&["application/json"]))),
        "The Content-Type `text/plain` is invalid. Accepted values for the Content-Type header are: `application/json`"
    );
    assert_eq!(message(MeilisearchHttpError::DocumentNotFound("doc-1".to_string())), "Document `doc-1` not found.");
    assert_eq!(message(MeilisearchHttpError::EmptyFilter), "Sending an empty filter is forbidden.");
    assert_eq!(
        message(MeilisearchHttpError::InvalidExpression(strings(&["String", "Array"]), Value::from(42))),
        "Invalid syntax for the filter parameter: `expected String, Array, found: 42`."
    );
    assert_eq!(
        message(MeilisearchHttpError::InvalidExpression(strings(&["String"]), Value::Null)),
        "Invalid syntax for the filter parameter: `expected String, found: null`."
    );
    assert_eq!(
        message(MeilisearchHttpError::InvalidExpression(
            strings(&["String", "[String]"]),
            serde_json::from_str(r#"{"a": [1, "b"]}"#).unwrap()
        )),
        "Invalid syntax for the filter parameter: `expected String, [String], found: {\"a\":[1,\"b\"]}`."
    );
    assert_eq!(MeilisearchHttpError::expected_kinds(&strings(&["String", "Array"])), "String, Array");
    assert_eq!(MeilisearchHttpError::expected_kinds(&strings(&["String"])), "String");
    assert_eq!(MeilisearchHttpError::expected_kinds(&strings(&[])), "");
    assert_eq!(message(MeilisearchHttpError::MissingPayload(PayloadType::Ndjson)), "A ndjson payload is missing.");
    assert_eq!(message(MeilisearchHttpError::MissingPayload(PayloadType::Json)), "A json payload is missing.");
    assert_eq!(message(MeilisearchHttpError::MissingPayload(PayloadType::Csv)), "A csv payload is missing.");
    assert_eq!(
        message(MeilisearchHttpError::TooManySearchRequests(1000)),
        "Too many search requests running at the same time: 1000. Retry after 10s."
    );
    assert_eq!(message(MeilisearchHttpError::SearchLimiterIsDown), "Internal error: Search limiter is down.");
    assert_eq!(
        message(MeilisearchHttpError::PayloadTooLarge(104857600)),
        "The provided payload reached the size limit. The maximum accepted payload size is 100.00 MiB."
    );
    assert_eq!(
        message(MeilisearchHttpError::PayloadTooLarge(512)),
        "The provided payload reached the size limit. The maximum accepted payload size is 512 B."
    );
    assert_eq!(
        message(MeilisearchHttpError::PayloadTooLarge(1536)),
        "The provided payload reached the size limit. The maximum accepted payload size is 1.50 KiB."
    );
    assert_eq!(
        message(MeilisearchHttpError::SwapIndexPayloadWrongLength(strings(&["a", "b", "c"]))),
        "Two indexes must be given for each swap. The list `[\"a\", \"b\", \"c\"]` contains 3 indexes."
    );
    assert_eq!(
        message(MeilisearchHttpError::SwapIndexPayloadWrongLength(strings(&[]))),
        "Two indexes must be given for each swap. The list `[]` contains 0 indexes."
    );
    assert_eq!(message(MeilisearchHttpError::IndexUid("`a b` is not a valid index uid.".to_string())), "`a b` is not a valid index uid.");
    assert_eq!(message(MeilisearchHttpError::SerdeJson(json_error(JsonCategory::Syntax, 1, 1))), "expected value");
    assert_eq!(message(MeilisearchHttpError::HeedError("heed".to_string())), "heed");
    assert_eq!(message(MeilisearchHttpError::IndexScheduler(Error::TaskNotFound(42))), "Task `42` not found.");
    assert_eq!(
        message(MeilisearchHttpError::Milli(ForeignError { code: Code::Internal, message: "milli".to_string() })),
        "milli"
    );
    assert_eq!(message(MeilisearchHttpError::Payload(PayloadError::MissingPayload)), "A json payload is missing.");
    assert_eq!(
        message(MeilisearchHttpError::Payload(PayloadError::Json(JsonPayloadError::ContentType))),
        "Content type error"
    );
    assert!(MeilisearchHttpError::Payload(PayloadError::Payload(ActixPayloadError::OtherError(
        AwebPayloadError::Io
    )))
    .message()
    .is_none());
    assert_eq!(message(MeilisearchHttpError::FileStore("files".to_string())), "files");
    assert_eq!(
        message(MeilisearchHttpError::DocumentFormat(ForeignError { code: Code::Internal, message: "format".to_string() })),
        "format"
    );
    assert_eq!(message(MeilisearchHttpError::Join("join".to_string())), "join");
    assert_eq!(
        message(MeilisearchHttpError::MissingSearchHybrid),
        "Invalid request: missing `hybrid` parameter when both `q` and `vector` are present."
    );
}

#[test]
fn messages_of_the_payload_errors() {
    assert_eq!(
        PayloadError::Payload(ActixPayloadError::IncompleteError).message().unwrap(),
        "The provided payload is incomplete and cannot be parsed"
    );
    assert!(PayloadError::Payload(ActixPayloadError::OtherError(AwebPayloadError::Io))
        .message()
        .is_none());
    assert_eq!(
        PayloadError::MalformedPayload(json_error(JsonCategory::Syntax, 1, 1)).message().unwrap(),
        "The json payload provided is malformed. `expected value`."
    );
    assert_eq!(PayloadError::MissingPayload.message().unwrap(), "A json payload is missing.");
    assert_eq!(
        PayloadError::ReceivePayload("reset".to_string()).message().unwrap(),
        "Error while receiving the playload. `reset`."
    );
    assert_eq!(
        PayloadError::Json(JsonPayloadError::Other("o".to_string())).message().unwrap(),
        "o"
    );
    assert_eq!(
        PayloadError::Query(QueryPayloadError::Other("o".to_string())).message().unwrap(),
        "o"
    );
    assert_eq!(
        PayloadError::Query(QueryPayloadError::Deserialize("q".to_string())).message().unwrap(),
        "Query deserialize error: q"
    );
    assert_eq!(
        PayloadError::Json(JsonPayloadError::Deserialize(json_error(JsonCategory::Data, 1, 1)))
            .message()
            .unwrap(),
        "Json deserialize error: expected value"
    );
    assert_eq!(
        PayloadError::Json(JsonPayloadError::Serialize(json_error(JsonCategory::Io, 1, 1)))
            .message()
            .unwrap(),
        "Json serialize error: expected value"
    );
    assert_eq!(
        PayloadError::Json(JsonPayloadError::Overflow { limit: 2048 }).message().unwrap(),
        "JSON payload has exceeded limit (2048 bytes)."
    );
    assert_eq!(
        PayloadError::Json(JsonPayloadError::ContentType).message().unwrap(),
        "Content type error"
    );
    assert_eq!(
        PayloadError::Json(JsonPayloadError::Payload(AwebPayloadError::Overflow)).message().unwrap(),
        "Error that occur during reading payload: payload reached size limit"
    );
    assert!(PayloadError::Json(JsonPayloadError::Payload(AwebPayloadError::Io)).message().is_none());
    let other = |e| PayloadError::Payload(ActixPayloadError::OtherError(e));
    assert_eq!(
        other(AwebPayloadError::EncodingCorrupted).message().unwrap(),
        "can not decode content-encoding"
    );
    assert_eq!(other(AwebPayloadError::Overflow).message().unwrap(), "payload reached size limit");
    assert_eq!(other(AwebPayloadError::UnknownLength).message().unwrap(), "payload length is unknown");
    assert!(other(AwebPayloadError::Http2Payload).message().is_none());
    assert!(other(AwebPayloadError::Incomplete).message().is_none());
}

#[test]
fn messages_are_those_of_the_web_framework() {
    let parser: serde_json::Error = serde_json::from_str::<Value>("{\"a\": tru}").unwrap_err();
    let text = parser.to_string();
    let ours = JsonError { category: JsonCategory::Syntax, line: 1, column: 10, message: text };
    let theirs = actix_web::error::JsonPayloadError::Deserialize(parser);
    assert_eq!(
        PayloadError::Json(JsonPayloadError::Deserialize(ours)).message().unwrap(),
        theirs.to_string()
    );
    assert_eq!(
        PayloadError::Json(JsonPayloadError::Overflow { limit: 77 }).message().unwrap(),
        actix_web::error::JsonPayloadError::Overflow { limit: 77 }.to_string()
    );
    assert_eq!(
        PayloadError::Json(JsonPayloadError::ContentType).message().unwrap(),
        actix_web::error::JsonPayloadError::ContentType.to_string()
    );
    assert_eq!(
        PayloadError::Json(JsonPayloadError::Payload(AwebPayloadError::UnknownLength))
            .message()
            .unwrap(),
        actix_web::error::JsonPayloadError::Payload(actix_web::error::PayloadError::UnknownLength)
            .to_string()
    );
    let pairs = vec![
        (AwebPayloadError::EncodingCorrupted, actix_web::error::PayloadError::EncodingCorrupted),
        (AwebPayloadError::Overflow, actix_web::error::PayloadError::Overflow),
        (AwebPayloadError::UnknownLength, actix_web::error::PayloadError::UnknownLength),
    ];
    for (ours, theirs) in pairs {
        assert_eq!(ours.message().unwrap(), theirs.to_string());
    }
    let failure: serde::de::value::Error = serde::de::Error::custom("missing field `q`");
    let text = failure.to_string();
    assert_eq!(
        PayloadError::Query(QueryPayloadError::Deserialize(text)).message().unwrap(),
        actix_web::error::QueryPayloadError::Deserialize(failure).to_string()
    );
}

#[test]
fn invalid_filter_message_holds_the_value_as_json() {
    let found: Value = serde_json::from_str(r#"[1, {"b": "c d"}, null, 2.5, "e"]"#).unwrap();
    let text = serde_json::to_string(&found).unwrap();
    assert_eq!(text, r#"[1,{"b":"c d"},null,2.5,"e"]"#);
    assert_eq!(
        MeilisearchHttpError::InvalidExpression(vec!["String".to_string()], found)
            .message()
            .unwrap(),
        format!("Invalid syntax for the filter parameter: `expected String, found: {}`.", text)
    );
}

#[test]
fn messages_of_the_scheduler_errors() {
    assert_eq!(scheduler_error_message(&Error::TaskNotFound(0)), "Task `0` not found.");
    assert_eq!(
        scheduler_error_message(&Error::InvalidTransition {
            uid: 7,
            from: Status::Succeeded,
            to: Status::Processing
        }),
        "Task `7` cannot pass from `succeeded` to `processing`."
    );
    assert_eq!(
        scheduler_error_message(&Error::InvalidDetails),
        "The details do not belong to the kind of the task."
    );
    assert_eq!(
        scheduler_error_message(&Error::NoSpaceLeftInTaskQueue),
        "Meilisearch cannot receive write operations because the limit of the task database has been reached. Please delete tasks to continue performing write operations."
    );
    assert_eq!(
        scheduler_error_message(&Error::IndexNotFound("doggos".to_string())),
        "Index `doggos` not found."
    );
    assert_eq!(
        scheduler_error_message(&Error::IndexAlreadyExists("doggos".to_string())),
        "Index `doggos` already exists."
    );
}

#[test]
fn conversions_by_from() {
    let r: PayloadError = JsonPayloadError::Deserialize(json_error(JsonCategory::Eof, 1, 0)).into();
    assert!(matches!(r, PayloadError::MissingPayload));
    let r: PayloadError = JsonPayloadError::Deserialize(json_error(JsonCategory::Syntax, 2, 3)).into();
    assert!(matches!(r, PayloadError::MalformedPayload(_)));
    let r: PayloadError = QueryPayloadError::Deserialize("m".to_string()).into();
    assert!(matches!(r, PayloadError::Query(QueryPayloadError::Deserialize(_))));
    let r: MeilisearchHttpError = AwebPayloadError::Incomplete.into();
    assert!(matches!(
        r,
        MeilisearchHttpError::Payload(PayloadError::Payload(ActixPayloadError::IncompleteError))
    ));
    let r = MeilisearchHttpError::from(AwebPayloadError::Io);
    assert!(matches!(
        r,
        MeilisearchHttpError::Payload(PayloadError::Payload(ActixPayloadError::OtherError(
            AwebPayloadError::Io
        )))
    ));
}
