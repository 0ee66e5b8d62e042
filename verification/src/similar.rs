//! The request for similar documents, as it comes in the parameters of a
//! query.

use crate::json::{opt_view, parse_value, parsed_json, string_value, JsonView};
use crate::search::{ExternalDocumentId, SimilarQuery};
use serde_json::Value;
use vstd::prelude::*;

verus! {

/// The parameters of a request for similar documents.
#[derive(Debug)]
pub struct SimilarQueryGet {
    pub id: String,
    pub offset: usize,
    pub limit: usize,
    pub attributes_to_retrieve: Option<Vec<String>>,
    pub filter: Option<String>,
    pub show_ranking_score: bool,
    pub show_ranking_score_details: bool,
    pub embedder: Option<String>,
}

/// The identifier of the request is no valid identifier of a document.
#[derive(Debug, Clone, Copy, PartialEq, Eq, Structural)]
pub struct InvalidSimilarId;

/// The filter of a request by parameters: the JSON value that the text of
/// the filter is, and the text itself as a string where it is no JSON.
pub open spec fn filter_of(raw: Option<Seq<char>>, parsed: Option<JsonView>) -> Option<JsonView> {
    match raw {
        Some(f) => match parsed {
            Some(v) => Some(v),
            None => Some(JsonView::String(f)),
        },
        None => None,
    }
}

/// The text of an optional string.
pub open spec fn opt_text(s: Option<String>) -> Option<Seq<char>> {
    match s {
        Some(s) => Some(s@),
        None => None,
    }
}

impl SimilarQuery {
    /// The request that the parameters of a query ask for, once the text
    /// of the filter has been read as JSON.
    ///
    /// `parsed_filter` is what the parser made of the text of the filter,
    /// if it is JSON; `id` is the identifier of the request as an
    /// identifier of a document, if it is a valid one. A request without a
    /// valid identifier is refused; every other field is taken as it is.
    pub fn from_parts(
        get: SimilarQueryGet,
        parsed_filter: Option<Value>,
        id: Option<ExternalDocumentId>,
    ) -> (r: Result<SimilarQuery, InvalidSimilarId>)
        ensures
            match r {
                Ok(q) => {
                    &&& id matches Some(valid)
                    &&& q.id == valid
                    &&& q.offset == get.offset
                    &&& q.limit == get.limit
                    &&& opt_view(q.filter) == filter_of(opt_text(get.filter), opt_view(parsed_filter))
                    &&& q.embedder == get.embedder
                    &&& q.attributes_to_retrieve == get.attributes_to_retrieve
                    &&& q.show_ranking_score == get.show_ranking_score
                    &&& q.show_ranking_score_details == get.show_ranking_score_details
                },
                Err(_) => id is None,
            },
    {
        let SimilarQueryGet {
            id: _,
            offset,
            limit,
            attributes_to_retrieve,
            filter,
            show_ranking_score,
            show_ranking_score_details,
            embedder,
        } = get;
        let filter = match filter {
            Some(f) => match parsed_filter {
                Some(v) => Some(v),
                None => Some(string_value(f)),
            },
            None => None,
        };
        match id {
            Some(id) => Ok(
                SimilarQuery {
                    id,
                    offset,
                    limit,
                    filter,
                    embedder,
                    attributes_to_retrieve,
                    show_ranking_score,
                    show_ranking_score_details,
                },
            ),
            None => Err(InvalidSimilarId),
        }
    }

    /// The request that the parameters of a query ask for.
    ///
    /// The filter of the request is the JSON value that the text of the
    /// filter is, and the text itself as a string where it is no JSON.
    /// `id` is the identifier of the request as an identifier of a
    /// document, if it is a valid one; a request without a valid
    /// identifier is refused. Every other field is taken as it is.
    pub fn try_from(get: SimilarQueryGet, id: Option<ExternalDocumentId>) -> (r: Result<
        SimilarQuery,
        InvalidSimilarId,
    >)
        ensures
            match r {
                Ok(q) => {
                    &&& id matches Some(valid)
                    &&& q.id == valid
                    &&& q.offset == get.offset
                    &&& q.limit == get.limit
                    &&& opt_view(q.filter) == filter_of(
                        opt_text(get.filter),
                        match get.filter {
                            Some(f) => parsed_json(f@),
                            None => None,
                        },
                    )
                    &&& q.embedder == get.embedder
                    &&& q.attributes_to_retrieve == get.attributes_to_retrieve
                    &&& q.show_ranking_score == get.show_ranking_score
                    &&& q.show_ranking_score_details == get.show_ranking_score_details
                },
                Err(_) => id is None,
            },
    {
        let parsed = match &get.filter {
            Some(f) => parse_value(f.as_str()),
            None => None,
        };
        Self::from_parts(get, parsed, id)
    }
}

} // verus!
