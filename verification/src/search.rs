//! The decisions of the search routes that can be taken without the search
//! engine: how a query is paginated, how the hits are counted, how the
//! filters of a tenant join those of a request, which shape a filter has,
//! and where a sort asks for a distance.

use crate::error::MeilisearchHttpError;
use crate::json::{array_value, into_array, opt_view, value_json, views, JsonView};
use serde_json::Value;
use crate::text::text_order;
use regex::Regex;
use vstd::prelude::*;

verus! {

/// The offset of a search that names none.
pub const DEFAULT_SEARCH_OFFSET: usize = 0;

/// The limit of a search that names none, and the hits of a page.
pub const DEFAULT_SEARCH_LIMIT: usize = 20;

/// The length at which a field is cropped where the request names none.
pub const DEFAULT_CROP_LENGTH: usize = 10;

/// The bits of the ratio one half.
pub const DEFAULT_SEMANTIC_RATIO_BITS: u32 = 0x3f00_0000;

/// The mark that stands where a text was cropped.
pub fn default_crop_marker() -> (s: String)
    ensures
        s@ == "…"@,
{
    "…".to_owned()
}

/// The tag that opens a highlighted word.
pub fn default_highlight_pre_tag() -> (s: String)
    ensures
        s@ == "<em>"@,
{
    "<em>".to_owned()
}

/// The tag that closes a highlighted word.
pub fn default_highlight_post_tag() -> (s: String)
    ensures
        s@ == "</em>"@,
{
    "</em>".to_owned()
}

/// The name of an index.
#[derive(Debug)]
pub struct IndexUid {
    pub uid: String,
}

/// How the words of a query may be dropped to find more documents.
#[derive(Debug, Copy, Clone, PartialEq, Eq, Structural)]
pub enum MatchingStrategy {
    /// Remove query words from last to first
    Last,
    /// All query words are mandatory
    All,
    /// Remove query words from the most frequent to the least
    Frequency,
}

impl Default for MatchingStrategy {
    fn default() -> (r: Self)
        ensures
            r == MatchingStrategy::Last,
    {
        Self::Last
    }
}

/// The order of the values of a facet.
#[derive(Debug, Clone, Copy, PartialEq, Eq, Structural)]
pub enum FacetValuesSort {
    /// Facet values are sorted in alphabetical order, ascending from A to Z.
    Alpha,
    /// Facet values are sorted by decreasing count.
    /// The count is the number of records containing this facet value in the results of the query.
    Count,
}

impl Default for FacetValuesSort {
    fn default() -> (r: Self)
        ensures
            r == FacetValuesSort::Alpha,
    {
        Self::Alpha
    }
}

/// The weight of the semantic search in a hybrid search: a number between
/// zero and one, held as the bits of a 32-bit float.
#[derive(Debug, Clone, Copy, PartialEq, Eq, Structural)]
pub struct SemanticRatio {
    bits: u32,
}

/// The ratio is refused.
#[derive(Debug, Clone, Copy, PartialEq, Eq, Structural)]
pub struct InvalidSearchSemanticRatio;

/// Whether the float of these bits is greater than one: a positive number,
/// infinity included, above the bits of one.
pub open spec fn above_one(bits: u32) -> bool {
    0x3f80_0000 < bits <= 0x7f80_0000
}

/// Whether the float of these bits is less than zero: a negative number,
/// infinity included, other than the negative zero.
pub open spec fn below_zero(bits: u32) -> bool {
    0x8000_0000 < bits <= 0xff80_0000
}

impl SemanticRatio {
    /// The bits of the ratio.
    pub closed spec fn spec_bits(self) -> u32 {
        self.bits
    }

    /// The ratio of the float with these bits, unless the float is greater
    /// than one or less than zero.
    pub fn try_from_bits(bits: u32) -> (r: Result<SemanticRatio, InvalidSearchSemanticRatio>)
        ensures
            match r {
                Ok(ratio) => !above_one(bits) && !below_zero(bits) && ratio.spec_bits() == bits,
                Err(_) => above_one(bits) || below_zero(bits),
            },
    {
        if (0x3f80_0000 < bits && bits <= 0x7f80_0000) || (0x8000_0000 < bits && bits
            <= 0xff80_0000) {
            Err(InvalidSearchSemanticRatio)
        } else {
            Ok(SemanticRatio { bits })
        }
    }

    /// The bits of the ratio.
    #[verifier::when_used_as_spec(spec_bits)]
    pub fn bits(self) -> (b: u32)
        ensures
            b == self.spec_bits(),
    {
        self.bits
    }
}

impl Default for SemanticRatio {
    fn default() -> (r: Self)
        ensures
            r.spec_bits() == DEFAULT_SEMANTIC_RATIO_BITS,
    {
        SemanticRatio { bits: DEFAULT_SEMANTIC_RATIO_BITS }
    }
}

/// How a search mixes keywords and meaning.
#[derive(Debug)]
pub struct HybridQuery {
    pub semantic_ratio: SemanticRatio,
    pub embedder: Option<String>,
}

/// A search request. The vector of a semantic search is held as the bits of
/// its 32-bit floats.
#[derive(Debug)]
pub struct SearchQuery {
    pub q: Option<String>,
    pub vector: Option<Vec<u32>>,
    pub hybrid: Option<HybridQuery>,
    pub offset: usize,
    pub limit: usize,
    pub page: Option<usize>,
    pub hits_per_page: Option<usize>,
    pub attributes_to_retrieve: Option<Vec<String>>,
    pub attributes_to_crop: Option<Vec<String>>,
    pub crop_length: usize,
    pub attributes_to_highlight: Option<Vec<String>>,
    pub show_matches_position: bool,
    pub show_ranking_score: bool,
    pub show_ranking_score_details: bool,
    pub filter: Option<Value>,
    pub sort: Option<Vec<String>>,
    pub facets: Option<Vec<String>>,
    pub highlight_pre_tag: String,
    pub highlight_post_tag: String,
    pub crop_marker: String,
    pub matching_strategy: MatchingStrategy,
    pub attributes_to_search_on: Option<Vec<String>>,
}

impl SearchQuery {
    /// Whether the request asks for pages rather than for an offset and a
    /// limit: it does as soon as it names a page or a number of hits per
    /// page.
    pub open spec fn finite_pagination(self) -> bool {
        self.page is Some || self.hits_per_page is Some
    }

    /// Whether the request asks for pages.
    pub fn is_finite_pagination(&self) -> (b: bool)
        ensures
            b == self.finite_pagination(),
    {
        self.page.is_some() || self.hits_per_page.is_some()
    }
}

/// A `SearchQuery` + an index UID.
#[derive(Debug)]
pub struct SearchQueryWithIndex {
    pub index_uid: IndexUid,
    pub q: Option<String>,
    pub vector: Option<Vec<u32>>,
    pub hybrid: Option<HybridQuery>,
    pub offset: usize,
    pub limit: usize,
    pub page: Option<usize>,
    pub hits_per_page: Option<usize>,
    pub attributes_to_retrieve: Option<Vec<String>>,
    pub attributes_to_crop: Option<Vec<String>>,
    pub crop_length: usize,
    pub attributes_to_highlight: Option<Vec<String>>,
    pub show_ranking_score: bool,
    pub show_ranking_score_details: bool,
    pub show_matches_position: bool,
    pub filter: Option<Value>,
    pub sort: Option<Vec<String>>,
    pub facets: Option<Vec<String>>,
    pub highlight_pre_tag: String,
    pub highlight_post_tag: String,
    pub crop_marker: String,
    pub matching_strategy: MatchingStrategy,
    pub attributes_to_search_on: Option<Vec<String>>,
}

impl SearchQueryWithIndex {
    /// The name of the index and the request on it, each field as it was.
    pub fn into_index_query(self) -> (r: (IndexUid, SearchQuery))
        ensures
            r.0 == self.index_uid,
            r.1 == (SearchQuery {
                q: self.q,
                vector: self.vector,
                hybrid: self.hybrid,
                offset: self.offset,
                limit: self.limit,
                page: self.page,
                hits_per_page: self.hits_per_page,
                attributes_to_retrieve: self.attributes_to_retrieve,
                attributes_to_crop: self.attributes_to_crop,
                crop_length: self.crop_length,
                attributes_to_highlight: self.attributes_to_highlight,
                show_matches_position: self.show_matches_position,
                show_ranking_score: self.show_ranking_score,
                show_ranking_score_details: self.show_ranking_score_details,
                filter: self.filter,
                sort: self.sort,
                facets: self.facets,
                highlight_pre_tag: self.highlight_pre_tag,
                highlight_post_tag: self.highlight_post_tag,
                crop_marker: self.crop_marker,
                matching_strategy: self.matching_strategy,
                attributes_to_search_on: self.attributes_to_search_on,
            }),
    {
        let SearchQueryWithIndex {
            index_uid,
            q,
            vector,
            offset,
            limit,
            page,
            hits_per_page,
            attributes_to_retrieve,
            attributes_to_crop,
            crop_length,
            attributes_to_highlight,
            show_ranking_score,
            show_ranking_score_details,
            show_matches_position,
            filter,
            sort,
            facets,
            highlight_pre_tag,
            highlight_post_tag,
            crop_marker,
            matching_strategy,
            attributes_to_search_on,
            hybrid,
        } = self;
        (
            index_uid,
            SearchQuery {
                q,
                vector,
                offset,
                limit,
                page,
                hits_per_page,
                attributes_to_retrieve,
                attributes_to_crop,
                crop_length,
                attributes_to_highlight,
                show_ranking_score,
                show_ranking_score_details,
                show_matches_position,
                filter,
                sort,
                facets,
                highlight_pre_tag,
                highlight_post_tag,
                crop_marker,
                matching_strategy,
                attributes_to_search_on,
                hybrid,
            },
        )
    }
}

/// The identifier of a document, as its user wrote it.
#[derive(Debug)]
pub struct ExternalDocumentId {
    id: String,
}

impl View for ExternalDocumentId {
    type V = Seq<char>;

    closed spec fn view(&self) -> Seq<char> {
        self.id@
    }
}

impl ExternalDocumentId {
    /// An identifier that has been found valid.
    pub fn new(id: String) -> (r: Self)
        ensures
            r@ == id@,
    {
        ExternalDocumentId { id }
    }

    /// The identifier as text.
    pub fn as_ref(&self) -> (s: &str)
        ensures
            s@ == self@,
    {
        self.id.as_str()
    }

    /// The identifier as a string of its own.
    pub fn into_inner(self) -> (s: String)
        ensures
            s@ == self@,
    {
        self.id
    }
}

/// A request for the documents that are similar to one.
#[derive(Debug)]
pub struct SimilarQuery {
    pub id: ExternalDocumentId,
    pub offset: usize,
    pub limit: usize,
    pub filter: Option<Value>,
    pub embedder: Option<String>,
    pub attributes_to_retrieve: Option<Vec<String>>,
    pub show_ranking_score: bool,
    pub show_ranking_score_details: bool,
}

/// How many hits there are, told by pages or by offset and limit.
#[derive(Debug, Clone, Copy, PartialEq, Eq, Structural)]
pub enum HitsInfo {
    Pagination { hits_per_page: usize, page: usize, total_pages: usize, total_hits: usize },
    OffsetLimit { limit: usize, offset: usize, estimated_total_hits: usize },
}

/// The filter that a tenant token puts on the searches in an index.
#[derive(Debug)]
pub struct IndexSearchRules {
    pub filter: Option<Value>,
}

/// The conditions of a filter: those of an array, or the value alone.
pub open spec fn conditions(filter: JsonView) -> Seq<JsonView> {
    match filter {
        JsonView::Array(items) => items,
        other => seq![other],
    }
}

/// The filter of a request joined with the filter of the search rules:
/// either of them alone where the other is absent, and else the array of
/// the conditions of the first followed by those of the second.
pub open spec fn joined_filter(filter: Option<JsonView>, rules: Option<JsonView>) -> Option<
    JsonView,
> {
    match (filter, rules) {
        (None, rules) => rules,
        (filter, None) => filter,
        (Some(filter), Some(rules)) => Some(
            JsonView::Array(conditions(filter) + conditions(rules)),
        ),
    }
}

/// The conditions of a filter.
fn into_conditions(filter: Value) -> (items: Vec<Value>)
    ensures
        views(items@) == conditions(value_json(filter)),
{
    match into_array(filter) {
        Ok(items) => items,
        Err(other) => {
            let mut items = Vec::new();
            items.push(other);
            assert(views(items@) =~= seq![value_json(other)]);
            items
        },
    }
}

/// Incorporate search rules in search query
pub fn add_search_rules(filter: &mut Option<Value>, rules: IndexSearchRules)
    ensures
        opt_view(*final(filter)) == joined_filter(opt_view(*old(filter)), opt_view(rules.filter)),
{
    let mine = filter.take();
    *filter = match (mine, rules.filter) {
        (None, rules_filter) => rules_filter,
        (mine, None) => mine,
        (Some(mine), Some(rules_filter)) => {
            let mut all = into_conditions(mine);
            let mut more = into_conditions(rules_filter);
            let ghost first = views(all@);
            let ghost second = views(more@);
            all.append(&mut more);
            proof {
                assert(views(all@) =~= first + second);
            }
            Some(array_value(all))
        },
    }
}

/// The offset and the limit of a search, within the most hits that an index
/// gives out.
///
/// A request by pages starts at the page before the one asked for, times
/// the number of hits per page, and takes that number of hits; the page 0
/// takes nothing. Any other request brings its own offset and limit. The
/// offset is cut at the most hits, and the limit at what is left behind
/// the offset.
pub open spec fn offset_and_limit(
    is_finite_pagination: bool,
    hits_per_page: Option<usize>,
    page: Option<usize>,
    offset: usize,
    limit: usize,
    max_total_hits: usize,
) -> (int, int) {
    let asked = if is_finite_pagination {
        let per_page = match hits_per_page {
            Some(n) => n as int,
            None => DEFAULT_SEARCH_LIMIT as int,
        };
        let page = match page {
            Some(p) => p as int,
            None => 1,
        };
        if page == 0 {
            (0int, 0int)
        } else {
            (per_page * (page - 1), per_page)
        }
    } else {
        (offset as int, limit as int)
    };
    let start = if asked.0 < max_total_hits {
        asked.0
    } else {
        max_total_hits as int
    };
    let left = max_total_hits - start;
    (start, if asked.1 < left {
        asked.1
    } else {
        left
    })
}

/// The offset and the limit of a search.
pub fn compute_offset_and_limit(query: &SearchQuery, max_total_hits: usize) -> (r: (usize, usize))
    ensures
        (r.0 as int, r.1 as int) == offset_and_limit(
            query.finite_pagination(),
            query.hits_per_page,
            query.page,
            query.offset,
            query.limit,
            max_total_hits,
        ),
        r.0 + r.1 <= max_total_hits,
{
    let (offset, limit) = if query.is_finite_pagination() {
        let limit = match query.hits_per_page {
            Some(n) => n,
            None => DEFAULT_SEARCH_LIMIT,
        };
        let page = match query.page {
            Some(p) => p,
            None => 1,
        };
        if page == 0 {
            (0, 0)
        } else {
            let p = page - 1;
            // the product is cut at the most hits, which it may not pass
            let start = if p == 0 || limit == 0 {
                0
            } else if limit > max_total_hits / p {
                proof {
                    assert(limit * p >= max_total_hits) by (nonlinear_arith)
                        requires
                            limit > max_total_hits / p,
                            p > 0,
                    ;
                }
                max_total_hits
            } else {
                proof {
                    assert(limit * p <= max_total_hits) by (nonlinear_arith)
                        requires
                            limit <= max_total_hits / p,
                            p > 0,
                    ;
                }
                limit * p
            };
            proof {
                assert(limit * (page - 1) == limit * p);
                if p == 0 || limit == 0 {
                    assert(limit * p == 0) by (nonlinear_arith)
                        requires
                            p == 0 || limit == 0,
                    ;
                }
            }
            (start, limit)
        }
    } else {
        (query.offset, query.limit)
    };
    let offset = if offset < max_total_hits {
        offset
    } else {
        max_total_hits
    };
    let left = max_total_hits - offset;
    let limit = if limit < left {
        limit
    } else {
        left
    };
    (offset, limit)
}

/// The number of pages that hold `total_hits` hits, `hits_per_page` on each
/// page: none where a page holds nothing.
pub open spec fn pages(total_hits: int, hits_per_page: int) -> int {
    if hits_per_page <= 0 {
        0
    } else {
        (total_hits + hits_per_page - 1) / hits_per_page
    }
}

/// How many hits a search has found, as the request asked to be told.
pub open spec fn hits_info(
    is_finite_pagination: bool,
    hits_per_page: Option<usize>,
    page: Option<usize>,
    offset: usize,
    limit: usize,
    candidates: u64,
    max_total_hits: usize,
) -> HitsInfo {
    let number_of_hits = if candidates < max_total_hits {
        candidates as usize
    } else {
        max_total_hits
    };
    if is_finite_pagination {
        let per_page = match hits_per_page {
            Some(n) => n,
            None => DEFAULT_SEARCH_LIMIT,
        };
        HitsInfo::Pagination {
            hits_per_page: per_page,
            page: match page {
                Some(p) => p,
                None => 1,
            },
            total_pages: pages(number_of_hits as int, per_page as int) as usize,
            total_hits: number_of_hits,
        }
    } else {
        HitsInfo::OffsetLimit { limit, offset, estimated_total_hits: number_of_hits }
    }
}

/// How many hits a search has found. `offset` is the offset at which the
/// search started, `limit` the limit of the request, and `candidates` the
/// number of documents that match.
pub fn compute_hits_info(
    is_finite_pagination: bool,
    hits_per_page: Option<usize>,
    page: Option<usize>,
    offset: usize,
    limit: usize,
    candidates: u64,
    max_total_hits: usize,
) -> (r: HitsInfo)
    ensures
        r == hits_info(
            is_finite_pagination,
            hits_per_page,
            page,
            offset,
            limit,
            candidates,
            max_total_hits,
        ),
{
    let number_of_hits = if candidates < max_total_hits as u64 {
        candidates as usize
    } else {
        max_total_hits
    };
    if is_finite_pagination {
        let hits_per_page = match hits_per_page {
            Some(n) => n,
            None => DEFAULT_SEARCH_LIMIT,
        };
        // If hit_per_page is 0, then pages can't be computed and so we respond 0.
        let total_pages = if hits_per_page == 0 {
            0
        } else {
            let whole = number_of_hits / hits_per_page;
            proof {
                let n = number_of_hits as int;
                let h = hits_per_page as int;
                assert(n % h != 0 ==> n / h < n) by (nonlinear_arith)
                    requires
                        h > 0,
                        n >= 0,
                ;
            }
            let total = if number_of_hits % hits_per_page == 0 {
                whole
            } else {
                whole + 1
            };
            proof {
                let n = number_of_hits as int;
                let h = hits_per_page as int;
                assert((n + h - 1) / h == total) by (nonlinear_arith)
                    requires
                        h > 0,
                        n >= 0,
                        total == (if n % h == 0 {
                            n / h
                        } else {
                            n / h + 1
                        }),
                ;
            }
            total
        };
        HitsInfo::Pagination {
            hits_per_page,
            page: match page {
                Some(p) => p,
                None => 1,
            },
            total_pages,
            total_hits: number_of_hits,
        }
    } else {
        HitsInfo::OffsetLimit { limit, offset, estimated_total_hits: number_of_hits }
    }
}

/// Whether the facets of a request name each facet: they do unless one of
/// them is the star, which stands for all the facets.
pub fn names_each_facet(facets: &Vec<String>) -> (b: bool)
    ensures
        b == forall|i: int| 0 <= i < facets@.len() ==> (#[trigger] facets@[i])@ != "*"@,
{
    let mut i: usize = 0;
    while i < facets.len()
        invariant
            i <= facets@.len(),
            forall|j: int| 0 <= j < i ==> (#[trigger] facets@[j])@ != "*"@,
        decreases facets.len() - i,
    {
        if text_order(facets[i].as_str(), "*") == 0 {
            return false;
        }
        i = i + 1;
    }
    true
}

/// Whether the vector of a request has the dimensions of the embedder: a
/// request without a vector has nothing to check.
pub fn check_vector_dimensions(vector_len: Option<usize>, dimensions: usize) -> (r: Result<
    (),
    (usize, usize),
>)
    ensures
        match r {
            Ok(()) => vector_len matches Some(n) ==> n == dimensions,
            Err((expected, found)) => expected == dimensions && vector_len == Some(found) && found
                != dimensions,
        },
{
    match vector_len {
        Some(n) => if n != dimensions {
            Err((dimensions, n))
        } else {
            Ok(())
        },
        None => Ok(()),
    }
}

/// One condition of a filter array: an expression, or expressions of which
/// one has to hold.
#[derive(Debug)]
pub enum FilterCondition {
    Or(Vec<String>),
    Single(String),
}

/// A filter before its expressions are parsed.
#[derive(Debug)]
pub enum FilterShape {
    Expression(String),
    Conditions(Vec<FilterCondition>),
}

/// A condition as a mathematical value.
pub ghost enum ConditionView {
    Or(Seq<Seq<char>>),
    Single(Seq<char>),
}

/// What is wrong with a value of a filter: the kinds of value that were
/// expected in its place, and the value itself.
pub ghost struct Unexpected {
    pub expected: Seq<Seq<char>>,
    pub found: JsonView,
}

impl View for FilterCondition {
    type V = ConditionView;

    open spec fn view(&self) -> ConditionView {
        match self {
            FilterCondition::Or(v) => ConditionView::Or(Seq::new(v@.len(), |i: int| v@[i]@)),
            FilterCondition::Single(s) => ConditionView::Single(s@),
        }
    }
}

/// The expressions of an inner array, or the first of its items that is no
/// string.
pub open spec fn inner_shape(items: Seq<JsonView>) -> Result<Seq<Seq<char>>, Unexpected>
    decreases items.len(),
{
    if items.len() == 0 {
        Ok(Seq::empty())
    } else {
        match inner_shape(items.drop_last()) {
            Err(e) => Err(e),
            Ok(ors) => match items.last() {
                JsonView::String(s) => Ok(ors.push(s)),
                other => Err(Unexpected { expected: seq!["String"@], found: other }),
            },
        }
    }
}

/// The conditions of a filter array, or the first value in it that is
/// neither a string nor an array of strings.
pub open spec fn array_shape(items: Seq<JsonView>) -> Result<Seq<ConditionView>, Unexpected>
    decreases items.len(),
{
    if items.len() == 0 {
        Ok(Seq::empty())
    } else {
        match array_shape(items.drop_last()) {
            Err(e) => Err(e),
            Ok(ands) => match items.last() {
                JsonView::String(s) => Ok(ands.push(ConditionView::Single(s))),
                JsonView::Array(inner) => match inner_shape(inner) {
                    Ok(ors) => Ok(ands.push(ConditionView::Or(ors))),
                    Err(e) => Err(e),
                },
                other => Err(
                    Unexpected { expected: seq!["String"@, "[String]"@], found: other },
                ),
            },
        }
    }
}

/// The views of a list of conditions.
pub open spec fn condition_views(v: Seq<FilterCondition>) -> Seq<ConditionView> {
    Seq::new(v.len(), |i: int| v[i]@)
}

/// The texts of a list of strings.
pub open spec fn texts(v: Seq<String>) -> Seq<Seq<char>> {
    Seq::new(v.len(), |i: int| v[i]@)
}

/// Whether an error reports this unexpected value.
pub open spec fn reports(e: MeilisearchHttpError, u: Unexpected) -> bool {
    e matches MeilisearchHttpError::InvalidExpression(expected, found) && texts(expected@)
        == u.expected && value_json(found) == u.found
}

/// What an inner array may hold.
fn expected_string() -> (v: Vec<String>)
    ensures
        texts(v@) == seq!["String"@],
{
    let mut v = Vec::new();
    v.push("String".to_owned());
    assert(texts(v@) =~= seq!["String"@]);
    v
}

/// What a filter array may hold.
fn expected_string_or_strings() -> (v: Vec<String>)
    ensures
        texts(v@) == seq!["String"@, "[String]"@],
{
    let mut v = Vec::new();
    v.push("String".to_owned());
    v.push("[String]".to_owned());
    assert(texts(v@) =~= seq!["String"@, "[String]"@]);
    v
}

/// What a filter may be.
fn expected_string_or_array() -> (v: Vec<String>)
    ensures
        texts(v@) == seq!["String"@, "Array"@],
{
    let mut v = Vec::new();
    v.push("String".to_owned());
    v.push("Array".to_owned());
    assert(texts(v@) =~= seq!["String"@, "Array"@]);
    v
}

/// The expressions of an inner array of a filter.
fn parse_filter_inner(arr: &Vec<Value>) -> (r: Result<Vec<String>, MeilisearchHttpError>)
    ensures
        match r {
            Ok(ors) => inner_shape(views(arr@)) == Ok::<Seq<Seq<char>>, Unexpected>(texts(ors@)),
            Err(e) => inner_shape(views(arr@)) is Err && reports(e, inner_shape(views(arr@))->Err_0),
        },
{
    let mut ors: Vec<String> = Vec::new();
    let mut i: usize = 0;
    let ghost all = views(arr@);
    proof {
        assert(all.take(0).len() == 0);
        assert(texts(ors@) =~= Seq::<Seq<char>>::empty());
    }
    while i < arr.len()
        invariant
            i <= arr@.len(),
            all == views(arr@),
            inner_shape(all.take(i as int)) == Ok::<Seq<Seq<char>>, Unexpected>(texts(ors@)),
        decreases arr.len() - i,
    {
        proof {
            assert(all.take(i + 1).drop_last() =~= all.take(i as int));
            assert(all.take(i + 1).last() == value_json(arr@[i as int]));
        }
        match arr[i].as_str() {
            Some(s) => {
                let ghost before = texts(ors@);
                ors.push(s.to_owned());
                proof {
                    assert(texts(ors@) =~= before.push(s@));
                }
            },
            None => {
                proof {
                    lemma_inner_prefix(all, i + 1);
                }
                return Err(
                    MeilisearchHttpError::InvalidExpression(expected_string(), arr[i].clone()),
                );
            },
        }
        i = i + 1;
    }
    proof {
        assert(all.take(all.len() as int) =~= all);
    }
    Ok(ors)
}

/// An error in a prefix of an inner array is the error of the whole array.
proof fn lemma_inner_prefix(items: Seq<JsonView>, n: int)
    requires
        0 <= n <= items.len(),
        inner_shape(items.take(n)) is Err,
    ensures
        inner_shape(items) == inner_shape(items.take(n)),
    decreases items.len() - n,
{
    if n < items.len() {
        assert(items.take(n + 1).drop_last() =~= items.take(n));
        lemma_inner_prefix(items, n + 1);
    } else {
        assert(items.take(n) =~= items);
    }
}

/// An error in a prefix of a filter array is the error of the whole array.
proof fn lemma_array_prefix(items: Seq<JsonView>, n: int)
    requires
        0 <= n <= items.len(),
        array_shape(items.take(n)) is Err,
    ensures
        array_shape(items) == array_shape(items.take(n)),
    decreases items.len() - n,
{
    if n < items.len() {
        assert(items.take(n + 1).drop_last() =~= items.take(n));
        lemma_array_prefix(items, n + 1);
    } else {
        assert(items.take(n) =~= items);
    }
}

/// The conditions of a filter that is an array: each item an expression or
/// an array of expressions. The first value that is neither is reported
/// with the kinds of value that were expected in its place.
pub fn parse_filter_array(arr: &Vec<Value>) -> (r: Result<Vec<FilterCondition>, MeilisearchHttpError>)
    ensures
        match r {
            Ok(ands) => array_shape(views(arr@)) == Ok::<Seq<ConditionView>, Unexpected>(
                condition_views(ands@),
            ),
            Err(e) => array_shape(views(arr@)) is Err && reports(e, array_shape(views(arr@))->Err_0),
        },
{
    let mut ands: Vec<FilterCondition> = Vec::new();
    let mut i: usize = 0;
    let ghost all = views(arr@);
    proof {
        assert(all.take(0).len() == 0);
        assert(condition_views(ands@) =~= Seq::<ConditionView>::empty());
    }
    while i < arr.len()
        invariant
            i <= arr@.len(),
            all == views(arr@),
            ands@.len() == i,
            array_shape(all.take(i as int)) == Ok::<Seq<ConditionView>, Unexpected>(
                condition_views(ands@),
            ),
        decreases arr.len() - i,
    {
        proof {
            assert(all.take(i + 1).drop_last() =~= all.take(i as int));
            assert(all.take(i + 1).last() == value_json(arr@[i as int]));
        }
        let ghost before = condition_views(ands@);
        match arr[i].as_str() {
            Some(s) => {
                ands.push(FilterCondition::Single(s.to_owned()));
                proof {
                    assert(condition_views(ands@) =~= before.push(ConditionView::Single(s@)));
                }
            },
            None => match arr[i].as_array() {
                Some(inner) => {
                    match parse_filter_inner(inner) {
                        Ok(ors) => {
                            let ghost ors_view = texts(ors@);
                            ands.push(FilterCondition::Or(ors));
                            proof {
                                assert(ands@[i as int]@ == ConditionView::Or(ors_view));
                                assert(condition_views(ands@) =~= before.push(
                                    ConditionView::Or(ors_view),
                                ));
                            }
                        },
                        Err(e) => {
                            proof {
                                lemma_array_prefix(all, i + 1);
                            }
                            return Err(e);
                        },
                    }
                },
                None => {
                    proof {
                        lemma_array_prefix(all, i + 1);
                    }
                    return Err(
                        MeilisearchHttpError::InvalidExpression(
                            expected_string_or_strings(),
                            arr[i].clone(),
                        ),
                    );
                },
            },
        }
        i = i + 1;
    }
    proof {
        assert(all.take(all.len() as int) =~= all);
    }
    Ok(ands)
}

/// The shape of a filter as a mathematical value.
pub ghost enum ShapeView {
    Expression(Seq<char>),
    Conditions(Seq<ConditionView>),
}

impl View for FilterShape {
    type V = ShapeView;

    open spec fn view(&self) -> ShapeView {
        match self {
            FilterShape::Expression(s) => ShapeView::Expression(s@),
            FilterShape::Conditions(c) => ShapeView::Conditions(condition_views(c@)),
        }
    }
}

/// The shape of a filter: an expression where it is a string, conditions
/// where it is an array, and an unexpected value otherwise.
pub open spec fn filter_shape(facets: JsonView) -> Result<ShapeView, Unexpected> {
    match facets {
        JsonView::String(expr) => Ok(ShapeView::Expression(expr)),
        JsonView::Array(arr) => match array_shape(arr) {
            Ok(c) => Ok(ShapeView::Conditions(c)),
            Err(e) => Err(e),
        },
        v => Err(Unexpected { expected: seq!["String"@, "Array"@], found: v }),
    }
}

/// Reads the shape of a filter. The expressions themselves are parsed by
/// the search engine.
pub fn parse_filter(facets: &Value) -> (r: Result<FilterShape, MeilisearchHttpError>)
    ensures
        match r {
            Ok(shape) => filter_shape(value_json(*facets)) == Ok::<ShapeView, Unexpected>(shape@),
            Err(e) => filter_shape(value_json(*facets)) is Err && reports(
                e,
                filter_shape(value_json(*facets))->Err_0,
            ),
        },
{
    match facets.as_str() {
        Some(expr) => Ok(FilterShape::Expression(expr.to_owned())),
        None => match facets.as_array() {
            Some(arr) => match parse_filter_array(arr) {
                Ok(c) => Ok(FilterShape::Conditions(c)),
                Err(e) => Err(e),
            },
            None => Err(
                MeilisearchHttpError::InvalidExpression(
                    expected_string_or_array(),
                    facets.clone(),
                ),
            ),
        },
    }
}

/// The pattern of a sort by the distance to a point: `_geoPoint`, then in
/// round brackets two numbers, written with digits, dots and minus signs,
/// with a comma between them and with white space where one likes.
pub open spec fn geo_pattern() -> Seq<char> {
    r"_geoPoint\(\s*([[:digit:].\-]+)\s*,\s*([[:digit:].\-]+)\s*\)"@
}

/// The pattern of a sort by the distance to a point.
pub fn geo_point_pattern() -> (p: &'static str)
    ensures
        p@ == geo_pattern(),
{
    r"_geoPoint\(\s*([[:digit:].\-]+)\s*,\s*([[:digit:].\-]+)\s*\)"
}

/// What the first two groups of a pattern capture in a text: the texts of
/// the groups 1 and 2 of the leftmost match, where the pattern is a valid
/// regular expression, matches, and both groups took part in the match.
pub uninterp spec fn captured_pair(pattern: Seq<char>, text: Seq<char>) -> Option<
    (Seq<char>, Seq<char>),
>;

/// `Regex::new(pattern)`, then `captures(text)` and `get(1)`, `get(2)` on
/// what it captured. The result is named by [`captured_pair`]; nothing more
/// is claimed of it.
#[verifier::external_body]
fn capture_pair(pattern: &str, text: &str) -> (r: Option<(String, String)>)
    ensures
        match r {
            Some(pair) => captured_pair(pattern@, text@) == Some((pair.0@, pair.1@)),
            None => captured_pair(pattern@, text@) is None,
        },
{
    match Regex::new(pattern) {
        Ok(re) => match re.captures(text) {
            Some(groups) => match (groups.get(1), groups.get(2)) {
                (Some(a), Some(b)) => Some((a.as_str().to_string(), b.as_str().to_string())),
                _ => None,
            },
            None => None,
        },
        Err(_) => None,
    }
}

/// The point of the first of the sorts that asks for a distance.
pub open spec fn first_geo_point(sorts: Seq<String>) -> Option<(Seq<char>, Seq<char>)>
    decreases sorts.len(),
{
    if sorts.len() == 0 {
        None
    } else {
        match captured_pair(geo_pattern(), sorts[0]@) {
            Some(point) => Some(point),
            None => first_geo_point(sorts.drop_first()),
        }
    }
}

/// The latitude and the longitude, as they are written, of the first of the
/// sorts that asks for the distance to a point. Later ones are not looked
/// at.
pub fn find_geo_point(sorts: &Vec<String>) -> (r: Option<(String, String)>)
    ensures
        match r {
            Some(point) => first_geo_point(sorts@) == Some((point.0@, point.1@)),
            None => first_geo_point(sorts@) is None,
        },
{
    let mut i: usize = 0;
    proof {
        assert(sorts@.skip(0) =~= sorts@);
    }
    while i < sorts.len()
        invariant
            i <= sorts@.len(),
            first_geo_point(sorts@) == first_geo_point(sorts@.skip(i as int)),
        decreases sorts.len() - i,
    {
        proof {
            assert(sorts@.skip(i as int)[0] == sorts@[i as int]);
            assert(sorts@.skip(i as int).drop_first() =~= sorts@.skip(i + 1));
        }
        match capture_pair(geo_point_pattern(), sorts[i].as_str()) {
            Some(point) => {
                return Some(point);
            },
            None => {},
        }
        i = i + 1;
    }
    None
}

} // verus!
