use index_scheduler::error::MeilisearchHttpError;
use index_scheduler::search::{
    add_search_rules, check_vector_dimensions, compute_hits_info, compute_offset_and_limit,
    default_crop_marker, default_highlight_post_tag, default_highlight_pre_tag, find_geo_point,
    names_each_facet, parse_filter, parse_filter_array, ExternalDocumentId, FacetValuesSort,
    FilterCondition, FilterShape, HitsInfo, HybridQuery, IndexSearchRules, IndexUid,
    InvalidSearchSemanticRatio, MatchingStrategy, SearchQuery, SearchQueryWithIndex, SemanticRatio,
    SimilarQuery, DEFAULT_CROP_LENGTH, DEFAULT_SEARCH_LIMIT, DEFAULT_SEARCH_OFFSET,
    DEFAULT_SEMANTIC_RATIO_BITS,
};
use index_scheduler::similar::{InvalidSimilarId, SimilarQueryGet};
use serde_json::Value;

fn s(text: &str) -> Value {
    Value::String(text.to_string())
}

fn same(a: &Value, b: &Value) -> bool {
    a == b
}

fn json(text: &str) -> Value {
    serde_json::from_str(text).unwrap()
}

fn query() -> SearchQuery {
    SearchQuery {
        q: None,
        vector: None,
        hybrid: None,
        offset: DEFAULT_SEARCH_OFFSET,
        limit: DEFAULT_SEARCH_LIMIT,
        page: None,
        hits_per_page: None,
        attributes_to_retrieve: None,
        attributes_to_crop: None,
        crop_length: DEFAULT_CROP_LENGTH,
        attributes_to_highlight: None,
        show_matches_position: false,
        show_ranking_score: false,
        show_ranking_score_details: false,
        filter: None,
        sort: None,
        facets: None,
        highlight_pre_tag: default_highlight_pre_tag(),
        highlight_post_tag: default_highlight_post_tag(),
        crop_marker: default_crop_marker(),
        matching_strategy: MatchingStrategy::default(),
        attributes_to_search_on: None,
    }
}

#[test]
fn defaults() {
    let q = query();
    assert_eq!(q.offset, 0);
    assert_eq!(q.limit, 20);
    assert_eq!(q.crop_length, 10);
    assert_eq!(q.crop_marker, "…");
    assert_eq!(q.highlight_pre_tag, "<em>");
    assert_eq!(q.highlight_post_tag, "</em>");
    assert_eq!(q.matching_strategy, MatchingStrategy::Last);
    assert_eq!(FacetValuesSort::default(), FacetValuesSort::Alpha);
    assert_eq!(SemanticRatio::default().bits(), 0.5f32.to_bits());
    assert_eq!(DEFAULT_SEMANTIC_RATIO_BITS, 0.5f32.to_bits());
}

#[test]
fn pagination_is_finite_as_soon_as_a_page_is_named() {
    let mut q = query();
    assert!(!q.is_finite_pagination());
    q.page = Some(2);
    assert!(q.is_finite_pagination());
    q.page = None;
    q.hits_per_page = Some(0);
    assert!(q.is_finite_pagination());
}

#[test]
fn semantic_ratio_lies_between_zero_and_one() {
    for ok in [0.0f32, -0.0, 0.5, 1.0, f32::MIN_POSITIVE, 0.999_999, f32::NAN] {
        assert_eq!(SemanticRatio::try_from_bits(ok.to_bits()).unwrap().bits(), ok.to_bits());
    }
    for bad in [1.000_000_1f32, 2.0, f32::MAX, f32::INFINITY, -1e-30, -0.5, -1.0, f32::NEG_INFINITY] {
        assert_eq!(SemanticRatio::try_from_bits(bad.to_bits()), Err(InvalidSearchSemanticRatio));
    }
    // the rule on the bits is the rule on the floats
    let mut bits: u32 = 0;
    loop {
        let f = f32::from_bits(bits);
        let refused = f > 1.0 || f < 0.0;
        assert_eq!(SemanticRatio::try_from_bits(bits).is_err(), refused, "{bits:#x}");
        match bits.checked_add(0x0001_0001) {
            Some(next) => bits = next,
            None => break,
        }
    }
}

#[test]
fn into_index_query_keeps_every_field() {
    let with_index = SearchQueryWithIndex {
        index_uid: IndexUid { uid: "doggos".to_string() },
        q: Some("bernese".to_string()),
        vector: Some(vec![1.5f32.to_bits(), 2.0f32.to_bits()]),
        hybrid: Some(HybridQuery {
            semantic_ratio: SemanticRatio::try_from_bits(0.25f32.to_bits()).unwrap(),
            embedder: Some("default".to_string()),
        }),
        offset: 3,
        limit: 7,
        page: Some(2),
        hits_per_page: Some(5),
        attributes_to_retrieve: Some(vec!["name".to_string()]),
        attributes_to_crop: Some(vec!["bio:5".to_string()]),
        crop_length: 11,
        attributes_to_highlight: Some(vec!["*".to_string()]),
        show_ranking_score: true,
        show_ranking_score_details: false,
        show_matches_position: true,
        filter: Some(s("age > 3")),
        sort: Some(vec!["age:asc".to_string()]),
        facets: Some(vec!["breed".to_string()]),
        highlight_pre_tag: "<b>".to_string(),
        highlight_post_tag: "</b>".to_string(),
        crop_marker: "[…]".to_string(),
        matching_strategy: MatchingStrategy::Frequency,
        attributes_to_search_on: Some(vec!["name".to_string()]),
    };
    let (uid, q) = with_index.into_index_query();
    assert_eq!(uid.uid, "doggos");
    assert_eq!(q.q.as_deref(), Some("bernese"));
    assert_eq!(q.vector, Some(vec![1.5f32.to_bits(), 2.0f32.to_bits()]));
    let hybrid = q.hybrid.unwrap();
    assert_eq!(hybrid.semantic_ratio.bits(), 0.25f32.to_bits());
    assert_eq!(hybrid.embedder.as_deref(), Some("default"));
    assert_eq!((q.offset, q.limit, q.page, q.hits_per_page), (3, 7, Some(2), Some(5)));
    assert_eq!(q.attributes_to_retrieve, Some(vec!["name".to_string()]));
    assert_eq!(q.attributes_to_crop, Some(vec!["bio:5".to_string()]));
    assert_eq!(q.crop_length, 11);
    assert_eq!(q.attributes_to_highlight, Some(vec!["*".to_string()]));
    assert!(q.show_ranking_score && !q.show_ranking_score_details && q.show_matches_position);
    assert!(same(q.filter.as_ref().unwrap(), &s("age > 3")));
    assert_eq!(q.sort, Some(vec!["age:asc".to_string()]));
    assert_eq!(q.facets, Some(vec!["breed".to_string()]));
    assert_eq!(q.highlight_pre_tag, "<b>");
    assert_eq!(q.highlight_post_tag, "</b>");
    assert_eq!(q.crop_marker, "[…]");
    assert_eq!(q.matching_strategy, MatchingStrategy::Frequency);
    assert_eq!(q.attributes_to_search_on, Some(vec!["name".to_string()]));
}

#[test]
fn search_rules_join_the_filter_of_the_request() {
    let mut filter = None;
    add_search_rules(&mut filter, IndexSearchRules { filter: None });
    assert!(filter.is_none());

    let mut filter = None;
    add_search_rules(&mut filter, IndexSearchRules { filter: Some(s("tenant = 1")) });
    assert!(same(filter.as_ref().unwrap(), &s("tenant = 1")));

    let mut filter = Some(s("age > 3"));
    add_search_rules(&mut filter, IndexSearchRules { filter: None });
    assert!(same(filter.as_ref().unwrap(), &s("age > 3")));

    let mut filter = Some(s("age > 3"));
    add_search_rules(&mut filter, IndexSearchRules { filter: Some(s("tenant = 1")) });
    assert!(same(filter.as_ref().unwrap(), &Value::Array(vec![s("age > 3"), s("tenant = 1")])));

    let mut filter = Some(Value::Array(vec![s("a"), Value::Array(vec![s("b"), s("c")])]));
    add_search_rules(
        &mut filter,
        IndexSearchRules { filter: Some(Value::Array(vec![s("d"), s("e")])) },
    );
    assert!(same(
        filter.as_ref().unwrap(),
        &Value::Array(vec![s("a"), Value::Array(vec![s("b"), s("c")]), s("d"), s("e")])
    ));

    let mut filter = Some(Value::Array(vec![]));
    add_search_rules(&mut filter, IndexSearchRules { filter: Some(Value::Bool(true)) });
    assert!(same(filter.as_ref().unwrap(), &Value::Array(vec![Value::Bool(true)])));
}

#[test]
fn offset_and_limit_stay_within_the_most_hits() {
    let mut q = query();
    assert_eq!(compute_offset_and_limit(&q, 1000), (0, 20));
    q.offset = 990;
    assert_eq!(compute_offset_and_limit(&q, 1000), (990, 10));
    q.offset = 5000;
    assert_eq!(compute_offset_and_limit(&q, 1000), (1000, 0));
    q.offset = 7;
    q.limit = usize::MAX;
    assert_eq!(compute_offset_and_limit(&q, 1000), (7, 993));

    let mut q = query();
    q.page = Some(3);
    assert_eq!(compute_offset_and_limit(&q, 1000), (40, 20));
    q.hits_per_page = Some(15);
    assert_eq!(compute_offset_and_limit(&q, 1000), (30, 15));
    q.page = None;
    assert_eq!(compute_offset_and_limit(&q, 1000), (0, 15));
    // page 0 gives a limit of 0 and so no document
    q.page = Some(0);
    assert_eq!(compute_offset_and_limit(&q, 1000), (0, 0));
    q.page = Some(68);
    assert_eq!(compute_offset_and_limit(&q, 1000), (1000, 0));
    q.page = Some(67);
    assert_eq!(compute_offset_and_limit(&q, 1000), (990, 10));
    q.page = Some(usize::MAX);
    q.hits_per_page = Some(usize::MAX);
    assert_eq!(compute_offset_and_limit(&q, 1000), (1000, 0));
    q.page = Some(1);
    assert_eq!(compute_offset_and_limit(&q, 1000), (0, 1000));
    q.hits_per_page = Some(0);
    q.page = Some(9);
    assert_eq!(compute_offset_and_limit(&q, 1000), (0, 0));
    assert_eq!(compute_offset_and_limit(&q, 0), (0, 0));
}

#[test]
fn hits_are_counted_by_pages_or_by_offset() {
    assert_eq!(
        compute_hits_info(false, None, None, 10, 20, 4321, 1000),
        HitsInfo::OffsetLimit { limit: 20, offset: 10, estimated_total_hits: 1000 }
    );
    assert_eq!(
        compute_hits_info(false, None, None, 0, 20, 12, 1000),
        HitsInfo::OffsetLimit { limit: 20, offset: 0, estimated_total_hits: 12 }
    );
    assert_eq!(
        compute_hits_info(true, None, None, 0, 20, 41, 1000),
        HitsInfo::Pagination { hits_per_page: 20, page: 1, total_pages: 3, total_hits: 41 }
    );
    assert_eq!(
        compute_hits_info(true, Some(10), Some(4), 0, 20, 40, 1000),
        HitsInfo::Pagination { hits_per_page: 10, page: 4, total_pages: 4, total_hits: 40 }
    );
    assert_eq!(
        compute_hits_info(true, Some(0), Some(4), 0, 20, 40, 1000),
        HitsInfo::Pagination { hits_per_page: 0, page: 4, total_pages: 0, total_hits: 40 }
    );
    assert_eq!(
        compute_hits_info(true, Some(7), None, 0, 20, 0, 1000),
        HitsInfo::Pagination { hits_per_page: 7, page: 1, total_pages: 0, total_hits: 0 }
    );
    assert_eq!(
        compute_hits_info(true, Some(1), None, 0, 20, u64::MAX, usize::MAX),
        HitsInfo::Pagination {
            hits_per_page: 1,
            page: 1,
            total_pages: usize::MAX,
            total_hits: usize::MAX
        }
    );
    assert_eq!(
        compute_hits_info(true, Some(2), None, 0, 20, u64::MAX, usize::MAX),
        HitsInfo::Pagination {
            hits_per_page: 2,
            page: 1,
            total_pages: usize::MAX / 2 + 1,
            total_hits: usize::MAX
        }
    );
}

#[test]
fn the_star_stands_for_all_facets() {
    assert!(names_each_facet(&vec![]));
    assert!(names_each_facet(&vec!["breed".to_string(), "**".to_string()]));
    assert!(!names_each_facet(&vec!["breed".to_string(), "*".to_string()]));
}

#[test]
fn vector_has_to_have_the_dimensions_of_the_embedder() {
    assert_eq!(check_vector_dimensions(None, 768), Ok(()));
    assert_eq!(check_vector_dimensions(Some(768), 768), Ok(()));
    assert_eq!(check_vector_dimensions(Some(3), 768), Err((768, 3)));
}

fn invalid(e: MeilisearchHttpError) -> (Vec<String>, Value) {
    match e {
        MeilisearchHttpError::InvalidExpression(expected, found) => (expected, found),
        other => panic!("unexpected {:?}", other),
    }
}

#[test]
fn filter_is_a_string_or_an_array() {
    match parse_filter(&s("age > 3")).unwrap() {
        FilterShape::Expression(e) => assert_eq!(e, "age > 3"),
        other => panic!("unexpected {:?}", other),
    }
    let filter = Value::Array(vec![
        s("a = 1"),
        Value::Array(vec![s("b = 2"), s("c = 3")]),
        Value::Array(vec![]),
        s("d = 4"),
    ]);
    match parse_filter(&filter).unwrap() {
        FilterShape::Conditions(c) => {
            assert_eq!(c.len(), 4);
            assert!(matches!(&c[0], FilterCondition::Single(e) if e == "a = 1"));
            assert!(matches!(&c[1], FilterCondition::Or(e) if e == &vec!["b = 2", "c = 3"]));
            assert!(matches!(&c[2], FilterCondition::Or(e) if e.is_empty()));
            assert!(matches!(&c[3], FilterCondition::Single(e) if e == "d = 4"));
        }
        other => panic!("unexpected {:?}", other),
    }
    assert!(parse_filter_array(&vec![]).unwrap().is_empty());

    let (expected, found) = invalid(parse_filter(&Value::from(12)).unwrap_err());
    assert_eq!(expected, vec!["String", "Array"]);
    assert!(same(&found, &Value::from(12)));
    let object = json(r#"{"a": null}"#);
    let (expected, found) = invalid(parse_filter(&object).unwrap_err());
    assert_eq!(expected, vec!["String", "Array"]);
    assert!(same(&found, &object));

    // the first value that is out of place is the one reported
    let filter = Value::Array(vec![s("a = 1"), Value::Bool(true), Value::Null]);
    let (expected, found) = invalid(parse_filter(&filter).unwrap_err());
    assert_eq!(expected, vec!["String", "[String]"]);
    assert!(same(&found, &Value::Bool(true)));
    let filter = Value::Array(vec![
        Value::Array(vec![s("a = 1"), Value::Array(vec![s("deep")]), Value::Null]),
        Value::Bool(true),
    ]);
    let (expected, found) = invalid(parse_filter_array(&match filter {
        Value::Array(items) => items,
        _ => unreachable!(),
    })
    .unwrap_err());
    assert_eq!(expected, vec!["String"]);
    assert!(same(&found, &Value::Array(vec![s("deep")])));
}

fn sorters(list: &[&str]) -> Vec<String> {
    list.iter().map(|s| s.to_string()).collect()
}

fn point(lat: &str, lng: &str) -> Option<(String, String)> {
    Some((lat.to_string(), lng.to_string()))
}

#[test]
fn geo_point_of_a_sort() {
    let sorts = sorters(&["_geoPoint(50.629973371633746,3.0569447399419567):desc"]);
    assert_eq!(find_geo_point(&sorts), point("50.629973371633746", "3.0569447399419567"));
    let sorts = sorters(&["_geoPoint(50.629973371633746, 3.0569447399419567):asc"]);
    assert_eq!(find_geo_point(&sorts), point("50.629973371633746", "3.0569447399419567"));
    let sorts = sorters(&["_geoPoint(   50.629973371633746   ,  3.0569447399419567   ):desc"]);
    assert_eq!(find_geo_point(&sorts), point("50.629973371633746", "3.0569447399419567"));
    let sorts = sorters(&[
        "prix:asc",
        "villeneuve:desc",
        "_geoPoint(50.629973371633746, 3.0569447399419567):asc",
        "ubu:asc",
    ]);
    assert_eq!(find_geo_point(&sorts), point("50.629973371633746", "3.0569447399419567"));
    // only the first geoPoint is used to compute the distance
    let sorts = sorters(&[
        "chien:desc",
        "_geoPoint(50.629973371633746, 3.0569447399419567):asc",
        "pangolin:desc",
        "_geoPoint(100.0, -80.0):asc",
        "chat:asc",
    ]);
    assert_eq!(find_geo_point(&sorts), point("50.629973371633746", "3.0569447399419567"));
    // there was no _geoPoint so nothing is found
    assert_eq!(find_geo_point(&sorters(&["chien:asc"])), None);
    assert_eq!(find_geo_point(&sorters(&[])), None);
    assert_eq!(find_geo_point(&sorters(&["_geoPoint(50,3):desc"])), point("50", "3"));
    assert_eq!(find_geo_point(&sorters(&["_geoPoint(100.0, -80.0):asc"])), point("100.0", "-80.0"));
    assert_eq!(find_geo_point(&sorters(&["_geoPoint(a,3):desc", "_geoPoint(1 2):asc"])), None);
}

#[test]
fn external_document_id() {
    let id = ExternalDocumentId::new("doc-1".to_string());
    assert_eq!(id.as_ref(), "doc-1");
    assert_eq!(id.into_inner(), "doc-1");
}

fn get(filter: Option<&str>) -> SimilarQueryGet {
    SimilarQueryGet {
        id: "doc-1".to_string(),
        offset: 2,
        limit: 5,
        attributes_to_retrieve: Some(vec!["name".to_string()]),
        filter: filter.map(|f| f.to_string()),
        show_ranking_score: true,
        show_ranking_score_details: false,
        embedder: Some("default".to_string()),
    }
}

#[test]
fn similar_query_from_the_parameters() {
    let id = Some(ExternalDocumentId::new("doc-1".to_string()));
    let q = SimilarQuery::try_from(get(None), id).unwrap();
    assert_eq!(q.id.as_ref(), "doc-1");
    assert_eq!((q.offset, q.limit), (2, 5));
    assert!(q.filter.is_none());
    assert_eq!(q.embedder.as_deref(), Some("default"));
    assert_eq!(q.attributes_to_retrieve, Some(vec!["name".to_string()]));
    assert!(q.show_ranking_score && !q.show_ranking_score_details);

    // a filter that is no JSON is taken as an expression
    let id = Some(ExternalDocumentId::new("doc-1".to_string()));
    let q = SimilarQuery::try_from(get(Some("age > 3")), id).unwrap();
    assert!(same(q.filter.as_ref().unwrap(), &s("age > 3")));

    // a filter that is JSON is the value that was written
    let id = Some(ExternalDocumentId::new("doc-1".to_string()));
    let q = SimilarQuery::try_from(get(Some("[\"age > 3\", [\"a = 1\", \"b = 2\"]]")), id).unwrap();
    assert!(same(
        q.filter.as_ref().unwrap(),
        &Value::Array(vec![s("age > 3"), Value::Array(vec![s("a = 1"), s("b = 2")])])
    ));
    let id = Some(ExternalDocumentId::new("doc-1".to_string()));
    let q = SimilarQuery::try_from(get(Some("\"age > 3\"")), id).unwrap();
    assert!(same(q.filter.as_ref().unwrap(), &s("age > 3")));
    let id = Some(ExternalDocumentId::new("doc-1".to_string()));
    let q = SimilarQuery::try_from(get(Some("42")), id).unwrap();
    assert!(same(q.filter.as_ref().unwrap(), &Value::from(42)));
    let id = Some(ExternalDocumentId::new("doc-1".to_string()));
    let q = SimilarQuery::try_from(get(Some("[\"age > 3\"")), id).unwrap();
    assert!(same(q.filter.as_ref().unwrap(), &s("[\"age > 3\"")));

    assert_eq!(SimilarQuery::try_from(get(None), None).unwrap_err(), InvalidSimilarId);
    assert_eq!(
        SimilarQuery::try_from(get(Some("age > 3")), None).unwrap_err(),
        InvalidSimilarId
    );
}

#[test]
fn similar_query_from_its_parts() {
    let id = Some(ExternalDocumentId::new("doc-1".to_string()));
    let q = SimilarQuery::from_parts(get(Some("age > 3")), None, id).unwrap();
    assert!(same(q.filter.as_ref().unwrap(), &s("age > 3")));
    let id = Some(ExternalDocumentId::new("doc-1".to_string()));
    let q = SimilarQuery::from_parts(get(Some("7")), Some(Value::from(7)), id).unwrap();
    assert!(same(q.filter.as_ref().unwrap(), &Value::from(7)));
    assert_eq!((q.offset, q.limit), (2, 5));
    let id = Some(ExternalDocumentId::new("doc-1".to_string()));
    let q = SimilarQuery::from_parts(get(None), None, id).unwrap();
    assert!(q.filter.is_none());
    assert_eq!(
        SimilarQuery::from_parts(get(Some("7")), Some(Value::from(7)), None).unwrap_err(),
        InvalidSimilarId
    );
}

#[test]
fn rules_keep_a_nested_value_whole() {
    let value = json(r#"{"a": [null, false], "b": 1.5e3, "c": {"d": "e"}}"#);
    let mut filter = Some(Value::Array(vec![value.clone()]));
    add_search_rules(&mut filter, IndexSearchRules { filter: Some(value.clone()) });
    assert!(same(filter.as_ref().unwrap(), &Value::Array(vec![value.clone(), value])));
}

#[test]
fn message_of_a_filter_that_is_out_of_place() {
    let e = parse_filter(&Value::from(42)).unwrap_err();
    assert_eq!(
        e.message().unwrap(),
        "Invalid syntax for the filter parameter: `expected String, Array, found: 42`."
    );
    let e = parse_filter(&json(r#"[["a = 1", 3]]"#)).unwrap_err();
    assert_eq!(
        e.message().unwrap(),
        "Invalid syntax for the filter parameter: `expected String, found: 3`."
    );
    let e = parse_filter(&json(r#"["a = 1", {"b": true}]"#)).unwrap_err();
    assert_eq!(
        e.message().unwrap(),
        "Invalid syntax for the filter parameter: `expected String, [String], found: {\"b\":true}`."
    );
}
