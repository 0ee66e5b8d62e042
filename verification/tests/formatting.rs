use index_scheduler::formatting::{
    parse_usize,
    add_crop_to_formatted_options, add_highlight_to_formatted_options,
    add_non_formatted_ids_to_formatted_options, compute_formatted_options, Field, FieldsIdsMap,
    FormatOptions,
};
use std::collections::BTreeMap;

fn fields() -> FieldsIdsMap {
    FieldsIdsMap {
        fields: vec![
            Field { id: 0, name: "id".to_string() },
            Field { id: 1, name: "title".to_string() },
            Field { id: 2, name: "overview".to_string() },
            Field { id: 3, name: "secret".to_string() },
            Field { id: 4, name: "a:b".to_string() },
        ],
    }
}

fn strings(list: &[&str]) -> Vec<String> {
    list.iter().map(|s| s.to_string()).collect()
}

fn options(list: &[(u16, bool, Option<usize>)]) -> BTreeMap<u16, FormatOptions> {
    list.iter().map(|(id, highlight, crop)| (*id, FormatOptions { highlight: *highlight, crop: *crop })).collect()
}

#[test]
fn id_of_a_field() {
    let f = fields();
    assert_eq!(f.id("title"), Some(1));
    assert_eq!(f.id("a:b"), Some(4));
    assert_eq!(f.id("Title"), None);
    assert_eq!(f.id("*"), None);
}

#[test]
fn highlight_named_and_displayed_fields() {
    let displayed = vec![0, 1, 2, 4];
    let mut m = BTreeMap::new();
    add_highlight_to_formatted_options(&mut m, &strings(&["title", "secret", "nope"]), &fields(), &displayed);
    assert_eq!(m, options(&[(1, true, None)]));

    let mut m = options(&[(2, false, Some(5)), (1, false, Some(3))]);
    add_highlight_to_formatted_options(&mut m, &strings(&["title"]), &fields(), &displayed);
    assert_eq!(m, options(&[(1, true, None), (2, false, Some(5))]));

    // the star stands for every displayed field, wherever it stands
    for attrs in [&["*", "secret"][..], &["title", "*"], &["secret", "*", "overview"]] {
        let mut m = BTreeMap::new();
        add_highlight_to_formatted_options(&mut m, &strings(attrs), &fields(), &displayed);
        assert_eq!(m, options(&[(0, true, None), (1, true, None), (2, true, None), (4, true, None)]));
    }
    let mut m = BTreeMap::new();
    add_highlight_to_formatted_options(&mut m, &strings(&[]), &fields(), &displayed);
    assert!(m.is_empty());
}

#[test]
fn crop_with_the_length_of_the_attribute_or_of_the_request() {
    let displayed = vec![0, 1, 2, 4];
    let mut m = BTreeMap::new();
    add_crop_to_formatted_options(&mut m, &strings(&["title", "overview:5", "secret:2"]), 10, &fields(), &displayed);
    assert_eq!(m, options(&[(1, false, Some(10)), (2, false, Some(5))]));

    // a length that is no number gives way to the length of the request
    let mut m = BTreeMap::new();
    add_crop_to_formatted_options(&mut m, &strings(&["overview:many", "title:", "id:-3"]), 10, &fields(), &displayed);
    assert_eq!(m, options(&[(0, false, Some(10)), (1, false, Some(10)), (2, false, Some(10))]));

    // the last colon counts
    let mut m = BTreeMap::new();
    add_crop_to_formatted_options(&mut m, &strings(&["a:b:7"]), 10, &fields(), &displayed);
    assert_eq!(m, options(&[(4, false, Some(7))]));
    // without a length after it, the name itself is cut at its colon
    let mut m = BTreeMap::new();
    add_crop_to_formatted_options(&mut m, &strings(&["a:b"]), 10, &fields(), &displayed);
    assert!(m.is_empty());

    // a cropped field keeps its highlighting, and the last attribute counts
    let mut m = options(&[(1, true, None)]);
    add_crop_to_formatted_options(&mut m, &strings(&["title:3", "*:8", "overview:2"]), 10, &fields(), &displayed);
    assert_eq!(
        m,
        options(&[(0, false, Some(8)), (1, true, Some(8)), (2, false, Some(2)), (4, false, Some(8))])
    );
    let mut m = BTreeMap::new();
    add_crop_to_formatted_options(&mut m, &strings(&["*", "title:0"]), 10, &fields(), &vec![1, 2]);
    assert_eq!(m, options(&[(1, false, Some(0)), (2, false, Some(10))]));
}

#[test]
fn other_fields_are_kept_unformatted() {
    let mut m = options(&[(1, true, Some(3))]);
    add_non_formatted_ids_to_formatted_options(&mut m, &vec![2, 1, 0, 2]);
    assert_eq!(m, options(&[(0, false, None), (1, true, Some(3)), (2, false, None)]));
}

#[test]
fn formatted_options_of_a_request() {
    let displayed = vec![0, 1, 2];
    // nothing to highlight or crop: no options at all
    let m = compute_formatted_options(&strings(&[]), &strings(&[]), 10, &vec![0, 1], &fields(), &displayed);
    assert!(m.is_empty());
    let m = compute_formatted_options(&strings(&["secret"]), &strings(&["nope:3"]), 10, &vec![0, 1], &fields(), &displayed);
    assert!(m.is_empty());

    let m = compute_formatted_options(&strings(&["title"]), &strings(&["overview:4", "title"]), 10, &vec![0, 1], &fields(), &displayed);
    assert_eq!(m, options(&[(0, false, None), (1, true, Some(10)), (2, false, Some(4))]));

    let m = compute_formatted_options(&strings(&["*"]), &strings(&[]), 10, &vec![], &fields(), &displayed);
    assert_eq!(m, options(&[(0, true, None), (1, true, None), (2, true, None)]));
}

#[test]
fn what_lies_inside_is_not_cropped() {
    assert_eq!(FormatOptions::nested(None), None);
    assert_eq!(
        FormatOptions::nested(Some(FormatOptions { highlight: true, crop: Some(3) })),
        Some(FormatOptions { highlight: true, crop: None })
    );
    assert_eq!(
        FormatOptions::nested(Some(FormatOptions { highlight: false, crop: None })),
        Some(FormatOptions { highlight: false, crop: None })
    );
}

#[test]
fn numbers_are_read_as_std_reads_them() {
    let huge = format!("{}0", usize::MAX);
    let max = usize::MAX.to_string();
    let over = format!("{}", usize::MAX as u128 + 1);
    for text in [
        "", "+", "0", "7", "007", "+5", "++5", "-5", "-0", "5+", " 5", "5 ", "1_000", "12a", "a12",
        "١٢", "4294967295", "4294967296", "18446744073709551615", "18446744073709551616",
        "99999999999999999999999999", huge.as_str(), max.as_str(), over.as_str(), "0000000000000000000000000000001",
    ] {
        assert_eq!(parse_usize(text), text.parse::<usize>().ok(), "{text:?}");
    }
    assert_eq!(parse_usize("42"), Some(42));
    assert_eq!(parse_usize("+0"), Some(0));
}
