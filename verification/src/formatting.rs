//! Which fields of a hit are highlighted and cropped: the options that a
//! request asks for, field by field.

use crate::text::text_order;
use std::collections::BTreeMap;
use vstd::prelude::*;
use vstd::string::*;

verus! {

pub type FieldId = u16;

/// How one field is formatted.
#[derive(Clone, Copy, Debug, PartialEq, Eq, Structural)]
pub struct FormatOptions {
    pub highlight: bool,
    pub crop: Option<usize>,
}

impl FormatOptions {
    /// The options of what lies inside an array or an object that is
    /// formatted with these options: it is highlighted as they say, and
    /// never cropped.
    pub open spec fn inside(self) -> FormatOptions {
        FormatOptions { highlight: self.highlight, crop: None }
    }

    /// The options of the items of an array and of the members of an
    /// object, where the array or the object has options at all.
    pub fn nested(options: Option<FormatOptions>) -> (r: Option<FormatOptions>)
        ensures
            r == (match options {
                Some(o) => Some(o.inside()),
                None => None,
            }),
    {
        match options {
            Some(o) => Some(FormatOptions { highlight: o.highlight, crop: None }),
            None => None,
        }
    }
}

/// One field of an index: its identifier and its name.
#[derive(Debug)]
pub struct Field {
    pub id: FieldId,
    pub name: String,
}

/// The fields of an index.
#[derive(Debug)]
pub struct FieldsIdsMap {
    pub fields: Vec<Field>,
}

/// The identifier of the first field of this name.
pub open spec fn id_of(fields: Seq<Field>, name: Seq<char>) -> Option<FieldId>
    decreases fields.len(),
{
    if fields.len() == 0 {
        None
    } else if fields[0].name@ == name {
        Some(fields[0].id)
    } else {
        id_of(fields.drop_first(), name)
    }
}

impl FieldsIdsMap {
    /// The identifier of a field.
    pub fn id(&self, name: &str) -> (r: Option<FieldId>)
        ensures
            r == id_of(self.fields@, name@),
    {
        let mut i: usize = 0;
        proof {
            assert(self.fields@.skip(0) =~= self.fields@);
        }
        while i < self.fields.len()
            invariant
                i <= self.fields@.len(),
                id_of(self.fields@, name@) == id_of(self.fields@.skip(i as int), name@),
            decreases self.fields.len() - i,
        {
            proof {
                assert(self.fields@.skip(i as int)[0] == self.fields@[i as int]);
                assert(self.fields@.skip(i as int).drop_first() =~= self.fields@.skip(i + 1));
            }
            if text_order(self.fields[i].name.as_str(), name) == 0 {
                return Some(self.fields[i].id);
            }
            i = i + 1;
        }
        None
    }
}

/// Whether a list of identifiers holds one.
fn holds(ids: &Vec<FieldId>, id: FieldId) -> (b: bool)
    ensures
        b == ids@.contains(id),
{
    let mut i: usize = 0;
    while i < ids.len()
        invariant
            i <= ids@.len(),
            forall|j: int| 0 <= j < i ==> ids@[j] != id,
        decreases ids.len() - i,
    {
        if ids[i] == id {
            return true;
        }
        i = i + 1;
    }
    false
}

/// The first `k + 1` items of a list hold what the first `k` hold, and the
/// item at `k`.
proof fn lemma_take_contains(ids: Seq<FieldId>, k: int, x: FieldId)
    requires
        0 <= k < ids.len(),
    ensures
        ids.take(k + 1).contains(x) == (ids.take(k).contains(x) || ids[k] == x),
        ids.take(ids.len() as int) == ids,
        !ids.take(0).contains(x),
{
    let next = ids.take(k + 1);
    let done = ids.take(k);
    assert(next[k] == ids[k]);
    if done.contains(x) {
        let j = choose|j: int| 0 <= j < done.len() && done[j] == x;
        assert(next[j] == x);
    }
    if next.contains(x) {
        let j = choose|j: int| 0 <= j < next.len() && next[j] == x;
        if j < k {
            assert(done[j] == x);
        }
    }
    assert(ids.take(ids.len() as int) =~= ids);
}

/// The options after the fields of `ids` have been cropped at a length:
/// each keeps its highlighting if it had options already.
pub open spec fn cropped_at(
    options: Map<FieldId, FormatOptions>,
    ids: Seq<FieldId>,
    len: usize,
) -> Map<FieldId, FormatOptions> {
    Map::new(
        |id: FieldId| options.contains_key(id) || ids.contains(id),
        |id: FieldId|
            if ids.contains(id) {
                FormatOptions {
                    highlight: if options.contains_key(id) {
                        options[id].highlight
                    } else {
                        false
                    },
                    crop: Some(len),
                }
            } else {
                options[id]
            },
    )
}

/// Whether one of the attributes is the star.
pub open spec fn has_star(attrs: Seq<String>) -> bool {
    exists|i: int| 0 <= i < attrs.len() && (#[trigger] attrs[i])@ == "*"@
}

/// Whether one of the attributes names the field.
pub open spec fn names_field(attrs: Seq<String>, fields: Seq<Field>, id: FieldId) -> bool {
    exists|i: int| 0 <= i < attrs.len() && id_of(fields, (#[trigger] attrs[i])@) == Some(id)
}

/// The fields to highlight: the displayed fields that the attributes name,
/// and all the displayed fields where one of the attributes is the star.
/// The order of the attributes does not matter.
pub open spec fn highlighted(
    attrs: Seq<String>,
    fields: Seq<Field>,
    displayed: Seq<FieldId>,
) -> Set<FieldId> {
    Set::new(
        |id: FieldId| displayed.contains(id) && (has_star(attrs) || names_field(attrs, fields, id)),
    )
}

/// The options after the fields of `marked` have been set to be highlighted
/// and not cropped.
pub open spec fn with_highlights(
    options: Map<FieldId, FormatOptions>,
    marked: Set<FieldId>,
) -> Map<FieldId, FormatOptions> {
    Map::new(
        |id: FieldId| options.contains_key(id) || marked.contains(id),
        |id: FieldId|
            if marked.contains(id) {
                FormatOptions { highlight: true, crop: None }
            } else {
                options[id]
            },
    )
}

/// Sets the fields that the attributes name to be highlighted.
pub fn add_highlight_to_formatted_options(
    formatted_options: &mut BTreeMap<FieldId, FormatOptions>,
    attr_to_highlight: &Vec<String>,
    fields_ids_map: &FieldsIdsMap,
    displayed_ids: &Vec<FieldId>,
)
    ensures
        final(formatted_options)@ == with_highlights(
            old(formatted_options)@,
            highlighted(attr_to_highlight@, fields_ids_map.fields@, displayed_ids@),
        ),
{
    let ghost start = formatted_options@;
    let ghost attrs = attr_to_highlight@;
    let ghost fields = fields_ids_map.fields@;
    let ghost displayed = displayed_ids@;
    let new_format = FormatOptions { highlight: true, crop: None };
    let mut i: usize = 0;
    proof {
        assert(formatted_options@ =~= with_highlights(
            start,
            Set::new(|id: FieldId| displayed.contains(id) && names_field(attrs.take(0), fields, id)),
        ));
    }
    while i < attr_to_highlight.len()
        invariant
            i <= attrs.len(),
            attrs == attr_to_highlight@,
            fields == fields_ids_map.fields@,
            displayed == displayed_ids@,
            new_format == (FormatOptions { highlight: true, crop: None }),
            start == old(formatted_options)@,
            !has_star(attrs.take(i as int)),
            formatted_options@ == with_highlights(
                start,
                Set::new(
                    |id: FieldId|
                        displayed.contains(id) && names_field(attrs.take(i as int), fields, id),
                ),
            ),
        decreases attrs.len() - i,
    {
        let attr = &attr_to_highlight[i];
        let ghost before = formatted_options@;
        let ghost named = Set::new(
            |id: FieldId| displayed.contains(id) && names_field(attrs.take(i as int), fields, id),
        );
        if text_order(attr.as_str(), "*") == 0 {
            let mut k: usize = 0;
            proof {
                assert(formatted_options@ =~= with_highlights(
                    before,
                    displayed.take(0).to_set(),
                ));
            }
            while k < displayed_ids.len()
                invariant
                    k <= displayed.len(),
                    displayed == displayed_ids@,
                    new_format == (FormatOptions { highlight: true, crop: None }),
                    start == old(formatted_options)@,
                    formatted_options@ == with_highlights(
                        before,
                        displayed.take(k as int).to_set(),
                    ),
                decreases displayed.len() - k,
            {
                let _ = formatted_options.insert(displayed_ids[k], new_format);
                proof {
                    assert forall|id: FieldId|
                        displayed.take(k + 1).to_set().contains(id) == (displayed.take(
                            k as int,
                        ).to_set().contains(id) || displayed[k as int] == id) by {
                        lemma_take_contains(displayed, k as int, id);
                    }
                    assert(formatted_options@ =~= with_highlights(
                        before,
                        displayed.take(k + 1).to_set(),
                    ));
                }
                k = k + 1;
            }
            proof {
                assert(displayed.take(displayed.len() as int) =~= displayed);
                assert(attrs[i as int]@ == "*"@);
                assert(has_star(attrs));
                let all = highlighted(attrs, fields, displayed);
                assert forall|id: FieldId| #[trigger] all.contains(id) == displayed.contains(id) by {}
                assert forall|id: FieldId| named.contains(id) implies displayed.contains(id) by {}
                assert(formatted_options@ =~= with_highlights(start, all));
            }
            return ;
        }
        match fields_ids_map.id(attr.as_str()) {
            Some(id) => {
                if holds(displayed_ids, id) {
                    let _ = formatted_options.insert(id, new_format);
                }
            },
            None => {},
        }
        proof {
            let next = attrs.take(i + 1);
            let done = attrs.take(i as int);
            assert(next[i as int] == attrs[i as int]);
            assert forall|j: int| 0 <= j < done.len() implies next[j] == done[j] by {}
            assert(!has_star(next)) by {
                if has_star(next) {
                    let j = choose|j: int| 0 <= j < next.len() && (#[trigger] next[j])@ == "*"@;
                    if j < i {
                        assert(done[j]@ == "*"@);
                    }
                }
            }
            let named_next = Set::new(
                |id: FieldId| displayed.contains(id) && names_field(next, fields, id),
            );
            assert forall|id: FieldId| named_next.contains(id) == (named.contains(id) || (
            displayed.contains(id) && id_of(fields, attrs[i as int]@) == Some(id))) by {
                if names_field(done, fields, id) {
                    let j = choose|j: int|
                        0 <= j < done.len() && id_of(fields, (#[trigger] done[j])@) == Some(id);
                    assert(id_of(fields, next[j]@) == Some(id));
                }
                if names_field(next, fields, id) {
                    let j = choose|j: int|
                        0 <= j < next.len() && id_of(fields, (#[trigger] next[j])@) == Some(id);
                    if j < i {
                        assert(id_of(fields, done[j]@) == Some(id));
                    }
                }
                if id_of(fields, attrs[i as int]@) == Some(id) {
                    assert(id_of(fields, next[i as int]@) == Some(id));
                }
            }
            assert(formatted_options@ =~= with_highlights(start, named_next));
        }
        i = i + 1;
    }
    proof {
        assert(attrs.take(attrs.len() as int) =~= attrs);
        let all = highlighted(attrs, fields, displayed);
        let named = Set::new(
            |id: FieldId| displayed.contains(id) && names_field(attrs, fields, id),
        );
        assert(all =~= named);
    }
}

/// The place of the last colon of a text.
pub open spec fn last_colon(s: Seq<char>) -> Option<int>
    decreases s.len(),
{
    if s.len() == 0 {
        None
    } else if s.last() == ':' {
        Some(s.len() - 1)
    } else {
        last_colon(s.drop_last())
    }
}

/// The value of a decimal digit.
pub open spec fn digit_value(c: char) -> Option<nat> {
    if c == '0' {
        Some(0)
    } else if c == '1' {
        Some(1)
    } else if c == '2' {
        Some(2)
    } else if c == '3' {
        Some(3)
    } else if c == '4' {
        Some(4)
    } else if c == '5' {
        Some(5)
    } else if c == '6' {
        Some(6)
    } else if c == '7' {
        Some(7)
    } else if c == '8' {
        Some(8)
    } else if c == '9' {
        Some(9)
    } else {
        None
    }
}

/// The number that decimal digits write; nothing where one of the
/// characters is no digit.
pub open spec fn digits_value(s: Seq<char>) -> Option<nat>
    decreases s.len(),
{
    if s.len() == 0 {
        Some(0)
    } else {
        match (digits_value(s.drop_last()), digit_value(s.last())) {
            (Some(v), Some(d)) => Some(10 * v + d),
            _ => None,
        }
    }
}

/// The number that a text is: decimal digits, at least one, with a plus
/// sign before them or without, that write a number which fits.
pub open spec fn parsed_usize(s: Seq<char>) -> Option<usize> {
    let digits = if s.len() > 0 && s[0] == '+' {
        s.drop_first()
    } else {
        s
    };
    if digits.len() == 0 {
        None
    } else {
        match digits_value(digits) {
            Some(v) => if v <= usize::MAX {
                Some(v as usize)
            } else {
                None
            },
            None => None,
        }
    }
}

/// A text that is a number is one all along, and the number that it
/// begins with is no greater than the number that it is.
proof fn lemma_digits_prefix(s: Seq<char>, n: int)
    requires
        0 <= n <= s.len(),
    ensures
        digits_value(s.take(n)) is None ==> digits_value(s) is None,
        digits_value(s) is Some ==> digits_value(s.take(n))->0 <= digits_value(s)->0,
    decreases s.len() - n,
{
    if n < s.len() {
        assert(s.take(n + 1).drop_last() =~= s.take(n));
        lemma_digits_prefix(s, n + 1);
    } else {
        assert(s.take(n) =~= s);
    }
}

/// The value of a decimal digit.
fn digit_of(c: char) -> (r: Option<u8>)
    ensures
        match r {
            Some(d) => digit_value(c) == Some(d as nat) && d < 10,
            None => digit_value(c) is None,
        },
{
    if c == '0' {
        Some(0)
    } else if c == '1' {
        Some(1)
    } else if c == '2' {
        Some(2)
    } else if c == '3' {
        Some(3)
    } else if c == '4' {
        Some(4)
    } else if c == '5' {
        Some(5)
    } else if c == '6' {
        Some(6)
    } else if c == '7' {
        Some(7)
    } else if c == '8' {
        Some(8)
    } else if c == '9' {
        Some(9)
    } else {
        None
    }
}

/// Reads a number.
pub fn parse_usize(s: &str) -> (r: Option<usize>)
    ensures
        r == parsed_usize(s@),
{
    let n = s.unicode_len();
    let start: usize = if n > 0 && s.get_char(0) == '+' {
        1
    } else {
        0
    };
    if start == n {
        return None;
    }
    let digits = s.substring_char(start, n);
    let ghost d = digits@;
    proof {
        if start == 1 {
            assert(d =~= s@.drop_first());
        } else {
            assert(d =~= s@);
        }
        assert(d.take(0).len() == 0);
    }
    let m = n - start;
    let mut value: usize = 0;
    let mut i: usize = 0;
    let ghost want = parsed_usize(s@);
    while i < m
        invariant
            i <= m,
            m == d.len(),
            m > 0,
            d == digits@,
            want == parsed_usize(s@),
            want == (match digits_value(d) {
                Some(v) => if v <= usize::MAX {
                    Some(v as usize)
                } else {
                    None
                },
                None => None,
            }),
            digits_value(d.take(i as int)) == Some(value as nat),
        decreases m - i,
    {
        proof {
            assert(d.take(i + 1).drop_last() =~= d.take(i as int));
            assert(d.take(i + 1).last() == d[i as int]);
            lemma_digits_prefix(d, i + 1);
        }
        let digit = match digit_of(digits.get_char(i)) {
            Some(digit) => digit,
            None => {
                proof {
                    assert(digits_value(d.take(i + 1)) is None);
                }
                return None;
            },
        };
        proof {
            assert(digits_value(d.take(i + 1)) == Some((10 * value + digit) as nat));
        }
        if value > (usize::MAX - digit as usize) / 10 {
            proof {
                assert(10 * value + digit > usize::MAX);
            }
            return None;
        }
        value = 10 * value + digit as usize;
        i = i + 1;
    }
    proof {
        assert(d.take(d.len() as int) =~= d);
    }
    Some(value)
}

/// The field and the length of an attribute to crop. An attribute is the
/// name of a field, or the name, a colon and a length; the last colon
/// counts. Without a length, or with one that is no number, the length of
/// the request is taken.
pub open spec fn crop_target(attr: Seq<char>, crop_length: usize) -> (Seq<char>, usize) {
    match last_colon(attr) {
        Some(at) => (
            attr.subrange(0, at),
            match parsed_usize(attr.subrange(at + 1, attr.len() as int)) {
                Some(n) => n,
                None => crop_length,
            },
        ),
        None => (attr, crop_length),
    }
}

/// The place of the last colon of a text, which lies within the text.
proof fn lemma_last_colon(s: Seq<char>)
    ensures
        match last_colon(s) {
            Some(at) => 0 <= at < s.len() && s[at] == ':' && forall|j: int|
                at < j < s.len() ==> s[j] != ':',
            None => forall|j: int| 0 <= j < s.len() ==> s[j] != ':',
        },
    decreases s.len(),
{
    if s.len() > 0 && s.last() != ':' {
        let rest = s.drop_last();
        lemma_last_colon(rest);
        match last_colon(rest) {
            Some(at) => {
                assert(rest[at] == s[at]);
                assert forall|j: int| at < j < s.len() implies s[j] != ':' by {
                    if j < rest.len() {
                        assert(rest[j] == s[j]);
                    }
                }
            },
            None => {
                assert forall|j: int| 0 <= j < s.len() implies s[j] != ':' by {
                    if j < rest.len() {
                        assert(rest[j] == s[j]);
                    }
                }
            },
        }
    }
}

/// The place of the last colon of a text is the one behind which no colon
/// stands.
proof fn lemma_last_colon_is(s: Seq<char>, at: int)
    requires
        0 <= at < s.len(),
        s[at] == ':',
        forall|j: int| at < j < s.len() ==> s[j] != ':',
    ensures
        last_colon(s) == Some(at),
    decreases s.len(),
{
    if s.len() - 1 > at {
        let rest = s.drop_last();
        assert(rest[at] == s[at]);
        assert forall|j: int| at < j < rest.len() implies rest[j] != ':' by {
            assert(rest[j] == s[j]);
        }
        lemma_last_colon_is(rest, at);
    }
}

/// Splits an attribute to crop into its field and its length.
fn split_crop_attribute(attr: &str, crop_length: usize) -> (r: (String, usize))
    ensures
        (r.0@, r.1) == crop_target(attr@, crop_length),
{
    let n = attr.unicode_len();
    let mut i: usize = n;
    while i > 0
        invariant
            i <= n,
            n == attr@.len(),
            forall|j: int| i <= j < n ==> attr@[j] != ':',
        decreases i,
    {
        i = i - 1;
        if attr.get_char(i) == ':' {
            proof {
                lemma_last_colon_is(attr@, i as int);
            }
            let name = attr.substring_char(0, i);
            let len = attr.substring_char(i + 1, n);
            let crop_len = match parse_usize(len) {
                Some(n) => n,
                None => crop_length,
            };
            return (name.to_owned(), crop_len);
        }
    }
    proof {
        lemma_last_colon(attr@);
    }
    (attr.to_owned(), crop_length)
}

/// Whether an attribute to crop is about a field: it is about the displayed
/// fields that it names, and about all of them where it is the star.
pub open spec fn crops(
    name: Seq<char>,
    fields: Seq<Field>,
    displayed: Seq<FieldId>,
    id: FieldId,
) -> bool {
    displayed.contains(id) && (name == "*"@ || id_of(fields, name) == Some(id))
}

/// The options after one attribute to crop has been applied: each field
/// that it is about is cropped at its length, and keeps its highlighting if
/// it had options already.
pub open spec fn with_crop(
    options: Map<FieldId, FormatOptions>,
    name: Seq<char>,
    len: usize,
    fields: Seq<Field>,
    displayed: Seq<FieldId>,
) -> Map<FieldId, FormatOptions> {
    Map::new(
        |id: FieldId| options.contains_key(id) || crops(name, fields, displayed, id),
        |id: FieldId|
            if crops(name, fields, displayed, id) {
                FormatOptions {
                    highlight: if options.contains_key(id) {
                        options[id].highlight
                    } else {
                        false
                    },
                    crop: Some(len),
                }
            } else {
                options[id]
            },
    )
}

/// The options after the attributes to crop have been applied in their
/// order: for a field that several of them are about, the last one counts.
pub open spec fn with_crops(
    options: Map<FieldId, FormatOptions>,
    attrs: Seq<String>,
    crop_length: usize,
    fields: Seq<Field>,
    displayed: Seq<FieldId>,
) -> Map<FieldId, FormatOptions>
    decreases attrs.len(),
{
    if attrs.len() == 0 {
        options
    } else {
        let target = crop_target(attrs.last()@, crop_length);
        with_crop(
            with_crops(options, attrs.drop_last(), crop_length, fields, displayed),
            target.0,
            target.1,
            fields,
            displayed,
        )
    }
}

/// Crops one field at a length.
fn crop_field(formatted_options: &mut BTreeMap<FieldId, FormatOptions>, id: FieldId, len: usize)
    ensures
        final(formatted_options)@ == old(formatted_options)@.insert(
            id,
            FormatOptions {
                highlight: if old(formatted_options)@.contains_key(id) {
                    old(formatted_options)@[id].highlight
                } else {
                    false
                },
                crop: Some(len),
            },
        ),
{
    let highlight = match formatted_options.get(&id) {
        Some(f) => f.highlight,
        None => false,
    };
    let _ = formatted_options.insert(id, FormatOptions { highlight, crop: Some(len) });
}

/// Sets the fields that the attributes name to be cropped.
pub fn add_crop_to_formatted_options(
    formatted_options: &mut BTreeMap<FieldId, FormatOptions>,
    attr_to_crop: &Vec<String>,
    crop_length: usize,
    fields_ids_map: &FieldsIdsMap,
    displayed_ids: &Vec<FieldId>,
)
    ensures
        final(formatted_options)@ == with_crops(
            old(formatted_options)@,
            attr_to_crop@,
            crop_length,
            fields_ids_map.fields@,
            displayed_ids@,
        ),
{
    let ghost start = formatted_options@;
    let ghost attrs = attr_to_crop@;
    let ghost fields = fields_ids_map.fields@;
    let ghost displayed = displayed_ids@;
    let mut i: usize = 0;
    proof {
        assert(attrs.take(0).len() == 0);
    }
    while i < attr_to_crop.len()
        invariant
            i <= attrs.len(),
            attrs == attr_to_crop@,
            fields == fields_ids_map.fields@,
            displayed == displayed_ids@,
            start == old(formatted_options)@,
            formatted_options@ == with_crops(start, attrs.take(i as int), crop_length, fields, displayed),
        decreases attrs.len() - i,
    {
        proof {
            assert(attrs.take(i + 1).drop_last() =~= attrs.take(i as int));
            assert(attrs.take(i + 1).last() == attrs[i as int]);
        }
        let (attr_name, attr_len) = split_crop_attribute(attr_to_crop[i].as_str(), crop_length);
        let ghost before = formatted_options@;
        let star = text_order(attr_name.as_str(), "*") == 0;
        let mut k: usize = 0;
        proof {
            assert(formatted_options@ =~= cropped_at(before, displayed.take(0), attr_len));
        }
        while star && k < displayed_ids.len()
            invariant
                k <= displayed.len(),
                !star ==> k == 0,
                displayed == displayed_ids@,
                formatted_options@ == cropped_at(before, displayed.take(k as int), attr_len),
            decreases displayed.len() - k,
        {
            crop_field(formatted_options, displayed_ids[k], attr_len);
            proof {
                assert forall|id: FieldId|
                    displayed.take(k + 1).contains(id) == (displayed.take(k as int).contains(id)
                        || displayed[k as int] == id) by {
                    lemma_take_contains(displayed, k as int, id);
                }
                assert(formatted_options@ =~= cropped_at(
                    before,
                    displayed.take(k + 1),
                    attr_len,
                ));
            }
            k = k + 1;
        }
        let ghost mid = formatted_options@;
        proof {
            assert(displayed.take(displayed.len() as int) =~= displayed);
            assert(star ==> mid == cropped_at(before, displayed, attr_len));
            if !star {
                assert(displayed.take(0).len() == 0);
                assert(cropped_at(before, displayed.take(0), attr_len) =~= before);
            }
        }
        let ghost want = with_crop(before, attr_name@, attr_len, fields, displayed);
        let ghost named = id_of(fields, attr_name@);
        proof {
            assert(star == (attr_name@ == "*"@));
            assert forall|id: FieldId| crops(attr_name@, fields, displayed, id) == (
            displayed.contains(id) && (star || named == Some(id))) by {}
        }
        let target = match fields_ids_map.id(attr_name.as_str()) {
            Some(id) => if holds(displayed_ids, id) {
                Some(id)
            } else {
                None
            },
            None => None,
        };
        match target {
            Some(id) => {
                crop_field(formatted_options, id, attr_len);
                proof {
                    let after = formatted_options@;
                    assert forall|x: FieldId| after.contains_key(x) == want.contains_key(x) by {
                        assert(after.contains_key(x) == (mid.contains_key(x) || x == id));
                    }
                    assert forall|x: FieldId| after.contains_key(x) implies after[x] == want[x] by {
                        if x != id {
                            assert(after[x] == mid[x]);
                        }
                    }
                    assert(after =~= want);
                }
            },
            None => {
                proof {
                    assert forall|x: FieldId| mid.contains_key(x) == want.contains_key(x) by {}
                    assert forall|x: FieldId| mid.contains_key(x) implies mid[x] == want[x] by {}
                    assert(mid =~= want);
                }
            },
        }
        i = i + 1;
    }
    proof {
        assert(attrs.take(attrs.len() as int) =~= attrs);
    }
}

/// The options after each field of `ids` that had none has been given the
/// options of a field that is neither highlighted nor cropped.
pub open spec fn with_plain(
    options: Map<FieldId, FormatOptions>,
    ids: Seq<FieldId>,
) -> Map<FieldId, FormatOptions> {
    Map::new(
        |id: FieldId| options.contains_key(id) || ids.contains(id),
        |id: FieldId|
            if options.contains_key(id) {
                options[id]
            } else {
                FormatOptions { highlight: false, crop: None }
            },
    )
}

/// Gives the fields to retrieve that have no options the options of a
/// field that is neither highlighted nor cropped.
pub fn add_non_formatted_ids_to_formatted_options(
    formatted_options: &mut BTreeMap<FieldId, FormatOptions>,
    to_retrieve_ids: &Vec<FieldId>,
)
    ensures
        final(formatted_options)@ == with_plain(old(formatted_options)@, to_retrieve_ids@),
{
    let ghost start = formatted_options@;
    let ghost ids = to_retrieve_ids@;
    let mut i: usize = 0;
    proof {
        assert(formatted_options@ =~= with_plain(start, ids.take(0)));
    }
    while i < to_retrieve_ids.len()
        invariant
            i <= ids.len(),
            ids == to_retrieve_ids@,
            start == old(formatted_options)@,
            formatted_options@ == with_plain(start, ids.take(i as int)),
        decreases ids.len() - i,
    {
        let id = to_retrieve_ids[i];
        if !formatted_options.contains_key(&id) {
            let _ = formatted_options.insert(id, FormatOptions { highlight: false, crop: None });
        }
        proof {
            let next = ids.take(i + 1);
            let done = ids.take(i as int);
            assert(next[i as int] == id);
            assert forall|x: FieldId| next.contains(x) == (done.contains(x) || x == id) by {
                if done.contains(x) {
                    let j = choose|j: int| 0 <= j < done.len() && done[j] == x;
                    assert(next[j] == x);
                }
                if next.contains(x) {
                    let j = choose|j: int| 0 <= j < next.len() && next[j] == x;
                    if j < i {
                        assert(done[j] == x);
                    }
                }
            }
            assert(formatted_options@ =~= with_plain(start, next));
        }
        i = i + 1;
    }
    proof {
        assert(ids.take(ids.len() as int) =~= ids);
    }
}

/// The options of every field that a request formats: the fields to
/// highlight, then the fields to crop; and, if there is any such field,
/// every other field to retrieve as well, unformatted. Without a field to
/// highlight or to crop there are no options at all.
pub open spec fn formatted_options(
    attr_to_highlight: Seq<String>,
    attr_to_crop: Seq<String>,
    query_crop_length: usize,
    to_retrieve_ids: Seq<FieldId>,
    fields: Seq<Field>,
    displayed_ids: Seq<FieldId>,
) -> Map<FieldId, FormatOptions> {
    let formatted = with_crops(
        with_highlights(Map::empty(), highlighted(attr_to_highlight, fields, displayed_ids)),
        attr_to_crop,
        query_crop_length,
        fields,
        displayed_ids,
    );
    if formatted.is_empty() {
        formatted
    } else {
        with_plain(formatted, to_retrieve_ids)
    }
}

/// The options of every field that a request formats.
pub fn compute_formatted_options(
    attr_to_highlight: &Vec<String>,
    attr_to_crop: &Vec<String>,
    query_crop_length: usize,
    to_retrieve_ids: &Vec<FieldId>,
    fields_ids_map: &FieldsIdsMap,
    displayed_ids: &Vec<FieldId>,
) -> (r: BTreeMap<FieldId, FormatOptions>)
    ensures
        r@ == formatted_options(
            attr_to_highlight@,
            attr_to_crop@,
            query_crop_length,
            to_retrieve_ids@,
            fields_ids_map.fields@,
            displayed_ids@,
        ),
{
    let mut formatted_options = BTreeMap::new();

    add_highlight_to_formatted_options(
        &mut formatted_options,
        attr_to_highlight,
        fields_ids_map,
        displayed_ids,
    );

    add_crop_to_formatted_options(
        &mut formatted_options,
        attr_to_crop,
        query_crop_length,
        fields_ids_map,
        displayed_ids,
    );

    // Should not return `_formatted` if no valid attributes to highlight/crop
    if !formatted_options.is_empty() {
        add_non_formatted_ids_to_formatted_options(&mut formatted_options, to_retrieve_ids);
    }
    formatted_options
}

} // verus!
