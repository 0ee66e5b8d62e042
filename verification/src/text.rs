//! Text: the order of strings, and the building of text from numbers,
//! optional values and quoted strings, each with the exact sequence of
//! characters that it appends.

use vstd::prelude::*;
use vstd::string::*;
use vstd::utf8::{encode_utf8, encode_utf8_decode_utf8};

verus! {

/// The character of one decimal or hexadecimal digit.
pub open spec fn digit_text(d: nat) -> Seq<char> {
    if d == 0 {
        "0"@
    } else if d == 1 {
        "1"@
    } else if d == 2 {
        "2"@
    } else if d == 3 {
        "3"@
    } else if d == 4 {
        "4"@
    } else if d == 5 {
        "5"@
    } else if d == 6 {
        "6"@
    } else if d == 7 {
        "7"@
    } else if d == 8 {
        "8"@
    } else if d == 9 {
        "9"@
    } else if d == 10 {
        "a"@
    } else if d == 11 {
        "b"@
    } else if d == 12 {
        "c"@
    } else if d == 13 {
        "d"@
    } else if d == 14 {
        "e"@
    } else {
        "f"@
    }
}

/// A number in decimal, without leading zeros.
pub open spec fn decimal_text(n: nat) -> Seq<char>
    decreases n,
{
    if n < 10 {
        digit_text(n)
    } else {
        decimal_text(n / 10) + digit_text(n % 10)
    }
}

/// The lowest `width` hexadecimal digits of a number, most significant first.
pub open spec fn hex_text(n: nat, width: nat) -> Seq<char>
    decreases width,
{
    if width == 0 {
        Seq::<char>::empty()
    } else {
        hex_text(n / 16, (width - 1) as nat) + digit_text(n % 16)
    }
}

/// A 128-bit identifier in the hyphenated form of five groups of 8, 4, 4, 4
/// and 12 hexadecimal digits.
pub open spec fn uuid_text(id: u128) -> Seq<char> {
    hex_text((id / 0x1_0000_0000_0000_0000_0000_0000) as nat, 8) + "-"@ + hex_text(
        (id / 0x1_0000_0000_0000_0000_0000) as nat,
        4,
    ) + "-"@ + hex_text((id / 0x1_0000_0000_0000_0000) as nat, 4) + "-"@ + hex_text(
        (id / 0x1_0000_0000_0000) as nat,
        4,
    ) + "-"@ + hex_text(id as nat, 12)
}

/// `true` or `false`.
pub open spec fn bool_text(b: bool) -> Seq<char> {
    if b {
        "true"@
    } else {
        "false"@
    }
}

/// `None`, or `Some(..)` around the number in decimal.
pub open spec fn opt_decimal_text(n: Option<u64>) -> Seq<char> {
    match n {
        None => "None"@,
        Some(n) => "Some("@ + decimal_text(n as nat) + ")"@,
    }
}

/// What the formatter of std writes for a string slice under `{:?}`: the
/// text between double quotes, with its escapes.
pub uninterp spec fn debug_text(s: Seq<char>) -> Seq<char>;

/// `None`, or `Some(..)` around the quoted string.
pub open spec fn opt_debug_text(s: Option<String>) -> Seq<char> {
    match s {
        None => "None"@,
        Some(s) => "Some("@ + debug_text(s@) + ")"@,
    }
}

/// `format!("{:?}", s)` for a string slice. The result is named by
/// [`debug_text`]; nothing more is claimed of it.
#[verifier::external_body]
pub(crate) fn debug_string(s: &str) -> (r: String)
    ensures
        r@ == debug_text(s@),
{
    format!("{:?}", s)
}

/// The character of one digit.
fn digit_str(d: u8) -> (s: &'static str)
    requires
        d < 16,
    ensures
        s@ == digit_text(d as nat),
{
    if d == 0 {
        "0"
    } else if d == 1 {
        "1"
    } else if d == 2 {
        "2"
    } else if d == 3 {
        "3"
    } else if d == 4 {
        "4"
    } else if d == 5 {
        "5"
    } else if d == 6 {
        "6"
    } else if d == 7 {
        "7"
    } else if d == 8 {
        "8"
    } else if d == 9 {
        "9"
    } else if d == 10 {
        "a"
    } else if d == 11 {
        "b"
    } else if d == 12 {
        "c"
    } else if d == 13 {
        "d"
    } else if d == 14 {
        "e"
    } else {
        "f"
    }
}

/// Appends a number in decimal.
pub fn push_decimal(out: &mut String, n: u64)
    ensures
        final(out)@ == old(out)@ + decimal_text(n as nat),
    decreases n,
{
    if n >= 10 {
        push_decimal(out, n / 10);
    }
    out.append(digit_str((n % 10) as u8));
}

/// Appends the lowest `width` hexadecimal digits of a number.
pub fn push_hex(out: &mut String, n: u128, width: u8)
    ensures
        final(out)@ == old(out)@ + hex_text(n as nat, width as nat),
    decreases width,
{
    if width > 0 {
        push_hex(out, n / 16, width - 1);
        out.append(digit_str((n % 16) as u8));
    }
}

/// Appends a 128-bit identifier in its hyphenated form.
pub fn push_uuid(out: &mut String, id: u128)
    ensures
        final(out)@ == old(out)@ + uuid_text(id),
{
    push_hex(out, id / 0x1_0000_0000_0000_0000_0000_0000, 8);
    out.append("-");
    push_hex(out, id / 0x1_0000_0000_0000_0000_0000, 4);
    out.append("-");
    push_hex(out, id / 0x1_0000_0000_0000_0000, 4);
    out.append("-");
    push_hex(out, id / 0x1_0000_0000_0000, 4);
    out.append("-");
    push_hex(out, id, 12);
}

/// Appends `true` or `false`.
pub fn push_bool(out: &mut String, b: bool)
    ensures
        final(out)@ == old(out)@ + bool_text(b),
{
    if b {
        out.append("true");
    } else {
        out.append("false");
    }
}

/// Appends `None` or `Some(n)`.
pub fn push_opt_decimal(out: &mut String, n: Option<u64>)
    ensures
        final(out)@ == old(out)@ + opt_decimal_text(n),
{
    match n {
        None => {
            out.append("None");
        },
        Some(n) => {
            out.append("Some(");
            push_decimal(out, n);
            out.append(")");
        },
    }
}

/// Appends a string between double quotes, escaped as std's `{:?}` does.
pub fn push_debug(out: &mut String, s: &str)
    ensures
        final(out)@ == old(out)@ + debug_text(s@),
{
    let quoted = debug_string(s);
    out.append(quoted.as_str());
}

/// Appends `None` or `Some("..")`.
pub fn push_opt_debug(out: &mut String, s: &Option<String>)
    ensures
        final(out)@ == old(out)@ + opt_debug_text(*s),
{
    match s {
        None => {
            out.append("None");
        },
        Some(s) => {
            out.append("Some(");
            push_debug(out, s.as_str());
            out.append(")");
        },
    }
}

/// The lexicographic order of two lists of bytes.
pub open spec fn bytes_lt(a: Seq<u8>, b: Seq<u8>) -> bool
    decreases a.len(),
{
    if b.len() == 0 {
        false
    } else if a.len() == 0 {
        true
    } else if a[0] != b[0] {
        a[0] < b[0]
    } else {
        bytes_lt(a.drop_first(), b.drop_first())
    }
}

/// The order of two strings: the lexicographic order of their UTF-8
/// encodings, which is the order of their code points.
pub open spec fn text_lt(a: Seq<char>, b: Seq<char>) -> bool {
    bytes_lt(encode_utf8(a), encode_utf8(b))
}

/// No list of bytes comes before itself.
proof fn lemma_bytes_lt_irreflexive(a: Seq<u8>)
    ensures
        !bytes_lt(a, a),
    decreases a.len(),
{
    if a.len() > 0 {
        lemma_bytes_lt_irreflexive(a.drop_first());
    }
}

/// What comes before a list that comes before a third comes before the
/// third.
proof fn lemma_bytes_lt_transitive(a: Seq<u8>, b: Seq<u8>, c: Seq<u8>)
    requires
        bytes_lt(a, b),
        bytes_lt(b, c),
    ensures
        bytes_lt(a, c),
    decreases a.len(),
{
    if a.len() > 0 && a[0] == b[0] && b[0] == c[0] {
        lemma_bytes_lt_transitive(a.drop_first(), b.drop_first(), c.drop_first());
    }
}

/// Of two different lists of bytes one comes before the other.
proof fn lemma_bytes_lt_total(a: Seq<u8>, b: Seq<u8>)
    ensures
        bytes_lt(a, b) || bytes_lt(b, a) || a == b,
    decreases a.len(),
{
    if a.len() == 0 || b.len() == 0 {
        if a.len() == 0 && b.len() == 0 {
            assert(a =~= b);
        }
    } else if a[0] == b[0] {
        lemma_bytes_lt_total(a.drop_first(), b.drop_first());
        if a.drop_first() == b.drop_first() {
            assert(a =~= seq![a[0]] + a.drop_first());
            assert(b =~= seq![b[0]] + b.drop_first());
        }
    }
}

/// Two lists of bytes that agree on their first `n` bytes stand in the
/// order in which what follows stands.
proof fn lemma_bytes_lt_skip(a: Seq<u8>, b: Seq<u8>, n: int)
    requires
        0 <= n <= a.len(),
        n <= b.len(),
        forall|j: int| 0 <= j < n ==> a[j] == b[j],
    ensures
        bytes_lt(a, b) == bytes_lt(a.skip(n), b.skip(n)),
        (a == b) == (a.skip(n) == b.skip(n)),
    decreases n,
{
    if n == 0 {
        assert(a.skip(0) =~= a);
        assert(b.skip(0) =~= b);
    } else {
        let ra = a.drop_first();
        let rb = b.drop_first();
        assert forall|j: int| 0 <= j < n - 1 implies ra[j] == rb[j] by {
            assert(a[j + 1] == b[j + 1]);
        }
        lemma_bytes_lt_skip(ra, rb, n - 1);
        assert(ra.skip(n - 1) =~= a.skip(n));
        assert(rb.skip(n - 1) =~= b.skip(n));
        assert(a[0] == b[0]);
        if ra == rb {
            assert(a =~= seq![a[0]] + ra);
            assert(b =~= seq![b[0]] + rb);
        }
        if a == b {
            assert(ra =~= rb);
        }
    }
}

/// No string comes before itself.
pub proof fn lemma_text_lt_irreflexive(a: Seq<char>)
    ensures
        !text_lt(a, a),
{
    lemma_bytes_lt_irreflexive(encode_utf8(a));
}

/// What comes before a string that comes before a third comes before the
/// third.
pub proof fn lemma_text_lt_transitive(a: Seq<char>, b: Seq<char>, c: Seq<char>)
    requires
        text_lt(a, b),
        text_lt(b, c),
    ensures
        text_lt(a, c),
{
    lemma_bytes_lt_transitive(encode_utf8(a), encode_utf8(b), encode_utf8(c));
}

/// Two strings with the same encoding are the same string.
pub proof fn lemma_same_encoding(a: Seq<char>, b: Seq<char>)
    requires
        encode_utf8(a) == encode_utf8(b),
    ensures
        a == b,
{
    encode_utf8_decode_utf8(a);
    encode_utf8_decode_utf8(b);
}

/// Of two different strings one comes before the other.
pub proof fn lemma_text_lt_total(a: Seq<char>, b: Seq<char>)
    ensures
        text_lt(a, b) || text_lt(b, a) || a == b,
{
    lemma_bytes_lt_total(encode_utf8(a), encode_utf8(b));
    if encode_utf8(a) == encode_utf8(b) {
        lemma_same_encoding(a, b);
    }
}

/// `str::to_owned`: a string with the same text.
pub fn text_owned(s: &str) -> (r: String)
    ensures
        r@ == s@,
{
    s.to_owned()
}

/// -1 where `a` comes before `b`, 0 where they are the same text, 1 where
/// `b` comes before `a`.
pub fn text_order(a: &str, b: &str) -> (r: i8)
    ensures
        r == -1 || r == 0 || r == 1,
        r == -1 <==> text_lt(a@, b@),
        r == 0 <==> a@ == b@,
{
    let x = a.as_bytes();
    let y = b.as_bytes();
    let mut i: usize = 0;
    while i < x.len() && i < y.len()
        invariant
            i <= x@.len(),
            i <= y@.len(),
            x@ == encode_utf8(a@),
            y@ == encode_utf8(b@),
            forall|j: int| 0 <= j < i ==> x@[j] == y@[j],
        decreases x@.len() - i,
    {
        if x[i] != y[i] {
            proof {
                lemma_bytes_lt_skip(x@, y@, i as int);
                assert(x@.skip(i as int)[0] == x@[i as int]);
                assert(y@.skip(i as int)[0] == y@[i as int]);
                assert(x@.skip(i as int) != y@.skip(i as int));
            }
            if x[i] < y[i] {
                return -1;
            } else {
                return 1;
            }
        }
        i = i + 1;
    }
    proof {
        lemma_bytes_lt_skip(x@, y@, i as int);
        if x@ == y@ {
            lemma_same_encoding(a@, b@);
        }
    }
    if i < y.len() {
        -1
    } else if i < x.len() {
        1
    } else {
        proof {
            assert(x@.skip(i as int) =~= y@.skip(i as int));
        }
        0
    }
}

} // verus!
