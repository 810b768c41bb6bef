//! HTTP header maps: for each name the values that stand under it, in order.

use axum::http::HeaderMap;
use axum::http::HeaderName;
use axum::http::HeaderValue;
use vstd::prelude::*;
use vstd::string::*;

use crate::text;

verus! {

/// The values under each name; names are in lower case.
pub type Headers = Map<Seq<char>, Seq<Seq<u8>>>;

#[verifier::external_type_specification]
#[verifier::external_body]
#[verifier::reject_recursive_types(T)]
pub struct ExHeaderMap<T>(axum::http::HeaderMap<T>);

#[verifier::external_type_specification]
#[verifier::external_body]
pub struct ExHeaderValue(axum::http::HeaderValue);

/// What a header map holds: for each name that occurs, in lower case, the
/// values under it in the order in which they were added.
pub uninterp spec fn header_contents(h: HeaderMap) -> Headers;

/// The characters of a lower-case field name.
pub open spec fn is_name_char(c: char) -> bool {
    ||| 'a' <= c && c <= 'z'
    ||| '0' <= c && c <= '9'
    ||| c == '!' || c == '"' || c == '#' || c == '$' || c == '%' || c == '&' || c == '\''
    ||| c == '*' || c == '+' || c == '-' || c == '.' || c == '^' || c == '_' || c == '`'
    ||| c == '|' || c == '~'
}

pub(crate) fn char_is_name(c: char) -> (r: bool)
    ensures
        r == is_name_char(c),
{
    ('a' <= c && c <= 'z') || ('0' <= c && c <= '9') || c == '!' || c == '"' || c == '#' || c == '$'
        || c == '%' || c == '&' || c == '\'' || c == '*' || c == '+' || c == '-' || c == '.'
        || c == '^' || c == '_' || c == '`' || c == '|' || c == '~'
}

/// A lower-case field name.
pub open spec fn is_field_name(name: Seq<char>) -> bool {
    1 <= name.len() <= 65535 && forall|i: int|
        0 <= i < name.len() ==> is_name_char(#[trigger] name[i])
}

/// The bytes of a field value: a tab, or any byte from the space on but for
/// the control character DEL.
pub open spec fn is_field_value(value: Seq<u8>) -> bool {
    forall|i: int|
        0 <= i < value.len() ==> (#[trigger] value[i] >= 32 && value[i] != 127) || value[i] == 9
}

/// There are no more than `n` names.
pub open spec fn names_at_most(h: Headers, n: nat) -> bool {
    h.dom().finite() && h.dom().len() <= n
}

/// A number of names up to which a header map takes one more without fail.
pub open spec fn few_names(h: Headers) -> bool {
    names_at_most(h, 4095)
}

/// The values that stand under `name` among pairs of names and values, in order.
pub open spec fn values_of(pairs: Seq<(Seq<char>, Seq<u8>)>, name: Seq<char>) -> Seq<Seq<u8>>
    decreases pairs.len(),
{
    if pairs.len() == 0 {
        Seq::<Seq<u8>>::empty()
    } else if pairs.last().0 == name {
        values_of(pairs.drop_last(), name).push(pairs.last().1)
    } else {
        values_of(pairs.drop_last(), name)
    }
}

/// The values that stand under `name`; none where the name does not occur.
pub open spec fn values_under(h: Headers, name: Seq<char>) -> Seq<Seq<u8>> {
    if h.dom().contains(name) {
        h[name]
    } else {
        Seq::<Seq<u8>>::empty()
    }
}

/// Pairs of strings and bytes as pairs of sequences.
pub open spec fn pair_views(v: Seq<(String, Vec<u8>)>) -> Seq<(Seq<char>, Seq<u8>)> {
    v.map_values(|p: (String, Vec<u8>)| (p.0@, p.1@))
}

/// `HeaderMap::new`: a map without names.
#[verifier::external_body]
pub(crate) fn header_map() -> (r: HeaderMap)
    ensures
        header_contents(r) == Headers::empty(),
{
    HeaderMap::new()
}

/// `HeaderMap::get` with a text: the first value under the name, whose case
/// does not matter. A quotation mark is no character of a name looked up by
/// its text.
#[verifier::external_body]
pub(crate) fn header_first(h: &HeaderMap, name: &str) -> (r: Option<Vec<u8>>)
    ensures
        match r {
            Some(v) => !name@.contains('"') && header_contents(*h).dom().contains(
                text::lower(name@),
            ) && v@ == header_contents(*h)[text::lower(name@)][0],
            None => name@.contains('"') || !header_contents(*h).dom().contains(text::lower(name@)),
        },
{
    h.get(name).map(|v| v.as_bytes().to_vec())
}

/// `HeaderMap::keys`: the names, which are well formed, in no particular order.
#[verifier::external_body]
pub(crate) fn header_names(h: &HeaderMap) -> (r: Vec<String>)
    ensures
        text::texts(r@).to_set() == header_contents(*h).dom(),
        forall|i: int| 0 <= i < r@.len() ==> is_field_name((#[trigger] r@[i])@),
{
    h.keys().map(|name| name.as_str().to_string()).collect()
}

/// `HeaderMap::iter`: each name with each of its values. The values under one
/// name come in their order; names and values are well formed.
#[verifier::external_body]
pub(crate) fn header_pairs(h: &HeaderMap) -> (r: Vec<(String, Vec<u8>)>)
    ensures
        forall|name: Seq<char>| #[trigger]
            values_of(pair_views(r@), name) == values_under(header_contents(*h), name),
        forall|i: int|
            0 <= i < r@.len() ==> is_field_name((#[trigger] r@[i]).0@) && is_field_value(r@[i].1@),
{
    h.iter().map(|(name, value)| (name.as_str().to_string(), value.as_bytes().to_vec())).collect()
}

/// The map has `n` names.
pub open spec fn has_names(h: Headers, n: nat) -> bool {
    h.dom().finite() && h.dom().len() == n
}

/// `HeaderMap::keys_len`: the number of names.
#[verifier::external_body]
pub(crate) fn header_name_count(h: &HeaderMap) -> (r: usize)
    ensures
        has_names(header_contents(*h), r as nat),
{
    h.keys_len()
}

/// `HeaderMap::remove` of the `HeaderName` with this lower-case text: drops the
/// name with all its values. A text that is no name does not occur.
#[verifier::external_body]
pub(crate) fn header_remove(h: &mut HeaderMap, name: &str)
    ensures
        header_contents(*final(h)) == header_contents(*old(h)).remove(name@),
{
    if let Ok(name) = HeaderName::from_lowercase(name.as_bytes()) {
        h.remove(name);
    }
}

/// `HeaderName::from_lowercase`, `HeaderValue::from_bytes` and
/// `HeaderMap::insert`: where name and value are well formed, the value takes
/// the place of all values under the name, and the result is true. Inserting
/// panics where the map has reached its largest size.
#[verifier::external_body]
pub(crate) fn header_insert(h: &mut HeaderMap, name: &str, value: &[u8]) -> (r: bool)
    requires
        few_names(header_contents(*old(h))),
    ensures
        r == (is_field_name(name@) && is_field_value(value@)),
        header_contents(*final(h)) == if r {
            header_contents(*old(h)).insert(name@, seq![value@])
        } else {
            header_contents(*old(h))
        },
{
    match (HeaderName::from_lowercase(name.as_bytes()), HeaderValue::from_bytes(value)) {
        (Ok(name), Ok(value)) => {
            h.insert(name, value);
            true
        },
        _ => false,
    }
}

/// The text of bytes of the visible ASCII range.
pub open spec fn ascii_text(b: Seq<u8>) -> Seq<char> {
    b.map_values(|x: u8| x as char)
}

/// Only tabs and visible ASCII characters, the space among them.
pub open spec fn is_visible(b: Seq<u8>) -> bool {
    forall|i: int| 0 <= i < b.len() ==> (32 <= #[trigger] b[i] < 127) || b[i] == 9
}

/// The first value under `name` as a text, where there is one and it is visible.
pub open spec fn header_str(h: Headers, name: Seq<char>) -> Option<Seq<char>> {
    let key = text::lower(name);
    if !name.contains('"') && h.dom().contains(key) && is_visible(h[key][0]) {
        Some(ascii_text(h[key][0]))
    } else {
        None
    }
}

/// The text of the bytes, where all of them are visible.
fn visible_text(b: &Vec<u8>) -> (r: Option<String>)
    ensures
        match r {
            Some(s) => is_visible(b@) && s@ == ascii_text(b@),
            None => !is_visible(b@),
        },
{
    let mut s = String::new();
    let mut i: usize = 0;
    while i < b.len()
        invariant
            i <= b@.len(),
            forall|j: int| 0 <= j < i ==> (32 <= #[trigger] b@[j] < 127) || b@[j] == 9,
            s@ == ascii_text(b@.take(i as int)),
        decreases b@.len() - i,
    {
        let x = b[i];
        if !((32 <= x && x < 127) || x == 9) {
            return None;
        }
        s.push(x as char);
        i = i + 1;
        assert(s@ =~= ascii_text(b@.take(i as int)));
    }
    assert(b@.take(i as int) =~= b@);
    Some(s)
}

/// The first value under `name` as a text, where there is one and it is visible.
pub fn header_text(h: &HeaderMap, name: &str) -> (r: Option<String>)
    ensures
        match r {
            Some(s) => header_str(header_contents(*h), name@) == Some(s@),
            None => header_str(header_contents(*h), name@) is None,
        },
{
    match header_first(h, name) {
        Some(v) => visible_text(&v),
        None => None,
    }
}

/// A well-formed name is in lower case.
pub proof fn lemma_field_name_lower(name: Seq<char>)
    requires
        is_field_name(name),
    ensures
        text::lower(name) == name,
{
    assert forall|i: int| 0 <= i < name.len() implies text::lower(name)[i] == name[i] by {
        assert(is_name_char(name[i]));
    }
    assert(text::lower(name) =~= name);
}

/// Text of the visible ASCII range is a well-formed field value.
pub proof fn lemma_visible_value(s: Seq<char>)
    requires
        forall|i: int| 0 <= i < s.len() ==> ' ' <= #[trigger] s[i] && s[i] <= '~',
    ensures
        is_field_value(vstd::utf8::encode_utf8(s)),
        is_visible(vstd::utf8::encode_utf8(s)),
        ascii_text(vstd::utf8::encode_utf8(s)) == s,
{
    vstd::utf8::is_ascii_chars_encode_utf8(s);
    let b = vstd::utf8::encode_utf8(s);
    assert forall|i: int| 0 <= i < b.len() implies 32 <= #[trigger] b[i] < 127 && b[i] as char == s[i] by {
        assert(s[i] as u8 == b[i]);
    }
    assert(ascii_text(b) =~= s);
}

/// A header is read by its first value, whatever the case of the name: byte for
/// byte where all of them are tabs or visible ASCII characters, and else not at
/// all.
pub proof fn lemma_header_str(h: Headers, name: Seq<char>)
    requires
        !name.contains('"'),
    ensures
        ({
            let key = text::lower(name);
            let read = header_str(h, name);
            let visible = forall|i: int|
                0 <= i < h[key][0].len() ==> #[trigger] h[key][0][i] == 9 || (h[key][0][i] > 31
                    && h[key][0][i] < 127);
            &&& read is Some == (h.dom().contains(key) && visible)
            &&& read matches Some(s) ==> s.len() == h[key][0].len() && forall|i: int|
                0 <= i < s.len() ==> #[trigger] s[i] as int == h[key][0][i] as int
        }),
{
}

} // verus!
