//! The parts of JSON that the crate writes and reads.

use vstd::prelude::*;

use crate::text::hex_padded;

verus! {

/// How one character stands in a JSON string.
pub open spec fn json_char(c: char) -> Seq<char> {
    if c == '"' {
        seq!['\\', '"']
    } else if c == '\\' {
        seq!['\\', '\\']
    } else if c == '\n' {
        seq!['\\', 'n']
    } else if c == '\r' {
        seq!['\\', 'r']
    } else if c == '\t' {
        seq!['\\', 't']
    } else if c as u32 == 8 {
        seq!['\\', 'b']
    } else if c as u32 == 12 {
        seq!['\\', 'f']
    } else if (c as u32) < 32 {
        seq!['\\', 'u'] + hex_padded(c as nat, 4)
    } else {
        seq![c]
    }
}

pub open spec fn json_chars(s: Seq<char>) -> Seq<char>
    decreases s.len(),
{
    if s.len() == 0 {
        Seq::empty()
    } else {
        json_chars(s.drop_last()) + json_char(s.last())
    }
}

/// A string as JSON.
pub open spec fn json_text(s: Seq<char>) -> Seq<char> {
    seq!['"'] + json_chars(s) + seq!['"']
}

/// `serde_json::Value`'s `to_string` on a string value: the string between
/// double quotes, with quotes, backslashes and control characters escaped.
#[verifier::external_body]
pub(crate) fn json_string(s: &str) -> (r: String)
    ensures
        r@ == json_text(s@),
{
    serde_json::Value::from(s).to_string()
}

/// What a field of a JSON object holds, as far as the crate reads it.
#[derive(Debug, Clone)]
pub enum JsonField {
    /// There is no such field.
    Absent,
    Text(String),
    /// An array. An entry that is no unsigned 64-bit number is kept as such.
    Numbers(Vec<Option<u64>>),
    /// Something else.
    Other,
}

/// The mathematical content of a [`JsonField`].
pub enum JsonFieldView {
    Absent,
    Text(Seq<char>),
    Numbers(Seq<Option<u64>>),
    Other,
}

impl View for JsonField {
    type V = JsonFieldView;

    open spec fn view(&self) -> JsonFieldView {
        match self {
            JsonField::Absent => JsonFieldView::Absent,
            JsonField::Text(s) => JsonFieldView::Text(s@),
            JsonField::Numbers(v) => JsonFieldView::Numbers(v@),
            JsonField::Other => JsonFieldView::Other,
        }
    }
}

/// What `serde_json::from_str` reads in a text under a key; nothing where the
/// text is no JSON.
pub uninterp spec fn json_field_of(text: Seq<char>, key: Seq<char>) -> Option<JsonFieldView>;

/// `serde_json::from_str` and `serde_json::Value::get`. The result is named.
#[verifier::external_body]
pub(crate) fn json_field(text: &str, key: &str) -> (r: Option<JsonField>)
    ensures
        match r {
            Some(f) => json_field_of(text@, key@) == Some(f@),
            None => json_field_of(text@, key@) is None,
        },
{
    let value: serde_json::Value = serde_json::from_str(text).ok()?;
    Some(match value.get(key) {
        None => JsonField::Absent,
        Some(serde_json::Value::String(s)) => JsonField::Text(s.clone()),
        Some(serde_json::Value::Array(a)) => {
            JsonField::Numbers(a.iter().map(|b| b.as_u64()).collect())
        }
        Some(_) => JsonField::Other,
    })
}

proof fn lemma_json_char_printable(c: char, i: int)
    requires
        0 <= i < json_char(c).len(),
    ensures
        json_char(c)[i] as u32 >= 32,
{
    if (c as u32) < 32 && c != '\n' && c != '\r' && c != '\t' && c as u32 != 8 && c as u32 != 12 {
        lemma_hex_printable(c as nat, 4);
        let h = hex_padded(c as nat, 4);
        if i >= 2 {
            assert(json_char(c)[i] == h[i - 2]);
        }
    }
}

proof fn lemma_hex_printable(n: nat, width: nat)
    ensures
        hex_padded(n, width).len() == width,
        forall|i: int| 0 <= i < width ==> (#[trigger] hex_padded(n, width)[i]) as u32 >= 48,
    decreases width,
{
    if width > 0 {
        lemma_hex_printable(n / 16, (width - 1) as nat);
        let before = hex_padded(n / 16, (width - 1) as nat);
        assert forall|i: int| 0 <= i < width implies (#[trigger] hex_padded(n, width)[i]) as u32
            >= 48 by {
            if i < width - 1 {
                assert(hex_padded(n, width)[i] == before[i]);
            }
        }
    }
}

proof fn lemma_json_chars_printable(s: Seq<char>)
    ensures
        forall|i: int| 0 <= i < json_chars(s).len() ==> (#[trigger] json_chars(s)[i]) as u32 >= 32,
    decreases s.len(),
{
    if s.len() > 0 {
        lemma_json_chars_printable(s.drop_last());
        let a = json_chars(s.drop_last());
        let b = json_char(s.last());
        assert forall|i: int| 0 <= i < json_chars(s).len() implies (#[trigger] json_chars(
            s,
        )[i]) as u32 >= 32 by {
            if i < a.len() {
                assert(json_chars(s)[i] == a[i]);
            } else {
                lemma_json_char_printable(s.last(), i - a.len());
                assert(json_chars(s)[i] == b[i - a.len()]);
            }
        }
    }
}

/// A string as JSON holds no control character: it is on one line whatever the
/// string is.
pub proof fn law_json_text_is_one_line(s: Seq<char>)
    ensures
        forall|i: int| 0 <= i < json_text(s).len() ==> (#[trigger] json_text(s)[i]) as u32 >= 32,
{
    lemma_json_chars_printable(s);
    assert forall|i: int| 0 <= i < json_text(s).len() implies (#[trigger] json_text(s)[i]) as u32
        >= 32 by {
        if 0 < i < json_text(s).len() - 1 {
            assert(json_text(s)[i] == json_chars(s)[i - 1]);
        }
    }
}

} // verus!
