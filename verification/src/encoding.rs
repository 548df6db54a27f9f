//! The two independent encodings applied to entry names.
//!
//! A name shown in the page body is HTML-entity-escaped; the same name
//! used inside an `href` is percent-encoded. The two are never
//! substituted for each other. The page header shows a percent-decoded
//! form of the request path.

use vstd::prelude::*;

verus! {

/// The HTML rendering of one character: `"` `&` `'` `/` `<` `>` become
/// their entities, every other character stands as itself.
pub open spec fn html_escape_char(c: char) -> Seq<char> {
    if c == '"' {
        "&quot;"@
    } else if c == '&' {
        "&amp;"@
    } else if c == '\'' {
        "&#x27;"@
    } else if c == '/' {
        "&#x2f;"@
    } else if c == '<' {
        "&lt;"@
    } else if c == '>' {
        "&gt;"@
    } else {
        seq![c]
    }
}

/// The HTML-entity-escaped form of a text.
pub open spec fn html_escape_spec(s: Seq<char>) -> Seq<char>
    decreases s.len(),
{
    if s.len() == 0 {
        Seq::empty()
    } else {
        html_escape_char(s[0]) + html_escape_spec(s.drop_first())
    }
}

/// The uppercase hexadecimal digit for `d` (`d < 16`).
pub open spec fn hex_digit(d: nat) -> char {
    if d == 0 {
        '0'
    } else if d == 1 {
        '1'
    } else if d == 2 {
        '2'
    } else if d == 3 {
        '3'
    } else if d == 4 {
        '4'
    } else if d == 5 {
        '5'
    } else if d == 6 {
        '6'
    } else if d == 7 {
        '7'
    } else if d == 8 {
        '8'
    } else if d == 9 {
        '9'
    } else if d == 10 {
        'A'
    } else if d == 11 {
        'B'
    } else if d == 12 {
        'C'
    } else if d == 13 {
        'D'
    } else if d == 14 {
        'E'
    } else {
        'F'
    }
}

/// The `%XX` escape of a byte value.
pub open spec fn percent_byte(b: nat) -> Seq<char> {
    seq!['%', hex_digit(b / 16 % 16), hex_digit(b % 16)]
}

/// The UTF-8 encoding of one character, from its code point.
pub open spec fn utf8_bytes(c: char) -> Seq<u8> {
    let v = c as nat;
    if v < 0x80 {
        seq![v as u8]
    } else if v < 0x800 {
        seq![(0xC0 + v / 64) as u8, (0x80 + v % 64) as u8]
    } else if v < 0x10000 {
        seq![(0xE0 + v / 4096) as u8, (0x80 + v / 64 % 64) as u8, (0x80 + v % 64) as u8]
    } else {
        seq![
            (0xF0 + v / 262144) as u8,
            (0x80 + v / 4096 % 64) as u8,
            (0x80 + v / 64 % 64) as u8,
            (0x80 + v % 64) as u8,
        ]
    }
}

/// The `%XX` escapes of a run of bytes, in order.
pub open spec fn percent_bytes(bs: Seq<u8>) -> Seq<char>
    decreases bs.len(),
{
    if bs.len() == 0 {
        Seq::empty()
    } else {
        percent_byte(bs[0] as nat) + percent_bytes(bs.drop_first())
    }
}

/// The percent-encoded form of one character under the C0-control set:
/// control characters and DEL become `%XX`, other ASCII characters stand
/// as themselves, and characters beyond ASCII expand to the escapes of
/// their UTF-8 bytes.
pub open spec fn percent_encode_char(c: char) -> Seq<char> {
    if (c as int) < 0x20 || c == '\u{7f}' {
        percent_byte(c as nat)
    } else if (c as int) < 0x80 {
        seq![c]
    } else {
        percent_bytes(utf8_bytes(c))
    }
}

/// The percent-encoded form of a text under the C0-control set.
pub open spec fn percent_encode_spec(s: Seq<char>) -> Seq<char>
    decreases s.len(),
{
    if s.len() == 0 {
        Seq::empty()
    } else {
        percent_encode_char(s[0]) + percent_encode_spec(s.drop_first())
    }
}

/// What percent-decoding a request path for display yields: every `%`
/// followed by two hexadecimal digits becomes the byte it names, and if
/// the decoded bytes are not valid UTF-8 the input stands unchanged.
pub uninterp spec fn percent_decoded_display(s: Seq<char>) -> Seq<char>;

/// The characters the display encoding rewrites.
pub open spec fn is_html_special(c: char) -> bool {
    c == '"' || c == '&' || c == '\'' || c == '/' || c == '<' || c == '>'
}

proof fn lemma_html_escape_char_len(c: char)
    ensures
        html_escape_char(c).len() >= 1,
        is_html_special(c) ==> html_escape_char(c).len() >= 4,
{
    reveal_strlit("&quot;");
    reveal_strlit("&amp;");
    reveal_strlit("&#x27;");
    reveal_strlit("&#x2f;");
    reveal_strlit("&lt;");
    reveal_strlit("&gt;");
}

proof fn lemma_percent_identity(s: Seq<char>)
    requires
        forall|i: int| 0 <= i < s.len() ==> 0x20 <= (#[trigger] s[i] as int) < 0x7f,
    ensures
        percent_encode_spec(s) == s,
    decreases s.len(),
{
    if s.len() == 0 {
        assert(percent_encode_spec(s) =~= s);
    } else {
        assert forall|i: int| 0 <= i < s.drop_first().len() implies 0x20 <= (
        #[trigger] s.drop_first()[i] as int) < 0x7f by {
            assert(s.drop_first()[i] == s[i + 1]);
        }
        lemma_percent_identity(s.drop_first());
        assert(percent_encode_char(s[0]) == seq![s[0]]);
        assert(seq![s[0]] + s.drop_first() =~= s);
    }
}

proof fn lemma_html_len_ge(s: Seq<char>)
    ensures
        html_escape_spec(s).len() >= s.len(),
    decreases s.len(),
{
    if s.len() > 0 {
        lemma_html_len_ge(s.drop_first());
        lemma_html_escape_char_len(s[0]);
    }
}

proof fn lemma_html_grows(s: Seq<char>, i: int)
    requires
        0 <= i < s.len(),
        is_html_special(s[i]),
    ensures
        html_escape_spec(s).len() > s.len(),
    decreases s.len(),
{
    lemma_html_escape_char_len(s[0]);
    if i == 0 {
        lemma_html_len_ge(s.drop_first());
    } else {
        assert(s.drop_first()[i - 1] == s[i]);
        lemma_html_grows(s.drop_first(), i - 1);
    }
}

/// The two encodings of one name are never the same text, for any
/// printable-ASCII name holding a character the display encoding
/// rewrites: inside an `href` such a name stands unchanged under the
/// control class, while on display every special character becomes an
/// entity, which lengthens the text.
pub proof fn lemma_two_encodings_differ(name: Seq<char>)
    requires
        forall|i: int| 0 <= i < name.len() ==> 0x20 <= (#[trigger] name[i] as int) < 0x7f,
        exists|i: int| 0 <= i < name.len() && is_html_special(#[trigger] name[i]),
    ensures
        percent_encode_spec(name) == name,
        html_escape_spec(name) != name,
        html_escape_spec(name) != percent_encode_spec(name),
{
    lemma_percent_identity(name);
    let i = choose|i: int| 0 <= i < name.len() && is_html_special(#[trigger] name[i]);
    lemma_html_grows(name, i);
}

/// Relies on `v_htmlescape::escape_string`: it appends the input to the
/// buffer with `"` `&` `'` `/` `<` `>` rewritten to `&quot;` `&amp;`
/// `&#x27;` `&#x2f;` `&lt;` `&gt;` and every other character forwarded
/// verbatim.
#[verifier::external_body]
pub(crate) fn html_escape(s: &str) -> (r: String)
    ensures
        r@ == html_escape_spec(s@),
{
    let mut out = String::new();
    v_htmlescape::escape_string(s, &mut out);
    out
}

/// Relies on `percent_encoding::utf8_percent_encode` with the `CONTROLS`
/// set: bytes below 0x20, the byte 0x7F and every non-ASCII byte become
/// `%XX` with uppercase hexadecimal digits; every other byte is
/// forwarded verbatim.
#[verifier::external_body]
pub(crate) fn percent_encode(s: &str) -> (r: String)
    ensures
        r@ == percent_encode_spec(s@),
{
    percent_encoding::utf8_percent_encode(s, percent_encoding::CONTROLS).to_string()
}

/// Relies on `percent_encoding::percent_decode_str`: every `%` followed
/// by two hexadecimal digits is decoded to the byte it names; the
/// decoded bytes are taken as UTF-8, and on invalid UTF-8 the input is
/// returned unchanged. An input with no `%` at all is unchanged.
#[verifier::external_body]
pub(crate) fn percent_decode_lossy(s: &str) -> (r: String)
    ensures
        r@ == percent_decoded_display(s@),
        (forall|i: int| 0 <= i < s@.len() ==> s@[i] != '%') ==> r@ == s@,
{
    match percent_encoding::percent_decode_str(s).decode_utf8() {
        Ok(decoded) => decoded.into_owned(),
        Err(_) => s.to_string(),
    }
}

} // verus!
