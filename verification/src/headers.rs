//! HTTP field lines: parsing them from bytes and looking fields up by name.

use crate::error::{ParseError, ParseFailure};
use crate::text::{
    char_is_alphanumeric, find_byte, is_crlf_at, lemma_find_crlf_append, lemma_valid_crlf_prefix,
    lemma_valid_suffix, find_byte_in, find_crlf, find_crlf_from, lemma_find_byte,
    lemma_find_crlf, lemma_valid_drop_ascii, lemma_valid_split_at_ascii, spec_is_alphanumeric,
    lower_name, ascii_lower_char, ascii_lowercase, spec_utf8_error_text, str_from_utf8, str_to_lowercase, trim, trim_str, usize_to_string,
    ascii_chars, decimal_bytes, is_ascii_bytes, is_whitespace_char, lacks_byte, lemma_ascii_valid,
    lemma_crlf_after, lemma_encode_concat, lemma_trim_padded,
};
use vstd::prelude::*;
use vstd::string::StringExecFns;
use vstd::utf8::*;

verus! {

/// The first position at which `entries` holds the field name `key`.
pub open spec fn find_key(entries: Seq<(Seq<char>, Seq<char>)>, key: Seq<char>) -> Option<int>
    decreases entries.len(),
{
    if entries.len() == 0 {
        None
    } else if entries[0].0 == key {
        Some(0)
    } else {
        match find_key(entries.drop_first(), key) {
            Some(i) => Some(i + 1),
            None => None,
        }
    }
}

/// The value that `entries` holds for the field name `key`.
pub open spec fn lookup(entries: Seq<(Seq<char>, Seq<char>)>, key: Seq<char>) -> Option<Seq<char>> {
    match find_key(entries, key) {
        Some(i) => Some(entries[i].1),
        None => None,
    }
}

/// Adding `value` under the name `key`, taken as it is: a value for a name that is
/// already present is appended to the old one after a ',' (RFC 9110 5.2); a new name
/// comes last.
pub open spec fn merge_entry(
    entries: Seq<(Seq<char>, Seq<char>)>,
    key: Seq<char>,
    value: Seq<char>,
) -> Seq<(Seq<char>, Seq<char>)> {
    match find_key(entries, key) {
        Some(i) => entries.update(i, (key, entries[i].1 + seq![','] + value)),
        None => entries.push((key, value)),
    }
}

/// Adding the field `name: value`: names are kept in lowercase; see `merge_entry`.
pub open spec fn set_entry(
    entries: Seq<(Seq<char>, Seq<char>)>,
    name: Seq<char>,
    value: Seq<char>,
) -> Seq<(Seq<char>, Seq<char>)> {
    merge_entry(entries, lower_name(name), value)
}

/// Storing `value` under the name `key`, taken as it is, in place of any value it had.
pub open spec fn store_entry(
    entries: Seq<(Seq<char>, Seq<char>)>,
    key: Seq<char>,
    value: Seq<char>,
) -> Seq<(Seq<char>, Seq<char>)> {
    match find_key(entries, key) {
        Some(i) => entries.update(i, (key, value)),
        None => entries.push((key, value)),
    }
}

/// Storing `value` under `name` (in lowercase), in place of any value it had.
pub open spec fn replace_entry(
    entries: Seq<(Seq<char>, Seq<char>)>,
    name: Seq<char>,
    value: Seq<char>,
) -> Seq<(Seq<char>, Seq<char>)> {
    store_entry(entries, lower_name(name), value)
}

/// Removing the field named `key`, taken as it is, if present.
pub open spec fn remove_entry(entries: Seq<(Seq<char>, Seq<char>)>, key: Seq<char>) -> Seq<
    (Seq<char>, Seq<char>),
> {
    match find_key(entries, key) {
        Some(i) => entries.remove(i),
        None => entries,
    }
}

/// Removing the field `name` (in lowercase), if present.
pub open spec fn delete_entry(entries: Seq<(Seq<char>, Seq<char>)>, name: Seq<char>) -> Seq<
    (Seq<char>, Seq<char>),
> {
    remove_entry(entries, lower_name(name))
}

/// The field lines "name: value\r\n" of `entries`, in order.
pub open spec fn field_lines_bytes(entries: Seq<(Seq<char>, Seq<char>)>) -> Seq<u8>
    decreases entries.len(),
{
    if entries.len() == 0 {
        Seq::empty()
    } else {
        field_lines_bytes(entries.drop_last()) + encode_utf8(entries.last().0) + seq![58u8, 32u8]
            + encode_utf8(entries.last().1) + seq![13u8, 10u8]
    }
}

/// The fields of a response with a plain-text body of `content_length` bytes.
pub open spec fn default_response_entries(content_length: nat) -> Seq<(Seq<char>, Seq<char>)> {
    seq![
        ("content-length"@, ascii_chars(decimal_bytes(content_length))),
        ("connection"@, "close"@),
        ("content-type"@, "text/plain"@),
    ]
}

/// A line "- name, value" for each field, in order.
pub open spec fn fields_text(entries: Seq<(Seq<char>, Seq<char>)>) -> Seq<char>
    decreases entries.len(),
{
    if entries.len() == 0 {
        Seq::empty()
    } else {
        fields_text(entries.drop_last()) + "- "@ + entries.last().0 + ", "@ + entries.last().1 + "\n"@
    }
}

/// A character allowed in a field name: any Unicode letter or digit (as
/// `char::is_alphanumeric` decides) or one of the symbols that RFC 9110 allows in a token.
pub open spec fn is_token_char(c: char) -> bool {
    ||| spec_is_alphanumeric(c)
    ||| c == '!' || c == '#' || c == '$' || c == '%' || c == '&' || c == '\''
    ||| c == '*' || c == '+' || c == '-' || c == '.' || c == '^' || c == '_'
    ||| c == '`' || c == '|' || c == '~'
}

/// A field name neither starts nor ends with a space and is made of the characters
/// above; the empty name is accepted.
pub open spec fn valid_field_name(s: Seq<char>) -> bool {
    &&& !(s.len() > 0 && (s.last() == ' ' || s[0] == ' '))
    &&& forall|i: int| 0 <= i < s.len() ==> is_token_char(#[trigger] s[i])
}

/// Adds `k` to the byte count of a successful outcome.
pub open spec fn shift_count(r: Result<(int, bool), ParseFailure>, k: int) -> Result<(int, bool), ParseFailure> {
    match r {
        Ok((n, d)) => Ok((n + k, d)),
        Err(e) => Err(e),
    }
}

/// Parsing the field lines at the start of `rest` into `entries`, one line at a time
/// (RFC 9112: field-line = field-name ":" OWS field-value OWS).
/// The count is of bytes consumed; the flag tells whether the empty line that ends
/// the fields was reached. Lines are only taken whole, up to their "\r\n".
pub open spec fn header_lines(
    entries: Seq<(Seq<char>, Seq<char>)>,
    rest: Seq<u8>,
) -> (Seq<(Seq<char>, Seq<char>)>, Result<(int, bool), ParseFailure>)
    decreases rest.len(),
{
    match find_crlf(rest) {
        None => (entries, Ok((0, false))),
        Some(i) => {
            if i == 0 {
                (entries, Ok((2, true)))
            } else {
                let line = rest.take(i);
                match find_byte(line, 58u8) {
                    None => (entries, Err(ParseFailure::MalformedHeader)),
                    Some(c) => {
                        let name = decode_utf8(line.take(c));
                        let value = trim(decode_utf8(line.skip(c + 1)));
                        if !valid_field_name(name) {
                            (entries, Err(ParseFailure::MalformedFieldName(name)))
                        } else {
                            proof {
                                lemma_find_crlf(rest);
                            }
                            let (e2, r) = header_lines(set_entry(entries, name, value), rest.skip(i + 2));
                            (e2, shift_count(r, i + 2))
                        }
                    },
                }
            }
        },
    }
}

/// What `Headers::parse` does: the whole buffer must be UTF-8, then its field lines are read.
pub open spec fn parse_headers(
    entries: Seq<(Seq<char>, Seq<char>)>,
    data: Seq<u8>,
) -> (Seq<(Seq<char>, Seq<char>)>, Result<(int, bool), ParseFailure>) {
    if !valid_utf8(data) {
        (entries, Err(ParseFailure::InvalidUtf8(spec_utf8_error_text(data))))
    } else {
        header_lines(entries, data)
    }
}

/// An outcome of `Headers::parse` with its count as an integer.
pub open spec fn count_outcome(r: Result<(usize, bool), ParseError>) -> Result<(int, bool), ParseFailure> {
    match r {
        Ok((n, d)) => Ok((n as int, d)),
        Err(e) => Err(e@),
    }
}

/// `find_key` gives the first position of `key`, and none when it is absent.
pub(crate) proof fn lemma_find_key(entries: Seq<(Seq<char>, Seq<char>)>, key: Seq<char>)
    ensures
        match find_key(entries, key) {
            Some(i) => 0 <= i < entries.len() && entries[i].0 == key && forall|j: int|
                0 <= j < i ==> #[trigger] entries[j].0 != key,
            None => forall|j: int| 0 <= j < entries.len() ==> #[trigger] entries[j].0 != key,
        },
    decreases entries.len(),
{
    if entries.len() > 0 && entries[0].0 != key {
        let t = entries.drop_first();
        lemma_find_key(t, key);
        assert forall|j: int| 1 <= j < entries.len() implies #[trigger] entries[j] == t[j - 1] by {}
    }
}

/// Reading field lines never consumes more bytes than there are.
pub proof fn lemma_header_lines_count(entries: Seq<(Seq<char>, Seq<char>)>, rest: Seq<u8>)
    ensures
        header_lines(entries, rest).1 matches Ok((n, _)) ==> 0 <= n <= rest.len(),
    decreases rest.len(),
{
    lemma_find_crlf(rest);
    match find_crlf(rest) {
        None => {},
        Some(i) => {
            if i != 0 {
                let line = rest.take(i);
                match find_byte(line, 58u8) {
                    None => {},
                    Some(c) => {
                        let name = decode_utf8(line.take(c));
                        let value = trim(decode_utf8(line.skip(c + 1)));
                        if valid_field_name(name) {
                            lemma_header_lines_count(set_entry(entries, name, value), rest.skip(i + 2));
                        }
                    },
                }
            }
        },
    }
}

pub(crate) proof fn lemma_shift_count_twice(r: Result<(int, bool), ParseFailure>, a: int, b: int)
    ensures
        shift_count(shift_count(r, a), b) == shift_count(r, a + b),
        shift_count(r, 0) == r,
{
}

/// The bytes consumed by reading field lines of well-formed UTF-8 are well-formed UTF-8.
pub(crate) proof fn lemma_header_lines_cut(entries: Seq<(Seq<char>, Seq<char>)>, x: Seq<u8>)
    requires
        valid_utf8(x),
    ensures
        header_lines(entries, x).1 matches Ok((k, _)) ==> valid_utf8(x.take(k)),
    decreases x.len(),
{
    lemma_find_crlf(x);
    match find_crlf(x) {
        None => {
            assert(x.take(0) =~= Seq::<u8>::empty());
        },
        Some(i) => {
            lemma_valid_crlf_prefix(x, i);
            if i != 0 {
                let line = x.take(i);
                match find_byte(line, 58u8) {
                    None => {},
                    Some(c) => {
                        let name = decode_utf8(line.take(c));
                        let value = trim(decode_utf8(line.skip(c + 1)));
                        if valid_field_name(name) {
                            let h2 = set_entry(entries, name, value);
                            let rest = x.skip(i + 2);
                            assert(x =~= x.take(i + 2) + rest);
                            lemma_valid_suffix(x.take(i + 2), rest);
                            lemma_header_lines_cut(h2, rest);
                            lemma_header_lines_count(h2, rest);
                            if let Ok((k, _)) = header_lines(h2, rest).1 {
                                valid_utf8_concat(x.take(i + 2), rest.take(k));
                                assert(x.take(i + 2 + k) =~= x.take(i + 2) + rest.take(k));
                            }
                        }
                    },
                }
            }
        },
    }
}

/// Reading no bytes means that no line was complete and no field was added.
pub(crate) proof fn lemma_header_lines_zero(entries: Seq<(Seq<char>, Seq<char>)>, d: Seq<u8>)
    ensures
        header_lines(entries, d).1 matches Ok((k, _)) && k == 0 ==> {
            &&& find_crlf(d) is None
            &&& header_lines(entries, d).0 == entries
        },
{
    lemma_find_crlf(d);
    match find_crlf(d) {
        None => {},
        Some(i) => {
            if i != 0 {
                let line = d.take(i);
                match find_byte(line, 58u8) {
                    None => {},
                    Some(c) => {
                        let name = decode_utf8(line.take(c));
                        let value = trim(decode_utf8(line.skip(c + 1)));
                        if valid_field_name(name) {
                            lemma_header_lines_count(set_entry(entries, name, value), d.skip(i + 2));
                        }
                    },
                }
            }
        },
    }
}

/// Reading field lines only looks at complete lines: what follows the last "\r\n"
/// of `x` makes no difference to the lines before it.
pub proof fn lemma_header_lines_append(
    entries: Seq<(Seq<char>, Seq<char>)>,
    x: Seq<u8>,
    y: Seq<u8>,
)
    ensures
        ({
            let (e1, r) = header_lines(entries, x);
            match r {
                Ok((k, done)) => {
                    &&& 0 <= k <= x.len()
                    &&& done ==> header_lines(entries, x + y) == (e1, r)
                    &&& !done ==> {
                        &&& find_crlf(x.skip(k)) is None
                        &&& header_lines(entries, x + y) == ({
                            let (e2, r2) = header_lines(e1, x.skip(k) + y);
                            (e2, shift_count(r2, k))
                        })
                    }
                },
                Err(e) => header_lines(entries, x + y) == (e1, r),
            }
        }),
    decreases x.len(),
{
    lemma_find_crlf(x);
    lemma_find_crlf_append(x, y);
    match find_crlf(x) {
        None => {
            assert(x.skip(0) =~= x);
            let (e2, r2) = header_lines(entries, x + y);
            lemma_shift_count_twice(r2, 0, 0);
        },
        Some(i) => {
            if i != 0 {
                let line = x.take(i);
                assert((x + y).take(i) =~= line);
                match find_byte(line, 58u8) {
                    None => {},
                    Some(c) => {
                        let name = decode_utf8(line.take(c));
                        let value = trim(decode_utf8(line.skip(c + 1)));
                        if valid_field_name(name) {
                            let h2 = set_entry(entries, name, value);
                            let rest = x.skip(i + 2);
                            assert((x + y).skip(i + 2) =~= rest + y);
                            lemma_header_lines_append(h2, rest, y);
                            let (e1, r1) = header_lines(h2, rest);
                            match r1 {
                                Ok((k, done)) => {
                                    assert(rest.skip(k) =~= x.skip(k + i + 2));
                                    if !done {
                                        let (e3, r3) = header_lines(e1, rest.skip(k) + y);
                                        lemma_shift_count_twice(r3, k, i + 2);
                                    }
                                },
                                Err(e) => {},
                            }
                        }
                    },
                }
            }
        },
    }
}

/// The bytes of a field line before its "\r\n": the name, ':', whitespace, the value
/// and whitespace.
pub open spec fn field_line_text(name: Seq<char>, w1: Seq<char>, value: Seq<char>, w2: Seq<char>) -> Seq<u8> {
    encode_utf8(name) + seq![58u8] + encode_utf8(w1) + encode_utf8(value) + encode_utf8(w2)
}

/// Spaces and tabs only.
pub open spec fn blanks(w: Seq<char>) -> bool {
    forall|j: int| 0 <= j < w.len() ==> (#[trigger] w[j] == ' ' || w[j] == '\t')
}

/// Reading one field line `name ':' OWS value OWS` and then `rest` is adding the field
/// `name: value` and reading `rest`: the value is taken exactly as written, without
/// the whitespace around it.
pub proof fn lemma_field_line_step(
    entries: Seq<(Seq<char>, Seq<char>)>,
    name: Seq<char>,
    w1: Seq<char>,
    value: Seq<char>,
    w2: Seq<char>,
    rest: Seq<u8>,
)
    requires
        valid_field_name(name),
        lacks_byte(encode_utf8(name), 58u8),
        lacks_byte(encode_utf8(name), 10u8),
        lacks_byte(encode_utf8(value), 10u8),
        blanks(w1),
        blanks(w2),
        value.len() == 0 || (!is_whitespace_char(value[0]) && !is_whitespace_char(value.last())),
    ensures
        ({
            let line = field_line_text(name, w1, value, w2);
            header_lines(entries, line + seq![13u8, 10u8] + rest) == ({
                let (e2, r2) = header_lines(set_entry(entries, name, value), rest);
                (e2, shift_count(r2, line.len() as int + 2))
            })
        }),
{
    let en = encode_utf8(name);
    let e1 = encode_utf8(w1);
    let ev = encode_utf8(value);
    let e2 = encode_utf8(w2);
    let line = field_line_text(name, w1, value, w2);
    let crlf = seq![13u8, 10u8];
    let data = line + crlf + rest;
    assert(is_ascii_chars(w1) && is_ascii_chars(w2)) by {
        assert forall|j: int| 0 <= j < w1.len() implies '\0' <= #[trigger] w1[j] <= '\u{7f}' by {
            assert(w1[j] == ' ' || w1[j] == '\t');
        }
        assert forall|j: int| 0 <= j < w2.len() implies '\0' <= #[trigger] w2[j] <= '\u{7f}' by {
            assert(w2[j] == ' ' || w2[j] == '\t');
        }
    }
    is_ascii_chars_encode_utf8(w1);
    is_ascii_chars_encode_utf8(w2);
    assert(lacks_byte(line, 10u8)) by {
        assert forall|j: int| 0 <= j < line.len() implies #[trigger] line[j] != 10u8 by {
            let a = en.len() as int;
            let b = a + 1 + e1.len();
            let c = b + ev.len();
            if j < a {
                assert(line[j] == en[j]);
            } else if a < j < b {
                assert(line[j] == e1[j - a - 1]);
                assert(w1[j - a - 1] == ' ' || w1[j - a - 1] == '\t');
            } else if b <= j < c {
                assert(line[j] == ev[j - b]);
            } else if j >= c {
                assert(line[j] == e2[j - c]);
                assert(w2[j - c] == ' ' || w2[j - c] == '\t');
            }
        }
    }
    lemma_crlf_after(line, rest);
    let i = line.len() as int;
    assert(data.take(i) =~= line);
    lemma_find_byte(line, 58u8);
    let c = en.len() as int;
    assert(line[c] == 58u8);
    assert forall|j: int| 0 <= j < c implies #[trigger] line[j] != 58u8 by {
        assert(line[j] == en[j]);
    }
    match find_byte(line, 58u8) {
        Some(k) => {
            if k < c {
                assert(line[k] != 58u8);
            }
            if k > c {
                assert(line[c] != 58u8);
            }
        },
        None => {},
    }
    assert(line.take(c) =~= en);
    encode_utf8_decode_utf8(name);
    lemma_encode_concat(w1, value);
    lemma_encode_concat(w1 + value, w2);
    assert(line.skip(c + 1) =~= encode_utf8(w1 + value + w2));
    encode_utf8_decode_utf8(w1 + value + w2);
    assert forall|j: int| 0 <= j < w1.len() implies is_whitespace_char(#[trigger] w1[j]) by {
        assert(w1[j] == ' ' || w1[j] == '\t');
    }
    assert forall|j: int| 0 <= j < w2.len() implies is_whitespace_char(#[trigger] w2[j]) by {
        assert(w2[j] == ' ' || w2[j] == '\t');
    }
    lemma_trim_padded(w1, value, w2);
    assert(data.skip(i + 2) =~= rest);
}

/// A field line `name ':' OWS value OWS`, followed by the empty line, stores its
/// value exactly as written, without the whitespace around it: as the value of the
/// name when the name was new, after the old value and a ',' otherwise; the whole
/// is consumed and ends the fields.
pub proof fn lemma_field_value_kept(
    entries: Seq<(Seq<char>, Seq<char>)>,
    name: Seq<char>,
    w1: Seq<char>,
    value: Seq<char>,
    w2: Seq<char>,
)
    requires
        valid_field_name(name),
        lacks_byte(encode_utf8(name), 58u8),
        lacks_byte(encode_utf8(name), 10u8),
        lacks_byte(encode_utf8(value), 10u8),
        blanks(w1),
        blanks(w2),
        value.len() == 0 || (!is_whitespace_char(value[0]) && !is_whitespace_char(value.last())),
    ensures
        ({
            let data = field_line_text(name, w1, value, w2) + seq![13u8, 10u8] + seq![13u8, 10u8];
            let (e, r) = parse_headers(entries, data);
            &&& r == Ok::<(int, bool), ParseFailure>((data.len() as int, true))
            &&& lookup(e, lower_name(name)) == match lookup(entries, lower_name(name)) {
                Some(old) => Some(old + seq![','] + value),
                None => Some(value),
            }
        }),
{
    let line = field_line_text(name, w1, value, w2);
    let crlf = seq![13u8, 10u8];
    lemma_field_line_valid(name, w1, value, w2);
    lemma_end_valid(line + crlf);
    lemma_field_line_step(entries, name, w1, value, w2, crlf);
    let h2 = set_entry(entries, name, value);
    lemma_crlf_after(Seq::<u8>::empty(), Seq::<u8>::empty());
    assert(Seq::<u8>::empty() + crlf + Seq::<u8>::empty() =~= crlf);
    assert(header_lines(h2, crlf) == (h2, Ok::<(int, bool), ParseFailure>((2, true))));
    lemma_set_then_lookup(entries, name, value);
}

/// A field line, with its "\r\n", is well-formed UTF-8.
proof fn lemma_field_line_valid(name: Seq<char>, w1: Seq<char>, value: Seq<char>, w2: Seq<char>)
    ensures
        valid_utf8(field_line_text(name, w1, value, w2) + seq![13u8, 10u8]),
{
    let en = encode_utf8(name);
    let e1 = encode_utf8(w1);
    let ev = encode_utf8(value);
    encode_utf8_valid_utf8(name);
    encode_utf8_valid_utf8(w1);
    encode_utf8_valid_utf8(value);
    encode_utf8_valid_utf8(w2);
    assert(is_ascii_bytes(seq![58u8]));
    lemma_ascii_valid(seq![58u8]);
    valid_utf8_concat(en, seq![58u8]);
    valid_utf8_concat(en + seq![58u8], e1);
    valid_utf8_concat(en + seq![58u8] + e1, ev);
    valid_utf8_concat(en + seq![58u8] + e1 + ev, encode_utf8(w2));
    lemma_end_valid(field_line_text(name, w1, value, w2));
}

/// Well-formed UTF-8 followed by "\r\n" is well-formed UTF-8.
proof fn lemma_end_valid(s: Seq<u8>)
    requires
        valid_utf8(s),
    ensures
        valid_utf8(s + seq![13u8, 10u8]),
{
    assert(is_ascii_bytes(seq![13u8, 10u8]));
    lemma_ascii_valid(seq![13u8, 10u8]);
    valid_utf8_concat(s, seq![13u8, 10u8]);
}

/// A field that can be written and read back: its name is a lowercase token without
/// ':' or line break, its value has no line break and no whitespace at either end.
pub open spec fn writable_field(f: (Seq<char>, Seq<char>)) -> bool {
    &&& valid_field_name(f.0)
    &&& lower_name(f.0) == f.0
    &&& lacks_byte(encode_utf8(f.0), 58u8)
    &&& lacks_byte(encode_utf8(f.0), 10u8)
    &&& lacks_byte(encode_utf8(f.1), 10u8)
    &&& (f.1.len() == 0 || (!is_whitespace_char(f.1[0]) && !is_whitespace_char(f.1.last())))
}

/// Fields that can be written and read back, no name occurring twice.
pub open spec fn writable_fields(h: Seq<(Seq<char>, Seq<char>)>) -> bool {
    &&& keys_unique(h)
    &&& forall|k: int| 0 <= k < h.len() ==> writable_field(#[trigger] h[k])
}

/// Reading the written field lines gives the fields back, in order, all of the
/// bytes being consumed, and the written lines are well-formed UTF-8.
proof fn lemma_field_lines_read(h: Seq<(Seq<char>, Seq<char>)>)
    requires
        writable_fields(h),
    ensures
        header_lines(Seq::empty(), field_lines_bytes(h)) == (
            h,
            Ok::<(int, bool), ParseFailure>((field_lines_bytes(h).len() as int, false)),
        ),
        valid_utf8(field_lines_bytes(h)),
    decreases h.len(),
{
    let empty = Seq::<(Seq<char>, Seq<char>)>::empty();
    if h.len() == 0 {
        assert(field_lines_bytes(h) =~= Seq::<u8>::empty());
        assert(h =~= empty);
        assert(valid_utf8(Seq::<u8>::empty()));
    } else {
        let h1 = h.drop_last();
        let name = h.last().0;
        let value = h.last().1;
        assert(writable_field(h[h.len() - 1]));
        assert forall|k: int| 0 <= k < h1.len() implies writable_field(#[trigger] h1[k]) by {
            assert(h1[k] == h[k]);
        }
        assert(keys_unique(h1)) by {
            assert forall|a: int, b: int|
                0 <= a < h1.len() && 0 <= b < h1.len() && a != b implies #[trigger] h1[a].0
                != #[trigger] h1[b].0 by {
                assert(h1[a] == h[a] && h1[b] == h[b]);
            }
        }
        lemma_field_lines_read(h1);
        let f1 = field_lines_bytes(h1);
        let space = seq![' '];
        let none = Seq::<char>::empty();
        assert(is_ascii_chars(space));
        is_ascii_chars_encode_utf8(space);
        assert(encode_utf8(space) =~= seq![32u8]);
        assert(encode_utf8(none) =~= Seq::<u8>::empty());
        assert(blanks(space));
        assert(blanks(none));
        let crlf = seq![13u8, 10u8];
        let line = field_line_text(name, space, value, none);
        let lc = line + crlf;
        assert(field_lines_bytes(h) =~= f1 + lc);
        lemma_header_lines_append(empty, f1, lc);
        assert(f1.skip(f1.len() as int) + lc =~= lc);
        lemma_field_line_step(h1, name, space, value, none, Seq::<u8>::empty());
        assert(lc + Seq::<u8>::empty() =~= lc);
        lemma_find_key(h1, name);
        assert forall|j: int| 0 <= j < h1.len() implies #[trigger] h1[j].0 != name by {
            assert(h1[j] == h[j]);
            assert(h[j].0 != h[h.len() - 1].0);
        }
        assert(set_entry(h1, name, value) =~= h);
        let (e3, r3) = header_lines(set_entry(h1, name, value), Seq::<u8>::empty());
        lemma_shift_count_twice(r3, line.len() as int + 2, f1.len() as int);
        lemma_field_line_valid(name, space, value, none);
        valid_utf8_concat(f1, lc);
    }
}

/// Writing fields and parsing what was written gives exactly those fields back,
/// their values unchanged, all of the bytes being consumed.
pub proof fn lemma_written_fields_read_back(h: Seq<(Seq<char>, Seq<char>)>)
    requires
        writable_fields(h),
    ensures
        ({
            let data = field_lines_bytes(h) + seq![13u8, 10u8];
            parse_headers(Seq::empty(), data) == (h, Ok::<(int, bool), ParseFailure>((data.len() as int, true)))
        }),
{
    let crlf = seq![13u8, 10u8];
    let f = field_lines_bytes(h);
    lemma_field_lines_read(h);
    lemma_end_valid(f);
    lemma_header_lines_append(Seq::empty(), f, crlf);
    assert(f.skip(f.len() as int) + crlf =~= crlf);
    lemma_crlf_after(Seq::<u8>::empty(), Seq::<u8>::empty());
    assert(Seq::<u8>::empty() + crlf + Seq::<u8>::empty() =~= crlf);
    assert(header_lines(h, crlf) == (h, Ok::<(int, bool), ParseFailure>((2, true))));
}

/// No field name occurs twice.
pub open spec fn keys_unique(entries: Seq<(Seq<char>, Seq<char>)>) -> bool {
    forall|i: int, j: int|
        0 <= i < entries.len() && 0 <= j < entries.len() && i != j ==> #[trigger] entries[i].0
            != #[trigger] entries[j].0
}

/// Adding a field sets the value of its lowercase name, to the new value if the
/// name was absent and to the old value, a ',' and the new value if it was present.
pub proof fn lemma_set_then_lookup(entries: Seq<(Seq<char>, Seq<char>)>, name: Seq<char>, value: Seq<char>)
    ensures
        lookup(set_entry(entries, name, value), lower_name(name)) == match lookup(
            entries,
            lower_name(name),
        ) {
            Some(old) => Some(old + seq![','] + value),
            None => Some(value),
        },
{
    let key = lower_name(name);
    lemma_find_key(entries, key);
    let e2 = set_entry(entries, name, value);
    lemma_find_key(e2, key);
    match find_key(entries, key) {
        Some(i) => {
            assert(e2[i].0 == key);
            if find_key(e2, key) != Some(i) {
                let j = find_key(e2, key)->0;
                assert(e2[j] == entries[j]);
            }
        },
        None => {
            assert(e2[entries.len() as int].0 == key);
            if find_key(e2, key) != Some(entries.len() as int) {
                let j = find_key(e2, key)->0;
                assert(e2[j] == entries[j]);
            }
        },
    }
}

/// Adding a field leaves the values of the other names as they were.
pub proof fn lemma_set_keeps_others(
    entries: Seq<(Seq<char>, Seq<char>)>,
    name: Seq<char>,
    value: Seq<char>,
    other: Seq<char>,
)
    requires
        other != lower_name(name),
    ensures
        lookup(set_entry(entries, name, value), other) == lookup(entries, other),
{
    let key = lower_name(name);
    lemma_find_key(entries, key);
    lemma_find_key(entries, other);
    let e2 = set_entry(entries, name, value);
    lemma_find_key(e2, other);
    match find_key(entries, other) {
        Some(i) => {
            assert(e2[i] == entries[i]);
            if find_key(e2, other) != Some(i) {
                let j = find_key(e2, other)->0;
                assert(e2[j] == entries[j]);
            }
        },
        None => {
            if let Some(j) = find_key(e2, other) {
                if j < entries.len() {
                    assert(e2[j].0 == entries[j].0);
                }
            }
        },
    }
}

/// A field line repeated under the same name, in any mix of letter cases, keeps
/// both values, joined by a ',' (RFC 9110 5.2).
pub proof fn lemma_repeated_field_combines(
    entries: Seq<(Seq<char>, Seq<char>)>,
    name1: Seq<char>,
    value1: Seq<char>,
    name2: Seq<char>,
    value2: Seq<char>,
)
    requires
        lower_name(name1) == lower_name(name2),
        lookup(entries, lower_name(name1)) is None,
    ensures
        lookup(set_entry(set_entry(entries, name1, value1), name2, value2), lower_name(name1))
            == Some(value1 + seq![','] + value2),
{
    lemma_set_then_lookup(entries, name1, value1);
    lemma_set_then_lookup(set_entry(entries, name1, value1), name2, value2);
}

/// Two ASCII names that differ only in the case of their letters find the same field.
pub proof fn lemma_lookup_ignores_case(entries: Seq<(Seq<char>, Seq<char>)>, name1: Seq<char>, name2: Seq<char>)
    requires
        is_ascii_chars(name1),
        is_ascii_chars(name2),
        name1.len() == name2.len(),
        forall|i: int| 0 <= i < name1.len() ==> ascii_lower_char(#[trigger] name1[i]) == ascii_lower_char(name2[i]),
    ensures
        lower_name(name1) == lower_name(name2),
        lookup(entries, lower_name(name1)) == lookup(entries, lower_name(name2)),
{
    assert(ascii_lowercase(name1) =~= ascii_lowercase(name2));
}

/// Adding a field never makes a name occur twice.
pub proof fn lemma_set_keeps_unique(entries: Seq<(Seq<char>, Seq<char>)>, name: Seq<char>, value: Seq<char>)
    requires
        keys_unique(entries),
    ensures
        keys_unique(set_entry(entries, name, value)),
{
    lemma_update_keeps_unique(entries, lower_name(name), value, true);
}

/// Merging or storing a value under `key` never makes a name occur twice.
proof fn lemma_update_keeps_unique(
    entries: Seq<(Seq<char>, Seq<char>)>,
    key: Seq<char>,
    value: Seq<char>,
    merge: bool,
)
    requires
        keys_unique(entries),
    ensures
        merge ==> keys_unique(merge_entry(entries, key, value)),
        !merge ==> keys_unique(store_entry(entries, key, value)),
{
    lemma_find_key(entries, key);
    let e2 = if merge {
        merge_entry(entries, key, value)
    } else {
        store_entry(entries, key, value)
    };
    assert forall|i: int, j: int|
        0 <= i < e2.len() && 0 <= j < e2.len() && i != j implies #[trigger] e2[i].0
        != #[trigger] e2[j].0 by {
        match find_key(entries, key) {
            Some(k) => {
                if i != k && j != k {
                    assert(e2[i] == entries[i] && e2[j] == entries[j]);
                } else if i == k {
                    assert(e2[j] == entries[j]);
                    assert(entries[k].0 == key);
                } else {
                    assert(e2[i] == entries[i]);
                    assert(entries[k].0 == key);
                }
            },
            None => {
                if i < entries.len() && j < entries.len() {
                    assert(e2[i] == entries[i] && e2[j] == entries[j]);
                } else if i < entries.len() {
                    assert(e2[i] == entries[i]);
                } else {
                    assert(e2[j] == entries[j]);
                }
            },
        }
    }
}

/// Removing a field never makes a name occur twice.
proof fn lemma_remove_keeps_unique(entries: Seq<(Seq<char>, Seq<char>)>, key: Seq<char>)
    requires
        keys_unique(entries),
    ensures
        keys_unique(remove_entry(entries, key)),
{
    lemma_find_key(entries, key);
    if let Some(k) = find_key(entries, key) {
        let e2 = entries.remove(k);
        assert forall|i: int, j: int|
            0 <= i < e2.len() && 0 <= j < e2.len() && i != j implies #[trigger] e2[i].0
            != #[trigger] e2[j].0 by {
            let a = if i < k { i } else { i + 1 };
            let b = if j < k { j } else { j + 1 };
            assert(e2[i] == entries[a] && e2[j] == entries[b]);
        }
    }
}

/// Parsing field lines never makes a name occur twice.
pub proof fn lemma_parse_keeps_unique(entries: Seq<(Seq<char>, Seq<char>)>, data: Seq<u8>)
    requires
        keys_unique(entries),
    ensures
        keys_unique(parse_headers(entries, data).0),
{
    if valid_utf8(data) {
        lemma_header_lines_unique(entries, data);
    }
}

proof fn lemma_header_lines_unique(entries: Seq<(Seq<char>, Seq<char>)>, rest: Seq<u8>)
    requires
        keys_unique(entries),
    ensures
        keys_unique(header_lines(entries, rest).0),
    decreases rest.len(),
{
    lemma_find_crlf(rest);
    match find_crlf(rest) {
        None => {},
        Some(i) => {
            if i != 0 {
                let line = rest.take(i);
                match find_byte(line, 58u8) {
                    None => {},
                    Some(c) => {
                        let name = decode_utf8(line.take(c));
                        let value = trim(decode_utf8(line.skip(c + 1)));
                        if valid_field_name(name) {
                            lemma_set_keeps_unique(entries, name, value);
                            lemma_header_lines_unique(set_entry(entries, name, value), rest.skip(i + 2));
                        }
                    },
                }
            }
        },
    }
}

/// After a replacement the name has exactly the new value.
pub proof fn lemma_replace_then_lookup(entries: Seq<(Seq<char>, Seq<char>)>, name: Seq<char>, value: Seq<char>)
    ensures
        lookup(replace_entry(entries, name, value), lower_name(name)) == Some(value),
{
    let key = lower_name(name);
    lemma_find_key(entries, key);
    let e2 = replace_entry(entries, name, value);
    lemma_find_key(e2, key);
    match find_key(entries, key) {
        Some(i) => {
            assert(e2[i].0 == key);
            if let Some(j) = find_key(e2, key) {
                if j < i {
                    assert(e2[j] == entries[j]);
                }
            }
        },
        None => {
            assert(e2[entries.len() as int].0 == key);
            if let Some(j) = find_key(e2, key) {
                if j < entries.len() {
                    assert(e2[j] == entries[j]);
                }
            }
        },
    }
}

/// After a deletion the name has no value, when no name occurred twice.
pub proof fn lemma_delete_then_lookup(entries: Seq<(Seq<char>, Seq<char>)>, name: Seq<char>)
    requires
        keys_unique(entries),
    ensures
        lookup(delete_entry(entries, name), lower_name(name)) is None,
{
    let key = lower_name(name);
    lemma_find_key(entries, key);
    let e2 = delete_entry(entries, name);
    lemma_find_key(e2, key);
    if let Some(i) = find_key(entries, key) {
        if let Some(j) = find_key(e2, key) {
            if j < i {
                assert(e2[j] == entries[j]);
            } else {
                assert(e2[j] == entries[j + 1]);
            }
        }
    }
}

/// The fields of an HTTP message, by lowercase name, in the order they first appeared.
pub struct Headers {
    headers: Vec<(String, String)>,
}

impl View for Headers {
    type V = Seq<(Seq<char>, Seq<char>)>;

    closed spec fn view(&self) -> Seq<(Seq<char>, Seq<char>)> {
        entries_view(self.headers@)
    }
}

/// The fields held in a vector, as text.
spec fn entries_view(v: Seq<(String, String)>) -> Seq<(Seq<char>, Seq<char>)> {
    v.map_values(|e: (String, String)| (e.0@, e.1@))
}

impl Headers {
    /// No name occurs twice.
    #[verifier::type_invariant]
    spec fn unique_names(self) -> bool {
        keys_unique(self@)
    }

    pub fn new() -> (h: Self)
        ensures
            h@ == Seq::<(Seq<char>, Seq<char>)>::empty(),
            keys_unique(h@),
    {
        let h = Headers { headers: Vec::new() };
        assert(h@ =~= Seq::<(Seq<char>, Seq<char>)>::empty());
        h
    }

    fn position(&self, key: &String) -> (r: Option<usize>)
        ensures
            match r {
                Some(i) => find_key(self@, key@) == Some(i as int),
                None => find_key(self@, key@) is None,
            },
    {
        let mut i: usize = 0;
        while i < self.headers.len()
            invariant
                i <= self.headers@.len(),
                self@.len() == self.headers@.len(),
                forall|j: int| 0 <= j < i ==> #[trigger] self@[j].0 != key@,
            decreases self.headers@.len() - i,
        {
            assert(self@[i as int].0 == self.headers@[i as int].0@);
            if self.headers[i].0 == *key {
                proof {
                    lemma_find_key(self@, key@);
                }
                return Some(i);
            }
            i = i + 1;
        }
        proof {
            lemma_find_key(self@, key@);
        }
        None
    }

    /// Adds `value` under the name `key`, which is taken as it is (already in
    /// lowercase); see `merge_entry`.
    pub fn merge_lowercase(&mut self, key: String, value: String)
        ensures
            final(self)@ == merge_entry(old(self)@, key@, value@),
            keys_unique(final(self)@),
    {
        proof {
            use_type_invariant(&*self);
            lemma_find_key(self@, key@);
            lemma_update_keeps_unique(self@, key@, value@, true);
        }
        let pos = self.position(&key);
        let mut entries: Vec<(String, String)> = Vec::new();
        std::mem::swap(&mut entries, &mut self.headers);
        assert(entries_view(entries@) == old(self)@);
        match pos {
            Some(i) => {
                let mut current = entries[i].1.clone();
                let ghost old_value = current@;
                assert(old_value == old(self)@[i as int].1);
                current.append(",");
                current.append(value.as_str());
                proof {
                    reveal_strlit(",");
                    assert(","@ =~= seq![',']);
                }
                assert(current@ == old_value + seq![','] + value@);
                entries.set(i, (key, current));
                assert(entries_view(entries@) =~= merge_entry(old(self)@, key@, value@));
            },
            None => {
                entries.push((key, value));
                assert(entries_view(entries@) =~= merge_entry(old(self)@, key@, value@));
            },
        }
        self.headers = entries;
    }

    /// Adds a field; see `set_entry`.
    pub fn set(&mut self, key: String, value: String)
        ensures
            final(self)@ == set_entry(old(self)@, key@, value@),
            keys_unique(final(self)@),
    {
        let lkey = str_to_lowercase(key.as_str());
        self.merge_lowercase(lkey, value);
    }

    /// Stores `value` under the name `key`, which is taken as it is (already in
    /// lowercase); see `store_entry`.
    pub fn store_lowercase(&mut self, key: String, value: String)
        ensures
            final(self)@ == store_entry(old(self)@, key@, value@),
            keys_unique(final(self)@),
    {
        proof {
            use_type_invariant(&*self);
            lemma_find_key(self@, key@);
            lemma_update_keeps_unique(self@, key@, value@, false);
        }
        let pos = self.position(&key);
        let mut entries: Vec<(String, String)> = Vec::new();
        std::mem::swap(&mut entries, &mut self.headers);
        assert(entries_view(entries@) == old(self)@);
        match pos {
            Some(i) => {
                entries.set(i, (key, value));
                assert(entries_view(entries@) =~= store_entry(old(self)@, key@, value@));
            },
            None => {
                entries.push((key, value));
                assert(entries_view(entries@) =~= store_entry(old(self)@, key@, value@));
            },
        }
        self.headers = entries;
    }

    /// Stores `value` under `key`, in place of any value it had; see `replace_entry`.
    pub fn replace(&mut self, key: String, value: String)
        ensures
            final(self)@ == replace_entry(old(self)@, key@, value@),
            keys_unique(final(self)@),
            lookup(final(self)@, lower_name(key@)) == Some(value@),
    {
        proof {
            lemma_replace_then_lookup(self@, key@, value@);
        }
        let lkey = str_to_lowercase(key.as_str());
        self.store_lowercase(lkey, value);
    }

    /// Removes the field named `key`, which is taken as it is (already in
    /// lowercase); see `remove_entry`.
    pub fn remove_lowercase(&mut self, key: &String)
        ensures
            final(self)@ == remove_entry(old(self)@, key@),
            keys_unique(final(self)@),
    {
        proof {
            use_type_invariant(&*self);
            lemma_find_key(self@, key@);
            lemma_remove_keeps_unique(self@, key@);
        }
        let pos = self.position(key);
        let mut entries: Vec<(String, String)> = Vec::new();
        std::mem::swap(&mut entries, &mut self.headers);
        assert(entries_view(entries@) == old(self)@);
        match pos {
            Some(i) => {
                entries.remove(i);
                assert(entries_view(entries@) =~= remove_entry(old(self)@, key@));
            },
            None => {},
        }
        self.headers = entries;
    }

    /// Removes the field `key`; see `delete_entry`.
    pub fn delete(&mut self, key: String)
        ensures
            final(self)@ == delete_entry(old(self)@, key@),
            keys_unique(final(self)@),
            lookup(final(self)@, lower_name(key@)) is None,
    {
        proof {
            use_type_invariant(&*self);
            lemma_delete_then_lookup(self@, key@);
        }
        let lkey = str_to_lowercase(key.as_str());
        self.remove_lowercase(&lkey);
    }

    /// The fields as they are written in a response: one "name: value\r\n" line
    /// each, in order, and the empty line that ends them.
    pub fn write_headers(&self) -> (r: Vec<u8>)
        ensures
            r@ == field_lines_bytes(self@) + seq![13u8, 10u8],
    {
        let mut out: Vec<u8> = Vec::new();
        let mut i: usize = 0;
        while i < self.headers.len()
            invariant
                i <= self.headers@.len(),
                self@.len() == self.headers@.len(),
                out@ == field_lines_bytes(self@.take(i as int)),
            decreases self.headers@.len() - i,
        {
            let ghost before = out@;
            let name = self.headers[i].0.as_str().as_bytes();
            let value = self.headers[i].1.as_str().as_bytes();
            let mut part = vstd::slice::slice_to_vec(name);
            out.append(&mut part);
            out.push(58u8);
            out.push(32u8);
            let mut part = vstd::slice::slice_to_vec(value);
            out.append(&mut part);
            out.push(13u8);
            out.push(10u8);
            proof {
                let t = self@.take(i + 1);
                assert(t.drop_last() =~= self@.take(i as int));
                assert(t.last() == self@[i as int]);
                assert(self@[i as int] == (self.headers@[i as int].0@, self.headers@[i as int].1@));
                assert(out@ =~= field_lines_bytes(t));
            }
            i = i + 1;
        }
        assert(self@.take(i as int) =~= self@);
        out.push(13u8);
        out.push(10u8);
        out
    }

    /// The fields of a response with a plain-text body of `content_length` bytes:
    /// its length, "connection: close" and "content-type: text/plain".
    pub fn default_response_headers(content_length: usize) -> (h: Self)
        ensures
            h@ == default_response_entries(content_length as nat),
            keys_unique(h@),
    {
        let mut h = Headers::new();
        proof {
            reveal_strlit("content-length");
            reveal_strlit("connection");
            reveal_strlit("content-type");
            assert("content-length"@.len() == 14 && "connection"@.len() == 10);
            assert("content-type"@.len() == 12);
            assert("content-length"@ != "connection"@);
            assert("content-length"@ != "content-type"@);
            assert("connection"@ != "content-type"@);
        }
        let digits = usize_to_string(content_length);
        let ghost d = digits@;
        let ghost e: Seq<(Seq<char>, Seq<char>)> = Seq::empty();
        let ghost one = seq![("content-length"@, d)];
        let ghost two = seq![("content-length"@, d), ("connection"@, "close"@)];
        assert(find_key(e, "content-length"@) is None);
        h.merge_lowercase("content-length".to_owned(), digits);
        assert(h@ =~= one);
        assert(one.drop_first() =~= e);
        assert(find_key(one.drop_first(), "connection"@) is None);
        assert(find_key(one, "connection"@) is None);
        h.merge_lowercase("connection".to_owned(), "close".to_owned());
        assert(h@ =~= two);
        assert(two.drop_first().drop_first() =~= e);
        assert(find_key(two.drop_first().drop_first(), "content-type"@) is None);
        assert(find_key(two.drop_first(), "content-type"@) is None);
        assert(find_key(two, "content-type"@) is None);
        h.merge_lowercase("content-type".to_owned(), "text/plain".to_owned());
        assert(h@ =~= default_response_entries(content_length as nat));
        h
    }

    /// The fields, in order, as (lowercase name, value) pairs.
    pub fn fields(&self) -> (r: &Vec<(String, String)>)
        ensures
            r@.map_values(|e: (String, String)| (e.0@, e.1@)) == self@,
    {
        &self.headers
    }

    /// The fields as text: "Headers:" and then a line "- name, value" for each field.
    pub fn describe(&self) -> (r: String)
        ensures
            r@ == "Headers:\n"@ + fields_text(self@),
    {
        let mut out = "Headers:\n".to_owned();
        let ghost start = out@;
        let mut i: usize = 0;
        while i < self.headers.len()
            invariant
                i <= self.headers@.len(),
                self@.len() == self.headers@.len(),
                out@ == start + fields_text(self@.take(i as int)),
            decreases self.headers@.len() - i,
        {
            out.append("- ");
            out.append(self.headers[i].0.as_str());
            out.append(", ");
            out.append(self.headers[i].1.as_str());
            out.append("\n");
            proof {
                let t = self@.take(i + 1);
                assert(t.drop_last() =~= self@.take(i as int));
                assert(t.last() == self@[i as int]);
                assert(self@[i as int] == (self.headers@[i as int].0@, self.headers@[i as int].1@));
            }
            i = i + 1;
        }
        assert(self@.take(i as int) =~= self@);
        out
    }

    /// The value of the field named `key`, which is taken as it is (already in
    /// lowercase).
    pub fn get_lowercase(&self, key: &String) -> (r: Option<&String>)
        ensures
            match r {
                Some(v) => lookup(self@, key@) == Some(v@),
                None => lookup(self@, key@) is None,
            },
    {
        proof {
            lemma_find_key(self@, key@);
        }
        match self.position(key) {
            Some(i) => {
                assert(self@[i as int].1 == self.headers@[i as int].1@);
                Some(&self.headers[i].1)
            },
            None => None,
        }
    }

    /// The value of the field named `key`, whatever the case of its letters.
    pub fn get(&self, key: &String) -> (r: Option<&String>)
        ensures
            match r {
                Some(v) => lookup(self@, lower_name(key@)) == Some(v@),
                None => lookup(self@, lower_name(key@)) is None,
            },
    {
        let lkey = str_to_lowercase(key.as_str());
        self.get_lowercase(&lkey)
    }

    /// Whether `field_name` is a token that neither starts nor ends with a space.
    pub fn is_valid_field_name(&self, field_name: &String) -> (r: bool)
        ensures
            r == valid_field_name(field_name@),
    {
        let name = field_name.as_str();
        let n = name.unicode_len();
        if n > 0 && (name.get_char(n - 1) == ' ' || name.get_char(0) == ' ') {
            return false;
        }
        let mut i: usize = 0;
        while i < n
            invariant
                i <= n,
                n == name@.len(),
                name@ == field_name@,
                forall|j: int| 0 <= j < i ==> is_token_char(#[trigger] name@[j]),
            decreases n - i,
        {
            let ch = name.get_char(i);
            let special = match ch {
                '!' | '#' | '$' | '%' | '&' | '\'' | '*' | '+' | '-' | '.' | '^' | '_' | '`' | '|'
                | '~' => true,
                _ => false,
            };
            if !char_is_alphanumeric(ch) && !special {
                return false;
            }
            i = i + 1;
        }
        true
    }

    /// Reads the complete field lines at the start of `buffer`, up to and including
    /// the empty line that ends them. Returns the number of bytes consumed and whether
    /// that empty line was reached.
    pub fn parse(&mut self, buffer: &[u8]) -> (r: Result<(usize, bool), ParseError>)
        ensures
            (final(self)@, count_outcome(r)) == parse_headers(old(self)@, buffer@),
            keys_unique(final(self)@),
            r matches Ok((n, _)) ==> n <= buffer@.len(),
    {
        proof {
            use_type_invariant(&*self);
        }
        if let Err(text) = str_from_utf8(buffer) {
            return Err(ParseError::InvalidUtf8(text));
        }
        let mut read: usize = 0;
        let len = buffer.len();
        assert(buffer@.skip(0) =~= buffer@);
        loop
            invariant
                len == buffer@.len(),
                read <= buffer@.len(),
                valid_utf8(buffer@),
                valid_utf8(buffer@.skip(read as int)),
                keys_unique(self@),
                header_lines(old(self)@, buffer@) == ({
                    let (e, r) = header_lines(self@, buffer@.skip(read as int));
                    (e, shift_count(r, read as int))
                }),
            decreases buffer@.len() - read,
        {
            let ghost rest = buffer@.skip(read as int);
            let ghost entries = self@;
            proof {
                lemma_find_crlf(rest);
            }
            let idx = match find_crlf_from(buffer, read) {
                Some(i) => i,
                None => {
                    return Ok((read, false));
                },
            };
            assert(is_crlf_at(rest, idx as int));
            assert(read + idx + 2 <= buffer@.len());
            if idx == 0 {
                return Ok((read + 2, true));
            }
            let ghost line = rest.take(idx as int);
            assert(buffer@.subrange(read as int, read + idx) =~= line);
            let c = match find_byte_in(buffer, read, read + idx, 58u8) {
                Some(c) => c,
                None => {
                    return Err(ParseError::MalformedHeader);
                },
            };
            proof {
                lemma_find_byte(line, 58u8);
                assert(rest[idx as int] == 13u8);
                lemma_valid_split_at_ascii(rest, idx as int);
                lemma_valid_split_at_ascii(line, c as int);
                lemma_valid_drop_ascii(line.skip(c as int));
                assert(line.skip(c as int).skip(1) =~= line.skip(c + 1));
                let tail = rest.skip(idx as int);
                lemma_valid_drop_ascii(tail);
                assert(tail.skip(1)[0] == 10u8);
                lemma_valid_drop_ascii(tail.skip(1));
                assert(tail.skip(1).skip(1) =~= buffer@.skip(read + idx + 2));
                assert(buffer@.subrange(read as int, read + c) =~= line.take(c as int));
                assert(buffer@.subrange(read + c + 1, read + idx) =~= line.skip(c + 1));
                assert(rest.skip(idx + 2) =~= buffer@.skip(read + idx + 2));
            }
            let name_str = str_from_utf8(&buffer[read..read + c]).unwrap();
            let value_str = str_from_utf8(&buffer[read + c + 1..read + idx]).unwrap();
            let field_name = name_str.to_owned();
            let field_value = trim_str(value_str);
            if !self.is_valid_field_name(&field_name) {
                return Err(ParseError::MalformedFieldName(field_name));
            }
            read = read + idx + 2;
            self.set(field_name, field_value);
        }
    }
}

} // verus!
