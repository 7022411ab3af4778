//! Byte- and character-level helpers shared by the parsers.

use vstd::prelude::*;
use vstd::utf8::*;

verus! {

/// Every byte is below 128.
pub open spec fn is_ascii_bytes(s: Seq<u8>) -> bool {
    forall|i: int| 0 <= i < s.len() ==> #[trigger] s[i] < 128u8
}

/// True when `s` holds "\r\n" at position `i`.
pub open spec fn is_crlf_at(s: Seq<u8>, i: int) -> bool {
    0 <= i && i + 1 < s.len() && s[i] == 13u8 && s[i + 1] == 10u8
}

/// The position of the first "\r\n" in `s`.
pub open spec fn find_crlf(s: Seq<u8>) -> Option<int>
    decreases s.len(),
{
    if s.len() < 2 {
        None
    } else if s[0] == 13u8 && s[1] == 10u8 {
        Some(0)
    } else {
        match find_crlf(s.drop_first()) {
            Some(i) => Some(i + 1),
            None => None,
        }
    }
}

/// The position of the first occurrence of byte `b` in `s`.
pub open spec fn find_byte(s: Seq<u8>, b: u8) -> Option<int>
    decreases s.len(),
{
    if s.len() == 0 {
        None
    } else if s[0] == b {
        Some(0)
    } else {
        match find_byte(s.drop_first(), b) {
            Some(i) => Some(i + 1),
            None => None,
        }
    }
}

/// `find_crlf` gives the first position of a "\r\n", and none when there is none.
pub proof fn lemma_find_crlf(s: Seq<u8>)
    ensures
        match find_crlf(s) {
            Some(i) => is_crlf_at(s, i) && forall|j: int| j < i ==> !#[trigger] is_crlf_at(s, j),
            None => forall|j: int| !#[trigger] is_crlf_at(s, j),
        },
    decreases s.len(),
{
    if s.len() >= 2 && !(s[0] == 13u8 && s[1] == 10u8) {
        let t = s.drop_first();
        lemma_find_crlf(t);
        assert forall|j: int| #[trigger] is_crlf_at(s, j) implies j >= 1 && is_crlf_at(t, j - 1) by {
            if j >= 1 {
                assert(s[j] == t[j - 1]);
                assert(s[j + 1] == t[j]);
            }
        }
        match find_crlf(t) {
            Some(i) => {
                assert(s[i + 1] == t[i]);
                assert(s[i + 2] == t[i + 1]);
            },
            None => {},
        }
    }
}

/// `find_byte` gives the first position of `b`, and none when `b` does not occur.
pub proof fn lemma_find_byte(s: Seq<u8>, b: u8)
    ensures
        match find_byte(s, b) {
            Some(i) => 0 <= i < s.len() && s[i] == b && forall|j: int| 0 <= j < i ==> #[trigger] s[j] != b,
            None => forall|j: int| 0 <= j < s.len() ==> #[trigger] s[j] != b,
        },
    decreases s.len(),
{
    if s.len() > 0 && s[0] != b {
        let t = s.drop_first();
        lemma_find_byte(t, b);
        assert forall|j: int| 1 <= j < s.len() implies #[trigger] s[j] == t[j - 1] by {}
    }
}

/// The first "\r\n" of `x` is also the first of `x` followed by anything.
pub(crate) proof fn lemma_find_crlf_append(x: Seq<u8>, y: Seq<u8>)
    ensures
        find_crlf(x) matches Some(i) ==> find_crlf(x + y) == Some(i),
{
    lemma_find_crlf(x);
    lemma_find_crlf(x + y);
    if let Some(i) = find_crlf(x) {
        assert((x + y)[i] == x[i]);
        assert((x + y)[i + 1] == x[i + 1]);
        assert(is_crlf_at(x + y, i));
        assert forall|j: int| j < i implies !#[trigger] is_crlf_at(x + y, j) by {
            if 0 <= j {
                assert((x + y)[j] == x[j]);
                assert((x + y)[j + 1] == x[j + 1]);
                assert(!is_crlf_at(x, j));
            }
        }
        match find_crlf(x + y) {
            Some(k) => {
                if k < i {
                    assert(!is_crlf_at(x + y, k));
                }
                if k > i {
                    assert(!is_crlf_at(x + y, i));
                }
            },
            None => {},
        }
    }
}

/// Returns the position, counted from `start`, of the first "\r\n" in `data[start..]`.
pub fn find_crlf_from(data: &[u8], start: usize) -> (r: Option<usize>)
    requires
        start <= data@.len(),
    ensures
        match r {
            Some(i) => find_crlf(data@.skip(start as int)) == Some(i as int),
            None => find_crlf(data@.skip(start as int)) is None,
        },
{
    let ghost s = data@.skip(start as int);
    proof {
        lemma_find_crlf(s);
    }
    let mut i: usize = start;
    while i < data.len() && i + 1 < data.len()
        invariant
            start <= i <= data@.len(),
            s == data@.skip(start as int),
            forall|j: int| j < i - start ==> !#[trigger] is_crlf_at(s, j),
        decreases data@.len() - i,
    {
        if data[i] == 13u8 && data[i + 1] == 10u8 {
            assert(is_crlf_at(s, i - start));
            proof {
                lemma_find_crlf(s);
            }
            return Some(i - start);
        }
        assert(!is_crlf_at(s, i - start));
        i = i + 1;
    }
    assert forall|j: int| !#[trigger] is_crlf_at(s, j) by {
        if j >= i - start {
            assert(j + 1 >= s.len());
        }
    }
    None
}


/// Returns the position of the first occurrence of byte `b` in `data[start..end]`,
/// counted from `start`.
pub fn find_byte_in(data: &[u8], start: usize, end: usize, b: u8) -> (r: Option<usize>)
    requires
        start <= end <= data@.len(),
    ensures
        match r {
            Some(i) => find_byte(data@.subrange(start as int, end as int), b) == Some(i as int),
            None => find_byte(data@.subrange(start as int, end as int), b) is None,
        },
{
    let ghost s = data@.subrange(start as int, end as int);
    let mut i: usize = start;
    while i < end
        invariant
            start <= i <= end <= data@.len(),
            s == data@.subrange(start as int, end as int),
            forall|j: int| 0 <= j < i - start ==> #[trigger] s[j] != b,
        decreases end - i,
    {
        assert(s[i - start] == data@[i as int]);
        if data[i] == b {
            proof {
                lemma_find_byte(s, b);
            }
            return Some(i - start);
        }
        i = i + 1;
    }
    proof {
        lemma_find_byte(s, b);
    }
    None
}

/* UTF-8 */

/// The description that `std::str::from_utf8` gives, through its `Utf8Error`, of
/// bytes that are not well-formed UTF-8 (it names where the well-formed part ends).
pub uninterp spec fn spec_utf8_error_text(bytes: Seq<u8>) -> Seq<char>;

/// `std::str::from_utf8`: the bytes are accepted exactly when they are well-formed
/// UTF-8, and the string slice handed back holds the characters they encode; when
/// they are refused, the text of the error it reports, which depends on the bytes
/// alone (its wording is not stated here).
#[verifier::external_body]
pub(crate) fn str_from_utf8(bytes: &[u8]) -> (r: Result<&str, String>)
    ensures
        r is Ok <==> valid_utf8(bytes@),
        r matches Ok(s) ==> s@ == decode_utf8(bytes@),
        r matches Err(text) ==> text@ == spec_utf8_error_text(bytes@),
{
    match std::str::from_utf8(bytes) {
        Ok(s) => Ok(s),
        Err(e) => Err(e.to_string()),
    }
}

/// Splitting well-formed UTF-8 just before an ASCII byte leaves two well-formed halves.
pub(crate) proof fn lemma_valid_split_at_ascii(s: Seq<u8>, i: int)
    requires
        valid_utf8(s),
        0 <= i < s.len(),
        s[i] < 128u8,
    ensures
        valid_utf8(s.take(i)),
        valid_utf8(s.skip(i)),
        decode_utf8(s) == decode_utf8(s.take(i)) + decode_utf8(s.skip(i)),
{
    is_char_boundary_iff_is_leading_byte(s, i);
    valid_utf8_split(s, i);
    decode_utf8_split(s, i);
    assert(s.take(i) =~= s.subrange(0, i));
    assert(s.skip(i) =~= s.subrange(i, s.len() as int));
}

/// Dropping a leading ASCII byte from well-formed UTF-8 leaves well-formed UTF-8.
pub(crate) proof fn lemma_valid_drop_ascii(s: Seq<u8>)
    requires
        valid_utf8(s),
        s.len() > 0,
        s[0] < 128u8,
    ensures
        valid_utf8(s.skip(1)),
{
    assert(pop_first_scalar(s) =~= s.skip(1));
}

/// What follows a well-formed UTF-8 prefix of well-formed UTF-8 is well-formed UTF-8.
pub(crate) proof fn lemma_valid_suffix(a: Seq<u8>, b: Seq<u8>)
    requires
        valid_utf8(a),
        valid_utf8(a + b),
    ensures
        valid_utf8(b),
    decreases a.len(),
{
    if a.len() == 0 {
        assert(a + b =~= b);
    } else {
        let l = length_of_first_scalar(a);
        assert((a + b)[0] == a[0]);
        assert(length_of_first_scalar(a + b) == l);
        assert(pop_first_scalar(a + b) =~= pop_first_scalar(a) + b);
        lemma_valid_suffix(pop_first_scalar(a), b);
    }
}

/// The bytes up to and including a "\r\n" of well-formed UTF-8 are well-formed UTF-8.
pub(crate) proof fn lemma_valid_crlf_prefix(s: Seq<u8>, i: int)
    requires
        valid_utf8(s),
        is_crlf_at(s, i),
    ensures
        valid_utf8(s.take(i + 2)),
{
    lemma_valid_split_at_ascii(s, i);
    let crlf = seq![13u8, 10u8];
    assert(is_ascii_bytes(crlf));
    lemma_ascii_valid(crlf);
    valid_utf8_concat(s.take(i), crlf);
    assert(s.take(i + 2) =~= s.take(i) + crlf);
}

/// Well-formed UTF-8 cut into a well-formed prefix leaves a well-formed rest,
/// also when more well-formed bytes follow.
pub(crate) proof fn lemma_valid_cut(x: Seq<u8>, n: int, y: Seq<u8>)
    requires
        0 <= n <= x.len(),
        valid_utf8(x.take(n)),
        valid_utf8(x + y),
    ensures
        valid_utf8(x.skip(n) + y),
{
    assert(x + y =~= x.take(n) + (x.skip(n) + y));
    lemma_valid_suffix(x.take(n), x.skip(n) + y);
}

/// Every byte sequence of ASCII bytes is well-formed UTF-8.
pub(crate) proof fn lemma_ascii_valid(s: Seq<u8>)
    requires
        is_ascii_bytes(s),
    ensures
        valid_utf8(s),
    decreases s.len(),
{
    if s.len() > 0 {
        assert(s[0] < 128u8);
        let t = s.skip(1);
        assert(is_ascii_bytes(t)) by {
            assert forall|i: int| 0 <= i < t.len() implies #[trigger] t[i] < 128u8 by {
                assert(t[i] == s[i + 1]);
            }
        }
        lemma_ascii_valid(t);
        assert(pop_first_scalar(s) =~= t);
    }
}

/* Characters */

/// The characters with the Unicode White_Space property, which is what
/// `char::is_whitespace` tests.
pub open spec fn is_whitespace_char(c: char) -> bool {
    ||| '\u{9}' <= c <= '\u{d}'
    ||| c == ' '
    ||| c == '\u{85}'
    ||| c == '\u{a0}'
    ||| c == '\u{1680}'
    ||| '\u{2000}' <= c <= '\u{200a}'
    ||| c == '\u{2028}'
    ||| c == '\u{2029}'
    ||| c == '\u{202f}'
    ||| c == '\u{205f}'
    ||| c == '\u{3000}'
}

pub fn is_whitespace(c: char) -> (r: bool)
    ensures
        r == is_whitespace_char(c),
{
    ('\u{9}' <= c && c <= '\u{d}') || c == ' ' || c == '\u{85}' || c == '\u{a0}' || c == '\u{1680}'
        || ('\u{2000}' <= c && c <= '\u{200a}') || c == '\u{2028}' || c == '\u{2029}'
        || c == '\u{202f}' || c == '\u{205f}' || c == '\u{3000}'
}

/// `s` without its leading whitespace.
pub open spec fn trim_start(s: Seq<char>) -> Seq<char>
    decreases s.len(),
{
    if s.len() > 0 && is_whitespace_char(s[0]) {
        trim_start(s.drop_first())
    } else {
        s
    }
}

/// `s` without its trailing whitespace.
pub open spec fn trim_end(s: Seq<char>) -> Seq<char>
    decreases s.len(),
{
    if s.len() > 0 && is_whitespace_char(s.last()) {
        trim_end(s.drop_last())
    } else {
        s
    }
}

/// `s` without leading and trailing whitespace, as `str::trim` gives it.
pub open spec fn trim(s: Seq<char>) -> Seq<char> {
    trim_end(trim_start(s))
}

proof fn lemma_trim_start(s: Seq<char>, a: int)
    requires
        0 <= a <= s.len(),
        forall|j: int| 0 <= j < a ==> is_whitespace_char(#[trigger] s[j]),
        a == s.len() || !is_whitespace_char(s[a]),
    ensures
        trim_start(s) == s.skip(a),
    decreases a,
{
    if a > 0 {
        let t = s.drop_first();
        assert forall|j: int| 0 <= j < a - 1 implies is_whitespace_char(#[trigger] t[j]) by {
            assert(t[j] == s[j + 1]);
        }
        lemma_trim_start(t, a - 1);
        assert(t.skip(a - 1) =~= s.skip(a));
    } else {
        assert(s.skip(0) =~= s);
    }
}

proof fn lemma_trim_end(s: Seq<char>, b: int)
    requires
        0 <= b <= s.len(),
        forall|j: int| b <= j < s.len() ==> is_whitespace_char(#[trigger] s[j]),
        b == 0 || !is_whitespace_char(s[b - 1]),
    ensures
        trim_end(s) == s.take(b),
    decreases s.len() - b,
{
    if b < s.len() {
        let t = s.drop_last();
        assert forall|j: int| b <= j < t.len() implies is_whitespace_char(#[trigger] t[j]) by {
            assert(t[j] == s[j]);
        }
        lemma_trim_end(t, b);
        assert(t.take(b) =~= s.take(b));
    } else {
        assert(s.take(b) =~= s);
    }
}

/// Trimming text padded with whitespace on both sides gives the text back, when it
/// neither starts nor ends with whitespace itself.
pub proof fn lemma_trim_padded(w1: Seq<char>, v: Seq<char>, w2: Seq<char>)
    requires
        forall|j: int| 0 <= j < w1.len() ==> is_whitespace_char(#[trigger] w1[j]),
        forall|j: int| 0 <= j < w2.len() ==> is_whitespace_char(#[trigger] w2[j]),
        v.len() == 0 || (!is_whitespace_char(v[0]) && !is_whitespace_char(v.last())),
    ensures
        trim(w1 + v + w2) == v,
{
    let s = w1 + v + w2;
    if v.len() == 0 {
        assert forall|j: int| 0 <= j < s.len() implies is_whitespace_char(#[trigger] s[j]) by {
            if j < w1.len() {
                assert(s[j] == w1[j]);
            } else {
                assert(s[j] == w2[j - w1.len()]);
            }
        }
        lemma_trim_start(s, s.len() as int);
        assert(s.skip(s.len() as int) =~= Seq::<char>::empty());
        lemma_trim_end(Seq::<char>::empty(), 0);
        assert(Seq::<char>::empty().take(0) =~= v);
    } else {
        assert forall|j: int| 0 <= j < w1.len() implies is_whitespace_char(#[trigger] s[j]) by {
            assert(s[j] == w1[j]);
        }
        assert(s[w1.len() as int] == v[0]);
        lemma_trim_start(s, w1.len() as int);
        let t = v + w2;
        assert(s.skip(w1.len() as int) =~= t);
        assert forall|j: int| v.len() <= j < t.len() implies is_whitespace_char(#[trigger] t[j]) by {
            assert(t[j] == w2[j - v.len()]);
        }
        assert(t[v.len() - 1] == v.last());
        lemma_trim_end(t, v.len() as int);
        assert(t.take(v.len() as int) =~= v);
    }
}

/// `str::trim`, as an owned string.
pub fn trim_str(s: &str) -> (r: String)
    ensures
        r@ == trim(s@),
{
    let n = s.unicode_len();
    let mut a: usize = 0;
    while a < n && is_whitespace(s.get_char(a))
        invariant
            a <= n,
            n == s@.len(),
            forall|j: int| 0 <= j < a ==> is_whitespace_char(#[trigger] s@[j]),
        decreases n - a,
    {
        a = a + 1;
    }
    let mut b: usize = n;
    while b > a && is_whitespace(s.get_char(b - 1))
        invariant
            a <= b <= n,
            n == s@.len(),
            forall|j: int| b <= j < n ==> is_whitespace_char(#[trigger] s@[j]),
        decreases b - a,
    {
        b = b - 1;
    }
    proof {
        lemma_trim_start(s@, a as int);
        let t = s@.skip(a as int);
        assert forall|j: int| b - a <= j < t.len() implies is_whitespace_char(#[trigger] t[j]) by {
            assert(t[j] == s@[j + a]);
        }
        if b > a {
            assert(t[b - a - 1] == s@[b - 1]);
        }
        lemma_trim_end(t, b - a);
        assert(t.take(b - a) =~= s@.subrange(a as int, b as int));
    }
    s.substring_char(a, b).to_owned()
}

/// What `str::to_lowercase` makes of a string: its Unicode lowercase mapping.
pub uninterp spec fn spec_to_lowercase(s: Seq<char>) -> Seq<char>;

/// The ASCII lowercase of a character: 'A' to 'Z' become 'a' to 'z', others stay.
pub open spec fn ascii_lower_char(c: char) -> char {
    if 'A' <= c <= 'Z' {
        ((c as u32) + 32) as char
    } else {
        c
    }
}

/// The ASCII lowercase of each character of `s`.
pub open spec fn ascii_lowercase(s: Seq<char>) -> Seq<char> {
    s.map_values(|c: char| ascii_lower_char(c))
}

/// The lowercase of a name: for ASCII text its ASCII lowercase, otherwise the
/// Unicode lowercase mapping that `str::to_lowercase` applies.
pub open spec fn lower_name(s: Seq<char>) -> Seq<char> {
    if is_ascii_chars(s) {
        ascii_lowercase(s)
    } else {
        spec_to_lowercase(s)
    }
}

/// `str::to_lowercase`: the result is the lowercase mapping of the argument; on
/// ASCII text that mapping turns 'A' to 'Z' into 'a' to 'z' and keeps every other
/// character.
#[verifier::external_body]
pub(crate) fn str_to_lowercase(s: &str) -> (r: String)
    ensures
        r@ == spec_to_lowercase(s@),
        is_ascii_chars(s@) ==> r@ == ascii_lowercase(s@),
{
    s.to_lowercase()
}

/// Whether `char::is_alphanumeric` holds of a character (Unicode Alphabetic or Numeric).
pub uninterp spec fn spec_is_alphanumeric(c: char) -> bool;

/// `char::is_alphanumeric`: the result is the named Unicode property; among ASCII
/// characters exactly the letters and digits have it.
#[verifier::external_body]
pub(crate) fn char_is_alphanumeric(c: char) -> (r: bool)
    ensures
        r == spec_is_alphanumeric(c),
        (c as u32) < 128 ==> (r <==> ('0' <= c <= '9' || 'a' <= c <= 'z' || 'A' <= c <= 'Z')),
{
    c.is_alphanumeric()
}

/// Whether `char::is_uppercase` holds of a character (Unicode Uppercase).
pub uninterp spec fn spec_is_uppercase(c: char) -> bool;

/// `char::is_uppercase`: the result is the named Unicode property; among ASCII
/// characters exactly 'A' to 'Z' have it.
#[verifier::external_body]
pub(crate) fn char_is_uppercase(c: char) -> (r: bool)
    ensures
        r == spec_is_uppercase(c),
        (c as u32) < 128 ==> (r <==> 'A' <= c <= 'Z'),
{
    c.is_uppercase()
}

/// The pieces of `s` between occurrences of byte `b`, as `str::split` gives them.
pub open spec fn split_on(s: Seq<u8>, b: u8) -> Seq<Seq<u8>>
    decreases s.len(),
{
    match find_byte(s, b) {
        None => seq![s],
        Some(i) => {
            proof {
                lemma_find_byte(s, b);
            }
            seq![s.take(i)] + split_on(s.skip(i + 1), b)
        },
    }
}

/// `s` does not hold the byte `b`.
pub open spec fn lacks_byte(s: Seq<u8>, b: u8) -> bool {
    forall|j: int| 0 <= j < s.len() ==> #[trigger] s[j] != b
}

/// The pieces joined again, with `b` between each two of them.
pub open spec fn join_on(parts: Seq<Seq<u8>>, b: u8) -> Seq<u8>
    decreases parts.len(),
{
    if parts.len() == 0 {
        Seq::empty()
    } else if parts.len() == 1 {
        parts[0]
    } else {
        parts[0] + seq![b] + join_on(parts.drop_first(), b)
    }
}

/// Splitting at `b` loses nothing: the pieces, none of which holds `b`, joined
/// again with `b` give the whole.
pub proof fn lemma_split_join(s: Seq<u8>, b: u8)
    ensures
        split_on(s, b).len() >= 1,
        join_on(split_on(s, b), b) == s,
        forall|k: int| 0 <= k < split_on(s, b).len() ==> lacks_byte(#[trigger] split_on(s, b)[k], b),
    decreases s.len(),
{
    lemma_find_byte(s, b);
    match find_byte(s, b) {
        None => {},
        Some(i) => {
            let rest = s.skip(i + 1);
            lemma_split_join(rest, b);
            let parts = split_on(s, b);
            assert(parts.drop_first() =~= split_on(rest, b));
            assert(s =~= s.take(i) + seq![b] + rest);
            assert forall|k: int| 0 <= k < parts.len() implies lacks_byte(#[trigger] parts[k], b) by {
                if k > 0 {
                    assert(parts[k] == split_on(rest, b)[k - 1]);
                } else {
                    assert forall|j: int| 0 <= j < parts[0].len() implies #[trigger] parts[0][j] != b by {
                        assert(parts[0][j] == s[j]);
                    }
                }
            }
        },
    }
}

/// When `p` holds no '\n', the first "\r\n" of `p` followed by "\r\n" is the one
/// right after `p`.
pub proof fn lemma_crlf_after(p: Seq<u8>, r: Seq<u8>)
    requires
        lacks_byte(p, 10u8),
    ensures
        find_crlf(p + seq![13u8, 10u8] + r) == Some(p.len() as int),
{
    let s = p + seq![13u8, 10u8] + r;
    lemma_find_crlf(s);
    assert(s[p.len() as int] == 13u8 && s[p.len() as int + 1] == 10u8);
    assert(is_crlf_at(s, p.len() as int));
    assert forall|j: int| j < p.len() implies !#[trigger] is_crlf_at(s, j) by {
        if 0 <= j && j + 1 < p.len() {
            assert(s[j + 1] == p[j + 1]);
        } else if j + 1 == p.len() {
            assert(s[j + 1] == 13u8);
        }
    }
    match find_crlf(s) {
        Some(k) => {
            if k > p.len() {
                assert(!is_crlf_at(s, p.len() as int));
            }
        },
        None => {},
    }
}

/// Encoding characters one after the other is encoding them together.
pub proof fn lemma_encode_concat(a: Seq<char>, b: Seq<char>)
    ensures
        encode_utf8(a + b) == encode_utf8(a) + encode_utf8(b),
    decreases a.len(),
{
    if a.len() == 0 {
        assert(a + b =~= b);
        assert(encode_utf8(a) =~= Seq::<u8>::empty());
        assert(encode_utf8(a) + encode_utf8(b) =~= encode_utf8(b));
    } else {
        assert((a + b)[0] == a[0]);
        assert((a + b).drop_first() =~= a.drop_first() + b);
        lemma_encode_concat(a.drop_first(), b);
        assert(encode_utf8(a + b) =~= encode_utf8(a) + encode_utf8(b));
    }
}

/// The value of a hexadecimal digit (either case).
pub open spec fn hex_digit_value(d: u8) -> Option<nat> {
    if 48u8 <= d <= 57u8 {
        Some((d - 48) as nat)
    } else if 65u8 <= d <= 70u8 {
        Some((d - 55) as nat)
    } else if 97u8 <= d <= 102u8 {
        Some((d - 87) as nat)
    } else {
        None
    }
}

/// The number that a non-empty run of hexadecimal digits writes.
pub open spec fn hex_number(s: Seq<u8>) -> Option<nat>
    decreases s.len(),
{
    if s.len() == 0 {
        None
    } else if s.len() == 1 {
        hex_digit_value(s[0])
    } else {
        match (hex_number(s.drop_last()), hex_digit_value(s.last())) {
            (Some(h), Some(l)) => Some(h * 16 + l),
            _ => None,
        }
    }
}

/// Uppercase hexadecimal reads back as the number it writes, and holds no '\r' or '\n'.
pub proof fn lemma_hex_upper_reads_back(n: nat)
    ensures
        hex_number(hex_upper_bytes(n)) == Some(n),
        hex_upper_bytes(n).len() >= 1,
        lacks_byte(hex_upper_bytes(n), 10u8),
        lacks_byte(hex_upper_bytes(n), 13u8),
    decreases n,
{
    if n >= 16 {
        lemma_hex_upper_reads_back(n / 16);
        let h = hex_upper_bytes(n / 16);
        let s = hex_upper_bytes(n);
        assert(s.drop_last() =~= h);
        assert(s.last() == hex_digit_upper(n % 16));
        assert(n == (n / 16) * 16 + n % 16);
        assert forall|j: int| 0 <= j < s.len() implies #[trigger] s[j] != 10u8 && s[j] != 13u8 by {
            if j < h.len() {
                assert(s[j] == h[j]);
            }
        }
    }
}

/// Pieces that do not hold `b`, joined with `b`, split back into those pieces.
pub proof fn lemma_split_on_join(parts: Seq<Seq<u8>>, b: u8)
    requires
        parts.len() >= 1,
        forall|k: int| 0 <= k < parts.len() ==> lacks_byte(#[trigger] parts[k], b),
    ensures
        split_on(join_on(parts, b), b) == parts,
    decreases parts.len(),
{
    let p0 = parts[0];
    assert(lacks_byte(p0, b));
    if parts.len() == 1 {
        lemma_find_byte(p0, b);
        assert(split_on(p0, b) =~= parts);
    } else {
        let tail = parts.drop_first();
        assert forall|k: int| 0 <= k < tail.len() implies lacks_byte(#[trigger] tail[k], b) by {
            assert(tail[k] == parts[k + 1]);
        }
        lemma_split_on_join(tail, b);
        let s = join_on(parts, b);
        let t = join_on(tail, b);
        assert(s == p0 + seq![b] + t);
        lemma_find_byte(s, b);
        assert(s[p0.len() as int] == b);
        assert forall|j: int| 0 <= j < p0.len() implies #[trigger] s[j] != b by {
            assert(s[j] == p0[j]);
        }
        match find_byte(s, b) {
            Some(i) => {
                if i < p0.len() {
                    assert(s[i] == p0[i]);
                }
                if i > p0.len() {
                    assert(s[p0.len() as int] != b);
                }
            },
            None => {},
        }
        assert(s.take(p0.len() as int) =~= p0);
        assert(s.skip(p0.len() as int + 1) =~= t);
        assert(split_on(s, b) =~= seq![p0] + tail);
        assert(seq![p0] + tail =~= parts);
    }
}

/// Splitting well-formed UTF-8 at an ASCII byte gives well-formed pieces.
pub(crate) proof fn lemma_split_valid(s: Seq<u8>, b: u8)
    requires
        valid_utf8(s),
        b < 128u8,
    ensures
        forall|k: int| 0 <= k < split_on(s, b).len() ==> valid_utf8(#[trigger] split_on(s, b)[k]),
    decreases s.len(),
{
    lemma_find_byte(s, b);
    match find_byte(s, b) {
        None => {},
        Some(i) => {
            lemma_valid_split_at_ascii(s, i);
            lemma_valid_drop_ascii(s.skip(i));
            assert(s.skip(i).skip(1) =~= s.skip(i + 1));
            lemma_split_valid(s.skip(i + 1), b);
            let parts = split_on(s, b);
            assert forall|k: int| 0 <= k < parts.len() implies valid_utf8(#[trigger] parts[k]) by {
                if k > 0 {
                    assert(parts[k] == split_on(s.skip(i + 1), b)[k - 1]);
                }
            }
        },
    }
}

/// The pieces of `data[start..end]` between occurrences of byte `b`, as ranges of `data`.
pub fn split_ranges(data: &[u8], start: usize, end: usize, b: u8) -> (r: Vec<(usize, usize)>)
    requires
        start <= end <= data@.len(),
    ensures
        r@.len() == split_on(data@.subrange(start as int, end as int), b).len(),
        forall|k: int|
            0 <= k < r@.len() ==> {
                &&& start <= (#[trigger] r@[k]).0 <= r@[k].1 <= end
                &&& data@.subrange(r@[k].0 as int, r@[k].1 as int) == split_on(
                    data@.subrange(start as int, end as int),
                    b,
                )[k]
            },
{
    let ghost whole = data@.subrange(start as int, end as int);
    let mut r: Vec<(usize, usize)> = Vec::new();
    let mut pos: usize = start;
    loop
        invariant
            start <= pos <= end <= data@.len(),
            whole == data@.subrange(start as int, end as int),
            split_on(whole, b) == r@.map_values(
                |p: (usize, usize)| data@.subrange(p.0 as int, p.1 as int),
            ) + split_on(data@.subrange(pos as int, end as int), b),
            forall|k: int|
                0 <= k < r@.len() ==> start <= (#[trigger] r@[k]).0 <= r@[k].1 <= end,
        decreases end - pos,
    {
        let ghost rest = data@.subrange(pos as int, end as int);
        let ghost old_r = r@;
        proof {
            lemma_find_byte(rest, b);
        }
        match find_byte_in(data, pos, end, b) {
            Some(k) => {
                r.push((pos, pos + k));
                proof {
                    assert(rest.take(k as int) =~= data@.subrange(pos as int, pos + k));
                    assert(rest.skip(k + 1) =~= data@.subrange(pos + k + 1, end as int));
                    assert(split_on(rest, b) == seq![rest.take(k as int)] + split_on(rest.skip(k + 1), b));
                    assert(r@.map_values(|p: (usize, usize)| data@.subrange(p.0 as int, p.1 as int))
                        =~= old_r.map_values(|p: (usize, usize)| data@.subrange(p.0 as int, p.1 as int))
                        .push(rest.take(k as int)));
                }
                pos = pos + k + 1;
            },
            None => {
                r.push((pos, end));
                proof {
                    assert(split_on(rest, b) == seq![rest]);
                    assert(r@.map_values(|p: (usize, usize)| data@.subrange(p.0 as int, p.1 as int))
                        =~= old_r.map_values(|p: (usize, usize)| data@.subrange(p.0 as int, p.1 as int))
                        .push(rest));
                    let m = r@.map_values(|p: (usize, usize)| data@.subrange(p.0 as int, p.1 as int));
                    assert(split_on(whole, b) =~= m);
                    assert forall|k: int| 0 <= k < r@.len() implies data@.subrange(
                        (#[trigger] r@[k]).0 as int,
                        r@[k].1 as int,
                    ) == split_on(whole, b)[k] by {
                        assert(m[k] == data@.subrange(r@[k].0 as int, r@[k].1 as int));
                    }
                }
                return r;
            },
        }
    }
}

/* Decimal numbers */

pub open spec fn is_digit(c: char) -> bool {
    '0' <= c <= '9'
}

pub open spec fn all_digits(s: Seq<char>) -> bool {
    forall|i: int| 0 <= i < s.len() ==> is_digit(#[trigger] s[i])
}

/// The number that the decimal digits `s` denote.
pub open spec fn digits_value(s: Seq<char>) -> nat
    decreases s.len(),
{
    if s.len() == 0 {
        0
    } else {
        digits_value(s.drop_last()) * 10 + ((s.last() as u32) - ('0' as u32)) as nat
    }
}

/// What `str::parse::<usize>` accepts: an optional '+', then one or more decimal
/// digits denoting a number that fits a `usize`.
pub open spec fn parse_usize_spec(s: Seq<char>) -> Option<usize> {
    let d = if s.len() > 0 && s[0] == '+' {
        s.drop_first()
    } else {
        s
    };
    if d.len() > 0 && all_digits(d) && digits_value(d) <= usize::MAX {
        Some(digits_value(d) as usize)
    } else {
        None
    }
}

proof fn lemma_digits_value_grows(s: Seq<char>, k: int)
    requires
        0 <= k <= s.len(),
        all_digits(s),
    ensures
        digits_value(s.take(k)) <= digits_value(s),
    decreases s.len() - k,
{
    if k < s.len() {
        let t = s.drop_last();
        assert(all_digits(t)) by {
            assert forall|i: int| 0 <= i < t.len() implies is_digit(#[trigger] t[i]) by {
                assert(t[i] == s[i]);
            }
        }
        lemma_digits_value_grows(t, k);
        assert(t.take(k) =~= s.take(k));
    } else {
        assert(s.take(k) =~= s);
    }
}

/// `str::parse::<usize>`; see `parse_usize_spec`.
pub fn parse_usize(s: &str) -> (r: Option<usize>)
    ensures
        r == parse_usize_spec(s@),
{
    let n = s.unicode_len();
    let mut i: usize = 0;
    if n > 0 && s.get_char(0) == '+' {
        i = 1;
    }
    let ghost d = if s@.len() > 0 && s@[0] == '+' {
        s@.drop_first()
    } else {
        s@
    };
    let start = i;
    assert(d =~= s@.skip(start as int));
    if start == n {
        return None;
    }
    let mut value: usize = 0;
    while i < n
        invariant
            start <= i <= n,
            n == s@.len(),
            d == s@.skip(start as int),
            d == (if s@.len() > 0 && s@[0] == '+' {
                s@.drop_first()
            } else {
                s@
            }),
            all_digits(d.take(i - start)),
            value == digits_value(d.take(i - start)),
        decreases n - i,
    {
        let c = s.get_char(i);
        let ghost p = d.take(i - start);
        let ghost p1 = d.take(i - start + 1);
        assert(p1.drop_last() =~= p);
        assert(p1.last() == c);
        if c < '0' || c > '9' {
            assert(!all_digits(d)) by {
                assert(d[i - start] == c);
                assert(!is_digit(d[i - start]));
            }
            return None;
        }
        let digit = (c as u32) - ('0' as u32);
        assert(all_digits(p1)) by {
            assert forall|j: int| 0 <= j < p1.len() implies is_digit(#[trigger] p1[j]) by {
                if j < p.len() {
                    assert(p1[j] == p[j]);
                }
            }
        }
        if value > (usize::MAX - digit as usize) / 10 {
            proof {
                assert(digits_value(p1) > usize::MAX) by (nonlinear_arith)
                    requires
                        digits_value(p1) == value * 10 + digit,
                        value > (usize::MAX - digit) / 10,
                        digit <= 9,
                {
                }
                if all_digits(d) {
                    lemma_digits_value_grows(d, i - start + 1);
                    assert(digits_value(d) > usize::MAX);
                }
            }
            return None;
        }
        assert(value * 10 + digit <= usize::MAX) by (nonlinear_arith)
            requires
                value <= (usize::MAX - digit) / 10,
                digit <= 9,
        {
        }
        value = value * 10 + digit as usize;
        i = i + 1;
    }
    assert(d.take(n - start) =~= d);
    Some(value)
}

/// The characters that ASCII bytes stand for.
pub open spec fn ascii_chars(s: Seq<u8>) -> Seq<char> {
    s.map_values(|b: u8| b as char)
}

/// ASCII bytes decode to the characters they stand for.
pub(crate) proof fn lemma_ascii_decode(s: Seq<u8>)
    requires
        is_ascii_bytes(s),
    ensures
        valid_utf8(s),
        decode_utf8(s) == ascii_chars(s),
    decreases s.len(),
{
    lemma_ascii_valid(s);
    if s.len() > 0 {
        let b = s[0];
        assert(b < 128u8);
        assert((b & 0x7Fu8) == b) by (bit_vector)
            requires
                b < 128u8,
        ;
        let t = s.skip(1);
        assert(is_ascii_bytes(t)) by {
            assert forall|i: int| 0 <= i < t.len() implies #[trigger] t[i] < 128u8 by {
                assert(t[i] == s[i + 1]);
            }
        }
        lemma_ascii_decode(t);
        assert(pop_first_scalar(s) =~= t);
        assert(decode_first_scalar(s) == b as u32);
        assert(ascii_chars(s) =~= seq![b as char] + ascii_chars(t));
    } else {
        assert(ascii_chars(s) =~= Seq::<char>::empty());
    }
}

/// The decimal digits of `n`, most significant first, without leading zeros.
pub open spec fn decimal_bytes(n: nat) -> Seq<u8>
    decreases n,
{
    if n < 10 {
        seq![(48 + n) as u8]
    } else {
        decimal_bytes(n / 10) + seq![(48 + n % 10) as u8]
    }
}

/// The uppercase hexadecimal digits of `n`, most significant first, without leading zeros.
pub open spec fn hex_upper_bytes(n: nat) -> Seq<u8>
    decreases n,
{
    if n < 16 {
        seq![hex_digit_upper(n)]
    } else {
        hex_upper_bytes(n / 16) + seq![hex_digit_upper(n % 16)]
    }
}

pub open spec fn hex_digit_upper(d: nat) -> u8 {
    if d < 10 {
        (48 + d) as u8
    } else {
        (55 + d) as u8
    }
}

proof fn lemma_decimal_ascii(n: nat)
    ensures
        is_ascii_bytes(decimal_bytes(n)),
    decreases n,
{
    if n >= 10 {
        lemma_decimal_ascii(n / 10);
    }
}

/// The digits of `n` in base `base`, most significant first (`digits_in(n, 10)` is
/// `decimal_bytes(n)`, `digits_in(n, 16)` is `hex_upper_bytes(n)`).
fn digits_in(n: usize, base: usize) -> (r: Vec<u8>)
    requires
        base == 10 || base == 16,
    ensures
        base == 10 ==> r@ == decimal_bytes(n as nat),
        base == 16 ==> r@ == hex_upper_bytes(n as nat),
{
    let mut rev: Vec<u8> = Vec::new();
    let mut m: usize = n;
    loop
        invariant
            base == 10 || base == 16,
            base == 10 ==> decimal_bytes(n as nat) == decimal_bytes(m as nat) + rev@.reverse(),
            base == 16 ==> hex_upper_bytes(n as nat) == hex_upper_bytes(m as nat) + rev@.reverse(),
        decreases m,
    {
        let d = m % base;
        let digit: u8 = if d < 10 {
            (48 + d) as u8
        } else {
            (55 + d) as u8
        };
        let ghost old_rev = rev@;
        rev.push(digit);
        assert(rev@.reverse() =~= seq![digit] + old_rev.reverse());
        if m < base {
            assert(rev@.reverse() =~= seq![digit] + old_rev.reverse());
            let mut out: Vec<u8> = Vec::new();
            let mut i: usize = rev.len();
            while i > 0
                invariant
                    i <= rev@.len(),
                    out@ =~= rev@.reverse().take(rev@.len() - i),
                decreases i,
            {
                i = i - 1;
                out.push(rev[i]);
                assert(rev@.reverse().take(rev@.len() - i) =~= rev@.reverse().take(rev@.len() - i - 1).push(rev@[i as int]));
            }
            assert(rev@.reverse().take(rev@.len() as int) =~= rev@.reverse());
            return out;
        }
        assert(base == 10 ==> decimal_bytes(m as nat) == decimal_bytes((m / base) as nat) + seq![digit]);
        assert(base == 16 ==> hex_upper_bytes(m as nat) == hex_upper_bytes((m / base) as nat) + seq![digit]);
        m = m / base;
    }
}

/// `n` as a decimal string, as `usize::to_string` writes it.
pub fn usize_to_string(n: usize) -> (r: String)
    ensures
        r@ == ascii_chars(decimal_bytes(n as nat)),
{
    let digits = digits_in(n, 10);
    proof {
        lemma_decimal_ascii(n as nat);
        lemma_ascii_decode(digits@);
    }
    str_from_utf8(digits.as_slice()).unwrap().to_owned()
}

/// `n` in uppercase hexadecimal, as `format!("{:X}", n)` writes it.
pub fn hex_upper(n: usize) -> (r: Vec<u8>)
    ensures
        r@ == hex_upper_bytes(n as nat),
{
    digits_in(n, 16)
}

/// Whether `s` starts with `p`, as `str::starts_with` tells.
pub fn str_starts_with(s: &str, p: &str) -> (r: bool)
    ensures
        r == (p@.len() <= s@.len() && s@.take(p@.len() as int) == p@),
{
    let n = s.unicode_len();
    let k = p.unicode_len();
    if k > n {
        return false;
    }
    let mut i: usize = 0;
    while i < k
        invariant
            i <= k <= n,
            n == s@.len(),
            k == p@.len(),
            s@.take(i as int) == p@.take(i as int),
        decreases k - i,
    {
        if s.get_char(i) != p.get_char(i) {
            assert(s@.take(k as int)[i as int] != p@[i as int]);
            return false;
        }
        assert(s@.take(i + 1) =~= s@.take(i as int).push(s@[i as int]));
        assert(p@.take(i + 1) =~= p@.take(i as int).push(p@[i as int]));
        i = i + 1;
    }
    assert(p@.take(k as int) =~= p@);
    true
}

} // verus!
