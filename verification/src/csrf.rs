//! Double-submit-cookie CSRF protection.
//!
//! - Every response to a request without the token cookie, a refusal too,
//!   sets a fresh random token cookie.
//! - Unsafe methods (POST, PUT, PATCH, DELETE) must carry an `x-csrf-token`
//!   header whose value equals the cookie's.
//! - The cookie is `SameSite=Strict` and readable by scripts, so the client
//!   can echo it back in the header.
use crate::text::{
    ascii_chars, chars_of, find_char, first_index_of, is_whitespace_spec, lemma_ascii_decode,
    lemma_first_index_of, lemma_first_index_of_bound, lemma_trim_padding, lemma_trim_unchanged,
    range_eq,
    str_from_utf8, trim, trim_bounds_in,
};
use rand::RngCore;
use vstd::prelude::*;
use vstd::string::StringExecFns;

verus! {

/// Name of the cookie that holds the token.
pub const CSRF_COOKIE: &'static str = "csrf_token";

/// Name of the request header that must echo the token.
pub const CSRF_HEADER: &'static str = "x-csrf-token";

/// Number of random bytes in a token (it is sent as twice as many hex digits).
pub const CSRF_TOKEN_BYTES: usize = 32;

/// The bytes `HeaderValue::to_str` accepts: visible ASCII and horizontal tab.
pub open spec fn is_visible_ascii(b: u8) -> bool {
    (32 <= b && b < 127) || b == 9
}

/// `HeaderValue::to_str`: the header's text when every byte is visible ASCII.
pub open spec fn header_text_spec(bytes: Seq<u8>) -> Option<Seq<char>> {
    if forall|i: int| 0 <= i < bytes.len() ==> is_visible_ascii(#[trigger] bytes[i]) {
        Some(ascii_chars(bytes))
    } else {
        None
    }
}

/// The text of a header value, as `HeaderValue::to_str` gives it.
pub fn header_text(bytes: &[u8]) -> (text: Option<&str>)
    ensures
        match (text, header_text_spec(bytes@)) {
            (Some(t), Some(s)) => t@ == s,
            (None, None) => true,
            _ => false,
        },
{
    let n = bytes.len();
    for i in 0..n
        invariant
            n == bytes@.len(),
            forall|j: int| 0 <= j < i ==> is_visible_ascii(#[trigger] bytes@[j]),
    {
        let b = bytes[i];
        if !((32 <= b && b < 127) || b == 9) {
            assert(!is_visible_ascii(bytes@[i as int]));
            return None;
        }
    }
    proof {
        assert forall|i: int| 0 <= i < bytes@.len() implies #[trigger] bytes@[i] < 128 by {
            assert(is_visible_ascii(bytes@[i]));
        }
        lemma_ascii_decode(bytes@);
    }
    str_from_utf8(bytes)
}

/// The value of one `key=value` pair of a Cookie header when its key is
/// `name`: the pair is trimmed, split at its first `=`, and key and value are
/// trimmed again.
pub open spec fn pair_value(pair: Seq<char>, name: Seq<char>) -> Option<Seq<char>> {
    let p = trim(pair);
    let eq = first_index_of(p, '=');
    if eq < p.len() && trim(p.subrange(0, eq)) == name {
        Some(trim(p.subrange(eq + 1, p.len() as int)))
    } else {
        None
    }
}

/// The value of the first pair named `name` in the `;`-separated pairs of a
/// Cookie header text.
pub open spec fn cookie_lookup(text: Seq<char>, name: Seq<char>) -> Option<Seq<char>>
    decreases text.len(),
{
    let semi = first_index_of(text, ';');
    let found = pair_value(text.subrange(0, semi), name);
    if found is Some {
        found
    } else if semi < text.len() {
        proof {
            lemma_first_index_of_bound(text, ';');
        }
        cookie_lookup(text.subrange(semi + 1, text.len() as int), name)
    } else {
        None
    }
}

/// A cookie's value read from a (possibly missing) Cookie header value.
pub open spec fn cookie_value_spec(header: Option<Seq<u8>>, name: Seq<char>) -> Option<Seq<char>> {
    match header {
        None => None,
        Some(bytes) => match header_text_spec(bytes) {
            None => None,
            Some(text) => cookie_lookup(text, name),
        },
    }
}

/// The contents of an optional header value.
pub open spec fn header_view(header: Option<&[u8]>) -> Option<Seq<u8>> {
    match header {
        None => None,
        Some(h) => Some(h@),
    }
}

/// Extracts a cookie value by name from a Cookie header value.
pub fn cookie_value<'a>(cookie_header: Option<&'a [u8]>, name: &str) -> (value: Option<&'a str>)
    ensures
        match (value, cookie_value_spec(header_view(cookie_header), name@)) {
            (Some(v), Some(s)) => v@ == s,
            (None, None) => true,
            _ => false,
        },
{
    let header = match cookie_header {
        None => return None,
        Some(h) => h,
    };
    let text = match header_text(header) {
        None => return None,
        Some(t) => t,
    };
    let chars = chars_of(text);
    let wanted = chars_of(name);
    let n = chars.len();
    let mut pos: usize = 0;
    assert(chars@.subrange(0, n as int) =~= chars@);
    loop
        invariant
            pos <= n == chars@.len(),
            chars@ == text@,
            wanted@ == name@,
            cookie_value_spec(header_view(cookie_header), name@) == cookie_lookup(chars@, wanted@),
            cookie_lookup(chars@, wanted@) == cookie_lookup(
                chars@.subrange(pos as int, n as int),
                wanted@,
            ),
        decreases n - pos,
    {
        let ghost rest = chars@.subrange(pos as int, n as int);
        let semi = find_char(&chars, pos, n, ';');
        let ghost segment = rest.subrange(0, semi - pos);
        assert(segment =~= chars@.subrange(pos as int, semi as int));
        let (a, b) = trim_bounds_in(&chars, pos, semi);
        let eq = find_char(&chars, a, b, '=');
        let ghost p = trim(segment);
        assert(p == chars@.subrange(a as int, b as int));
        if eq < b {
            let (k1, k2) = trim_bounds_in(&chars, a, eq);
            assert(p.subrange(0, eq - a) =~= chars@.subrange(a as int, eq as int));
            if range_eq(&chars, k1, k2, &wanted) {
                let (v1, v2) = trim_bounds_in(&chars, eq + 1, b);
                assert(p.subrange(eq - a + 1, p.len() as int) =~= chars@.subrange(
                    eq + 1,
                    b as int,
                ));
                let v = text.substring_char(v1, v2);
                assert(first_index_of(p, '=') == eq - a);
                assert(trim(p.subrange(0, eq - a)) == wanted@);
                assert(pair_value(segment, wanted@) == Some(v@));
                assert(first_index_of(rest, ';') == semi - pos);
                assert(rest.subrange(0, first_index_of(rest, ';')) == segment);
                assert(cookie_lookup(rest, wanted@) == Some(v@));
                return Some(v);
            }
        }
        assert(pair_value(segment, wanted@) is None);
        assert(first_index_of(rest, ';') == semi - pos);
        assert(rest.subrange(0, first_index_of(rest, ';')) == segment);
        if semi == n {
            assert(cookie_lookup(rest, wanted@) is None);
            return None;
        }
        assert(rest.subrange(semi - pos + 1, rest.len() as int) =~= chars@.subrange(
            semi + 1,
            n as int,
        ));
        pos = semi + 1;
    }
}

/// The request methods of HTTP.
#[derive(Clone, Copy, Debug, PartialEq, Eq, Structural)]
pub enum Method {
    Options,
    Get,
    Post,
    Put,
    Delete,
    Head,
    Trace,
    Connect,
    Patch,
    /// Any method outside the standard ones.
    Extension,
}

/// The methods that change state and so must carry the token.
pub open spec fn is_unsafe_method_spec(method: Method) -> bool {
    method == Method::Post || method == Method::Put || method == Method::Patch || method
        == Method::Delete
}

/// Whether the method must carry a matching token header.
pub fn is_unsafe_method(method: &Method) -> (unsafe_method: bool)
    ensures
        unsafe_method == is_unsafe_method_spec(*method),
{
    match method {
        Method::Post | Method::Put | Method::Patch | Method::Delete => true,
        _ => false,
    }
}

/// The lowercase hexadecimal digit of a value below 16.
pub open spec fn hex_digit(n: u8) -> char {
    if n < 10 {
        (48 + n) as char
    } else {
        (87 + n) as char
    }
}

/// The lowercase hex encoding of bytes, two digits per byte, high nibble first
/// (what `format!("{b:02x}")` writes for each byte).
pub open spec fn hex_encoding(bytes: Seq<u8>) -> Seq<char> {
    Seq::new(
        2 * bytes.len(),
        |k: int|
            if k % 2 == 0 {
                hex_digit(bytes[k / 2] / 16)
            } else {
                hex_digit(bytes[k / 2] % 16)
            },
    )
}

/// A lowercase hexadecimal digit.
pub open spec fn is_lower_hex_digit(c: char) -> bool {
    ('0' <= c && c <= '9') || ('a' <= c && c <= 'f')
}

/// Text made of lowercase hexadecimal digits only, as tokens are.
pub open spec fn is_token_text(t: Seq<char>) -> bool {
    forall|i: int| 0 <= i < t.len() ==> is_lower_hex_digit(#[trigger] t[i])
}

/// A hex encoding consists of lowercase hex digits.
pub proof fn lemma_hex_encoding_is_token_text(bytes: Seq<u8>)
    ensures
        is_token_text(hex_encoding(bytes)),
        hex_encoding(bytes).len() == 2 * bytes.len(),
{
    assert forall|k: int| 0 <= k < hex_encoding(bytes).len() implies is_lower_hex_digit(
        #[trigger] hex_encoding(bytes)[k],
    ) by {
        let b = bytes[k / 2];
        assert(b / 16 < 16 && b % 16 < 16);
    }
}

fn hex_digit_char(n: u8) -> (c: char)
    requires
        n < 16,
    ensures
        c == hex_digit(n),
{
    if n < 10 {
        (48 + n) as char
    } else {
        (87 + n) as char
    }
}

/// Encodes bytes as lowercase hexadecimal, two digits per byte.
pub fn hex_encode(bytes: &[u8]) -> (hex: String)
    ensures
        hex@ == hex_encoding(bytes@),
{
    let mut hex = String::new();
    let n = bytes.len();
    for i in 0..n
        invariant
            n == bytes@.len(),
            hex@.len() == 2 * i,
            forall|k: int| 0 <= k < 2 * i ==> #[trigger] hex@[k] == hex_encoding(bytes@)[k],
    {
        let b = bytes[i];
        crate::text::push_char(&mut hex, hex_digit_char(b / 16));
        crate::text::push_char(&mut hex, hex_digit_char(b % 16));
        proof {
            assert((2 * i) / 2 == i && (2 * i) % 2 == 0);
            assert((2 * i + 1) / 2 == i && (2 * i + 1) % 2 == 1);
        }
    }
    assert(hex@ =~= hex_encoding(bytes@));
    hex
}

/// `RngCore::try_fill_bytes` on `rand::rngs::OsRng`: asks the operating
/// system's random source to overwrite the buffer. On `Ok` the buffer keeps
/// its length; which bytes it then holds is left unsaid, as they are random.
/// On `Err` (the source could not supply randomness) nothing is stated of the
/// buffer.
#[verifier::external_body]
fn fill_from_os_rng(bytes: &mut Vec<u8>) -> (filled: Result<(), ()>)
    ensures
        filled is Ok ==> final(bytes)@.len() == old(bytes)@.len(),
{
    rand::rngs::OsRng.try_fill_bytes(bytes.as_mut_slice()).map_err(|_| ())
}

/// A fresh random token: the hex encoding of `CSRF_TOKEN_BYTES` bytes from the
/// operating system's random source, or `None` when that source fails.
pub fn generate_token() -> (token: Option<String>)
    ensures
        token matches Some(t) ==> {
            &&& exists|bytes: Seq<u8>| bytes.len() == CSRF_TOKEN_BYTES && t@ == hex_encoding(bytes)
            &&& t@.len() == 2 * CSRF_TOKEN_BYTES
            &&& is_token_text(t@)
        },
{
    let mut bytes: Vec<u8> = Vec::new();
    for _i in 0..CSRF_TOKEN_BYTES
        invariant
            bytes@.len() == _i,
    {
        bytes.push(0u8);
    }
    match fill_from_os_rng(&mut bytes) {
        Err(()) => None,
        Ok(()) => {
            let token = hex_encode(bytes.as_slice());
            proof {
                lemma_hex_encoding_is_token_text(bytes@);
            }
            Some(token)
        },
    }
}

/// Compares two strings byte by byte. It walks the longer of the two to the
/// end whatever their lengths and contents, and folds a length mismatch and
/// every byte difference into one accumulator, so that the time taken does
/// not depend on where they differ.
pub fn constant_time_eq(a: &str, b: &str) -> (equal: bool)
    ensures
        equal == (a@ == b@),
{
    let x = a.as_bytes();
    let y = b.as_bytes();
    let n = x.len();
    let m = y.len();
    let longer = if n > m {
        n
    } else {
        m
    };
    let mut acc: u8 = if n == m {
        0
    } else {
        1
    };
    for i in 0..longer
        invariant
            n == x@.len(),
            m == y@.len(),
            longer == (if n > m {
                n
            } else {
                m
            }),
            (acc == 0) == (n == m && forall|j: int| 0 <= j < i ==> x@[j] == y@[j]),
    {
        let xi: u8 = if i < n {
            x[i]
        } else {
            0
        };
        let yi: u8 = if i < m {
            y[i]
        } else {
            0
        };
        let prev = acc;
        acc = acc | (xi ^ yi);
        assert((acc == 0) == (prev == 0 && xi == yi)) by (bit_vector)
            requires
                acc == prev | (xi ^ yi),
        ;
    }
    proof {
        if n == m {
            assert((acc == 0) == (x@ =~= y@));
        } else {
            assert(x@.len() != y@.len());
        }
        vstd::utf8::encode_utf8_decode_utf8(a@);
        vstd::utf8::encode_utf8_decode_utf8(b@);
    }
    acc == 0
}


/// What the middleware does with a request.
#[derive(Clone, Copy, Debug, PartialEq, Eq, Structural)]
pub enum CsrfVerdict {
    /// Refuse the request with 403 Forbidden; when `set_cookie` holds, the
    /// refusal still hands out a fresh token cookie.
    Forbidden { set_cookie: bool },
    /// Pass the request on; when `set_cookie` holds, the response gets a
    /// fresh token cookie.
    Allowed { set_cookie: bool },
}

/// The text of an optional header value, as `HeaderValue::to_str` gives it.
pub open spec fn header_text_of(header: Option<Seq<u8>>) -> Option<Seq<char>> {
    match header {
        None => None,
        Some(bytes) => header_text_spec(bytes),
    }
}

/// The decision for a request with the given method, Cookie header and token
/// header: an unsafe method passes only when the token cookie and the token
/// header are both present and equal; every response to a request without
/// the token cookie, a refusal too, hands one out.
pub open spec fn verdict_spec(
    method: Method,
    cookie_header: Option<Seq<u8>>,
    csrf_header: Option<Seq<u8>>,
) -> CsrfVerdict {
    let cookie = cookie_value_spec(cookie_header, CSRF_COOKIE@);
    let header = header_text_of(csrf_header);
    if is_unsafe_method_spec(method) && !(cookie is Some && header is Some && cookie == header) {
        CsrfVerdict::Forbidden { set_cookie: cookie is None }
    } else {
        CsrfVerdict::Allowed { set_cookie: cookie is None }
    }
}

/// Decides a request from its method, its Cookie header value and its
/// `x-csrf-token` header value.
pub fn check_request(method: &Method, cookie_header: Option<&[u8]>, csrf_header: Option<&[u8]>) -> (verdict: CsrfVerdict)
    ensures
        verdict == verdict_spec(*method, header_view(cookie_header), header_view(csrf_header)),
{
    let cookie_token = cookie_value(cookie_header, CSRF_COOKIE);
    if is_unsafe_method(method) {
        let header_token = match csrf_header {
            None => None,
            Some(h) => header_text(h),
        };
        let valid = match (cookie_token, header_token) {
            (Some(cookie), Some(header)) => constant_time_eq(cookie, header),
            _ => false,
        };
        if !valid {
            return CsrfVerdict::Forbidden { set_cookie: cookie_token.is_none() };
        }
    }
    CsrfVerdict::Allowed { set_cookie: cookie_token.is_none() }
}

/// The attributes that follow the token in the cookie.
pub open spec fn cookie_attributes() -> Seq<char> {
    "; Path=/; SameSite=Strict"@
}

/// The `Set-Cookie` header value that hands out `token`.
pub open spec fn set_cookie_text(token: Seq<char>) -> Seq<char> {
    CSRF_COOKIE@ + "="@ + token + cookie_attributes()
}

/// The `Set-Cookie` header value that hands out `token`.
pub fn set_cookie_value(token: &str) -> (value: String)
    ensures
        value@ == set_cookie_text(token@),
{
    let mut value = String::from_str(CSRF_COOKIE);
    value.append("=");
    value.append(token);
    value.append("; Path=/; SameSite=Strict");
    value
}

/// The `Set-Cookie` header value for a fresh random token, or `None` when
/// the random source fails.
pub fn new_cookie_value() -> (value: Option<String>)
    ensures
        value matches Some(v) ==> exists|bytes: Seq<u8>|
            bytes.len() == CSRF_TOKEN_BYTES && v@ == set_cookie_text(hex_encoding(bytes)),
{
    match generate_token() {
        None => None,
        Some(token) => Some(set_cookie_value(token.as_str())),
    }
}


/// An unsafe request is let through only when it carries the token cookie
/// and an `x-csrf-token` header of the same value; a safe one always is; and
/// a fresh cookie is handed out, whether the request passes or is refused,
/// exactly when the request brought none.
pub proof fn double_submit_rule(
    method: Method,
    cookie_header: Option<Seq<u8>>,
    csrf_header: Option<Seq<u8>>,
)
    ensures
        ({
            let verdict = verdict_spec(method, cookie_header, csrf_header);
            let cookie = cookie_value_spec(cookie_header, CSRF_COOKIE@);
            &&& is_unsafe_method_spec(method) ==> (verdict is Allowed <==> (cookie is Some && cookie
                == header_text_of(csrf_header)))
            &&& !is_unsafe_method_spec(method) ==> verdict is Allowed
            &&& verdict matches CsrfVerdict::Allowed { set_cookie } ==> (set_cookie <==> cookie is None)
            &&& verdict matches CsrfVerdict::Forbidden { set_cookie } ==> (set_cookie <==> cookie is None)
        }),
{
}

/// The pairs of a Cookie header are searched in order, all of them: with a
/// first pair `before` (no `;` in it) followed by `;` and the rest, the value
/// is that of `before` when it names the cookie, and otherwise the value
/// found in the rest, however many pairs come before the one sought.
pub proof fn cookie_pairs_searched_in_order(before: Seq<char>, after: Seq<char>, name: Seq<char>)
    requires
        forall|i: int| 0 <= i < before.len() ==> #[trigger] before[i] != ';',
    ensures
        cookie_lookup(before + ";"@ + after, name) == (if cookie_lookup(before, name) is Some {
            cookie_lookup(before, name)
        } else {
            cookie_lookup(after, name)
        }),
{
    reveal_strlit(";");
    let text = before + ";"@ + after;
    let k = before.len() as int;
    assert forall|i: int| 0 <= i < k implies #[trigger] text[i] != ';' by {
        assert(text[i] == before[i]);
    }
    assert(text[k] == ';');
    lemma_first_index_of(text, ';', k);
    assert(text.subrange(0, k) =~= before);
    assert(text.subrange(k + 1, text.len() as int) =~= after);
    lemma_first_index_of(before, ';', k);
    assert(before.subrange(0, k) =~= before);
}

/// One `key=value` pair, with any whitespace around the key, the `=` and the
/// value, gives the value when its key is the name sought, and nothing
/// otherwise.
pub proof fn named_pair_is_read(
    w1: Seq<char>,
    key: Seq<char>,
    w2: Seq<char>,
    w3: Seq<char>,
    value: Seq<char>,
    w4: Seq<char>,
    name: Seq<char>,
)
    requires
        forall|i: int| 0 <= i < w1.len() ==> is_whitespace_spec(#[trigger] w1[i]),
        forall|i: int| 0 <= i < w2.len() ==> is_whitespace_spec(#[trigger] w2[i]),
        forall|i: int| 0 <= i < w3.len() ==> is_whitespace_spec(#[trigger] w3[i]),
        forall|i: int| 0 <= i < w4.len() ==> is_whitespace_spec(#[trigger] w4[i]),
        key.len() > 0,
        value.len() > 0,
        !is_whitespace_spec(key[0]),
        !is_whitespace_spec(key.last()),
        !is_whitespace_spec(value[0]),
        !is_whitespace_spec(value.last()),
        forall|i: int| 0 <= i < key.len() ==> #[trigger] key[i] != ';' && key[i] != '=',
        forall|i: int| 0 <= i < value.len() ==> #[trigger] value[i] != ';',
    ensures
        cookie_lookup(w1 + key + w2 + "="@ + w3 + value + w4, name) == (if key == name {
            Some(value)
        } else {
            None
        }),
{
    reveal_strlit("=");
    let x = key + w2 + "="@ + w3 + value;
    let text = w1 + key + w2 + "="@ + w3 + value + w4;
    assert(text =~= w1 + x + w4);
    assert forall|i: int| 0 <= i < text.len() implies #[trigger] text[i] != ';' by {
        if i < w1.len() {
            assert(is_whitespace_spec(w1[i]));
        } else if i < w1.len() + key.len() {
            assert(text[i] == key[i - w1.len()]);
        } else if i < w1.len() + key.len() + w2.len() {
            assert(is_whitespace_spec(w2[i - w1.len() - key.len()]));
        } else if i == w1.len() + key.len() + w2.len() {
        } else if i < w1.len() + key.len() + w2.len() + 1 + w3.len() {
            assert(is_whitespace_spec(w3[i - w1.len() - key.len() - w2.len() - 1]));
        } else if i < w1.len() + key.len() + w2.len() + 1 + w3.len() + value.len() {
            assert(text[i] == value[i - w1.len() - key.len() - w2.len() - 1 - w3.len()]);
        } else {
            assert(is_whitespace_spec(w4[i - w1.len() - key.len() - w2.len() - 1 - w3.len()
                - value.len()]));
        }
    }
    lemma_first_index_of(text, ';', text.len() as int);
    assert(text.subrange(0, text.len() as int) =~= text);
    lemma_trim_padding(w1, x, w4);
    assert(x[0] == key[0]);
    assert(x.last() == value.last());
    lemma_trim_unchanged(x);
    let eq: int = (key.len() + w2.len()) as int;
    assert forall|i: int| 0 <= i < eq implies #[trigger] x[i] != '=' by {
        if i < key.len() {
            assert(x[i] == key[i]);
        } else {
            assert(is_whitespace_spec(w2[i - key.len()]));
        }
    }
    assert(x[eq] == '=');
    lemma_first_index_of(x, '=', eq);
    assert(x.subrange(0, eq) =~= Seq::<char>::empty() + key + w2);
    lemma_trim_padding(Seq::<char>::empty(), key, w2);
    lemma_trim_unchanged(key);
    assert(x.subrange(eq + 1, x.len() as int) =~= w3 + value + Seq::<char>::empty());
    lemma_trim_padding(w3, value, Seq::<char>::empty());
    lemma_trim_unchanged(value);
}

/// The Cookie header value a browser sends back for the token cookie.
pub open spec fn echo_cookie_text(token: Seq<char>) -> Seq<char> {
    CSRF_COOKIE@ + "="@ + token
}

/// The bytes of ASCII text.
pub open spec fn ascii_bytes(text: Seq<char>) -> Seq<u8> {
    Seq::new(text.len(), |i: int| (text[i] as u32) as u8)
}

proof fn lemma_token_chars(token: Seq<char>, i: int)
    requires
        is_token_text(token),
        0 <= i < token.len(),
    ensures
        token[i] != ';',
        token[i] != '=',
        !is_whitespace_spec(token[i]),
        32 <= token[i] as u32 && token[i] as u32 <= 126,
{
    assert(is_lower_hex_digit(token[i]));
}

proof fn lemma_token_pair(token: Seq<char>)
    requires
        is_token_text(token),
    ensures
        pair_value(echo_cookie_text(token), CSRF_COOKIE@) == Some(token),
        forall|i: int|
            0 <= i < echo_cookie_text(token).len() ==> #[trigger] echo_cookie_text(token)[i]
                != ';',
{
    reveal_strlit("csrf_token");
    reveal_strlit("=");
    let name = CSRF_COOKIE@;
    let seg = echo_cookie_text(token);
    assert(name.len() == 10);
    assert forall|i: int| 0 <= i < seg.len() implies #[trigger] seg[i] != ';' by {
        if i >= 11 {
            lemma_token_chars(token, i - 11);
        }
    }
    if token.len() > 0 {
        lemma_token_chars(token, token.len() - 1);
        assert(seg.last() == token.last());
    }
    lemma_trim_unchanged(seg);
    assert forall|i: int| 0 <= i < 10 implies #[trigger] seg[i] != '=' by {}
    lemma_first_index_of(seg, '=', 10);
    assert(seg.subrange(0, 10) =~= name);
    lemma_trim_unchanged(name);
    assert(seg.subrange(11, seg.len() as int) =~= token);
    if token.len() > 0 {
        lemma_token_chars(token, 0);
        lemma_token_chars(token, token.len() - 1);
    }
    lemma_trim_unchanged(token);
}

/// The cookie the middleware sets gives back, through `cookie_value`, the
/// token it was made from.
pub proof fn set_cookie_reads_back(token: Seq<char>)
    requires
        is_token_text(token),
    ensures
        cookie_lookup(set_cookie_text(token), CSRF_COOKIE@) == Some(token),
{
    reveal_strlit("; Path=/; SameSite=Strict");
    lemma_token_pair(token);
    let text = set_cookie_text(token);
    let seg = echo_cookie_text(token);
    assert(text =~= seg + cookie_attributes());
    assert forall|i: int| 0 <= i < seg.len() implies #[trigger] text[i] != ';' by {
        assert(text[i] == seg[i]);
    }
    assert(text[seg.len() as int] == ';');
    lemma_first_index_of(text, ';', seg.len() as int);
    assert(text.subrange(0, seg.len() as int) =~= seg);
}

/// ASCII text of visible characters is what `HeaderValue::to_str` reads from
/// its bytes.
pub proof fn lemma_visible_text_round_trip(text: Seq<char>)
    requires
        forall|i: int| 0 <= i < text.len() ==> 32 <= #[trigger] text[i] as u32 <= 126,
    ensures
        header_text_spec(ascii_bytes(text)) == Some(text),
{
    let bytes = ascii_bytes(text);
    assert forall|i: int| 0 <= i < text.len() implies is_visible_ascii(#[trigger] bytes[i])
        && ascii_chars(bytes)[i] == text[i] by {
        let v = text[i] as u32;
        assert(32 <= v <= 126);
        assert((v as u8) as u32 == v && 32 <= (v as u8) && (v as u8) <= 126) by (bit_vector)
            requires
                32 <= v <= 126,
        ;
        assert(bytes[i] == v as u8);
        vstd::utf8::char_u32_cast(text[i], v);
        assert(ascii_chars(bytes)[i] == (v as u8) as char);
    }
    assert(ascii_chars(bytes) =~= text);
}

/// A request that sends back the token it was handed, as the cookie and as
/// the `x-csrf-token` header, is let through whatever its method, and its
/// response sets no new cookie.
pub proof fn echoed_token_is_accepted(method: Method, token: Seq<char>)
    requires
        is_token_text(token),
    ensures
        verdict_spec(method, Some(ascii_bytes(echo_cookie_text(token))), Some(ascii_bytes(token)))
            == (CsrfVerdict::Allowed { set_cookie: false }),
{
    reveal_strlit("csrf_token");
    reveal_strlit("=");
    lemma_token_pair(token);
    let text = echo_cookie_text(token);
    assert forall|i: int| 0 <= i < text.len() implies 32 <= #[trigger] text[i] as u32 <= 126 by {
        if i >= 11 {
            lemma_token_chars(token, i - 11);
        }
    }
    lemma_visible_text_round_trip(text);
    assert forall|i: int| 0 <= i < token.len() implies 32 <= #[trigger] token[i] as u32 <= 126 by {
        lemma_token_chars(token, i);
    }
    lemma_visible_text_round_trip(token);
    lemma_first_index_of(text, ';', text.len() as int);
    assert(text.subrange(0, text.len() as int) =~= text);
}

} // verus!
