use listem::csrf::{
    check_request, constant_time_eq, cookie_value, generate_token, header_text, hex_encode,
    is_unsafe_method, new_cookie_value, set_cookie_value, CsrfVerdict, Method, CSRF_COOKIE,
    CSRF_HEADER, CSRF_TOKEN_BYTES,
};

#[test]
fn generated_tokens_are_random_hex()
{
    let a = generate_token().unwrap();
    let b = generate_token().unwrap();

    assert_eq!(a.len(), CSRF_TOKEN_BYTES * 2);
    assert!(a.chars().all(|c| c.is_ascii_hexdigit()));
    assert!(b.chars().all(|c| c.is_ascii_hexdigit()));
    assert_ne!(a, b);
}

#[test]
fn constant_time_eq_matches_equal_strings()
{
    assert!(constant_time_eq("abc", "abc"));
    assert!(!constant_time_eq("abc", "abd"));
    assert!(!constant_time_eq("abc", "abcd"));
    assert!(!constant_time_eq("", "a"));
}

#[test]
fn constant_time_eq_handles_lengths_and_unicode()
{
    assert!(constant_time_eq("", ""));
    assert!(!constant_time_eq("a", ""));
    assert!(!constant_time_eq("abcd", "abc"));
    assert!(!constant_time_eq("abc\0", "abc"));
    assert!(constant_time_eq("héllo", "héllo"));
    assert!(!constant_time_eq("héllo", "hello"));
}

#[test]
fn cookie_value_parses_named_cookie()
{
    let header = "other=1; csrf_token=deadbeef".as_bytes();

    assert_eq!(cookie_value(Some(header), "csrf_token"), Some("deadbeef"));
    assert_eq!(cookie_value(Some(header), "missing"), None);
    assert_eq!(cookie_value(None, "csrf_token"), None);
}

#[test]
fn cookie_names_and_sizes()
{
    assert_eq!(CSRF_COOKIE, "csrf_token");
    assert_eq!(CSRF_HEADER, "x-csrf-token");
    assert_eq!(CSRF_TOKEN_BYTES, 32);
}

#[test]
fn cookie_value_trims_pairs_and_takes_the_first_match()
{
    let header = "  a = 1 ;csrf_token =  x y ; csrf_token=second".as_bytes();
    assert_eq!(cookie_value(Some(header), "csrf_token"), Some("x y"));
    assert_eq!(cookie_value(Some(header), "a"), Some("1"));
    assert_eq!(cookie_value(Some("novalue; k=v=w".as_bytes()), "k"), Some("v=w"));
    assert_eq!(cookie_value(Some("novalue".as_bytes()), "novalue"), None);
    assert_eq!(cookie_value(Some("k=".as_bytes()), "k"), Some(""));
    assert_eq!(cookie_value(Some("".as_bytes()), "k"), None);
}

#[test]
fn cookie_value_refuses_invisible_bytes()
{
    assert_eq!(cookie_value(Some(b"csrf_token=ab\ncd"), "csrf_token"), None);
    assert_eq!(cookie_value(Some(b"csrf_token=\xc3\xa9"), "csrf_token"), None);
    assert_eq!(cookie_value(Some(b"csrf_token=a\tb"), "csrf_token"), Some("a\tb"));
}

#[test]
fn header_text_accepts_visible_ascii_only()
{
    assert_eq!(header_text(b"abc DEF~"), Some("abc DEF~"));
    assert_eq!(header_text(b"tab\there"), Some("tab\there"));
    assert_eq!(header_text(b"del\x7f"), None);
    assert_eq!(header_text(b"nul\x00"), None);
    assert_eq!(header_text(b""), Some(""));
}

#[test]
fn unsafe_methods_are_the_state_changing_ones()
{
    assert!(is_unsafe_method(&Method::Post));
    assert!(is_unsafe_method(&Method::Put));
    assert!(is_unsafe_method(&Method::Patch));
    assert!(is_unsafe_method(&Method::Delete));
    assert!(!is_unsafe_method(&Method::Get));
    assert!(!is_unsafe_method(&Method::Head));
    assert!(!is_unsafe_method(&Method::Options));
    assert!(!is_unsafe_method(&Method::Trace));
    assert!(!is_unsafe_method(&Method::Connect));
    assert!(!is_unsafe_method(&Method::Extension));
}

#[test]
fn hex_encode_writes_two_lowercase_digits_per_byte()
{
    assert_eq!(hex_encode(&[0x00, 0x0f, 0xa0, 0xff, 0x3c]), "000fa0ff3c");
    assert_eq!(hex_encode(&[]), "");
}

#[test]
fn set_cookie_value_has_path_and_samesite()
{
    assert_eq!(set_cookie_value("abc123"), "csrf_token=abc123; Path=/; SameSite=Strict");
    let fresh = new_cookie_value().unwrap();
    assert!(fresh.starts_with("csrf_token="));
    assert!(fresh.ends_with("; Path=/; SameSite=Strict"));
    assert_eq!(fresh.len(), "csrf_token=".len() + 64 + "; Path=/; SameSite=Strict".len());
}

#[test]
fn unsafe_request_without_token_is_forbidden()
{
    assert_eq!(
        check_request(&Method::Delete, None, None),
        CsrfVerdict::Forbidden { set_cookie: true }
    );
    assert_eq!(
        check_request(&Method::Post, Some(b"csrf_token=abc"), None),
        CsrfVerdict::Forbidden { set_cookie: false }
    );
    assert_eq!(
        check_request(&Method::Put, None, Some(b"abc")),
        CsrfVerdict::Forbidden { set_cookie: true }
    );
    assert_eq!(
        check_request(&Method::Patch, Some(b"other=1"), Some(b"abc")),
        CsrfVerdict::Forbidden { set_cookie: true }
    );
}

#[test]
fn unsafe_request_with_other_token_is_forbidden()
{
    let token = generate_token().unwrap();
    let cookie = format!("csrf_token={token}");
    let doubled = token.repeat(2);
    assert_eq!(
        check_request(&Method::Post, Some(cookie.as_bytes()), Some(doubled.as_bytes())),
        CsrfVerdict::Forbidden { set_cookie: false }
    );
}

#[test]
fn echoed_token_is_allowed_without_new_cookie()
{
    let token = generate_token().unwrap();
    let cookie = format!("{}={token}", CSRF_COOKIE);
    for method in [Method::Post, Method::Put, Method::Patch, Method::Delete, Method::Get] {
        assert_eq!(
            check_request(&method, Some(cookie.as_bytes()), Some(token.as_bytes())),
            CsrfVerdict::Allowed { set_cookie: false }
        );
    }
}

#[test]
fn issued_cookie_reads_back_its_token()
{
    let token = generate_token().unwrap();
    let set_cookie = set_cookie_value(&token);
    assert_eq!(cookie_value(Some(set_cookie.as_bytes()), CSRF_COOKIE), Some(token.as_str()));
}

#[test]
fn safe_request_without_cookie_gets_one()
{
    assert_eq!(check_request(&Method::Get, None, None), CsrfVerdict::Allowed { set_cookie: true });
    assert_eq!(
        check_request(&Method::Get, Some(b"other=1"), None),
        CsrfVerdict::Allowed { set_cookie: true }
    );
    assert_eq!(
        check_request(&Method::Head, Some(b"csrf_token=t"), None),
        CsrfVerdict::Allowed { set_cookie: false }
    );
}
