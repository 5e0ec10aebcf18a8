use incline_watershed::request::json_response;
use incline_watershed::request::not_found_response;
use incline_watershed::request::page_response;
use incline_watershed::request::parse_query;
use incline_watershed::request::preflight_response;
use incline_watershed::request::read_request_line;
use incline_watershed::request::reason;
use incline_watershed::request::response;
use incline_watershed::request::route;
use incline_watershed::request::Query;
use incline_watershed::request::Route;
use incline_watershed::text::decimal_text;
use incline_watershed::text::same_text;
use incline_watershed::text::separates_words;
use incline_watershed::text::split_text;
use incline_watershed::text::split_text_once;
use incline_watershed::text::words_of;

fn value<'a>(query: &'a Query, key: &str) -> Option<&'a str> {
    query.get(key).map(String::as_str)
}

#[test]
fn queries_are_read() {
    let query = parse_query("a=1&b=2&a=3&c&=x&d=e=f&g=%2D1+2%2d%2");
    assert_eq!(value(&query, "a"), Some("3"));
    assert_eq!(value(&query, "b"), Some("2"));
    assert_eq!(value(&query, "c"), None);
    assert_eq!(value(&query, ""), Some("x"));
    assert_eq!(value(&query, "d"), Some("e=f"));
    assert_eq!(value(&query, "g"), Some("-1 2%2d%2"));
    assert_eq!(value(&parse_query(""), ""), None);
    assert_eq!(value(&Query::empty(), "a"), None);
}

#[test]
fn keys_are_not_decoded() {
    let query = parse_query("a+b=1&%2D=2");
    assert_eq!(value(&query, "a+b"), Some("1"));
    assert_eq!(value(&query, "a b"), None);
    assert_eq!(value(&query, "%2D"), Some("2"));
}

#[test]
fn values_are_decoded_as_by_replacement() {
    let samples =
        ["%2D%2D", "%%2D2D", "%2%2DD", "2D%", "++", "%2D+%2D", "é%2Dü+ß", "%2", "%2DD", ""];
    for sample in samples {
        let text = format!("k={sample}");
        let expected = sample.replace("%2D", "-").replace('+', " ");
        assert_eq!(value(&parse_query(&text), "k"), Some(expected.as_str()), "{sample}");
    }
}

#[test]
fn texts_are_split() {
    for text in ["", "&", "a&b", "&&a&", "äö&ü", "no separator"] {
        let expected: Vec<String> = text.split('&').map(str::to_string).collect();
        assert_eq!(split_text(text, '&'), expected);
        assert_eq!(split_text(text, '&').join("&"), text);
        let once = text.split_once('&').map(|(a, b)| (a.to_string(), b.to_string()));
        assert_eq!(split_text_once(text, '&'), once);
    }
}

#[test]
fn spaces_are_unicode_white_space() {
    for code in 0..=0x10ffff {
        if let Some(c) = char::from_u32(code) {
            assert_eq!(separates_words(c), c.is_whitespace(), "{code:x}");
        }
    }
}

#[test]
fn words_are_split_at_white_space() {
    for text in ["", "  ", "GET / HTTP/1.1\r\n", "\u{3000}a\u{a0}b \tc", "one"] {
        let expected: Vec<String> = text.split_whitespace().map(str::to_string).collect();
        assert_eq!(words_of(text), expected);
    }
}

#[test]
fn numbers_are_written_in_decimal() {
    for n in [0, 7, 10, 99, 100, 204, 86400, 1234567890, u64::MAX] {
        assert_eq!(decimal_text(n), n.to_string());
    }
}

#[test]
fn texts_are_compared_whole() {
    assert!(same_text("distance", "distance"));
    assert!(!same_text("distance", "distance "));
    assert!(!same_text("", "x"));
}

#[test]
fn paths_are_routed() {
    assert_eq!(route("GET", "/"), Route::Index);
    assert_eq!(route("GET", "/index.html"), Route::Index);
    assert_eq!(route("POST", "/api/meta"), Route::Meta);
    assert_eq!(route("GET", "/api/delineate"), Route::Delineate);
    assert_eq!(route("GET", "/api/delineate/"), Route::NotFound);
    assert_eq!(route("GET", ""), Route::NotFound);
    assert_eq!(route("OPTIONS", "/api/delineate"), Route::Preflight);
    assert_eq!(route("options", "/"), Route::Index);
}

#[test]
fn request_lines_are_read() {
    let (target, query) =
        read_request_line("GET /api/delineate?lat=27.00&lon=%2D75.80?x HTTP/1.1\r\n");
    assert_eq!(target, Route::Delineate);
    assert_eq!(value(&query, "lat"), Some("27.00"));
    assert_eq!(value(&query, "lon"), Some("-75.80?x"));
    assert_eq!(read_request_line("").0, Route::Index);
    assert_eq!(read_request_line("GET\r\n").0, Route::Index);
    assert_eq!(read_request_line("OPTIONS").0, Route::Preflight);
    assert_eq!(read_request_line("GET /?a=1 HTTP/1.1").0, Route::Index);
    assert_eq!(read_request_line("GET /nowhere HTTP/1.1").0, Route::NotFound);
    assert_eq!(value(&read_request_line("GET / HTTP/1.1").1, "a"), None);
}

#[test]
fn responses_carry_head_and_body() {
    assert_eq!(
        response(200, "application/json", "{\"k\":\"é\"}"),
        "HTTP/1.1 200 OK\r\n\
         Content-Type: application/json\r\n\
         Content-Length: 10\r\n\
         Access-Control-Allow-Origin: *\r\n\
         Access-Control-Allow-Methods: GET, POST, OPTIONS\r\n\
         Access-Control-Allow-Headers: *\r\n\
         Cache-Control: no-store\r\n\
         Connection: close\r\n\r\n{\"k\":\"é\"}"
    );
}

#[test]
fn answers_name_status_and_type() {
    assert!(page_response("<p>")
        .starts_with("HTTP/1.1 200 OK\r\nContent-Type: text/html; charset=utf-8\r\nContent-Length: 3\r\n"));
    assert!(json_response(400, "{}")
        .starts_with("HTTP/1.1 400 Bad Request\r\nContent-Type: application/json\r\n"));
    let missing = not_found_response();
    assert!(missing.starts_with("HTTP/1.1 404 Not Found\r\nContent-Type: text/plain\r\n"));
    assert!(missing.ends_with("\r\n\r\nnot found"));
    assert_eq!(reason(500), "Error");
    assert_eq!(reason(204), "Error");
}

#[test]
fn a_preflight_request_is_answered_without_a_body() {
    assert_eq!(
        preflight_response(),
        "HTTP/1.1 204 No Content\r\n\
         Access-Control-Allow-Origin: *\r\n\
         Access-Control-Allow-Methods: GET, POST, OPTIONS\r\n\
         Access-Control-Allow-Headers: *\r\n\
         Access-Control-Max-Age: 86400\r\n\
         Connection: close\r\n\r\n"
    );
}
