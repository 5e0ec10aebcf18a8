//! Requests to the portal and the text of its responses.
use vstd::hash_map::StringHashMap;
use vstd::prelude::*;
use vstd::utf8::encode_utf8;

use crate::text::chars_of;
use crate::text::decimal;
use crate::text::decimal_text;
use crate::text::is_space;
use crate::text::law_decimal_denotes;
use crate::text::law_one_word;
use crate::text::law_split_at_every_separator;
use crate::text::law_split_once;
use crate::text::law_words_come_apart_at_spaces;
use crate::text::same_text;
use crate::text::split;
use crate::text::split_once;
use crate::text::split_text;
use crate::text::split_text_once;
use crate::text::texts_view;
use crate::text::value_of;
use crate::text::words;
use crate::text::words_of;

verus! {

// ---- queries ----

/// The text with every `%2D` made a dash.
pub open spec fn with_dashes(text: Seq<char>) -> Seq<char>
    decreases text.len(),
{
    if text.len() == 0 {
        Seq::empty()
    } else if text.len() >= 3 && text[0] == '%' && text[1] == '2' && text[2] == 'D' {
        seq!['-'] + with_dashes(text.skip(3))
    } else {
        seq![text[0]] + with_dashes(text.skip(1))
    }
}

/// The character that a character of a query value stands for.
pub open spec fn unplussed(c: char) -> char {
    if c == '+' {
        ' '
    } else {
        c
    }
}

/// The text with every plus sign made a space.
pub open spec fn with_spaces(text: Seq<char>) -> Seq<char> {
    text.map_values(|c: char| unplussed(c))
}

/// The value that a query's text stands for.
pub open spec fn decoded(text: Seq<char>) -> Seq<char> {
    with_spaces(with_dashes(text))
}

fn decode(text: &str) -> (r: String)
    ensures
        r@ == decoded(text@),
{
    let chars = chars_of(text);
    let mut out = String::new();
    let mut i: usize = 0;
    assert(text@.skip(0) =~= text@);
    assert(out@ + decoded(text@.skip(0)) =~= decoded(text@));
    while i < chars.len()
        invariant
            chars@ == text@,
            i <= chars@.len(),
            out@ + decoded(text@.skip(i as int)) == decoded(text@),
        decreases chars@.len() - i,
    {
        let ghost rest = text@.skip(i as int);
        let ghost before = out@;
        if chars.len() - i >= 3 && chars[i] == '%' && chars[i + 1] == '2' && chars[i + 2] == 'D' {
            out.push('-');
            i = i + 3;
            proof {
                assert(rest.skip(3) =~= text@.skip(i as int));
                assert(decoded(rest) =~= seq!['-'] + decoded(text@.skip(i as int)));
            }
        } else {
            let c = if chars[i] == '+' {
                ' '
            } else {
                chars[i]
            };
            out.push(c);
            i = i + 1;
            proof {
                assert(rest.skip(1) =~= text@.skip(i as int));
                assert(decoded(rest) =~= seq![c] + decoded(text@.skip(i as int)));
            }
        }
        assert(out@ + decoded(text@.skip(i as int)) =~= before + decoded(rest));
    }
    assert(text@.skip(i as int) =~= Seq::<char>::empty());
    assert(decoded(text@.skip(i as int)) =~= Seq::<char>::empty());
    assert(out@ =~= decoded(text@));
    out
}

/// The entries of a query, given as its pieces. A piece without an equals sign is
/// no entry, and of two entries with one key the later counts.
pub open spec fn entries(pieces: Seq<Seq<char>>) -> Map<Seq<char>, Seq<char>>
    decreases pieces.len(),
{
    if pieces.len() == 0 {
        Map::empty()
    } else {
        let before = entries(pieces.drop_last());
        match split_once(pieces.last(), '=') {
            Some((key, value)) => before.insert(key, decoded(value)),
            None => before,
        }
    }
}

/// What a query's text asks for.
pub open spec fn query_of(text: Seq<char>) -> Map<Seq<char>, Seq<char>> {
    entries(split(text, '&'))
}

/// The entries of a query.
pub struct Query {
    entries: StringHashMap<String>,
}

impl View for Query {
    type V = Map<Seq<char>, Seq<char>>;

    closed spec fn view(&self) -> Map<Seq<char>, Seq<char>> {
        self.entries@.map_values(|value: String| value@)
    }
}

impl Query {
    /// A query without entries.
    pub fn empty() -> (r: Self)
        ensures
            r@ == Map::<Seq<char>, Seq<char>>::empty(),
    {
        let r = Query { entries: StringHashMap::new() };
        assert(r@ =~= Map::<Seq<char>, Seq<char>>::empty());
        r
    }

    /// The value of a key.
    pub fn get(&self, key: &str) -> (r: Option<&String>)
        ensures
            match r {
                Some(value) => self@.contains_key(key@) && self@[key@] == value@,
                None => !self@.contains_key(key@),
            },
    {
        self.entries.get(key)
    }

    fn insert(&mut self, key: String, value: String)
        ensures
            final(self)@ == old(self)@.insert(key@, value@),
    {
        self.entries.insert(key, value);
        assert(self@ =~= old(self)@.insert(key@, value@));
    }
}

/// Reads a query.
pub fn parse_query(text: &str) -> (r: Query)
    ensures
        r@ == query_of(text@),
{
    let pieces = split_text(text, '&');
    let ghost all = texts_view(pieces@);
    let mut query = Query::empty();
    assert(all.take(0) =~= Seq::<Seq<char>>::empty());
    for i in 0..pieces.len()
        invariant
            all == texts_view(pieces@),
            query@ == entries(all.take(i as int)),
    {
        assert(all.take(i + 1).drop_last() =~= all.take(i as int));
        assert(all.take(i + 1).last() == pieces@[i as int]@);
        if let Some((key, value)) = split_text_once(pieces[i].as_str(), '=') {
            let value = decode(value.as_str());
            query.insert(key, value);
        }
    }
    assert(all.take(all.len() as int) =~= all);
    query
}

/// A later entry of a query overrides earlier ones with its key and leaves the
/// others as they are.
pub proof fn law_last_entry_counts(pieces: Seq<Seq<char>>, key: Seq<char>, value: Seq<char>)
    requires
        !key.contains('='),
    ensures
        entries(pieces.push(key + seq!['='] + value)) == entries(pieces).insert(key, decoded(value)),
{
    let piece = key + seq!['='] + value;
    assert(pieces.push(piece).drop_last() =~= pieces);
    assert(pieces.push(piece).last() == piece);
    assert(piece[key.len() as int] == '=');
    piece.index_of_first_ensures('=');
    let i = piece.index_of_first('=')->0;
    assert(piece.contains('='));
    if i < key.len() {
        assert(key[i] == '=');
    }
    assert(i == key.len());
    assert(piece.take(i) =~= key);
    assert(piece.skip(i + 1) =~= value);
}

// ---- routing ----

/// What a request asks of the portal.
#[derive(Clone, Copy, Debug, PartialEq, Eq, Structural)]
pub enum Route {
    /// Which requests a browser may send from elsewhere.
    Preflight,
    /// The portal's page.
    Index,
    /// What the portal serves.
    Meta,
    /// A delineation.
    Delineate,
    /// Something that does not exist.
    NotFound,
}

/// The method of a request line.
pub open spec fn method_of(line: Seq<char>) -> Seq<char> {
    if words(line).len() > 0 {
        words(line)[0]
    } else {
        "GET"@
    }
}

/// The target of a request line.
pub open spec fn target_of(line: Seq<char>) -> Seq<char> {
    if words(line).len() > 1 {
        words(line)[1]
    } else {
        "/"@
    }
}

/// The path of a target: what stands before the first question mark.
pub open spec fn path_of(target: Seq<char>) -> Seq<char> {
    match split_once(target, '?') {
        Some((path, _)) => path,
        None => target,
    }
}

/// The entries of a target's query.
pub open spec fn query_of_target(target: Seq<char>) -> Map<Seq<char>, Seq<char>> {
    match split_once(target, '?') {
        Some((_, query)) => query_of(query),
        None => Map::empty(),
    }
}

/// The route of a method and a path.
pub open spec fn route_of(method: Seq<char>, path: Seq<char>) -> Route {
    if method == "OPTIONS"@ {
        Route::Preflight
    } else if path == "/"@ || path == "/index.html"@ {
        Route::Index
    } else if path == "/api/meta"@ {
        Route::Meta
    } else if path == "/api/delineate"@ {
        Route::Delineate
    } else {
        Route::NotFound
    }
}

/// The route of a method and a path.
pub fn route(method: &str, path: &str) -> (r: Route)
    ensures
        r == route_of(method@, path@),
{
    if same_text(method, "OPTIONS") {
        Route::Preflight
    } else if same_text(path, "/") || same_text(path, "/index.html") {
        Route::Index
    } else if same_text(path, "/api/meta") {
        Route::Meta
    } else if same_text(path, "/api/delineate") {
        Route::Delineate
    } else {
        Route::NotFound
    }
}

/// Reads the first line of a request.
pub fn read_request_line(line: &str) -> (r: (Route, Query))
    ensures
        r.0 == route_of(method_of(line@), path_of(target_of(line@))),
        r.1@ == query_of_target(target_of(line@)),
{
    let parts = words_of(line);
    let ghost all = texts_view(parts@);
    let method = if parts.len() > 0 {
        assert(all[0] == parts@[0]@);
        parts[0].as_str()
    } else {
        "GET"
    };
    let target = if parts.len() > 1 {
        assert(all[1] == parts@[1]@);
        parts[1].as_str()
    } else {
        "/"
    };
    match split_text_once(target, '?') {
        Some((path, query)) => (route(method, path.as_str()), parse_query(query.as_str())),
        None => (route(method, target), Query::empty()),
    }
}

/// A preflight request is answered as one whatever it asks for.
pub proof fn law_preflight_first(line: Seq<char>)
    requires
        method_of(line) == "OPTIONS"@,
    ensures
        route_of(method_of(line), path_of(target_of(line))) == Route::Preflight,
{
}

/// The query never changes the route.
pub proof fn law_query_does_not_route(method: Seq<char>, path: Seq<char>, query: Seq<char>)
    requires
        !path.contains('?'),
    ensures
        route_of(method, path_of(path + seq!['?'] + query)) == route_of(method, path_of(path)),
        query_of_target(path + seq!['?'] + query) == query_of(query),
{
    let target = path + seq!['?'] + query;
    path.index_of_first_ensures('?');
    target.index_of_first_ensures('?');
    assert(target[path.len() as int] == '?');
    assert(target.contains('?'));
    let i = target.index_of_first('?')->0;
    if i < path.len() {
        assert(path[i] == '?');
    }
    assert(target.take(i) =~= path);
    assert(target.skip(i + 1) =~= query);
}

// ---- responses ----

/// The reason that goes with a status code.
pub open spec fn reason_of(code: u16) -> Seq<char> {
    if code == 200 {
        "OK"@
    } else if code == 400 {
        "Bad Request"@
    } else if code == 404 {
        "Not Found"@
    } else {
        "Error"@
    }
}

/// The reason that goes with a status code.
pub fn reason(code: u16) -> (r: &'static str)
    ensures
        r@ == reason_of(code),
{
    match code {
        200 => "OK",
        400 => "Bad Request",
        404 => "Not Found",
        _ => "Error",
    }
}

/// What stands before the body of a response whose body has `length` bytes.
pub open spec fn response_head(code: u16, content_type: Seq<char>, length: nat) -> Seq<char> {
    "HTTP/1.1 "@ + decimal(code as nat) + " "@ + reason_of(code) + "\r\nContent-Type: "@
        + content_type + "\r\nContent-Length: "@ + decimal(length)
        + "\r\nAccess-Control-Allow-Origin: *\r\nAccess-Control-Allow-Methods: GET, POST, OPTIONS\r\nAccess-Control-Allow-Headers: *\r\nCache-Control: no-store\r\nConnection: close\r\n\r\n"@
}

/// A response: its head and its body.
pub open spec fn response_of(code: u16, content_type: Seq<char>, body: Seq<char>) -> Seq<char> {
    response_head(code, content_type, encode_utf8(body).len()) + body
}

/// The text of a response.
pub fn response(code: u16, content_type: &str, body: &str) -> (r: String)
    ensures
        r@ == response_of(code, content_type@, body@),
{
    let code_digits = decimal_text(code as u64);
    let length_digits = decimal_text(body.as_bytes().len() as u64);
    let mut text = "HTTP/1.1 ".to_owned();
    text.append(code_digits.as_str());
    text.append(" ");
    text.append(reason(code));
    text.append("\r\nContent-Type: ");
    text.append(content_type);
    text.append("\r\nContent-Length: ");
    text.append(length_digits.as_str());
    text.append(
        "\r\nAccess-Control-Allow-Origin: *\r\nAccess-Control-Allow-Methods: GET, POST, OPTIONS\r\nAccess-Control-Allow-Headers: *\r\nCache-Control: no-store\r\nConnection: close\r\n\r\n",
    );
    text.append(body);
    text
}

/// The answer to a request for the portal's page.
pub fn page_response(page: &str) -> (r: String)
    ensures
        r@ == response_of(200, "text/html; charset=utf-8"@, page@),
{
    response(200, "text/html; charset=utf-8", page)
}

/// An answer in JSON.
pub fn json_response(code: u16, body: &str) -> (r: String)
    ensures
        r@ == response_of(code, "application/json"@, body@),
{
    response(code, "application/json", body)
}

/// The answer to a request for something that does not exist.
pub fn not_found_response() -> (r: String)
    ensures
        r@ == response_of(404, "text/plain"@, "not found"@),
{
    response(404, "text/plain", "not found")
}

/// The answer to a preflight request.
pub fn preflight_response() -> (r: &'static str)
    ensures
        r@
            == "HTTP/1.1 204 No Content\r\nAccess-Control-Allow-Origin: *\r\nAccess-Control-Allow-Methods: GET, POST, OPTIONS\r\nAccess-Control-Allow-Headers: *\r\nAccess-Control-Max-Age: 86400\r\nConnection: close\r\n\r\n"@,
{
    "HTTP/1.1 204 No Content\r\nAccess-Control-Allow-Origin: *\r\nAccess-Control-Allow-Methods: GET, POST, OPTIONS\r\nAccess-Control-Allow-Headers: *\r\nAccess-Control-Max-Age: 86400\r\nConnection: close\r\n\r\n"
}

proof fn lemma_encoding_concatenates(a: Seq<char>, b: Seq<char>)
    ensures
        encode_utf8(a + b) == encode_utf8(a) + encode_utf8(b),
    decreases a.len(),
{
    if a.len() == 0 {
        assert(a + b =~= b);
        assert(encode_utf8(a) + encode_utf8(b) =~= encode_utf8(b));
    } else {
        lemma_encoding_concatenates(a.drop_first(), b);
        assert((a + b).drop_first() =~= a.drop_first() + b);
        assert((a + b)[0] == a[0]);
        assert(encode_utf8(a + b) =~= encode_utf8(a) + encode_utf8(b));
    }
}

/// On the wire, the head is followed by as many bytes as the number denotes that
/// the head gives as the body's length.
pub proof fn law_length_is_that_of_the_body(code: u16, content_type: Seq<char>, body: Seq<char>)
    ensures
        ({
            let length = encode_utf8(body).len();
            let head = encode_utf8(response_head(code, content_type, length));
            let sent = encode_utf8(response_of(code, content_type, body));
            &&& sent.take(head.len() as int) == head
            &&& sent.skip(head.len() as int) == encode_utf8(body)
            &&& sent.len() - head.len() == value_of(decimal(length))
        }),
{
    let length = encode_utf8(body).len();
    let head = response_head(code, content_type, length);
    lemma_encoding_concatenates(head, body);
    law_decimal_denotes(length);
    let sent = encode_utf8(head + body);
    assert(sent.take(encode_utf8(head).len() as int) =~= encode_utf8(head));
    assert(sent.skip(encode_utf8(head).len() as int) =~= encode_utf8(body));
}

// ---- what a request says ----

/// A `%2D` stands for a dash, wherever it stands; and every other character for
/// itself, but the plus sign, which stands for a space.
pub proof fn law_values_are_decoded(a: Seq<char>, b: Seq<char>)
    ensures
        decoded(a + seq!['%', '2', 'D'] + b) == decoded(a) + seq!['-'] + decoded(b),
{
    lemma_dash_in_between(a, b);
    let text = a + seq!['%', '2', 'D'] + b;
    assert(decoded(text) =~= decoded(a) + seq!['-'] + decoded(b));
}

proof fn lemma_dash_in_between(a: Seq<char>, b: Seq<char>)
    ensures
        with_dashes(a + seq!['%', '2', 'D'] + b) == with_dashes(a) + seq!['-'] + with_dashes(b),
    decreases a.len(),
{
    let text = a + seq!['%', '2', 'D'] + b;
    if a.len() == 0 {
        assert(text.skip(3) =~= b);
        assert(with_dashes(text) =~= seq!['-'] + with_dashes(b));
        assert(with_dashes(a) =~= Seq::<char>::empty());
        assert(with_dashes(text) =~= with_dashes(a) + seq!['-'] + with_dashes(b));
    } else if a.len() >= 3 && a[0] == '%' && a[1] == '2' && a[2] == 'D' {
        lemma_dash_in_between(a.skip(3), b);
        assert(text.skip(3) =~= a.skip(3) + seq!['%', '2', 'D'] + b);
        assert(with_dashes(text) =~= with_dashes(a) + seq!['-'] + with_dashes(b));
    } else {
        lemma_dash_in_between(a.skip(1), b);
        assert(text.skip(1) =~= a.skip(1) + seq!['%', '2', 'D'] + b);
        assert(text[0] == a[0]);
        if a.len() == 1 {
            assert(text[1] == '%');
        } else if a.len() == 2 {
            assert(text[2] == '%');
        }
        assert(with_dashes(text) =~= with_dashes(a) + seq!['-'] + with_dashes(b));
    }
}

/// Where no `%2D` stands in a text, it keeps its length, and only its plus signs
/// change, to spaces.
pub proof fn law_other_characters_stand_for_themselves(text: Seq<char>)
    requires
        forall|i: int|
            0 <= i < text.len() - 2 ==> !(#[trigger] text[i] == '%' && text[i + 1] == '2' && text[i
                + 2] == 'D'),
    ensures
        decoded(text).len() == text.len(),
        forall|i: int|
            0 <= i < text.len() ==> #[trigger] decoded(text)[i] == if text[i] == '+' {
                ' '
            } else {
                text[i]
            },
{
    lemma_no_dash(text);
}

proof fn lemma_no_dash(text: Seq<char>)
    requires
        forall|i: int|
            0 <= i < text.len() - 2 ==> !(#[trigger] text[i] == '%' && text[i + 1] == '2' && text[i
                + 2] == 'D'),
    ensures
        with_dashes(text) == text,
    decreases text.len(),
{
    if text.len() > 0 {
        let rest = text.skip(1);
        assert forall|i: int| 0 <= i < rest.len() - 2 implies !(#[trigger] rest[i] == '%' && rest[i
            + 1] == '2' && rest[i + 2] == 'D') by {
            assert(text[i + 1] == rest[i]);
            assert(text[i + 1 + 1] == rest[i + 1]);
            assert(text[i + 1 + 2] == rest[i + 2]);
        }
        lemma_no_dash(rest);
        assert(!(text.len() >= 3 && text[0] == '%' && text[1] == '2' && text[2] == 'D'));
    }
    assert(with_dashes(text) =~= text);
}

/// Each piece behind an ampersand with an equals sign in it sets its key to its
/// decoded value, and leaves the other entries as they are.
pub proof fn law_query_is_read_entry_by_entry(text: Seq<char>, key: Seq<char>, value: Seq<char>)
    requires
        !key.contains('='),
        !key.contains('&'),
        !value.contains('&'),
    ensures
        query_of(text + seq!['&'] + (key + seq!['='] + value)) == query_of(text).insert(
            key,
            decoded(value),
        ),
        query_of(key + seq!['='] + value) == Map::<Seq<char>, Seq<char>>::empty().insert(
            key,
            decoded(value),
        ),
{
    let piece = key + seq!['='] + value;
    assert(!piece.contains('&')) by {
        if piece.contains('&') {
            let i = choose|i: int| 0 <= i < piece.len() && piece[i] == '&';
            if i < key.len() {
                assert(key[i] == '&');
            } else if i > key.len() {
                assert(value[i - key.len() - 1] == '&');
            }
        }
    }
    law_split_at_every_separator(piece, '&', Seq::empty());
    law_split_at_every_separator(text, '&', piece);
    assert(split(text, '&') + seq![piece] =~= split(text, '&').push(piece));
    assert(seq![piece] =~= Seq::<Seq<char>>::empty().push(piece));
    law_last_entry_counts(split(text, '&'), key, value);
    law_last_entry_counts(Seq::empty(), key, value);
    assert(entries(Seq::<Seq<char>>::empty()) =~= Map::<Seq<char>, Seq<char>>::empty());
}

/// A piece of a query without an equals sign is no entry.
pub proof fn law_piece_without_value_is_no_entry(text: Seq<char>, piece: Seq<char>)
    requires
        !piece.contains('='),
        !piece.contains('&'),
    ensures
        query_of(text + seq!['&'] + piece) == query_of(text),
        query_of(piece) == Map::<Seq<char>, Seq<char>>::empty(),
{
    law_split_at_every_separator(piece, '&', Seq::empty());
    law_split_at_every_separator(text, '&', piece);
    let pieces = split(text, '&');
    assert(pieces + seq![piece] =~= pieces.push(piece));
    assert(pieces.push(piece).drop_last() =~= pieces);
    assert(seq![piece].drop_last() =~= Seq::<Seq<char>>::empty());
    law_split_once(piece, '=');
    assert(split_once(piece, '=') is None) by {
        if let Some((before, after)) = split_once(piece, '=') {
            assert((before + seq!['='] + after)[before.len() as int] == '=');
        }
    }
    assert(entries(seq![piece].drop_last()) =~= Map::<Seq<char>, Seq<char>>::empty());
    assert(seq![piece].last() == piece);
    assert(split(piece, '&') == seq![piece]);
}

/// The first word of a request line is its method, and the second its target;
/// what follows has no part in either.
pub proof fn law_request_line_is_read_word_by_word(
    method: Seq<char>,
    target: Seq<char>,
    rest: Seq<char>,
)
    requires
        method.len() > 0,
        target.len() > 0,
        forall|i: int| 0 <= i < method.len() ==> !is_space(#[trigger] method[i]),
        forall|i: int| 0 <= i < target.len() ==> !is_space(#[trigger] target[i]),
    ensures
        method_of(method + seq![' '] + (target + seq![' '] + rest)) == method,
        target_of(method + seq![' '] + (target + seq![' '] + rest)) == target,
        method_of(method) == method,
        target_of(method) == "/"@,
        method_of(Seq::empty()) == "GET"@,
        target_of(Seq::empty()) == "/"@,
{
    let tail = target + seq![' '] + rest;
    law_words_come_apart_at_spaces(method, ' ', tail);
    law_words_come_apart_at_spaces(target, ' ', rest);
    law_one_word(method);
    law_one_word(target);
    law_one_word(Seq::empty());
    let all = words(method + seq![' '] + tail);
    assert(all == seq![method] + (seq![target] + words(rest)));
    assert(all[0] == method);
    assert(all[1] == target);
}

/// The path of a target is what stands before its first question mark, and the whole
/// target where there is none; then there is no query.
pub proof fn law_path_ends_at_the_question_mark(path: Seq<char>, query: Seq<char>)
    requires
        !path.contains('?'),
    ensures
        path_of(path + seq!['?'] + query) == path,
        path_of(path) == path,
        query_of_target(path) == Map::<Seq<char>, Seq<char>>::empty(),
{
    let target = path + seq!['?'] + query;
    law_split_once(target, '?');
    law_split_once(path, '?');
    assert(target[path.len() as int] == '?');
    assert(target.contains('?'));
    let (before, after) = split_once(target, '?')->0;
    let n = before.len() as int;
    assert((before + seq!['?'] + after)[n] == '?');
    if n < path.len() {
        assert(path[n] == target[n]);
        assert(path.contains('?'));
    } else if n > path.len() {
        assert(before[path.len() as int] == target[path.len() as int]);
        assert(before.contains('?'));
    }
    assert(n == path.len());
    assert forall|i: int| 0 <= i < n implies before[i] == path[i] by {
        assert(target[i] == (before + seq!['?'] + after)[i]);
    }
    assert(before =~= path);
    if let Some((front, back)) = split_once(path, '?') {
        assert((front + seq!['?'] + back)[front.len() as int] == '?');
        assert(path.contains('?'));
    }
}

/// A request leads to each route exactly where its method or path asks for it.
pub proof fn law_routes(method: Seq<char>, path: Seq<char>)
    ensures
        route_of(method, path) == Route::Preflight <==> method == "OPTIONS"@,
        method != "OPTIONS"@ ==> {
            &&& route_of(method, path) == Route::Index <==> path == "/"@ || path
                == "/index.html"@
            &&& route_of(method, path) == Route::Meta <==> path == "/api/meta"@
            &&& route_of(method, path) == Route::Delineate <==> path == "/api/delineate"@
        },
{
    reveal_strlit("/");
    reveal_strlit("/index.html");
    reveal_strlit("/api/meta");
    reveal_strlit("/api/delineate");
    assert("/"@.len() == 1);
    assert("/index.html"@.len() == 11);
    assert("/api/meta"@.len() == 9);
    assert("/api/delineate"@.len() == 14);
}

/// A response begins with its status line and its type, and ends with its body. Two
/// responses of one status and type with bodies of one length have the same head.
pub proof fn law_response_names_status_and_type(
    code: u16,
    content_type: Seq<char>,
    body: Seq<char>,
    other: Seq<char>,
)
    ensures
        ({
            let start = "HTTP/1.1 "@ + decimal(code as nat) + " "@ + reason_of(code)
                + "\r\nContent-Type: "@ + content_type + "\r\n"@;
            let sent = response_of(code, content_type, body);
            &&& sent.len() >= start.len() + body.len()
            &&& sent.take(start.len() as int) == start
            &&& sent.skip(sent.len() - body.len()) == body
        }),
        encode_utf8(body).len() == encode_utf8(other).len() ==> response_of(
            code,
            content_type,
            body,
        ).take(response_of(code, content_type, body).len() - body.len()) == response_of(
            code,
            content_type,
            other,
        ).take(response_of(code, content_type, other).len() - other.len()),
{
    reveal_strlit("\r\n");
    reveal_strlit("\r\nContent-Length: ");
    let upto = "HTTP/1.1 "@ + decimal(code as nat) + " "@ + reason_of(code)
        + "\r\nContent-Type: "@ + content_type;
    let start = upto + "\r\n"@;
    let head = response_head(code, content_type, encode_utf8(body).len());
    let sent = response_of(code, content_type, body);
    assert(sent.skip(sent.len() - body.len()) =~= body);
    assert(sent.take(start.len() as int) =~= start);
    assert(sent.take(sent.len() - body.len()) =~= head);
    let replied = response_of(code, content_type, other);
    assert(replied.take(replied.len() - other.len()) =~= response_head(
        code,
        content_type,
        encode_utf8(other).len(),
    ));
}

/// Each status that the portal sends has its own reason, and any other none of these.
pub proof fn law_status_is_told_by_its_reason(code: u16)
    ensures
        reason_of(code) == "OK"@ <==> code == 200,
        reason_of(code) == "Bad Request"@ <==> code == 400,
        reason_of(code) == "Not Found"@ <==> code == 404,
        reason_of(code) == "Error"@ <==> code != 200 && code != 400 && code != 404,
{
    reveal_strlit("OK");
    reveal_strlit("Bad Request");
    reveal_strlit("Not Found");
    reveal_strlit("Error");
    assert("OK"@.len() == 2);
    assert("Bad Request"@.len() == 11);
    assert("Not Found"@.len() == 9);
    assert("Error"@.len() == 5);
}

} // verus!
