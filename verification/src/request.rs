//! Requests: the structured form of the raw text of one HTTP request.
//!
//! Parsing never fails. A text without a usable request line gives a request
//! with the method `NoImpl` and an empty path; headers and body are read all
//! the same.

use vstd::hash_map::StringHashMap;
use vstd::prelude::*;
use vstd::slice::slice_subrange;

use crate::text::{
    cut, first_occurrence, lemma_first_piece, lemma_leftmost_at, lemma_leftmost_is_first,
    lemma_leftmost_skips, occurs_at, occurs_in, pieces, split, split_once, string_of, texts,
    to_chars, value_texts,
};

verus! {

/// The method of a request.
#[derive(Clone, Copy, Debug, PartialEq, Eq, Structural)]
pub enum Method {
    Get,
    /// `PUT`, and `PATCH` as another word for it.
    Put,
    Post,
    Delete,
    /// Any other method, and a request line that names none.
    NoImpl,
}

/// A parsed request.
pub struct Request {
    method: Method,
    path: String,
    headers: StringHashMap<String>,
    payload: String,
}

/// A request as a mathematical value.
#[verifier::ext_equal]
pub struct RequestView {
    pub method: Method,
    pub path: Seq<char>,
    pub headers: Map<Seq<char>, Seq<char>>,
    pub payload: Seq<char>,
}

impl View for Request {
    type V = RequestView;

    closed spec fn view(&self) -> RequestView {
        RequestView {
            method: self.method,
            path: self.path@,
            headers: value_texts(self.headers@),
            payload: self.payload@,
        }
    }
}

/// The end of a line.
pub open spec fn crlf() -> Seq<char> {
    seq!['\r', '\n']
}

/// The empty line that ends the head of a request.
pub open spec fn blank_line() -> Seq<char> {
    seq!['\r', '\n', '\r', '\n']
}

/// A character that separates the fields of a request line: a space, a
/// tab, or another of the white-space characters of ASCII.
pub open spec fn is_whitespace(c: char) -> bool {
    c == ' ' || ('\t' <= c && c <= '\r')
}

/// A text that can stand as one field of a request line: it holds no white
/// space.
pub open spec fn is_field(s: Seq<char>) -> bool {
    forall|i: int| 0 <= i < s.len() ==> !is_whitespace(#[trigger] s[i])
}

/// The length of the first field of a text: the number of characters before
/// its first white-space character.
pub open spec fn field_len(s: Seq<char>) -> nat
    decreases s.len(),
{
    if s.len() == 0 || is_whitespace(s[0]) {
        0
    } else {
        1 + field_len(s.drop_first())
    }
}

/// The space that a rendered request line puts between its fields.
pub open spec fn space() -> Seq<char> {
    seq![' ']
}

/// What stands between the name and the value of a header.
pub open spec fn header_separator() -> Seq<char> {
    seq![':', ' ']
}

/// The head of a request: the text before the first blank line, or all of it
/// where there is none.
pub open spec fn head_of(raw: Seq<char>) -> Seq<char> {
    match cut(raw, blank_line()) {
        Some((head, _)) => head,
        None => raw,
    }
}

/// The body of a request: the text after the first blank line, as it
/// stands, or nothing where there is none.
pub open spec fn body_of(raw: Seq<char>) -> Seq<char> {
    match cut(raw, blank_line()) {
        Some((_, body)) => body,
        None => Seq::empty(),
    }
}

/// The lines of the head. The first is the request line, the others are
/// header lines.
pub open spec fn head_lines(raw: Seq<char>) -> Seq<Seq<char>> {
    pieces(head_of(raw), crlf())
}

/// The method that a token names. Case counts.
pub open spec fn method_of(token: Seq<char>) -> Method {
    if token == "GET"@ {
        Method::Get
    } else if token == "PUT"@ || token == "PATCH"@ {
        Method::Put
    } else if token == "POST"@ {
        Method::Post
    } else if token == "DELETE"@ {
        Method::Delete
    } else {
        Method::NoImpl
    }
}

/// The method and the path of a request line. The line is cut at its first
/// white-space character into the method's token and the rest; the path is
/// the first field of the rest, and what follows it is not looked at. A line
/// without white space has fewer than two fields: it gives `NoImpl` and an
/// empty path.
pub open spec fn request_line(line: Seq<char>) -> (Method, Seq<char>) {
    let n: int = field_len(line) as int;
    if n < line.len() {
        let rest = line.skip(n + 1);
        (method_of(line.take(n)), rest.take(field_len(rest) as int))
    } else {
        (Method::NoImpl, Seq::empty())
    }
}

/// The headers in `base` after the given header lines were read in order. A
/// line is cut at its first `": "` into name and value; a line without it is
/// passed over. A later value replaces an earlier one of the same name.
pub open spec fn with_headers(base: Map<Seq<char>, Seq<char>>, lines: Seq<Seq<char>>) -> Map<
    Seq<char>,
    Seq<char>,
>
    decreases lines.len(),
{
    if lines.len() == 0 {
        base
    } else {
        let earlier = with_headers(base, lines.drop_last());
        match cut(lines.last(), header_separator()) {
            Some((name, value)) => earlier.insert(name, value),
            None => earlier,
        }
    }
}

/// The request that a raw text amounts to when its headers are added to
/// `base`.
pub open spec fn parsed_onto(base: Map<Seq<char>, Seq<char>>, raw: Seq<char>) -> RequestView {
    let lines = head_lines(raw);
    let first = request_line(lines[0]);
    RequestView {
        method: first.0,
        path: first.1,
        headers: with_headers(base, lines.skip(1)),
        payload: body_of(raw),
    }
}

/// The request that a raw text amounts to.
pub open spec fn parsed(raw: Seq<char>) -> RequestView {
    parsed_onto(Map::empty(), raw)
}

/// Whether the characters spell the word.
fn spells(token: &[char], word: &str) -> (b: bool)
    ensures
        b == (token@ == word@),
{
    let letters = to_chars(word);
    if token.len() != letters.len() {
        return false;
    }
    let mut i: usize = 0;
    while i < token.len()
        invariant
            i <= token.len(),
            token.len() == letters.len(),
            letters@ == word@,
            forall|k: int| 0 <= k < i ==> token@[k] == letters@[k],
        decreases token.len() - i,
    {
        if token[i] != letters[i] {
            assert(token@[i as int] != word@[i as int]);
            return false;
        }
        i += 1;
    }
    assert(token@ =~= letters@);
    true
}

impl Method {
    /// The method that a token of the request line names.
    pub fn from_token(token: &[char]) -> (m: Method)
        ensures
            m == method_of(token@),
    {
        if spells(token, "GET") {
            Method::Get
        } else if spells(token, "PUT") || spells(token, "PATCH") {
            Method::Put
        } else if spells(token, "POST") {
            Method::Post
        } else if spells(token, "DELETE") {
            Method::Delete
        } else {
            Method::NoImpl
        }
    }
}

/// Whether a character separates the fields of a request line.
pub fn is_separator(c: char) -> (b: bool)
    ensures
        b == is_whitespace(c),
{
    c == ' ' || ('\t' <= c && c <= '\r')
}

/// The first field of a text is as long as the text before its first
/// white-space character, or as the text where it has none.
pub proof fn lemma_field_len(s: Seq<char>, n: int)
    requires
        0 <= n <= s.len(),
        is_field(s.take(n)),
        n < s.len() ==> is_whitespace(s[n]),
    ensures
        field_len(s) == n,
    decreases n,
{
    if n > 0 {
        assert(s.take(n)[0] == s[0]);
        let t = s.drop_first();
        assert forall|i: int| 0 <= i < t.take(n - 1).len() implies !is_whitespace(
            #[trigger] t.take(n - 1)[i],
        ) by {
            assert(t.take(n - 1)[i] == s.take(n)[i + 1]);
        }
        lemma_field_len(t, n - 1);
    }
}

/// The length of the first field of a text.
pub fn first_field_len(text: &[char]) -> (n: usize)
    ensures
        n == field_len(text@),
        n <= text.len(),
{
    let mut i: usize = 0;
    while i < text.len() && !is_separator(text[i])
        invariant
            i <= text.len(),
            is_field(text@.take(i as int)),
        decreases text.len() - i,
    {
        assert forall|k: int| 0 <= k < text@.take(i + 1).len() implies !is_whitespace(
            #[trigger] text@.take(i + 1)[k],
        ) by {
            if k < i {
                assert(text@.take(i + 1)[k] == text@.take(i as int)[k]);
            }
        }
        i += 1;
    }
    proof {
        lemma_field_len(text@, i as int);
    }
    i
}

/// Reads the method and the path off a request line.
pub fn read_request_line<'a>(line: &'a [char]) -> (r: (Method, &'a [char]))
    ensures
        (r.0, r.1@) == request_line(line@),
{
    let n: usize = first_field_len(line);
    if n < line.len() {
        let token = slice_subrange(line, 0, n);
        let rest = slice_subrange(line, n + 1, line.len());
        let path = slice_subrange(rest, 0, first_field_len(rest));
        assert(token@ =~= line@.take(n as int));
        assert(rest@ =~= line@.skip(n + 1));
        assert(path@ =~= rest@.take(field_len(rest@) as int));
        (Method::from_token(token), path)
    } else {
        let nothing = slice_subrange(line, 0, 0);
        assert(nothing@ =~= Seq::empty());
        (Method::NoImpl, nothing)
    }
}

impl Request {
    /// A request with no method, an empty path, no headers and no body.
    pub fn new() -> (r: Request)
        ensures
            r@ == (RequestView {
                method: Method::NoImpl,
                path: Seq::empty(),
                headers: Map::empty(),
                payload: Seq::empty(),
            }),
    {
        let r = Request {
            method: Method::NoImpl,
            path: String::new(),
            headers: StringHashMap::new(),
            payload: String::new(),
        };
        assert(r@.headers =~= Map::empty());
        r
    }

    /// The method of the request.
    pub fn method(&self) -> (m: Method)
        ensures
            m == self@.method,
    {
        self.method
    }

    /// The path of the request, as it stood in the request line.
    pub fn path(&self) -> (p: &str)
        ensures
            p@ == self@.path,
    {
        self.path.as_str()
    }

    /// The body of the request.
    pub fn payload(&self) -> (p: &str)
        ensures
            p@ == self@.payload,
    {
        self.payload.as_str()
    }

    /// The value of the header of the given name, if the request has one.
    pub fn header(&self, name: &str) -> (r: Option<&String>)
        ensures
            match r {
                Some(value) => self@.headers.contains_key(name@) && value@ == self@.headers[name@],
                None => !self@.headers.contains_key(name@),
            },
    {
        self.headers.get(name)
    }

    /// The number of headers of the request.
    pub fn header_count(&self) -> (n: usize)
        ensures
            n == self@.headers.len(),
    {
        assert(self@.headers.dom() =~= self.headers@.dom());
        self.headers.len()
    }

    /// Parses the raw text of a request.
    pub fn from_str(rqstr: &str) -> (r: Request)
        ensures
            r@ == parsed(rqstr@),
    {
        let mut req = Request::new();
        req.parse(rqstr);
        req
    }

    /// Parses the raw text of a request into `self`: method, path and body
    /// are replaced, and the headers of the text are added to those that
    /// `self` holds.
    pub fn parse(&mut self, rqstr: &str)
        ensures
            final(self)@ == parsed_onto(old(self)@.headers, rqstr@),
    {
        let chars = to_chars(rqstr);
        let blank = vec!['\r', '\n', '\r', '\n'];
        let newline = vec!['\r', '\n'];
        let colon = vec![':', ' '];
        assert(blank@ =~= blank_line());
        assert(newline@ =~= crlf());
        assert(colon@ =~= header_separator());
        let (head, body) = match split_once(chars.as_slice(), blank.as_slice()) {
            Some((head, body)) => (head, body),
            None => (chars.as_slice(), slice_subrange(chars.as_slice(), 0, 0)),
        };
        assert(head@ == head_of(rqstr@));
        assert(body@ =~= body_of(rqstr@));
        let lines = split(head, newline.as_slice());
        let ghost all = texts(lines@);
        let ghost base = self@.headers;
        let (method, path) = read_request_line(lines[0]);
        assert(all[0] == lines[0]@);
        self.method = method;
        self.path = string_of(path);
        self.payload = string_of(body);
        let mut i: usize = 1;
        proof {
            assert(all.skip(1).take(0) =~= Seq::empty());
        }
        while i < lines.len()
            invariant
                1 <= i <= lines.len(),
                all == texts(lines@),
                colon@ == header_separator(),
                self.method == method,
                self.path@ == path@,
                self.payload@ == body@,
                self@.headers == with_headers(base, all.skip(1).take(i - 1)),
            decreases lines.len() - i,
        {
            let ghost before = self@.headers;
            proof {
                assert(all.skip(1).take(i as int).drop_last() =~= all.skip(1).take(i - 1));
                assert(all.skip(1).take(i as int).last() == lines[i as int]@);
            }
            match split_once(lines[i], colon.as_slice()) {
                Some((name, value)) => {
                    self.headers.insert(string_of(name), string_of(value));
                    assert(self@.headers =~= before.insert(name@, value@));
                },
                None => {},
            }
            i += 1;
        }
        proof {
            assert(all.skip(1).take(lines.len() - 1) =~= all.skip(1));
            assert(self@ =~= parsed_onto(base, rqstr@));
        }
    }
}

/// The five method words name their methods, `PUT` and `PATCH` the same
/// one, and every other token names none.
pub proof fn lemma_method_words()
    ensures
        method_of("GET"@) == Method::Get,
        method_of("POST"@) == Method::Post,
        method_of("DELETE"@) == Method::Delete,
        method_of("PUT"@) == Method::Put,
        method_of("PATCH"@) == Method::Put,
        forall|token: Seq<char>|
            token != "GET"@ && token != "POST"@ && token != "DELETE"@ && token != "PUT"@ && token
                != "PATCH"@ ==> #[trigger] method_of(token) == Method::NoImpl,
{
    reveal_strlit("GET");
    reveal_strlit("POST");
    reveal_strlit("DELETE");
    reveal_strlit("PUT");
    reveal_strlit("PATCH");
    assert("GET"@.len() == 3 && "PUT"@.len() == 3 && "POST"@.len() == 4);
    assert("PATCH"@.len() == 5 && "DELETE"@.len() == 6);
    assert("GET"@[0] != "PUT"@[0]);
}

/// A text that begins with `start`, where `start` holds no `'\r'`, keeps
/// that beginning in its first head line.
proof fn lemma_first_line_keeps_start(raw: Seq<char>, start: Seq<char>)
    requires
        start.len() <= raw.len(),
        raw.subrange(0, start.len() as int) == start,
        !start.contains('\r'),
    ensures
        start.len() <= head_lines(raw)[0].len(),
        head_lines(raw)[0].subrange(0, start.len() as int) == start,
{
    let n: int = start.len() as int;
    assert forall|k: int| 0 <= k < n implies raw[k] != '\r' by {
        assert(raw.subrange(0, n)[k] == raw[k]);
        assert(start.contains(start[k]));
    }
    lemma_leftmost_skips(raw, blank_line(), n);
    let head = head_of(raw);
    assert(n <= head.len());
    assert(head.subrange(0, n) =~= start);
    assert forall|k: int| 0 <= k < n implies head[k] != '\r' by {
        assert(head.subrange(0, n)[k] == head[k]);
        assert(start.contains(start[k]));
    }
    lemma_leftmost_skips(head, crlf(), n);
    lemma_first_piece(head, crlf());
    let line = head_lines(raw)[0];
    assert(n <= line.len());
    assert(line.subrange(0, n) =~= start);
}

/// The method of a request is the method that the first token of its text
/// names: for every text that begins with a token free of white space and
/// then a white-space character other than `'\r'`, whatever follows.
pub proof fn lemma_method_of_first_token(token: Seq<char>, blank: char, rest: Seq<char>)
    requires
        is_field(token),
        is_whitespace(blank),
        blank != '\r',
    ensures
        parsed(token + seq![blank] + rest).method == method_of(token),
{
    let raw = token + seq![blank] + rest;
    let start = token + seq![blank];
    let n: int = token.len() as int;
    assert(raw.subrange(0, start.len() as int) =~= start);
    assert(!start.contains('\r')) by {
        if start.contains('\r') {
            let k: int = choose|k: int| 0 <= k < start.len() && start[k] == '\r';
            if k < token.len() {
                assert(!is_whitespace(token[k]));
            }
        }
    }
    lemma_first_line_keeps_start(raw, start);
    let line = head_lines(raw)[0];
    assert(line.subrange(0, n + 1)[n] == start[n]);
    assert(line.take(n) =~= token) by {
        assert forall|k: int| 0 <= k < n implies line.take(n)[k] == token[k] by {
            assert(line.subrange(0, n + 1)[k] == start[k]);
        }
    }
    lemma_field_len(line, n);
}

/// A line of the form name, `": "`, value, whose name holds no `": "`, is cut
/// into that name and that value.
pub proof fn lemma_header_line(name: Seq<char>, value: Seq<char>)
    requires
        !occurs_in(name, header_separator()),
    ensures
        cut(name + header_separator() + value, header_separator()) == Some((name, value)),
{
    let sep = header_separator();
    let line = name + sep + value;
    let n: int = name.len() as int;
    assert(line.subrange(n, n + 2) =~= sep);
    assert forall|j: int| 0 <= j < n implies !occurs_at(line, sep, j) by {
        if occurs_at(line, sep, j) {
            assert(line.subrange(j, j + 2)[0] == ':');
            assert(line.subrange(j, j + 2)[1] == ' ');
            if j + 1 < n {
                assert(name.subrange(j, j + 2) =~= sep);
                assert(occurs_at(name, sep, j));
            }
        }
    }
    assert(first_occurrence(line, sep, n));
    lemma_leftmost_at(line, sep, n);
    assert(line.subrange(0, n) =~= name);
    assert(line.subrange(n + 2, line.len() as int) =~= value);
}

/// Whether a header line gives a value to `name`.
pub open spec fn sets_header(line: Seq<char>, name: Seq<char>) -> bool {
    cut(line, header_separator()) matches Some((n, _)) && n == name
}

/// A header line that gives a value to a name decides the header of that
/// name, unless a later line gives it another.
pub proof fn lemma_header_is_kept(
    base: Map<Seq<char>, Seq<char>>,
    lines: Seq<Seq<char>>,
    i: int,
    name: Seq<char>,
    value: Seq<char>,
)
    requires
        0 <= i < lines.len(),
        cut(lines[i], header_separator()) == Some((name, value)),
        forall|j: int| i < j < lines.len() ==> !sets_header(#[trigger] lines[j], name),
    ensures
        with_headers(base, lines).contains_key(name),
        with_headers(base, lines)[name] == value,
    decreases lines.len(),
{
    if i < lines.len() - 1 {
        let earlier = lines.drop_last();
        assert(!sets_header(lines[lines.len() - 1], name));
        assert forall|j: int| i < j < earlier.len() implies !sets_header(
            #[trigger] earlier[j],
            name,
        ) by {
            assert(earlier[j] == lines[j]);
        }
        lemma_header_is_kept(base, earlier, i, name, value);
    }
}

/// Every header comes from the headers held before or from a line that gives
/// it a value: a line without `": "` adds none.
pub proof fn lemma_headers_come_from_lines(
    base: Map<Seq<char>, Seq<char>>,
    lines: Seq<Seq<char>>,
    name: Seq<char>,
)
    requires
        with_headers(base, lines).contains_key(name),
    ensures
        base.contains_key(name) || exists|i: int|
            0 <= i < lines.len() && sets_header(#[trigger] lines[i], name),
    decreases lines.len(),
{
    if lines.len() > 0 {
        let earlier = lines.drop_last();
        if sets_header(lines[lines.len() - 1], name) {
        } else {
            lemma_headers_come_from_lines(base, earlier, name);
            if !base.contains_key(name) {
                let i: int = choose|i: int| 0 <= i < earlier.len() && sets_header(#[trigger] earlier[i], name);
                assert(sets_header(lines[i], name));
            }
        }
    }
}

/// A line without `": "` among the header lines changes nothing: the headers
/// are those of the lines without it.
pub proof fn lemma_line_without_separator(
    base: Map<Seq<char>, Seq<char>>,
    lines: Seq<Seq<char>>,
    i: int,
)
    requires
        0 <= i < lines.len(),
        !occurs_in(lines[i], header_separator()),
    ensures
        with_headers(base, lines) == with_headers(base, lines.remove(i)),
    decreases lines.len(),
{
    lemma_leftmost_is_first(lines[i], header_separator());
    if i == lines.len() - 1 {
        assert(lines.remove(i) =~= lines.drop_last());
    } else {
        assert(lines.remove(i).drop_last() =~= lines.drop_last().remove(i));
        assert(lines.remove(i).last() == lines.last());
        lemma_line_without_separator(base, lines.drop_last(), i);
    }
}

/// A header line of a request of the form name, `": "`, value, whose name
/// holds no `": "`, gives the request the header name with that value,
/// unless a later line gives the name another value.
pub proof fn lemma_header_of_request(raw: Seq<char>, i: int, name: Seq<char>, value: Seq<char>)
    requires
        1 <= i < head_lines(raw).len(),
        head_lines(raw)[i] == name + header_separator() + value,
        !occurs_in(name, header_separator()),
        forall|j: int|
            i < j < head_lines(raw).len() ==> !sets_header(#[trigger] head_lines(raw)[j], name),
    ensures
        parsed(raw).headers.contains_key(name),
        parsed(raw).headers[name] == value,
{
    let lines = head_lines(raw).skip(1);
    lemma_header_line(name, value);
    assert(lines[i - 1] == head_lines(raw)[i]);
    assert forall|j: int| i - 1 < j < lines.len() implies !sets_header(#[trigger] lines[j], name) by {
        assert(lines[j] == head_lines(raw)[j + 1]);
    }
    lemma_header_is_kept(Map::empty(), lines, i - 1, name, value);
}

} // verus!
