//! Requests as text: how a request is written out, and the law that parsing
//! reads it back.

use vstd::prelude::*;

use crate::request::{
    blank_line, body_of, crlf, head_lines, head_of, header_separator, is_field, is_whitespace,
    lemma_field_len, lemma_header_line, method_of, parsed, space, with_headers, RequestView,
};
use crate::text::{
    first_occurrence, leftmost, lemma_leftmost_after, lemma_leftmost_at, lemma_leftmost_none,
    occurs_at, occurs_in, pieces,
};

verus! {

/// The lines of a head put together: a line end between each two.
pub open spec fn joined(lines: Seq<Seq<char>>) -> Seq<char>
    decreases lines.len(),
{
    if lines.len() == 0 {
        Seq::empty()
    } else if lines.len() == 1 {
        lines[0]
    } else {
        lines[0] + crlf() + joined(lines.drop_first())
    }
}

/// The header lines that spell the given fields, each a name and a value.
pub open spec fn field_lines(fields: Seq<(Seq<char>, Seq<char>)>) -> Seq<Seq<char>> {
    fields.map_values(|f: (Seq<char>, Seq<char>)| f.0 + header_separator() + f.1)
}

/// The headers that the given fields amount to. A later field replaces an
/// earlier one of the same name.
pub open spec fn fields_map(fields: Seq<(Seq<char>, Seq<char>)>) -> Map<Seq<char>, Seq<char>>
    decreases fields.len(),
{
    if fields.len() == 0 {
        Map::empty()
    } else {
        fields_map(fields.drop_last()).insert(fields.last().0, fields.last().1)
    }
}

/// The text of a request: the request line of method token and path, the
/// header lines of the fields, a blank line, the body.
pub open spec fn rendered(
    token: Seq<char>,
    path: Seq<char>,
    fields: Seq<(Seq<char>, Seq<char>)>,
    body: Seq<char>,
) -> Seq<char> {
    joined(seq![token + space() + path] + field_lines(fields)) + blank_line() + body
}

/// What a text may hold to stand in one line of a head: no `'\r'`.
pub open spec fn fits_line(s: Seq<char>) -> bool {
    !s.contains('\r')
}

/// Lines without `'\r'` that were joined come apart again as they were.
proof fn lemma_pieces_of_joined(lines: Seq<Seq<char>>)
    requires
        lines.len() >= 1,
        forall|i: int| 0 <= i < lines.len() ==> fits_line(#[trigger] lines[i]),
    ensures
        pieces(joined(lines), crlf()) == lines,
    decreases lines.len(),
{
    let first = lines[0];
    assert(fits_line(first));
    if lines.len() == 1 {
        lemma_leftmost_none(first, crlf());
        assert(seq![first] =~= lines);
    } else {
        let others = lines.drop_first();
        let s = joined(lines);
        let n: int = first.len() as int;
        assert(s.subrange(n, n + 2) =~= crlf());
        assert forall|j: int| 0 <= j < n implies !occurs_at(s, crlf(), j) by {
            if occurs_at(s, crlf(), j) {
                assert(s.subrange(j, j + 2)[0] == '\r');
                assert(first.contains(first[j]));
            }
        }
        assert(first_occurrence(s, crlf(), n));
        lemma_leftmost_at(s, crlf(), n);
        assert(s.subrange(0, n) =~= first);
        assert(s.subrange(n + 2, s.len() as int) =~= joined(others));
        assert forall|i: int| 0 <= i < others.len() implies fits_line(#[trigger] others[i]) by {
            assert(others[i] == lines[i + 1]);
        }
        lemma_pieces_of_joined(others);
        assert(seq![first] + others =~= lines);
    }
}

/// Joined lines begin with the first of them.
proof fn lemma_joined_begins(lines: Seq<Seq<char>>)
    requires
        lines.len() >= 1,
    ensures
        joined(lines).len() >= lines[0].len(),
        joined(lines).subrange(0, lines[0].len() as int) == lines[0],
{
    assert(joined(lines).subrange(0, lines[0].len() as int) =~= lines[0]);
}

/// Behind joined lines that are not empty and hold no `'\r'`, a blank line
/// is the first blank line of the text.
proof fn lemma_blank_line_after_joined(lines: Seq<Seq<char>>, tail: Seq<char>)
    requires
        lines.len() >= 1,
        forall|i: int|
            0 <= i < lines.len() ==> fits_line(#[trigger] lines[i]) && lines[i].len() > 0,
    ensures
        leftmost(joined(lines) + blank_line() + tail, blank_line()) == Some(
            joined(lines).len() as int,
        ),
    decreases lines.len(),
{
    let first = lines[0];
    let n: int = first.len() as int;
    let s = joined(lines) + blank_line() + tail;
    assert(fits_line(first));
    lemma_joined_begins(lines);
    assert forall|j: int| 0 <= j < n implies !occurs_at(s, blank_line(), j) by {
        if occurs_at(s, blank_line(), j) {
            assert(s.subrange(j, j + 4)[0] == '\r');
            assert(joined(lines).subrange(0, n)[j] == first[j]);
            assert(first.contains(first[j]));
        }
    }
    if lines.len() == 1 {
        assert(s.subrange(n, n + 4) =~= blank_line());
        assert(first_occurrence(s, blank_line(), n));
        lemma_leftmost_at(s, blank_line(), n);
    } else {
        let others = lines.drop_first();
        let rest = joined(others) + blank_line() + tail;
        let k: int = n + 2;
        assert(fits_line(others[0]) && others[0].len() > 0) by {
            assert(others[0] == lines[1]);
        }
        lemma_joined_begins(others);
        assert(s =~= first + crlf() + rest);
        assert(rest[0] != '\r') by {
            assert(joined(others).subrange(0, others[0].len() as int)[0] == others[0][0]);
            assert(others[0].contains(others[0][0]));
        }
        assert forall|j: int| 0 <= j < k implies !occurs_at(s, blank_line(), j) by {
            if occurs_at(s, blank_line(), j) {
                assert(s.subrange(j, j + 4)[0] == '\r');
                assert(s.subrange(j, j + 4)[2] == '\r');
                if j == n {
                    assert(s[n + 2] == rest[0]);
                }
            }
        }
        lemma_leftmost_after(s, blank_line(), k);
        assert(s.skip(k) =~= rest);
        assert forall|i: int| 0 <= i < others.len() implies fits_line(#[trigger] others[i])
            && others[i].len() > 0 by {
            assert(others[i] == lines[i + 1]);
        }
        lemma_blank_line_after_joined(others, tail);
    }
}

/// Header lines that spell fields give the headers of those fields.
proof fn lemma_headers_of_fields(fields: Seq<(Seq<char>, Seq<char>)>)
    requires
        forall|i: int|
            0 <= i < fields.len() ==> !occurs_in((#[trigger] fields[i]).0, header_separator()),
    ensures
        with_headers(Map::empty(), field_lines(fields)) == fields_map(fields),
    decreases fields.len(),
{
    if fields.len() > 0 {
        let earlier = fields.drop_last();
        assert(field_lines(fields).drop_last() =~= field_lines(earlier));
        assert forall|i: int| 0 <= i < earlier.len() implies !occurs_in(
            (#[trigger] earlier[i]).0,
            header_separator(),
        ) by {
            assert(earlier[i] == fields[i]);
        }
        lemma_headers_of_fields(earlier);
        let last = fields[fields.len() - 1];
        assert(!occurs_in(last.0, header_separator()));
        lemma_header_line(last.0, last.1);
    }
}

/// A text put together from parts without `'\r'` holds none.
proof fn lemma_fits_line_concat(a: Seq<char>, b: Seq<char>)
    requires
        fits_line(a),
        fits_line(b),
    ensures
        fits_line(a + b),
{
    if (a + b).contains('\r') {
        let k: int = choose|k: int| 0 <= k < (a + b).len() && (a + b)[k] == '\r';
        if k < a.len() {
            assert(a.contains(a[k]));
        } else {
            assert(b.contains(b[k - a.len()]));
        }
    }
}

/// Parsing undoes rendering. A request line of a method token and a path,
/// header lines of names and values, a blank line and a body are read back
/// as that method, that path, those headers and that body, provided that
/// token and path hold no white space, that names and values hold no `'\r'`,
/// and that no name holds `": "`. The body may hold anything.
pub proof fn lemma_parse_inverts_render(
    token: Seq<char>,
    path: Seq<char>,
    fields: Seq<(Seq<char>, Seq<char>)>,
    body: Seq<char>,
)
    requires
        is_field(token),
        is_field(path),
        forall|i: int|
            0 <= i < fields.len() ==> {
                &&& !occurs_in((#[trigger] fields[i]).0, header_separator())
                &&& fits_line(fields[i].0)
                &&& fits_line(fields[i].1)
            },
    ensures
        parsed(rendered(token, path, fields, body)) == (RequestView {
            method: method_of(token),
            path: path,
            headers: fields_map(fields),
            payload: body,
        }),
{
    let first = token + space() + path;
    let lines = seq![first] + field_lines(fields);
    let head = joined(lines);
    let raw = rendered(token, path, fields, body);
    assert(fits_line(token)) by {
        if token.contains('\r') {
            let k: int = choose|k: int| 0 <= k < token.len() && token[k] == '\r';
            assert(!is_whitespace(token[k]));
        }
    }
    assert(fits_line(path)) by {
        if path.contains('\r') {
            let k: int = choose|k: int| 0 <= k < path.len() && path[k] == '\r';
            assert(!is_whitespace(path[k]));
        }
    }
    assert(fits_line(space())) by {
        if space().contains('\r') {
            let k: int = choose|k: int| 0 <= k < space().len() && space()[k] == '\r';
        }
    }
    assert(fits_line(header_separator())) by {
        if header_separator().contains('\r') {
            let k: int = choose|k: int|
                0 <= k < header_separator().len() && header_separator()[k] == '\r';
        }
    }
    lemma_fits_line_concat(token, space());
    lemma_fits_line_concat(token + space(), path);
    assert forall|i: int| 0 <= i < lines.len() implies fits_line(#[trigger] lines[i])
        && lines[i].len() > 0 by {
        if i > 0 {
            let f = fields[i - 1];
            assert(lines[i] == f.0 + header_separator() + f.1);
            lemma_fits_line_concat(f.0, header_separator());
            lemma_fits_line_concat(f.0 + header_separator(), f.1);
        }
    }
    lemma_blank_line_after_joined(lines, body);
    let n: int = head.len() as int;
    assert(raw.subrange(0, n) =~= head);
    assert(raw.subrange(n + 4, raw.len() as int) =~= body);
    assert(head_of(raw) == head);
    assert(body_of(raw) == body);
    lemma_pieces_of_joined(lines);
    assert(head_lines(raw) == lines);
    assert(lines.skip(1) =~= field_lines(fields));
    let n: int = token.len() as int;
    assert(first.take(n) =~= token);
    assert(first[n] == ' ');
    lemma_field_len(first, n);
    assert(first.skip(n + 1) =~= path);
    assert(path.take(path.len() as int) =~= path);
    lemma_field_len(path, path.len() as int);
    assert forall|i: int| 0 <= i < fields.len() implies !occurs_in(
        (#[trigger] fields[i]).0,
        header_separator(),
    ) by {}
    lemma_headers_of_fields(fields);
}

} // verus!
