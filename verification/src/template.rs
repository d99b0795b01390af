//! Route templates: the grammar of their segments and the pattern that a
//! template compiles to.
//!
//! A template such as `/person/<int:person_id>` is split on `/` into
//! segments. A segment is either a parameter declaration or literal text.
//! The template as a whole is turned into one anchored pattern for the
//! regular-expression engine.

use vstd::hash_map::StringHashMap;
use vstd::prelude::*;
use vstd::slice::slice_subrange;
use vstd::string::StringExecFns;

use crate::engine::escaped;
use crate::text::{
    first_occurrence, leftmost, lemma_leftmost_at, lemma_leftmost_is_first, lemma_leftmost_none,
    matches_at, occurs_at, pieces, split, string_of, texts, to_chars,
};

verus! {

/// The shape of the values that a parameter accepts.
#[derive(Clone, Copy, Debug, PartialEq, Eq, Structural)]
pub enum TypeClass {
    /// One or more characters other than `/`.
    Str,
    /// One or more decimal digits.
    Int,
}

/// A parameter that a template declares.
#[derive(Debug)]
pub struct Parameter {
    pub name: String,
    pub class: TypeClass,
}

/// A parameter declaration as a mathematical value.
pub struct Declaration {
    pub name: Seq<char>,
    pub class: TypeClass,
}

impl View for Parameter {
    type V = Declaration;

    open spec fn view(&self) -> Declaration {
        Declaration { name: self.name@, class: self.class }
    }
}

/// A character that may begin a parameter name.
pub open spec fn is_name_start(c: char) -> bool {
    ('a' <= c && c <= 'z') || ('A' <= c && c <= 'Z') || c == '_'
}

/// A character that may continue a parameter name.
pub open spec fn is_name_char(c: char) -> bool {
    is_name_start(c) || ('0' <= c && c <= '9')
}

/// A parameter name: a letter or underscore, then letters, digits and
/// underscores.
pub open spec fn is_name(s: Seq<char>) -> bool {
    &&& s.len() > 0
    &&& is_name_start(s[0])
    &&& forall|i: int| 0 <= i < s.len() ==> is_name_char(#[trigger] s[i])
}

/// The prefix that declares a parameter of digits.
pub open spec fn int_prefix() -> Seq<char> {
    seq!['i', 'n', 't', ':']
}

/// The prefix that declares a parameter of arbitrary text.
pub open spec fn str_prefix() -> Seq<char> {
    seq!['s', 't', 'r', ':']
}

/// What a segment declares, if it is a parameter declaration: a name between
/// `<` and `>`, with `int:` or `str:` before the name or nothing. Without a
/// prefix the class is `Str`. Any other segment is literal text.
pub open spec fn declaration(segment: Seq<char>) -> Option<Declaration> {
    if segment.len() >= 2 && segment.first() == '<' && segment.last() == '>' {
        let inner = segment.subrange(1, segment.len() - 1);
        if occurs_at(inner, int_prefix(), 0) && is_name(inner.skip(4)) {
            Some(Declaration { name: inner.skip(4), class: TypeClass::Int })
        } else if occurs_at(inner, str_prefix(), 0) && is_name(inner.skip(4)) {
            Some(Declaration { name: inner.skip(4), class: TypeClass::Str })
        } else if is_name(inner) {
            Some(Declaration { name: inner, class: TypeClass::Str })
        } else {
            None
        }
    } else {
        None
    }
}

fn name_start(c: char) -> (b: bool)
    ensures
        b == is_name_start(c),
{
    ('a' <= c && c <= 'z') || ('A' <= c && c <= 'Z') || c == '_'
}

fn name_char(c: char) -> (b: bool)
    ensures
        b == is_name_char(c),
{
    name_start(c) || ('0' <= c && c <= '9')
}

/// Whether the characters form a parameter name.
pub fn is_valid_name(s: &[char]) -> (b: bool)
    ensures
        b == is_name(s@),
{
    if s.len() == 0 || !name_start(s[0]) {
        return false;
    }
    let mut i: usize = 0;
    while i < s.len()
        invariant
            i <= s.len(),
            forall|k: int| 0 <= k < i ==> is_name_char(#[trigger] s@[k]),
        decreases s.len() - i,
    {
        if !name_char(s[i]) {
            return false;
        }
        i += 1;
    }
    true
}

/// Reads a segment as a parameter declaration: the name and the class that
/// it declares, or nothing where the segment is literal text.
pub fn classify<'a>(segment: &'a [char]) -> (r: Option<(&'a [char], TypeClass)>)
    ensures
        match r {
            Some((name, class)) => declaration(segment@) == Some(
                Declaration { name: name@, class },
            ),
            None => declaration(segment@) is None,
        },
{
    let n: usize = segment.len();
    if n < 2 || segment[0] != '<' || segment[n - 1] != '>' {
        return None;
    }
    let inner = slice_subrange(segment, 1, n - 1);
    let int_mark = vec!['i', 'n', 't', ':'];
    let str_mark = vec!['s', 't', 'r', ':'];
    assert(int_mark@ =~= int_prefix());
    assert(str_mark@ =~= str_prefix());
    if matches_at(inner, int_mark.as_slice(), 0) {
        let name = slice_subrange(inner, 4, inner.len());
        if is_valid_name(name) {
            return Some((name, TypeClass::Int));
        }
    }
    if matches_at(inner, str_mark.as_slice(), 0) {
        let name = slice_subrange(inner, 4, inner.len());
        if is_valid_name(name) {
            return Some((name, TypeClass::Str));
        }
    }
    if is_valid_name(inner) {
        Some((inner, TypeClass::Str))
    } else {
        None
    }
}

/// The separator of segments.
pub open spec fn slash() -> Seq<char> {
    seq!['/']
}

/// The segments of a template: what stands between its slashes, without the
/// empty pieces that leading, trailing and doubled slashes leave.
pub open spec fn segments(template: Seq<char>) -> Seq<Seq<char>> {
    pieces(template, slash()).filter(|s: Seq<char>| s.len() > 0)
}

/// The parameters that a template declares, in the order of their segments.
pub open spec fn declarations(template: Seq<char>) -> Seq<Declaration> {
    segments(template).filter_map(|s: Seq<char>| declaration(s))
}

/// The names of the given declarations, in order.
pub open spec fn names(decls: Seq<Declaration>) -> Seq<Seq<char>> {
    decls.map_values(|d: Declaration| d.name)
}

/// The pattern text that accepts the values of a class.
pub open spec fn class_pattern(class: TypeClass) -> Seq<char> {
    match class {
        TypeClass::Str => "(?:[^/])+"@,
        TypeClass::Int => "[0-9]+"@,
    }
}

/// The pattern text for one segment: a named group over the class's pattern
/// for a declaration, the escaped text for a literal.
pub open spec fn unit(segment: Seq<char>) -> Seq<char> {
    match declaration(segment) {
        Some(d) => "(?P<"@ + d.name + ">"@ + class_pattern(d.class) + ")"@,
        None => escaped(segment),
    }
}

/// The pattern text for a run of segments: each segment's unit behind a
/// slash.
pub open spec fn units(segs: Seq<Seq<char>>) -> Seq<char>
    decreases segs.len(),
{
    if segs.len() == 0 {
        Seq::empty()
    } else {
        units(segs.drop_last()) + slash() + unit(segs.last())
    }
}

/// The pattern that a template compiles to: anchored at the start, the units
/// of its segments, an optional final slash, anchored at the end.
pub open spec fn route_pattern(template: Seq<char>) -> Seq<char> {
    seq!['^'] + units(segments(template)) + "/?$"@
}

/// The declarations that the given parameters stand for.
pub open spec fn declared_by(params: Seq<Parameter>) -> Seq<Declaration> {
    params.map_values(|p: Parameter| p@)
}

/// Splits a template into its segments.
pub fn split_segments<'a>(template: &'a [char]) -> (segs: Vec<&'a [char]>)
    ensures
        texts(segs@) == segments(template@),
{
    let sep = vec!['/'];
    assert(sep@ =~= slash());
    let parts = split(template, sep.as_slice());
    let ghost keep = |s: Seq<char>| s.len() > 0;
    let mut segs: Vec<&'a [char]> = Vec::new();
    let mut i: usize = 0;
    assert(texts(parts@).take(0) =~= Seq::empty());
    assert(texts(segs@) =~= Seq::empty());
    while i < parts.len()
        invariant
            i <= parts.len(),
            keep == |s: Seq<char>| s.len() > 0,
            texts(segs@) == texts(parts@).take(i as int).filter(keep),
        decreases parts.len() - i,
    {
        let part = parts[i];
        let ghost before = segs@;
        proof {
            assert(texts(parts@).take(i + 1) =~= texts(parts@).take(i as int).push(part@));
            texts(parts@).take(i as int).lemma_filter_push(part@, keep);
        }
        if part.len() > 0 {
            segs.push(part);
            assert(texts(segs@) =~= texts(before).push(part@));
        }
        i += 1;
    }
    assert(texts(parts@).take(parts.len() as int) =~= texts(parts@));
    segs
}

/// The pattern text for the values of a class.
fn class_text(class: TypeClass) -> (s: &'static str)
    ensures
        s@ == class_pattern(class),
{
    match class {
        TypeClass::Str => "(?:[^/])+",
        TypeClass::Int => "[0-9]+",
    }
}

/// A sequence stays free of duplicates under `push` exactly when the new
/// element is not yet in it.
proof fn lemma_push_no_duplicates(s: Seq<Seq<char>>, x: Seq<char>)
    ensures
        s.push(x).no_duplicates() <==> s.no_duplicates() && !s.contains(x),
{
    let t = s.push(x);
    if s.no_duplicates() && !s.contains(x) {
        assert forall|i: int, j: int| 0 <= i < t.len() && 0 <= j < t.len() && i != j implies t[i]
            != t[j] by {
            if i < s.len() && j < s.len() {
                assert(s[i] != s[j]);
            } else if i < s.len() {
                assert(s.contains(s[i]));
            } else {
                assert(s.contains(s[j]));
            }
        }
    }
    if t.no_duplicates() {
        assert forall|i: int, j: int| 0 <= i < s.len() && 0 <= j < s.len() && i != j implies s[i]
            != s[j] by {
            assert(t[i] != t[j]);
        }
        if s.contains(x) {
            let i: int = choose|i: int| 0 <= i < s.len() && s[i] == x;
            assert(t[i] == t[s.len() as int]);
        }
    }
}

/// Builds from a template the pattern that it compiles to and lists the
/// parameters that it declares, in the order of their segments.
pub fn build_pattern(template: &str) -> (r: (String, Vec<Parameter>))
    ensures
        r.0@ == route_pattern(template@),
        declared_by(r.1@) == declarations(template@),
{
    let chars = to_chars(template);
    let segs = split_segments(chars.as_slice());
    let ghost all = texts(segs@);
    let ghost decl = |s: Seq<char>| declaration(s);
    let mut pattern = String::new();
    pattern.push('^');
    let mut params: Vec<Parameter> = Vec::new();
    let mut i: usize = 0;
    proof {
        assert(all.take(0) =~= Seq::empty());
        assert(pattern@ =~= seq!['^'] + units(all.take(0)));
        assert(declared_by(params@) =~= all.take(0).filter_map(decl));
    }
    while i < segs.len()
        invariant
            i <= segs.len(),
            all == texts(segs@),
            decl == |s: Seq<char>| declaration(s),
            pattern@ == seq!['^'] + units(all.take(i as int)),
            declared_by(params@) == all.take(i as int).filter_map(decl),
        decreases segs.len() - i,
    {
        let seg = segs[i];
        let ghost head = pattern@;
        let ghost known = params@;
        proof {
            assert(all.take(i + 1).drop_last() =~= all.take(i as int));
            assert(all.take(i + 1).last() == seg@);
            all.lemma_filter_map_take_succ(decl, i as int);
        }
        pattern.push('/');
        match classify(seg) {
            Some((name_chars, class)) => {
                let name = string_of(name_chars);
                pattern.append("(?P<");
                pattern.append(name.as_str());
                pattern.append(">");
                pattern.append(class_text(class));
                pattern.append(")");
                params.push(Parameter { name, class });
                proof {
                    assert(pattern@ =~= head + slash() + unit(seg@));
                    assert(declared_by(params@) =~= declared_by(known).push(
                        Declaration { name: name_chars@, class },
                    ));
                }
            },
            None => {
                let literal = string_of(seg);
                let quoted = regex::escape(literal.as_str());
                pattern.append(quoted.as_str());
                proof {
                    assert(pattern@ =~= head + slash() + unit(seg@));
                }
            },
        }
        proof {
            assert(pattern@ =~= seq!['^'] + units(all.take(i + 1)));
        }
        i += 1;
    }
    pattern.append("/?$");
    proof {
        assert(all.take(segs.len() as int) =~= all);
    }
    (pattern, params)
}

/// Whether two of the parameters have the same name.
pub fn has_duplicate_names(params: &Vec<Parameter>) -> (b: bool)
    ensures
        b == !names(declared_by(params@)).no_duplicates(),
{
    let ghost all = names(declared_by(params@));
    let mut seen: StringHashMap<()> = StringHashMap::new();
    let mut i: usize = 0;
    while i < params.len()
        invariant
            i <= params.len(),
            all == names(declared_by(params@)),
            all.take(i as int).no_duplicates(),
            forall|name: Seq<char>|
                seen@.contains_key(name) <==> all.take(i as int).contains(name),
        decreases params.len() - i,
    {
        let ghost earlier = all.take(i as int);
        let ghost current = all[i as int];
        proof {
            assert(all.take(i + 1) =~= earlier.push(current));
            lemma_push_no_duplicates(earlier, current);
        }
        if seen.contains_key(params[i].name.as_str()) {
            proof {
                let k: int = choose|k: int| 0 <= k < earlier.len() && earlier[k] == current;
                assert(all[k] == all[i as int]);
            }
            return true;
        }
        seen.insert(params[i].name.clone(), ());
        proof {
            assert forall|name: Seq<char>|
                seen@.contains_key(name) <==> earlier.push(current).contains(name) by {
                if earlier.contains(name) {
                    let k: int = choose|k: int| 0 <= k < earlier.len() && earlier[k] == name;
                    assert(earlier.push(current)[k] == name);
                }
                if name == current {
                    assert(earlier.push(current)[earlier.len() as int] == name);
                }
                if earlier.push(current).contains(name) {
                    let k: int = choose|k: int|
                        0 <= k < earlier.push(current).len() && earlier.push(current)[k] == name;
                    if k < earlier.len() {
                        assert(earlier[k] == name);
                    }
                }
            }
        }
        i += 1;
    }
    assert(all.take(params.len() as int) =~= all);
    false
}

/// Every parameter that a template declares comes from one of its segments
/// and has a name of the grammar: a letter or underscore, then letters,
/// digits and underscores.
pub proof fn lemma_declared_names(template: Seq<char>, i: int)
    requires
        0 <= i < declarations(template).len(),
    ensures
        is_name(declarations(template)[i].name),
        exists|segment: Seq<char>| #[trigger]
            segments(template).contains(segment) && declaration(segment) == Some(
                declarations(template)[i],
            ),
{
    let d = declarations(template)[i];
    let decl = |s: Seq<char>| declaration(s);
    assert(declarations(template).contains(d));
    segments(template).lemma_filter_map_contains(decl, d);
    let segment = choose|segment: Seq<char>| #[trigger]
        segments(template).contains(segment) && decl(segment) == Some(d);
    assert(declaration(segment) == Some(d));
}

/// A slash before a template adds no segment.
proof fn lemma_leading_slash(template: Seq<char>)
    ensures
        segments(slash() + template) == segments(template),
{
    let s = slash() + template;
    let keep = |s: Seq<char>| s.len() > 0;
    assert(s.subrange(0, 1) =~= slash());
    assert(first_occurrence(s, slash(), 0));
    lemma_leftmost_at(s, slash(), 0);
    assert(s.subrange(0, 0) =~= Seq::<char>::empty());
    assert(s.subrange(1, s.len() as int) =~= template);
    pieces(template, slash()).lemma_filter_prepend(Seq::<char>::empty(), keep);
    assert(Seq::<Seq<char>>::empty() + segments(template) =~= segments(template));
}

/// A slash behind a template adds no segment.
proof fn lemma_trailing_slash(template: Seq<char>)
    ensures
        segments(template + slash()) == segments(template),
    decreases template.len(),
{
    let s = template + slash();
    let n: int = template.len() as int;
    let keep = |s: Seq<char>| s.len() > 0;
    lemma_leftmost_is_first(template, slash());
    match leftmost(template, slash()) {
        Some(i) => {
            assert(occurs_at(template, slash(), i));
            assert(s.subrange(i, i + 1) =~= template.subrange(i, i + 1));
            assert forall|j: int| 0 <= j < i implies !occurs_at(s, slash(), j) by {
                assert(s.subrange(j, j + 1) =~= template.subrange(j, j + 1));
                assert(!occurs_at(template, slash(), j));
            }
            assert(first_occurrence(s, slash(), i));
            lemma_leftmost_at(s, slash(), i);
            let head = template.subrange(0, i);
            let rest = template.subrange(i + 1, n);
            assert(s.subrange(0, i) =~= head);
            assert(s.subrange(i + 1, s.len() as int) =~= rest + slash());
            lemma_trailing_slash(rest);
            pieces(rest + slash(), slash()).lemma_filter_prepend(head, keep);
            pieces(rest, slash()).lemma_filter_prepend(head, keep);
        },
        None => {
            assert(s.subrange(n, n + 1) =~= slash());
            assert forall|j: int| 0 <= j < n implies !occurs_at(s, slash(), j) by {
                assert(s.subrange(j, j + 1) =~= template.subrange(j, j + 1));
                assert(!occurs_at(template, slash(), j));
            }
            assert(first_occurrence(s, slash(), n));
            lemma_leftmost_at(s, slash(), n);
            let nothing = Seq::<char>::empty();
            assert(s.subrange(0, n) =~= template);
            assert(s.subrange(n + 1, s.len() as int) =~= nothing);
            assert(!nothing.contains(slash()[0]));
            lemma_leftmost_none(nothing, slash());
            assert(pieces(nothing, slash()) =~= seq![nothing]);
            assert(pieces(s, slash()) == seq![s.subrange(0, n)] + pieces(
                s.subrange(n + 1, s.len() as int),
                slash(),
            ));
            assert(pieces(s, slash()) =~= seq![template] + seq![nothing]);
            seq![nothing].lemma_filter_prepend(template, keep);
            Seq::<Seq<char>>::empty().lemma_filter_prepend(nothing, keep);
            Seq::<Seq<char>>::empty().lemma_filter_prepend(template, keep);
            assert(seq![nothing] + Seq::<Seq<char>>::empty() =~= seq![nothing]);
            assert(seq![template] + Seq::<Seq<char>>::empty() =~= seq![template]);
            assert(segments(s) =~= segments(template));
        },
    }
}

/// A slash at the start or at the end of a template changes neither the
/// pattern that it compiles to nor the parameters that it declares: with or
/// without it the route is the same.
pub proof fn lemma_outer_slashes(template: Seq<char>)
    ensures
        route_pattern(slash() + template) == route_pattern(template),
        route_pattern(template + slash()) == route_pattern(template),
        declarations(slash() + template) == declarations(template),
        declarations(template + slash()) == declarations(template),
{
    lemma_leading_slash(template);
    lemma_trailing_slash(template);
}

} // verus!
