//! Compiled routes: a template with the expression that the engine compiled
//! from its pattern, matching of paths, and the parameters of a match.

use regex::Regex;
use vstd::hash_map::StringHashMap;
use vstd::prelude::*;

use crate::engine::{
    capture_each, captured, opt_texts, regex_accepts, regex_compiled, regex_matches, regex_source,
};
use crate::template::{
    build_pattern, declarations, declared_by, has_duplicate_names, names, route_pattern,
    Declaration, Parameter, TypeClass,
};
use crate::text::{occurs_in, value_texts};

verus! {

/// Why a template cannot be compiled.
#[derive(Clone, Copy, Debug, PartialEq, Eq, Structural)]
pub enum PatternError {
    /// Two segments declare a parameter of the same name.
    DuplicateParameter,
    /// The engine refuses the pattern that the template amounts to.
    Unsupported,
}

/// Why a template does not compile, or `None` where it does: duplicate
/// parameter names come first, then the engine's verdict on the pattern.
pub open spec fn refusal(template: Seq<char>) -> Option<PatternError> {
    if !names(declarations(template)).no_duplicates() {
        Some(PatternError::DuplicateParameter)
    } else if !regex_accepts(route_pattern(template)) {
        Some(PatternError::Unsupported)
    } else {
        None
    }
}

/// The map that binds each name to the text found for it: the name at index
/// `i` goes with the entry of `found` at index `i`. A name whose entry is
/// missing or `None` is not bound; of two equal names the later one counts.
pub open spec fn bindings(names: Seq<Seq<char>>, found: Seq<Option<Seq<char>>>) -> Map<
    Seq<char>,
    Seq<char>,
>
    decreases names.len(),
{
    if names.len() == 0 {
        Map::empty()
    } else {
        let rest = bindings(names.drop_last(), found);
        let i: int = names.len() - 1;
        if i < found.len() && found[i] is Some {
            rest.insert(names.last(), found[i]->0)
        } else {
            rest
        }
    }
}

/// The parameters of a successful match: the declared names, each with the
/// text that was found for it in the path.
pub struct MatchResult {
    values: StringHashMap<String>,
}

impl View for MatchResult {
    type V = Map<Seq<char>, Seq<char>>;

    closed spec fn view(&self) -> Map<Seq<char>, Seq<char>> {
        value_texts(self.values@)
    }
}

impl MatchResult {
    /// The text found for the parameter of the given name, if it is bound.
    pub fn get(&self, name: &str) -> (r: Option<&String>)
        ensures
            match r {
                Some(value) => self@.contains_key(name@) && value@ == self@[name@],
                None => !self@.contains_key(name@),
            },
    {
        self.values.get(name)
    }

    /// The number of bound parameters.
    pub fn len(&self) -> (n: usize)
        ensures
            n == self@.len(),
    {
        assert(self@.dom() =~= self.values@.dom());
        self.values.len()
    }

    /// Whether no parameter is bound.
    pub fn is_empty(&self) -> (b: bool)
        ensures
            b == (self@.len() == 0),
    {
        self.len() == 0
    }
}

/// Binds the name of each parameter to the text found for it.
pub fn bind_parameters(params: &Vec<Parameter>, found: &Vec<Option<String>>) -> (m: MatchResult)
    ensures
        m@ == bindings(names(declared_by(params@)), opt_texts(found@)),
{
    let ghost all = names(declared_by(params@));
    let ghost texts = opt_texts(found@);
    let mut values: StringHashMap<String> = StringHashMap::new();
    let mut i: usize = 0;
    proof {
        assert(all.take(0) =~= Seq::empty());
        assert(value_texts(values@) =~= bindings(all.take(0), texts));
    }
    while i < params.len()
        invariant
            i <= params.len(),
            all == names(declared_by(params@)),
            texts == opt_texts(found@),
            value_texts(values@) == bindings(all.take(i as int), texts),
        decreases params.len() - i,
    {
        let ghost before = values@;
        proof {
            assert(all.take(i + 1).drop_last() =~= all.take(i as int));
            assert(all.take(i + 1).last() == params[i as int].name@);
        }
        if i < found.len() {
            match &found[i] {
                Some(value) => {
                    values.insert(params[i].name.clone(), value.clone());
                    assert(value_texts(values@) =~= value_texts(before).insert(
                        params[i as int].name@,
                        value@,
                    ));
                },
                None => {},
            }
        }
        i += 1;
    }
    proof {
        assert(all.take(params.len() as int) =~= all);
    }
    MatchResult { values }
}

/// A compiled route: a template together with the expression that the
/// engine compiled from its pattern and the parameters that it declares.
#[derive(Debug)]
pub struct Route {
    pathdef: String,
    matcher: Regex,
    params: Vec<Parameter>,
}

impl Route {
    /// The matcher is what the engine compiles from the template's pattern,
    /// the parameters are those that the template declares, and no two have
    /// the same name.
    #[verifier::type_invariant]
    spec fn well_formed(self) -> bool {
        &&& regex_compiled(route_pattern(self.pathdef@)) == Some(self.matcher)
        &&& regex_source(self.matcher) == route_pattern(self.pathdef@)
        &&& declared_by(self.params@) == declarations(self.pathdef@)
        &&& names(declarations(self.pathdef@)).no_duplicates()
    }

    /// The template that the route was compiled from.
    pub closed spec fn template(&self) -> Seq<char> {
        self.pathdef@
    }

    /// Whether the route matches a path: the engine's answer for the
    /// template's pattern.
    pub open spec fn accepts(&self, path: Seq<char>) -> bool {
        regex_matches(route_pattern(self.template()), path)
    }

    /// What the engine finds in a path for each declared parameter, in the
    /// order of the declarations.
    pub open spec fn finds(&self, path: Seq<char>) -> Seq<Option<Seq<char>>> {
        captured(route_pattern(self.template()), path, names(declarations(self.template())))
    }

    /// What matching a path gives: nothing where the route does not match,
    /// else the map that binds the declared names to what the engine finds
    /// for them.
    pub open spec fn outcome(&self, path: Seq<char>) -> Option<Map<Seq<char>, Seq<char>>> {
        if self.accepts(path) {
            Some(bindings(names(declarations(self.template())), self.finds(path)))
        } else {
            None
        }
    }

    /// Compiles a template. It fails where two parameters share a name and
    /// where the engine refuses the pattern, and in no other case.
    pub fn new(path: &str) -> (r: Result<Route, PatternError>)
        ensures
            match r {
                Ok(route) => refusal(path@) is None && route.template() == path@,
                Err(e) => refusal(path@) == Some(e),
            },
    {
        let (pattern, params) = build_pattern(path);
        if has_duplicate_names(&params) {
            return Err(PatternError::DuplicateParameter);
        }
        let compiled = Regex::new(pattern.as_str());
        Route::assemble(path.to_owned(), params, compiled)
    }

    /// Makes the route for a template from its parameters and from what the
    /// engine returned for its pattern.
    pub fn assemble(
        pathdef: String,
        params: Vec<Parameter>,
        compiled: Result<Regex, regex::Error>,
    ) -> (r: Result<Route, PatternError>)
        requires
            declared_by(params@) == declarations(pathdef@),
            names(declarations(pathdef@)).no_duplicates(),
            match compiled {
                Ok(re) => regex_compiled(route_pattern(pathdef@)) == Some(re) && regex_source(re)
                    == route_pattern(pathdef@),
                Err(_) => regex_compiled(route_pattern(pathdef@)) is None,
            },
        ensures
            match r {
                Ok(route) => compiled is Ok && route.template() == pathdef@,
                Err(e) => compiled is Err && e == PatternError::Unsupported,
            },
    {
        match compiled {
            Ok(matcher) => Ok(Route { pathdef, matcher, params }),
            Err(_) => Err(PatternError::Unsupported),
        }
    }

    /// The template that the route was compiled from.
    pub fn pathdef(&self) -> (t: &str)
        ensures
            t@ == self.template(),
    {
        self.pathdef.as_str()
    }

    /// The pattern that the engine compiled for the route.
    pub fn pattern(&self) -> (p: &str)
        ensures
            p@ == route_pattern(self.template()),
    {
        proof {
            use_type_invariant(self);
        }
        self.matcher.as_str()
    }

    /// The parameters that the template declares, in the order of their
    /// segments. No two of them have the same name.
    pub fn params(&self) -> (params: &Vec<Parameter>)
        ensures
            declared_by(params@) == declarations(self.template()),
            names(declarations(self.template())).no_duplicates(),
    {
        proof {
            use_type_invariant(self);
        }
        &self.params
    }

    /// The class of the parameter of the given name, if the template
    /// declares one.
    pub fn type_class(&self, name: &str) -> (r: Option<TypeClass>)
        ensures
            match r {
                Some(class) => declarations(self.template()).contains(
                    Declaration { name: name@, class },
                ),
                None => !names(declarations(self.template())).contains(name@),
            },
    {
        proof {
            use_type_invariant(self);
        }
        let wanted = name.to_owned();
        let ghost decls = declarations(self.template());
        let mut i: usize = 0;
        while i < self.params.len()
            invariant
                i <= self.params.len(),
                wanted@ == name@,
                decls == declarations(self.template()),
                decls == declared_by(self.params@),
                forall|k: int| 0 <= k < i ==> names(decls)[k] != name@,
            decreases self.params.len() - i,
        {
            if self.params[i].name == wanted {
                assert(decls[i as int] == Declaration { name: name@, class: self.params[i as int].class });
                return Some(self.params[i].class);
            }
            i += 1;
        }
        None
    }

    /// Whether the route matches the path.
    pub fn is_match(&self, path: &str) -> (b: bool)
        ensures
            b == self.accepts(path@),
    {
        proof {
            use_type_invariant(self);
        }
        self.matcher.is_match(path)
    }

    /// Matches the path and, on success, binds each declared parameter to the
    /// text that the engine found for it. Every bound text is a part of the
    /// path, as it stands there.
    pub fn parse(&self, path: &str) -> (r: Option<MatchResult>)
        ensures
            match r {
                Some(m) => self.outcome(path@) == Some(m@),
                None => self.outcome(path@) is None,
            },
            r matches Some(m) ==> forall|name: Seq<char>|
                m@.contains_key(name) ==> occurs_in(path@, #[trigger] m@[name]),
    {
        proof {
            use_type_invariant(self);
        }
        if self.matcher.is_match(path) {
            let found = capture_each(&self.matcher, path, &self.params);
            let m = bind_parameters(&self.params, &found);
            proof {
                assert(opt_texts(found@) =~= self.finds(path@));
                assert forall|name: Seq<char>| m@.contains_key(name) implies occurs_in(
                    path@,
                    #[trigger] m@[name],
                ) by {
                    lemma_bindings_values(
                        names(declared_by(self.params@)),
                        opt_texts(found@),
                        name,
                    );
                    let i: int = choose|i: int|
                        0 <= i < opt_texts(found@).len() && opt_texts(found@)[i] == Some(
                            m@[name],
                        );
                    assert(found@[i] is Some);
                }
            }
            Some(m)
        } else {
            None
        }
    }
}

/// Only names from the list are bound.
pub proof fn lemma_bindings_domain(
    names: Seq<Seq<char>>,
    found: Seq<Option<Seq<char>>>,
    name: Seq<char>,
)
    requires
        bindings(names, found).contains_key(name),
    ensures
        names.contains(name),
    decreases names.len(),
{
    if names.len() > 0 {
        if name == names.last() {
            assert(names[names.len() - 1] == name);
        } else {
            lemma_bindings_domain(names.drop_last(), found, name);
            let k: int = choose|k: int| 0 <= k < names.drop_last().len() && names.drop_last()[k] == name;
            assert(names[k] == name);
        }
    }
}

/// Every bound text is one of the texts that were found.
pub proof fn lemma_bindings_values(
    names: Seq<Seq<char>>,
    found: Seq<Option<Seq<char>>>,
    name: Seq<char>,
)
    requires
        bindings(names, found).contains_key(name),
    ensures
        exists|i: int|
            0 <= i < found.len() && #[trigger] found[i] == Some(bindings(names, found)[name]),
    decreases names.len(),
{
    if names.len() > 0 {
        let i: int = names.len() - 1;
        if i < found.len() && found[i] is Some && name == names.last() {
            assert(found[i] == Some(bindings(names, found)[name]));
        } else {
            lemma_bindings_values(names.drop_last(), found, name);
        }
    }
}

/// Among distinct names each one is bound to the text found at its own
/// index, and is not bound where nothing was found there.
pub proof fn lemma_bindings_of_distinct_names(
    names: Seq<Seq<char>>,
    found: Seq<Option<Seq<char>>>,
    i: int,
)
    requires
        names.no_duplicates(),
        0 <= i < names.len(),
    ensures
        i < found.len() && found[i] is Some ==> bindings(names, found).contains_key(names[i])
            && bindings(names, found)[names[i]] == found[i]->0,
        !(i < found.len() && found[i] is Some) ==> !bindings(names, found).contains_key(names[i]),
    decreases names.len(),
{
    let earlier = names.drop_last();
    if i < names.len() - 1 {
        assert(names[i] != names[names.len() - 1]);
        assert(earlier[i] == names[i]);
        lemma_bindings_of_distinct_names(earlier, found, i);
    } else {
        if bindings(earlier, found).contains_key(names[i]) {
            lemma_bindings_domain(earlier, found, names[i]);
            let k: int = choose|k: int| 0 <= k < earlier.len() && earlier[k] == names[i];
            assert(names[k] == names[i]);
        }
    }
}

/// `is_match` and `parse` agree: a route matches a path exactly when
/// matching it gives bindings.
pub proof fn lemma_match_agrees_with_outcome(route: Route, path: Seq<char>)
    ensures
        route.accepts(path) <==> route.outcome(path) is Some,
{
}

/// Matching keeps no state: what a route answers for a path is decided by
/// its template and the path. Routes of one template agree on every path,
/// and so does one route with itself, however often it is asked.
pub proof fn lemma_matching_is_repeatable(first: Route, second: Route, path: Seq<char>)
    requires
        first.template() == second.template(),
    ensures
        first.accepts(path) == second.accepts(path),
        first.outcome(path) == second.outcome(path),
{
}

/// Where the declared names are distinct, as they are in every compiled
/// route, a successful match binds each declared name to what the engine
/// found for it and binds no other name.
pub proof fn lemma_outcome_of_distinct_names(route: Route, path: Seq<char>)
    requires
        names(declarations(route.template())).no_duplicates(),
        route.accepts(path),
    ensures
        forall|i: int|
            #![trigger route.finds(path)[i]]
            0 <= i < declarations(route.template()).len() ==> {
                let name = declarations(route.template())[i].name;
                match route.finds(path)[i] {
                    Some(text) => route.outcome(path)->0.contains_key(name) && route.outcome(
                        path,
                    )->0[name] == text,
                    None => !route.outcome(path)->0.contains_key(name),
                }
            },
        forall|name: Seq<char>| #[trigger]
            route.outcome(path)->0.contains_key(name) ==> names(
                declarations(route.template()),
            ).contains(name),
{
    let all = names(declarations(route.template()));
    let found = route.finds(path);
    assert forall|i: int|
        #![trigger route.finds(path)[i]]
        0 <= i < declarations(route.template()).len() implies {
        let name = declarations(route.template())[i].name;
        match route.finds(path)[i] {
            Some(text) => route.outcome(path)->0.contains_key(name) && route.outcome(path)->0[name]
                == text,
            None => !route.outcome(path)->0.contains_key(name),
        }
    } by {
        lemma_bindings_of_distinct_names(all, found, i);
        assert(all[i] == declarations(route.template())[i].name);
    }
    assert forall|name: Seq<char>| #[trigger]
        route.outcome(path)->0.contains_key(name) implies all.contains(name) by {
        lemma_bindings_domain(all, found, name);
    }
}

} // verus!
