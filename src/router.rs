use vstd::prelude::*;
use crate::pattern::{Token, PatternError, VariableIndex, compile, parse, augment, augment_pattern, find_name, names_view};
use crate::matcher::{Matcher, accepts, capture_texts};

verus! {

/// An HTTP request method.
#[derive(PartialEq, Eq, Structural, Clone, Copy, Debug)]
pub enum Method {
    Options,
    Get,
    Post,
    Put,
    Delete,
    Head,
    Trace,
    Connect,
    Patch,
}

/// A registered route: its method, its pattern with the format group, the compiled
/// matcher, the variable index and the handler.
pub struct Route<H> {
    pub path: String,
    pub method: Method,
    pub handler: H,
    pub variables: VariableIndex,
    pub matcher: Matcher,
}

/// The route that a request resolved to, with the captured values of its variables.
pub struct RouteResult<'a, H> {
    pub route: &'a Route<H>,
    params: Vec<String>,
}

/// The values for `n` variables from the captured texts; one that was not captured is empty.
pub open spec fn param_values(caps: Seq<Seq<char>>, n: int) -> Seq<Seq<char>> {
    Seq::new(n as nat, |k: int| if k < caps.len() { caps[k] } else { Seq::empty() })
}

/// Whether route `r` takes a request with this method and path.
pub open spec fn route_accepts<H>(r: Route<H>, method: Method, path: Seq<char>) -> bool {
    r.method == method && accepts(r.matcher@, path)
}

/// Index of the first route at or after `k` that takes the request, or the length.
pub open spec fn first_match<H>(routes: Seq<Route<H>>, method: Method, path: Seq<char>, k: int) -> int
    decreases routes.len() - k,
{
    if k < 0 || k >= routes.len() {
        routes.len() as int
    } else if route_accepts(routes[k], method, path) {
        k
    } else {
        first_match(routes, method, path, k + 1)
    }
}

impl<'a, H> RouteResult<'a, H> {
    /// The route that was matched.
    pub closed spec fn matched(&self) -> Route<H> {
        *self.route
    }

    /// The captured values, one for each variable of the route in order.
    pub closed spec fn values(&self) -> Seq<Seq<char>> {
        names_view(self.params@)
    }

    /// The value captured for the variable `key`, which the route must declare.
    pub fn param(&self, key: &str) -> (r: &str)
        requires
            self.matched().variables@.contains(key@),
            self.values().len() == self.matched().variables@.len(),
        ensures
            r@ == self.values()[find_name(self.matched().variables@, key@, 0)],
    {
        let idx = self.route.variables.get(key);
        let i = idx.unwrap();
        assert(self.values()[i as int] == self.params@[i as int]@);
        self.params[i].as_str()
    }
}

/// The target of a request line: an absolute path (with its query), or a form that
/// names no path on this server (an absolute URI, an authority, `*`).
pub enum RequestTarget {
    AbsolutePath(String),
    Other,
}

/// An ordered table of routes; the first route that takes a request wins.
pub struct Router<H> {
    routes: Vec<Route<H>>,
}

impl<H> Router<H> {
    /// The routes, in order of registration.
    pub closed spec fn routes(&self) -> Seq<Route<H>> {
        self.routes@
    }

    /// An empty router.
    pub fn new() -> (r: Router<H>)
        ensures
            r.routes().len() == 0,
    {
        Router { routes: Vec::new() }
    }

    /// Number of registered routes.
    pub fn len(&self) -> (r: usize)
        ensures
            r == self.routes().len(),
    {
        self.routes.len()
    }

    /// Compiles `path`, with the format group appended unless it names `:format`,
    /// and appends the route; a pattern that does not compile leaves the router as it was.
    pub fn add_route(&mut self, method: Method, path: &str, handler: H) -> (r: Result<(), PatternError>)
        ensures
            r is Ok <==> parse(augment(path@)) is Ok,
            r matches Err(e) ==> parse(augment(path@)) == Err::<(Seq<Token>, Seq<Seq<char>>), _>(e)
                && final(self).routes() == old(self).routes(),
            r is Ok ==> {
                let last = final(self).routes().last();
                &&& final(self).routes().len() == old(self).routes().len() + 1
                &&& final(self).routes().drop_last() == old(self).routes()
                &&& parse(augment(path@)) matches Ok(v) && last.matcher@ == v.0 && last.variables@ == v.1
                &&& last.path@ == augment(path@)
                &&& last.method == method
                &&& last.handler == handler
            },
    {
        let with_format = augment_pattern(path);
        match compile(with_format.as_str()) {
            Ok((tokens, variables)) => {
                let matcher = Matcher::from_tokens(tokens);
                let route = Route { path: with_format, method, handler, variables, matcher };
                let ghost before = self.routes@;
                self.routes.push(route);
                assert(self.routes@.drop_last() =~= before);
                Ok(())
            },
            Err(e) => Err(e),
        }
    }

    /// The route for a request: its target is resolved when it is an absolute path,
    /// and any other target is left to the next stage of the server.
    pub fn resolve(&self, method: &Method, target: &RequestTarget) -> (r: Option<RouteResult<'_, H>>)
        ensures
            target is Other ==> r is None,
            target matches RequestTarget::AbsolutePath(path) ==> {
                &&& r is Some <==> first_match(self.routes(), *method, path@, 0) < self.routes().len()
                &&& r matches Some(res) ==> {
                    let k = first_match(self.routes(), *method, path@, 0);
                    &&& res.matched() == self.routes()[k]
                    &&& res.values() == param_values(
                        capture_texts(self.routes()[k].matcher@, path@),
                        self.routes()[k].variables@.len() as int,
                    )
                    &&& res.values().len() == res.matched().variables@.len()
                }
            },
    {
        match target {
            RequestTarget::AbsolutePath(path) => self.match_route(method, path.as_str()),
            RequestTarget::Other => None,
        }
    }

    /// The first route, in order of registration, whose method is `method` and whose
    /// pattern accepts `path`, with the values captured for its variables.
    pub fn match_route(&self, method: &Method, path: &str) -> (r: Option<RouteResult<'_, H>>)
        ensures
            r is Some <==> first_match(self.routes(), *method, path@, 0) < self.routes().len(),
            r matches Some(res) ==> {
                let k = first_match(self.routes(), *method, path@, 0);
                &&& res.matched() == self.routes()[k]
                &&& res.values() == param_values(
                    capture_texts(self.routes()[k].matcher@, path@),
                    self.routes()[k].variables@.len() as int,
                )
                &&& res.values().len() == res.matched().variables@.len()
            },
    {
        let mut k: usize = 0;
        while k < self.routes.len()
            invariant
                0 <= k <= self.routes@.len(),
                first_match(self.routes@, *method, path@, 0) == first_match(self.routes@, *method, path@, k as int),
            decreases self.routes@.len() - k,
        {
            let route = &self.routes[k];
            if route.method == *method && route.matcher.is_match(path) {
                let caps = match route.matcher.captures(path) {
                    Some(c) => c,
                    None => Vec::new(),
                };
                let n = route.variables.len();
                let mut params: Vec<String> = Vec::new();
                let mut j: usize = 0;
                while j < n
                    invariant
                        n == route.variables@.len(),
                        names_view(caps@) == capture_texts(route.matcher@, path@),
                        0 <= j <= n,
                        params@.len() == j,
                        forall|i: int| 0 <= i < j ==> params@[i]@ == param_values(names_view(caps@), n as int)[i],
                    decreases n - j,
                {
                    if j < caps.len() {
                        params.push(caps[j].clone());
                    } else {
                        params.push(String::new());
                    }
                    j = j + 1;
                }
                let res = RouteResult { route, params };
                assert(res.values() =~= param_values(capture_texts(route.matcher@, path@), n as int));
                return Some(res);
            }
            k = k + 1;
        }
        None
    }
}


proof fn lemma_first_match_at_most<H>(routes: Seq<Route<H>>, method: Method, path: Seq<char>, k: int, i: int)
    requires
        0 <= k <= i < routes.len(),
        route_accepts(routes[i], method, path),
    ensures
        k <= first_match(routes, method, path, k) <= i,
    decreases i - k,
{
    if k < i && !route_accepts(routes[k], method, path) {
        lemma_first_match_at_most(routes, method, path, k + 1, i);
    }
}

proof fn lemma_first_match_none<H>(routes: Seq<Route<H>>, method: Method, path: Seq<char>, k: int)
    requires
        0 <= k <= routes.len(),
        forall|j: int| k <= j < routes.len() ==> !route_accepts(#[trigger] routes[j], method, path),
    ensures
        first_match(routes, method, path, k) == routes.len(),
    decreases routes.len() - k,
{
    if k < routes.len() {
        lemma_first_match_none(routes, method, path, k + 1);
    }
}

/// Registration order decides: where routes `i < j` both take a request, the route
/// that `match_route` resolves it to is `i` or one registered before it, never `j`.
pub proof fn lemma_earlier_route_wins<H>(router: &Router<H>, method: Method, path: Seq<char>, i: int, j: int)
    requires
        0 <= i < j < router.routes().len(),
        route_accepts(router.routes()[i], method, path),
        route_accepts(router.routes()[j], method, path),
    ensures
        first_match(router.routes(), method, path, 0) <= i,
        first_match(router.routes(), method, path, 0) != j,
{
    lemma_first_match_at_most(router.routes(), method, path, 0, i);
}

/// A request that no route takes, because no route has its method or no pattern of
/// that method accepts its path, resolves to nothing.
pub proof fn lemma_no_route_no_result<H>(router: &Router<H>, method: Method, path: Seq<char>)
    requires
        forall|j: int|
            0 <= j < router.routes().len() ==> (#[trigger] router.routes()[j]).method != method
                || !accepts(router.routes()[j].matcher@, path),
    ensures
        first_match(router.routes(), method, path, 0) == router.routes().len(),
{
    assert forall|j: int| 0 <= j < router.routes().len() implies !route_accepts(
        #[trigger] router.routes()[j],
        method,
        path,
    ) by {}
    lemma_first_match_none(router.routes(), method, path, 0);
}

} // verus!
