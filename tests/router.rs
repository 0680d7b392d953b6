use nickel::matcher::{create_matcher, get_variable_info};
use nickel::pattern::PatternError;
use nickel::router::{Method, RequestTarget, Router};

#[test]
fn creates_map_with_var_variable_infos() {
    let map = get_variable_info("foo/:uid/bar/:groupid").unwrap();

    assert_eq!(map.len(), 2);
    assert_eq!(map.get("uid"), Some(0));
    assert_eq!(map.get("groupid"), Some(1));
}

#[test]
fn creates_regex_with_captures() {
    let regex = create_matcher("foo/:uid/bar/:groupid").unwrap();
    let caps = regex.captures("foo/4711/bar/5490").unwrap();

    assert_eq!(caps[0], "4711");
    assert_eq!(caps[1], "5490");

    let regex = create_matcher("foo/*/:uid/bar/:groupid").unwrap();
    let caps = regex.captures("foo/test/4711/bar/5490").unwrap();

    assert_eq!(caps[0], "4711");
    assert_eq!(caps[1], "5490");

    let regex = create_matcher("foo/**/:uid/bar/:groupid").unwrap();
    let caps = regex.captures("foo/test/another/4711/bar/5490").unwrap();

    assert_eq!(caps[0], "4711");
    assert_eq!(caps[1], "5490");
}

#[test]
fn creates_valid_regex_for_routes() {
    let regex1 = create_matcher("foo/:uid/bar/:groupid").unwrap();
    let regex2 = create_matcher("foo/*/bar").unwrap();
    let regex3 = create_matcher("foo/**/bar").unwrap();

    assert_eq!(regex1.is_match("foo/4711/bar/5490"), true);
    assert_eq!(regex1.is_match("foo/4711/bar/5490?foo=true&bar=false"), true);
    assert_eq!(regex1.is_match("foo/4711/bar"), false);
    assert_eq!(regex1.is_match("foo/4711/bar?foo=true&bar=false"), false);
    assert_eq!(regex1.is_match("foo/4711/bar/test%20spacing"), true);
    assert_eq!(regex1.is_match("foo/4711/bar/5281?foo=test%20spacing&bar=false"), true);

    assert_eq!(regex2.is_match("foo/4711/bar"), true);
    assert_eq!(regex2.is_match("foo/4711/barr"), false);
    assert_eq!(regex2.is_match("foo/4711/bar?foo=true&bar=false"), true);
    assert_eq!(regex2.is_match("foo/4711/4712/bar"), false);
    assert_eq!(regex2.is_match("foo/4711/4712/bar?foo=true&bar=false"), false);

    assert_eq!(regex3.is_match("foo/4711/bar"), true);
    assert_eq!(regex3.is_match("foo/4711/bar?foo=true&bar=false"), true);
    assert_eq!(regex3.is_match("foo/4711/4712/bar"), true);
    assert_eq!(regex3.is_match("foo/4711/4712/bar?foo=true&bar=false"), true);

    // commas stay inside a variable
    assert_eq!(regex1.is_match("foo/4711/bar/5490,1234"), true);
    assert_eq!(regex1.is_match("foo/4711/bar/5490,1234?foo=true&bar=false"), true);
    assert_eq!(regex1.is_match("foo/4711/bar"), false);
    assert_eq!(regex1.is_match("foo/4711/bar?foo=1,2,3&bar=false"), false);
}

#[test]
fn can_match_var_routes() {
    let route_store = &mut Router::new();
    let handler = "hello from foo";

    route_store.add_route(Method::Get, "/foo/:userid", handler).unwrap();
    route_store.add_route(Method::Get, "/bar", handler).unwrap();
    route_store.add_route(Method::Get, "/file/:format/:file", handler).unwrap();

    let route_result = route_store.match_route(&Method::Get, "/foo/4711").unwrap();
    let route = route_result.route;

    assert_eq!(route_result.param("userid"), "4711");

    // the route has identified the variable
    assert_eq!(route.variables.len(), 2);
    assert_eq!(route.variables.get("userid"), Some(0));
    // routes have an implicit format variable
    assert_eq!(route.variables.get("format"), Some(1));

    let route_result = route_store.match_route(&Method::Get, "/bar/4711");
    assert!(route_result.is_none());

    let route_result = route_store.match_route(&Method::Get, "/foo");
    assert!(route_result.is_none());

    // commas
    let route_result = route_store.match_route(&Method::Get, "/foo/123,456");
    assert!(route_result.is_some());

    let route_result = route_result.unwrap();
    assert_eq!(route_result.param("userid"), "123,456");

    // escaped spaces
    let route_result = route_store.match_route(&Method::Get, "/foo/John%20Doe");
    assert!(route_result.is_some());

    let route_result = route_result.unwrap();
    assert_eq!(route_result.param("userid"), "John%20Doe");

    // optional format parameter
    let route_result = route_store.match_route(&Method::Get, "/foo/John%20Doe.json");
    assert!(route_result.is_some());

    let route_result = route_result.unwrap();
    assert_eq!(route_result.param("userid"), "John%20Doe");
    assert_eq!(route_result.param("format"), ".json");

    // format together with a query
    let route_result = route_store.match_route(&Method::Get, "/foo/5490,1234.csv?foo=true&bar=false");
    assert!(route_result.is_some());

    let route_result = route_result.unwrap();
    assert_eq!(route_result.param("userid"), "5490,1234");
    assert_eq!(route_result.param("format"), ".csv");

    // format declared by the pattern itself
    let route_result = route_store.match_route(&Method::Get, "/file/markdown/something?foo=true");
    assert!(route_result.is_some());

    let route_result = route_result.unwrap();
    assert_eq!(route_result.param("file"), "something");
    assert_eq!(route_result.param("format"), "markdown");
}

#[test]
fn format_is_empty_without_suffix() {
    let mut router = Router::new();
    router.add_route(Method::Get, "/user/:id", 1u8).unwrap();
    let plain = router.match_route(&Method::Get, "/user/42").unwrap();
    assert_eq!(plain.param("id"), "42");
    assert_eq!(plain.param("format"), "");
    let dotted = router.match_route(&Method::Get, "/user/42.xml").unwrap();
    assert_eq!(dotted.param("id"), "42");
    assert_eq!(dotted.param("format"), ".xml");
}

#[test]
fn format_variable_gets_last_index() {
    let mut router = Router::new();
    router.add_route(Method::Post, "/a/:x/b/:y/:z", 0u8).unwrap();
    let res = router.match_route(&Method::Post, "/a/1/b/2/3").unwrap();
    let vars = &res.route.variables;
    assert_eq!(vars.get("x"), Some(0));
    assert_eq!(vars.get("y"), Some(1));
    assert_eq!(vars.get("z"), Some(2));
    assert_eq!(vars.get("format"), Some(3));
    assert_eq!(vars.get("missing"), None);
    assert_eq!(res.route.path, "/a/:x/b/:y/:z(\\.:format)?");
}

#[test]
fn earlier_route_wins() {
    let mut router = Router::new();
    router.add_route(Method::Get, "/item/:id", "first").unwrap();
    router.add_route(Method::Get, "/item/:name", "second").unwrap();
    router.add_route(Method::Get, "/item/special", "third").unwrap();
    let res = router.match_route(&Method::Get, "/item/special").unwrap();
    assert_eq!(res.route.handler, "first");
    assert_eq!(res.param("id"), "special");
}

#[test]
fn method_must_be_equal() {
    let mut router = Router::new();
    router.add_route(Method::Get, "/thing", "get").unwrap();
    router.add_route(Method::Post, "/thing", "post").unwrap();
    assert_eq!(router.match_route(&Method::Post, "/thing").unwrap().route.handler, "post");
    assert!(router.match_route(&Method::Head, "/thing").is_none());
    assert!(router.match_route(&Method::Delete, "/thing").is_none());
}

#[test]
fn empty_router_matches_nothing() {
    let router: Router<u8> = Router::new();
    assert_eq!(router.len(), 0);
    assert!(router.match_route(&Method::Get, "/").is_none());
}

#[test]
fn single_and_multi_wildcards() {
    let mut router = Router::new();
    router.add_route(Method::Get, "/some/*/route", 1u8).unwrap();
    router.add_route(Method::Get, "/a/**/route", 2u8).unwrap();
    assert!(router.match_route(&Method::Get, "/some/crazy/route").is_some());
    assert!(router.match_route(&Method::Get, "/some/super/crazy/route").is_none());
    assert_eq!(router.match_route(&Method::Get, "/a/crazy/route").unwrap().route.handler, 2);
    assert_eq!(router.match_route(&Method::Get, "/a/super/crazy/route").unwrap().route.handler, 2);
    assert!(router.match_route(&Method::Get, "/a/route").is_none());
}

#[test]
fn query_is_not_captured() {
    let mut router = Router::new();
    router.add_route(Method::Get, "/foo/:uid/bar/:groupid", 0u8).unwrap();
    let res = router.match_route(&Method::Get, "/foo/4711/bar/5490,1234?x=true").unwrap();
    assert_eq!(res.param("uid"), "4711");
    assert_eq!(res.param("groupid"), "5490,1234");
    assert_eq!(res.param("format"), "");
}

#[test]
fn compiling_twice_agrees() {
    let a = create_matcher("/x/:y/**/z").unwrap();
    let b = create_matcher("/x/:y/**/z").unwrap();
    for p in ["/x/1/2/z", "/x/1/z", "/x/1/2/3/z?q", "/y/1/2/z", "/x//2/z"] {
        assert_eq!(a.is_match(p), b.is_match(p));
    }
}

#[test]
fn malformed_patterns_are_refused() {
    let mut router = Router::new();
    assert_eq!(router.add_route(Method::Get, "/a/:/b", 0u8), Err(PatternError::EmptyVariableName));
    assert_eq!(router.add_route(Method::Get, "/a/:x/:x", 0u8), Err(PatternError::DuplicateVariable));
    assert_eq!(router.add_route(Method::Get, "/a/:format(\\.:format)?", 0u8), Err(PatternError::DuplicateVariable));
    assert_eq!(router.len(), 0);
    assert!(get_variable_info(":").is_err());
}

#[test]
fn augment_keeps_explicit_format() {
    assert_eq!(nickel::pattern::augment_pattern("/f/:format"), "/f/:format");
    assert_eq!(nickel::pattern::augment_pattern("/f"), "/f(\\.:format)?");
}

#[test]
fn trailing_wildcard_takes_the_dot() {
    let mut router = Router::new();
    router.add_route(Method::Get, "/f/*", 0u8).unwrap();
    let res = router.match_route(&Method::Get, "/f/a.json").unwrap();
    assert_eq!(res.param("format"), "");
}

#[test]
fn resolves_absolute_paths_only() {
    let mut router = Router::new();
    router.add_route(Method::Get, "/user/:id", 7u8).unwrap();
    let target = RequestTarget::AbsolutePath("/user/9?x=1".to_string());
    let res = router.resolve(&Method::Get, &target).unwrap();
    assert_eq!(res.param("id"), "9");
    assert_eq!(res.route.handler, 7);
    assert!(router.resolve(&Method::Get, &RequestTarget::Other).is_none());
}

#[test]
fn captures_without_match_is_none() {
    let m = create_matcher("/a/:b").unwrap();
    assert!(m.captures("/c/d").is_none());
    assert_eq!(m.captures("/a/xyz?q=1").unwrap(), vec!["xyz".to_string()]);
}
