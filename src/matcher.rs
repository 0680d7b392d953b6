use vstd::prelude::*;
use crate::pattern::{Token, PatternError, VariableIndex, compile, parse, names_view};

verus! {

/// Which characters a repeated token may consume.
pub open spec fn var_char(c: char) -> bool {
    c != '/' && c != '?' && c != '.'
}

pub open spec fn segment_char(c: char) -> bool {
    c != '/' && c != '?'
}

pub open spec fn multi_char(c: char) -> bool {
    c != '?'
}

pub open spec fn token_char(t: Token, c: char) -> bool {
    match t {
        Token::Var => var_char(c),
        Token::Star => segment_char(c),
        Token::DoubleStar => multi_char(c),
        _ => segment_char(c),
    }
}

/// End of the run of characters that token `t` may consume, starting at `i`.
pub open spec fn run_end(t: Token, p: Seq<char>, i: int) -> int
    decreases p.len() - i,
{
    if 0 <= i < p.len() && token_char(t, p[i]) {
        run_end(t, p, i + 1)
    } else {
        i
    }
}

/// Position of the first `?` at or after `i`, or the length.
pub open spec fn query_start(s: Seq<char>, i: int) -> int
    decreases s.len() - i,
{
    if 0 <= i < s.len() && s[i] != '?' {
        query_start(s, i + 1)
    } else {
        i
    }
}

/// The part of a request path before its query string.
pub open spec fn path_part(s: Seq<char>) -> Seq<char> {
    s.subrange(0, query_start(s, 0))
}

/// Matches tokens `t[ti..]` against all of `p[pi..]`, each repeated token taking as
/// many characters as lets the rest match (longest first). The result holds the
/// span of each capturing token, in order.
pub open spec fn match_from(t: Seq<Token>, ti: int, p: Seq<char>, pi: int) -> Option<
    Seq<(usize, usize)>,
>
    decreases t.len() - ti, p.len() - pi + 1,
{
    if ti < 0 || pi < 0 || pi > p.len() {
        None
    } else if ti >= t.len() {
        if pi == p.len() {
            Some(seq![])
        } else {
            None
        }
    } else {
        match t[ti] {
            Token::Lit(c) => {
                if pi < p.len() && p[pi] == c {
                    match_from(t, ti + 1, p, pi + 1)
                } else {
                    None
                }
            },
            Token::Format => {
                let taken = if pi < p.len() && p[pi] == '.' {
                    let e = run_end(Token::Format, p, pi + 1);
                    if pi + 1 <= e <= p.len() {
                        try_run(t, ti, p, pi, pi + 1, e)
                    } else {
                        None
                    }
                } else {
                    None
                };
                if taken is Some {
                    taken
                } else {
                    match match_from(t, ti + 1, p, pi) {
                        Some(r) => Some(r.insert(0, (pi as usize, pi as usize))),
                        None => None,
                    }
                }
            },
            _ => {
                let e = run_end(t[ti], p, pi);
                if pi <= e <= p.len() {
                    try_run(t, ti, p, pi, pi, e)
                } else {
                    None
                }
            },
        }
    }
}

/// Tries token `t[ti]`, started at `start`, ending at `e`, then at each earlier end
/// above `lo`, and gives the first that lets the rest match.
pub open spec fn try_run(t: Seq<Token>, ti: int, p: Seq<char>, start: int, lo: int, e: int) -> Option<
    Seq<(usize, usize)>,
>
    decreases t.len() - ti, e - lo,
{
    if ti < 0 || ti >= t.len() || e <= lo {
        None
    } else {
        match match_from(t, ti + 1, p, e) {
            Some(r) => {
                if t[ti] is Var || t[ti] is Format {
                    Some(r.insert(0, (start as usize, e as usize)))
                } else {
                    Some(r)
                }
            },
            None => try_run(t, ti, p, start, lo, e - 1),
        }
    }
}

/// The capture spans of a request path against a token sequence, if it matches.
pub open spec fn spans_of(t: Seq<Token>, s: Seq<char>) -> Option<Seq<(usize, usize)>> {
    match_from(t, 0, path_part(s), 0)
}

/// Whether a token sequence accepts a request path.
pub open spec fn accepts(t: Seq<Token>, s: Seq<char>) -> bool {
    spans_of(t, s) is Some
}

pub open spec fn opt_view(o: Option<Vec<(usize, usize)>>) -> Option<Seq<(usize, usize)>> {
    match o {
        Some(v) => Some(v@),
        None => None,
    }
}

fn token_char_exec(t: Token, c: char) -> (r: bool)
    ensures
        r == token_char(t, c),
{
    match t {
        Token::Var => c != '/' && c != '?' && c != '.',
        Token::DoubleStar => c != '?',
        _ => c != '/' && c != '?',
    }
}

fn run_end_exec(t: Token, p: &str, n: usize, i: usize) -> (r: usize)
    requires
        n == p@.len(),
        i <= n,
    ensures
        r == run_end(t, p@, i as int),
        i <= r <= n,
{
    let mut j = i;
    while j < n
        invariant
            n == p@.len(),
            i <= j <= n,
            run_end(t, p@, i as int) == run_end(t, p@, j as int),
        decreases n - j,
    {
        if !token_char_exec(t, p.get_char(j)) {
            return j;
        }
        j = j + 1;
    }
    j
}

fn match_from_exec(t: &Vec<Token>, ti: usize, p: &str, n: usize, pi: usize) -> (r: Option<
    Vec<(usize, usize)>,
>)
    requires
        n == p@.len(),
        pi <= n,
    ensures
        opt_view(r) == match_from(t@, ti as int, p@, pi as int),
    decreases t@.len() - ti, n - pi + 1,
{
    if ti >= t.len() {
        return if pi == n {
            Some(Vec::new())
        } else {
            None
        };
    }
    match t[ti] {
        Token::Lit(c) => {
            if pi < n && p.get_char(pi) == c {
                match_from_exec(t, ti + 1, p, n, pi + 1)
            } else {
                None
            }
        },
        Token::Format => {
            if pi < n && p.get_char(pi) == '.' {
                let e = run_end_exec(Token::Format, p, n, pi + 1);
                let taken = try_run_exec(t, ti, p, n, pi, pi + 1, e);
                if taken.is_some() {
                    return taken;
                }
            }
            match match_from_exec(t, ti + 1, p, n, pi) {
                Some(mut r) => {
                    r.insert(0, (pi, pi));
                    Some(r)
                },
                None => None,
            }
        },
        _ => {
            let e = run_end_exec(t[ti], p, n, pi);
            try_run_exec(t, ti, p, n, pi, pi, e)
        },
    }
}

fn try_run_exec(t: &Vec<Token>, ti: usize, p: &str, n: usize, start: usize, lo: usize, e: usize) -> (r:
    Option<Vec<(usize, usize)>>)
    requires
        n == p@.len(),
        ti < t@.len(),
        start <= lo <= e <= n,
    ensures
        opt_view(r) == try_run(t@, ti as int, p@, start as int, lo as int, e as int),
    decreases t@.len() - ti, e - lo,
{
    if e <= lo {
        return None;
    }
    assert(ti < t.len());
    match match_from_exec(t, ti + 1, p, n, e) {
        Some(mut r) => {
            if matches!(t[ti], Token::Var | Token::Format) {
                r.insert(0, (start, e));
            }
            Some(r)
        },
        None => try_run_exec(t, ti, p, n, start, lo, e - 1),
    }
}


/// The characters of `p` from `a` to `b`, or none where that is no range of `p`.
pub open spec fn span_text(p: Seq<char>, a: int, b: int) -> Seq<char> {
    if 0 <= a <= b <= p.len() {
        p.subrange(a, b)
    } else {
        Seq::empty()
    }
}

/// The captured texts of a request path against a token sequence.
pub open spec fn capture_texts(t: Seq<Token>, s: Seq<char>) -> Seq<Seq<char>> {
    match spans_of(t, s) {
        Some(sp) => Seq::new(sp.len(), |k: int| span_text(path_part(s), sp[k].0 as int, sp[k].1 as int)),
        None => Seq::empty(),
    }
}

/// A compiled route pattern.
pub struct Matcher {
    tokens: Vec<Token>,
}

impl View for Matcher {
    type V = Seq<Token>;

    closed spec fn view(&self) -> Seq<Token> {
        self.tokens@
    }
}

/// Length of the part of `s` before its query string.
fn query_start_exec(s: &str) -> (r: usize)
    ensures
        r == query_start(s@, 0),
        r <= s@.len(),
{
    let n = s.unicode_len();
    let mut j: usize = 0;
    while j < n
        invariant
            n == s@.len(),
            j <= n,
            query_start(s@, 0) == query_start(s@, j as int),
        decreases n - j,
    {
        if s.get_char(j) == '?' {
            return j;
        }
        j = j + 1;
    }
    j
}

impl Matcher {
    /// The matcher for a token sequence.
    pub fn from_tokens(tokens: Vec<Token>) -> (r: Matcher)
        ensures
            r@ == tokens@,
    {
        Matcher { tokens }
    }

    /// Whether the path, without its query string, matches the pattern.
    pub fn is_match(&self, path: &str) -> (r: bool)
        ensures
            r == accepts(self@, path@),
    {
        let q = query_start_exec(path);
        let p = path.substring_char(0, q);
        let n = p.unicode_len();
        match_from_exec(&self.tokens, 0, p, n, 0).is_some()
    }

    /// The captured texts, one for each variable of the pattern in order, if the path matches.
    pub fn captures(&self, path: &str) -> (r: Option<Vec<String>>)
        ensures
            r is Some <==> accepts(self@, path@),
            r matches Some(v) ==> names_view(v@) == capture_texts(self@, path@),
    {
        let q = query_start_exec(path);
        let p = path.substring_char(0, q);
        let n = p.unicode_len();
        let spans = match match_from_exec(&self.tokens, 0, p, n, 0) {
            Some(sp) => sp,
            None => return None,
        };
        let ghost sv = spans@;
        let mut out: Vec<String> = Vec::new();
        let mut k: usize = 0;
        while k < spans.len()
            invariant
                n == p@.len(),
                p@ == path_part(path@),
                sv == spans@,
                spans_of(self@, path@) == Some(sv),
                0 <= k <= spans@.len(),
                out@.len() == k,
                forall|j: int| 0 <= j < k ==> out@[j]@ == span_text(p@, sv[j].0 as int, sv[j].1 as int),
            decreases spans@.len() - k,
        {
            let (a, b) = spans[k];
            if a <= b && b <= n {
                out.push(p.substring_char(a, b).to_owned());
            } else {
                out.push(String::new());
            }
            k = k + 1;
        }
        assert(names_view(out@) =~= capture_texts(self@, path@));
        Some(out)
    }
}

/// Compiles a pattern as it stands, without the optional format group.
pub fn create_matcher(pattern: &str) -> (r: Result<Matcher, PatternError>)
    ensures
        r matches Ok(m) ==> parse(pattern@) matches Ok(v) && m@ == v.0,
        r matches Err(e) ==> parse(pattern@) == Err::<(Seq<Token>, Seq<Seq<char>>), _>(e),
        r is Ok <==> parse(pattern@) is Ok,
{
    match compile(pattern) {
        Ok((tokens, _)) => Ok(Matcher { tokens }),
        Err(e) => Err(e),
    }
}

/// The variables of a pattern as it stands, each with its capture index.
pub fn get_variable_info(pattern: &str) -> (r: Result<VariableIndex, PatternError>)
    ensures
        r matches Ok(m) ==> parse(pattern@) matches Ok(v) && m@ == v.1,
        r matches Err(e) ==> parse(pattern@) == Err::<(Seq<Token>, Seq<Seq<char>>), _>(e),
        r is Ok <==> parse(pattern@) is Ok,
{
    match compile(pattern) {
        Ok((_, vars)) => Ok(vars),
        Err(e) => Err(e),
    }
}


proof fn lemma_query_start_plain(s: Seq<char>, i: int)
    requires
        0 <= i <= s.len(),
        forall|k: int| 0 <= k < s.len() ==> s[k] != '?',
    ensures
        query_start(s, i) == s.len(),
    decreases s.len() - i,
{
    if i < s.len() {
        lemma_query_start_plain(s, i + 1);
    }
}

proof fn lemma_query_start_cut(s: Seq<char>, q: Seq<char>, i: int)
    requires
        0 <= i <= s.len(),
        forall|k: int| 0 <= k < s.len() ==> s[k] != '?',
    ensures
        query_start(s + seq!['?'] + q, i) == s.len(),
    decreases s.len() - i,
{
    let full = s + seq!['?'] + q;
    if i < s.len() {
        assert(full[i] == s[i]);
        lemma_query_start_cut(s, q, i + 1);
    } else {
        assert(full[i] == '?');
    }
}

/// A query string takes no part in matching: a path without `?` is accepted, and
/// gives the same captures, with or without any query appended after a `?`.
pub proof fn lemma_query_ignored(t: Seq<Token>, s: Seq<char>, q: Seq<char>)
    requires
        forall|k: int| 0 <= k < s.len() ==> s[k] != '?',
    ensures
        accepts(t, s + seq!['?'] + q) == accepts(t, s),
        capture_texts(t, s + seq!['?'] + q) == capture_texts(t, s),
{
    lemma_query_start_plain(s, 0);
    lemma_query_start_cut(s, q, 0);
    assert(path_part(s) =~= s);
    assert(path_part(s + seq!['?'] + q) =~= s);
}

/// Compiling one pattern twice gives matchers that accept the same paths and
/// capture the same texts.
pub proof fn lemma_compile_twice_agrees(pattern: Seq<char>, m1: Matcher, m2: Matcher, path: Seq<char>)
    requires
        parse(pattern) matches Ok(v) && m1@ == v.0,
        parse(pattern) matches Ok(v) && m2@ == v.0,
    ensures
        accepts(m1@, path) == accepts(m2@, path),
        capture_texts(m1@, path) == capture_texts(m2@, path),
{
}


proof fn lemma_run_end(t: Token, p: Seq<char>, i: int)
    requires
        0 <= i <= p.len(),
    ensures
        i <= run_end(t, p, i) <= p.len(),
        run_end(t, p, i) == p.len() <==> forall|k: int| i <= k < p.len() ==> token_char(t, #[trigger] p[k]),
    decreases p.len() - i,
{
    if i < p.len() {
        lemma_run_end(t, p, i + 1);
    }
}

proof fn lemma_try_run_last(t: Token, p: Seq<char>, lo: int, e: int)
    requires
        0 <= lo <= e <= p.len(),
        t is Star || t is DoubleStar,
    ensures
        try_run(seq![t], 0, p, lo, lo, e) is Some <==> (e == p.len() && e > lo),
    decreases e - lo,
{
    let ts = seq![t];
    assert(ts.len() == 1);
    assert(match_from(ts, 1, p, e) is Some <==> e == p.len());
    if e > lo {
        lemma_try_run_last(t, p, lo, e - 1);
    }
}

proof fn lemma_lone_wildcard(t: Token, p: Seq<char>)
    requires
        t is Star || t is DoubleStar,
    ensures
        match_from(seq![t], 0, p, 0) is Some <==> (p.len() > 0 && forall|k: int|
            0 <= k < p.len() ==> token_char(t, #[trigger] p[k])),
{
    lemma_run_end(t, p, 0);
    lemma_try_run_last(t, p, 0, run_end(t, p, 0));
}

/// `*` takes exactly one path segment: it accepts a path, less its query, that is
/// not empty and holds no `/`. `**` takes one or more segments: it accepts every
/// such path that is not empty, `/` included.
pub proof fn lemma_wildcards(s: Seq<char>)
    ensures
        accepts(seq![Token::Star], s) <==> (path_part(s).len() > 0 && forall|k: int|
            0 <= k < path_part(s).len() ==> #[trigger] path_part(s)[k] != '/'),
        accepts(seq![Token::DoubleStar], s) <==> path_part(s).len() > 0,
{
    let p = path_part(s);
    lemma_query_start_bound(s, 0);
    assert forall|k: int| 0 <= k < p.len() implies p[k] != '?' by {
        lemma_query_start_before(s, 0, k);
    }
    lemma_lone_wildcard(Token::Star, p);
    lemma_lone_wildcard(Token::DoubleStar, p);
}

proof fn lemma_query_start_bound(s: Seq<char>, i: int)
    requires
        0 <= i <= s.len(),
    ensures
        i <= query_start(s, i) <= s.len(),
    decreases s.len() - i,
{
    if i < s.len() {
        lemma_query_start_bound(s, i + 1);
    }
}

proof fn lemma_query_start_before(s: Seq<char>, i: int, k: int)
    requires
        0 <= i <= k < query_start(s, i),
        query_start(s, i) <= s.len(),
    ensures
        s[k] != '?',
    decreases k - i,
{
    if i < k {
        lemma_query_start_before(s, i + 1, k);
    }
}


/// Tokens that never consume a dot: literals other than `.`, and variables.
pub open spec fn dot_free_tokens(t: Seq<Token>) -> bool {
    forall|k: int| 0 <= k < t.len() ==> match #[trigger] t[k] {
        Token::Lit(c) => c != '.',
        Token::Var => true,
        _ => false,
    }
}

/// A path without `.` and `?`.
pub open spec fn plain_path(x: Seq<char>) -> bool {
    forall|k: int| 0 <= k < x.len() ==> #[trigger] x[k] != '.' && x[k] != '?'
}

/// A format suffix: empty, or a dot followed by characters other than `/` and `?`.
pub open spec fn format_suffix(y: Seq<char>) -> bool {
    y.len() == 0 || (y.len() >= 2 && y[0] == '.' && forall|k: int|
        1 <= k < y.len() ==> segment_char(#[trigger] y[k]))
}

pub open spec fn with_span(o: Option<Seq<(usize, usize)>>, a: int, b: int) -> Option<
    Seq<(usize, usize)>,
> {
    match o {
        Some(r) => Some(r.push((a as usize, b as usize))),
        None => None,
    }
}

proof fn lemma_var_run_suffix(x: Seq<char>, y: Seq<char>, i: int)
    requires
        plain_path(x),
        format_suffix(y),
        0 <= i <= x.len(),
    ensures
        run_end(Token::Var, x + y, i) == run_end(Token::Var, x, i),
    decreases x.len() - i,
{
    let z = x + y;
    if i < x.len() {
        assert(z[i] == x[i]);
        lemma_var_run_suffix(x, y, i + 1);
    } else if y.len() > 0 {
        assert(z[i] == '.');
    }
}

proof fn lemma_format_run_at(t: Seq<Token>, ti: int, z: Seq<char>, start: int, e: int)
    requires
        0 <= ti,
        ti + 1 == t.len(),
        t[ti] == Token::Format,
        0 <= start,
        z.len() >= start + 2,
        z[start] == '.',
        forall|k: int| start + 1 <= k < z.len() ==> segment_char(#[trigger] z[k]),
        start + 1 <= e <= z.len(),
    ensures
        try_run(t, ti, z, start, start + 1, e) == (if e >= start + 2 && e == z.len() {
            Some(seq![(start as usize, e as usize)])
        } else {
            None::<Seq<(usize, usize)>>
        }),
    decreases e,
{
    assert(match_from(t, ti + 1, z, e) == (if e == z.len() { Some(Seq::<(usize, usize)>::empty()) } else { None }));
    if e > start + 1 {
        lemma_format_run_at(t, ti, z, start, e - 1);
    }
    if e >= start + 2 && e == z.len() {
        assert(Seq::<(usize, usize)>::empty().insert(0, (start as usize, e as usize)) =~= seq![(start as usize, e as usize)]);
    }
}

proof fn lemma_suffix_end(t: Seq<Token>, ti: int, x: Seq<char>, y: Seq<char>, pi: int)
    requires
        0 <= ti,
        ti + 1 == t.len(),
        t[ti] == Token::Format,
        plain_path(x),
        format_suffix(y),
        0 <= pi <= x.len(),
    ensures
        match_from(t, ti, x + y, pi) == (if pi == x.len() {
            Some(seq![(pi as usize, (x.len() + y.len()) as usize)])
        } else {
            None::<Seq<(usize, usize)>>
        }),
{
    let z = x + y;
    if pi < x.len() {
        assert(z[pi] == x[pi]);
        assert(match_from(t, ti + 1, z, pi) is None);
    } else if y.len() == 0 {
        assert(z.len() == pi);
        assert(match_from(t, ti + 1, z, pi) == Some(Seq::<(usize, usize)>::empty()));
        assert(Seq::<(usize, usize)>::empty().insert(0, (pi as usize, pi as usize)) =~= seq![(pi as usize, pi as usize)]);
    } else {
        assert(z[pi] == '.');
        assert forall|k: int| pi + 1 <= k < z.len() implies segment_char(#[trigger] z[k]) by {
            assert(z[k] == y[k - x.len()]);
        }
        lemma_run_end(Token::Format, z, pi + 1);
        lemma_format_run_at(t, ti, z, pi, run_end(Token::Format, z, pi + 1));
    }
}

proof fn lemma_match_suffix(t: Seq<Token>, x: Seq<char>, y: Seq<char>, ti: int, pi: int)
    requires
        dot_free_tokens(t),
        plain_path(x),
        format_suffix(y),
        0 <= ti <= t.len(),
        0 <= pi <= x.len(),
    ensures
        match_from(t.push(Token::Format), ti, x + y, pi) == with_span(
            match_from(t, ti, x, pi),
            x.len() as int,
            (x.len() + y.len()) as int,
        ),
    decreases t.len() - ti, x.len() - pi + 1, 0int,
{
    let tf = t.push(Token::Format);
    let z = x + y;
    let a = x.len() as int;
    let b = (x.len() + y.len()) as int;
    if ti == t.len() {
        lemma_suffix_end(tf, ti, x, y, pi);
        if pi == x.len() {
            assert(seq![(pi as usize, b as usize)] =~= Seq::<(usize, usize)>::empty().push((a as usize, b as usize)));
        }
    } else {
        assert(tf[ti] == t[ti]);
        match t[ti] {
            Token::Lit(c) => {
                if pi < x.len() {
                    assert(z[pi] == x[pi]);
                    if x[pi] == c {
                        lemma_match_suffix(t, x, y, ti + 1, pi + 1);
                    }
                } else if y.len() > 0 {
                    assert(z[pi] == '.');
                }
            },
            Token::Var => {
                lemma_var_run_suffix(x, y, pi);
                lemma_run_end(Token::Var, x, pi);
                lemma_try_suffix(t, x, y, ti, pi, run_end(Token::Var, x, pi));
            },
            _ => {},
        }
    }
}

proof fn lemma_try_suffix(t: Seq<Token>, x: Seq<char>, y: Seq<char>, ti: int, pi: int, e: int)
    requires
        dot_free_tokens(t),
        plain_path(x),
        format_suffix(y),
        0 <= ti < t.len(),
        t[ti] is Var,
        0 <= pi <= e <= x.len(),
    ensures
        try_run(t.push(Token::Format), ti, x + y, pi, pi, e) == with_span(
            try_run(t, ti, x, pi, pi, e),
            x.len() as int,
            (x.len() + y.len()) as int,
        ),
    decreases t.len() - ti, e - pi, 1int,
{
    let tf = t.push(Token::Format);
    assert(tf[ti] == t[ti]);
    if e > pi {
        lemma_match_suffix(t, x, y, ti + 1, e);
        lemma_try_suffix(t, x, y, ti, pi, e - 1);
        let a = x.len() as int;
        let b = (x.len() + y.len()) as int;
        match match_from(t, ti + 1, x, e) {
            Some(r) => {
                assert(r.push((a as usize, b as usize)).insert(0, (pi as usize, e as usize)) =~= r.insert(
                    0,
                    (pi as usize, e as usize),
                ).push((a as usize, b as usize)));
            },
            None => {},
        }
    }
}


/// The format group is optional and captures the suffix last: for a pattern of
/// variables and literals other than `.`, and a path without `.` and `?`, the
/// pattern with the format group appended accepts the path followed by nothing or
/// by `.ext` exactly when the pattern accepts the path; the captures are those of
/// the path, then the suffix (empty, or `.ext` with its dot).
pub proof fn lemma_optional_format(t: Seq<Token>, x: Seq<char>, y: Seq<char>)
    requires
        dot_free_tokens(t),
        plain_path(x),
        format_suffix(y),
        x.len() + y.len() <= usize::MAX,
    ensures
        spans_of(t.push(Token::Format), x + y) == with_span(
            spans_of(t, x),
            x.len() as int,
            (x.len() + y.len()) as int,
        ),
        accepts(t.push(Token::Format), x + y) == accepts(t, x),
        accepts(t, x) ==> capture_texts(t.push(Token::Format), x + y).last() == y,
{
    let z = x + y;
    assert forall|k: int| 0 <= k < z.len() implies z[k] != '?' by {
        if k >= x.len() {
            assert(z[k] == y[k - x.len()]);
        }
    }
    lemma_query_start_plain(z, 0);
    assert(path_part(z) =~= z);
    assert forall|k: int| 0 <= k < x.len() implies x[k] != '?' by {}
    lemma_query_start_plain(x, 0);
    assert(path_part(x) =~= x);
    lemma_match_suffix(t, x, y, 0, 0);
    assert(z.subrange(x.len() as int, z.len() as int) =~= y);
    if accepts(t, x) {
        let sp = spans_of(t.push(Token::Format), z)->0;
        let n = sp.len() - 1;
        assert(sp[n] == ((x.len() as int) as usize, ((x.len() + y.len()) as int) as usize));
        assert(capture_texts(t.push(Token::Format), z)[n] == span_text(z, x.len() as int, z.len() as int));
    }
}

} // verus!
