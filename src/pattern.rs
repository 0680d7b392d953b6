use vstd::prelude::*;

verus! {

/// One element of a compiled route pattern.
#[derive(PartialEq, Eq, Structural, Clone, Copy, Debug)]
pub enum Token {
    /// A character matched verbatim.
    Lit(char),
    /// `:name`: one or more characters other than `/`, `?` and `.`, captured.
    Var,
    /// `*`: one path segment, not captured.
    Star,
    /// `**`: one or more path segments, not captured.
    DoubleStar,
    /// The optional `.ext` suffix, captured with its dot.
    Format,
}

/// Why a route pattern was refused.
#[derive(PartialEq, Eq, Structural, Clone, Copy, Debug)]
pub enum PatternError {
    /// A `:` that is not followed by a variable name.
    EmptyVariableName,
    /// A variable name that occurs twice in one pattern.
    DuplicateVariable,
}

pub open spec fn is_ident_char(c: char) -> bool {
    ('a' <= c && c <= 'z') || ('A' <= c && c <= 'Z') || ('0' <= c && c <= '9') || c == '_'
}

/// The characters of the optional format group that is appended to a pattern.
pub open spec fn format_group() -> Seq<char> {
    seq!['(', '\\', '.', ':', 'f', 'o', 'r', 'm', 'a', 't', ')', '?']
}

/// The variable token `:format`.
pub open spec fn format_token() -> Seq<char> {
    seq![':', 'f', 'o', 'r', 'm', 'a', 't']
}

/// The name under which the format suffix is captured.
pub open spec fn format_name() -> Seq<char> {
    seq!['f', 'o', 'r', 'm', 'a', 't']
}

pub open spec fn occurs_at(s: Seq<char>, i: int, w: Seq<char>) -> bool {
    0 <= i && i + w.len() <= s.len() && s.subrange(i, i + w.len()) == w
}

pub open spec fn contains_word(s: Seq<char>, w: Seq<char>) -> bool {
    exists|i: int| occurs_at(s, i, w)
}

/// The pattern with the optional format group appended, unless it names `:format` itself.
pub open spec fn augment(s: Seq<char>) -> Seq<char> {
    if contains_word(s, format_token()) {
        s
    } else {
        s + format_group()
    }
}

/// End of the run of identifier characters that starts at `i`.
pub open spec fn ident_end(s: Seq<char>, i: int) -> int
    decreases s.len() - i,
{
    if 0 <= i < s.len() && is_ident_char(s[i]) {
        ident_end(s, i + 1)
    } else {
        i
    }
}

/// Tokens and variable names of `s` from position `i` on, given those read before it.
pub open spec fn parse_from(
    s: Seq<char>,
    i: int,
    toks: Seq<Token>,
    names: Seq<Seq<char>>,
) -> Result<(Seq<Token>, Seq<Seq<char>>), PatternError>
    decreases s.len() - i,
{
    if i < 0 || i >= s.len() {
        Ok((toks, names))
    } else if occurs_at(s, i, format_group()) {
        if names.contains(format_name()) {
            Err(PatternError::DuplicateVariable)
        } else {
            parse_from(s, i + 12, toks.push(Token::Format), names.push(format_name()))
        }
    } else if s[i] == '*' && i + 1 < s.len() && s[i + 1] == '*' {
        parse_from(s, i + 2, toks.push(Token::DoubleStar), names)
    } else if s[i] == '*' {
        parse_from(s, i + 1, toks.push(Token::Star), names)
    } else if s[i] != ':' {
        parse_from(s, i + 1, toks.push(Token::Lit(s[i])), names)
    } else {
        let j = ident_end(s, i + 1);
        if j <= i + 1 || j > s.len() {
            Err(PatternError::EmptyVariableName)
        } else if names.contains(s.subrange(i + 1, j)) {
            Err(PatternError::DuplicateVariable)
        } else {
            parse_from(s, j, toks.push(Token::Var), names.push(s.subrange(i + 1, j)))
        }
    }
}

/// The tokens and the variable names, in order of appearance, of a pattern.
pub open spec fn parse(s: Seq<char>) -> Result<(Seq<Token>, Seq<Seq<char>>), PatternError> {
    parse_from(s, 0, seq![], seq![])
}


pub open spec fn names_view(v: Seq<String>) -> Seq<Seq<char>> {
    v.map_values(|s: String| s@)
}

proof fn lemma_names_view_push(v: Seq<String>, x: String)
    ensures
        names_view(v.push(x)) == names_view(v).push(x@),
{
    assert(names_view(v.push(x)) =~= names_view(v).push(x@));
}

/// The variables of a pattern: names in order of appearance, each at its capture index.
pub struct VariableIndex {
    names: Vec<String>,
}

impl View for VariableIndex {
    type V = Seq<Seq<char>>;

    closed spec fn view(&self) -> Seq<Seq<char>> {
        names_view(self.names@)
    }
}

/// First index at or after `k` that holds `key`, or the length if none does.
pub open spec fn find_name(names: Seq<Seq<char>>, key: Seq<char>, k: int) -> int
    decreases names.len() - k,
{
    if k < 0 || k >= names.len() {
        names.len() as int
    } else if names[k] == key {
        k
    } else {
        find_name(names, key, k + 1)
    }
}

impl VariableIndex {
    /// Number of variables.
    pub fn len(&self) -> (r: usize)
        ensures
            r == self@.len(),
    {
        self.names.len()
    }

    /// Capture index of `key`, if the pattern declares it.
    pub fn get(&self, key: &str) -> (r: Option<usize>)
        ensures
            r is Some <==> self@.contains(key@),
            r matches Some(i) ==> i as int == find_name(self@, key@, 0) && i < self@.len()
                && self@[i as int] == key@,
    {
        let n = self.names.len();
        let mut k: usize = 0;
        while k < n
            invariant
                n == self.names@.len(),
                0 <= k <= n,
                find_name(self@, key@, 0) == find_name(self@, key@, k as int),
                forall|j: int| 0 <= j < k ==> self@[j] != key@,
            decreases n - k,
        {
            if str_eq(self.names[k].as_str(), key) {
                assert(self@.contains(key@)) by { assert(self@[k as int] == key@); }
                return Some(k);
            }
            k = k + 1;
        }
        assert(!self@.contains(key@));
        None
    }
}

/// Whether two strings hold the same characters.
pub fn str_eq(a: &str, b: &str) -> (r: bool)
    ensures
        r == (a@ == b@),
{
    let n = a.unicode_len();
    if n != b.unicode_len() {
        return false;
    }
    let mut k: usize = 0;
    while k < n
        invariant
            n == a@.len() == b@.len(),
            0 <= k <= n,
            a@.subrange(0, k as int) == b@.subrange(0, k as int),
        decreases n - k,
    {
        if a.get_char(k) != b.get_char(k) {
            assert(a@[k as int] != b@[k as int]);
            return false;
        }
        assert(a@.subrange(0, k + 1) =~= a@.subrange(0, k as int).push(a@[k as int]));
        assert(b@.subrange(0, k + 1) =~= b@.subrange(0, k as int).push(b@[k as int]));
        k = k + 1;
    }
    assert(a@ =~= a@.subrange(0, n as int));
    assert(b@ =~= b@.subrange(0, n as int));
    true
}

/// Whether the characters of `w` stand in `s` at position `i`.
fn word_at(s: &str, n: usize, i: usize, w: &str) -> (r: bool)
    requires
        n == s@.len(),
    ensures
        r == occurs_at(s@, i as int, w@),
{
    let m = w.unicode_len();
    if i > n || m > n - i {
        return false;
    }
    let mut k: usize = 0;
    while k < m
        invariant
            n == s@.len(),
            m == w@.len(),
            i + m <= n,
            0 <= k <= m,
            forall|j: int| 0 <= j < k ==> s@[i + j] == w@[j],
        decreases m - k,
    {
        if s.get_char(i + k) != w.get_char(k) {
            assert(s@.subrange(i as int, i + m)[k as int] != w@[k as int]);
            return false;
        }
        k = k + 1;
    }
    assert(s@.subrange(i as int, i + m) =~= w@);
    true
}

/// Whether `w` occurs anywhere in `s`.
fn contains_str(s: &str, w: &str) -> (r: bool)
    ensures
        r == contains_word(s@, w@),
{
    let n = s.unicode_len();
    let mut i: usize = 0;
    while i < n
        invariant
            n == s@.len(),
            0 <= i <= n,
            forall|j: int| 0 <= j < i ==> !occurs_at(s@, j, w@),
        decreases n - i,
    {
        if word_at(s, n, i, w) {
            return true;
        }
        i = i + 1;
    }
    if word_at(s, n, n, w) {
        return true;
    }
    assert forall|j: int| !occurs_at(s@, j, w@) by {
        if 0 <= j && j + w@.len() <= s@.len() && j != n {
            assert(j < i);
        }
    }
    false
}

/// Whether a variable called `w` is among `names`.
fn has_name(names: &Vec<String>, w: &str) -> (r: bool)
    ensures
        r == names_view(names@).contains(w@),
{
    let mut k: usize = 0;
    while k < names.len()
        invariant
            0 <= k <= names@.len(),
            forall|j: int| 0 <= j < k ==> names@[j]@ != w@,
        decreases names@.len() - k,
    {
        if str_eq(names[k].as_str(), w) {
            assert(names_view(names@)[k as int] == w@);
            return true;
        }
        k = k + 1;
    }
    false
}

/// End of the run of identifier characters that starts at `i`.
fn ident_end_exec(s: &str, n: usize, i: usize) -> (r: usize)
    requires
        n == s@.len(),
        i <= n,
    ensures
        r == ident_end(s@, i as int),
        i <= r <= n,
{
    let mut j = i;
    while j < n
        invariant
            n == s@.len(),
            i <= j <= n,
            ident_end(s@, i as int) == ident_end(s@, j as int),
        decreases n - j,
    {
        let c = s.get_char(j);
        if !(('a' <= c && c <= 'z') || ('A' <= c && c <= 'Z') || ('0' <= c && c <= '9') || c
            == '_') {
            return j;
        }
        j = j + 1;
    }
    j
}


/// The pattern with the optional format group appended, unless it names `:format` itself.
pub fn augment_pattern(pattern: &str) -> (r: String)
    ensures
        r@ == augment(pattern@),
{
    proof {
        reveal_strlit(":format");
        reveal_strlit("(\\.:format)?");
        assert(":format"@ =~= format_token());
        assert("(\\.:format)?"@ =~= format_group());
    }
    if contains_str(pattern, ":format") {
        pattern.to_owned()
    } else {
        pattern.to_owned().concat("(\\.:format)?")
    }
}

/// Splits a pattern into its tokens and its variable names, in order of appearance.
pub fn compile(pattern: &str) -> (r: Result<(Vec<Token>, VariableIndex), PatternError>)
    ensures
        r matches Ok(v) ==> parse(pattern@) == Ok::<_, PatternError>((v.0@, v.1@)),
        r matches Err(e) ==> parse(pattern@) == Err::<(Seq<Token>, Seq<Seq<char>>), _>(e),
{
    let n = pattern.unicode_len();
    let mut toks: Vec<Token> = Vec::new();
    let mut names: Vec<String> = Vec::new();
    assert(names_view(names@) =~= seq![]);
    let mut i: usize = 0;
    while i < n
        invariant
            n == pattern@.len(),
            0 <= i <= n,
            parse_from(pattern@, i as int, toks@, names_view(names@)) == parse(pattern@),
        decreases n - i,
    {
        proof {
            reveal_strlit("(\\.:format)?");
            reveal_strlit("format");
            assert("(\\.:format)?"@ =~= format_group());
            assert("format"@ =~= format_name());
        }
        let ghost nv = names_view(names@);
        let ghost old_names = names@;
        let c = pattern.get_char(i);
        if word_at(pattern, n, i, "(\\.:format)?") {
            if has_name(&names, "format") {
                return Err(PatternError::DuplicateVariable);
            }
            toks.push(Token::Format);
            names.push("format".to_owned());
            proof { lemma_names_view_push(old_names, names@.last()); }
            i = i + 12;
        } else if c == '*' && i + 1 < n && pattern.get_char(i + 1) == '*' {
            toks.push(Token::DoubleStar);
            i = i + 2;
        } else if c == '*' {
            toks.push(Token::Star);
            i = i + 1;
        } else if c == ':' {
            let j = ident_end_exec(pattern, n, i + 1);
            if j <= i + 1 {
                return Err(PatternError::EmptyVariableName);
            }
            let name = pattern.substring_char(i + 1, j);
            if has_name(&names, name) {
                return Err(PatternError::DuplicateVariable);
            }
            toks.push(Token::Var);
            names.push(name.to_owned());
            proof { lemma_names_view_push(old_names, names@.last()); }
            i = j;
        } else {
            toks.push(Token::Lit(c));
            i = i + 1;
        }
    }
    Ok((toks, VariableIndex { names }))
}


proof fn lemma_ident_end_append(s: Seq<char>, j: int)
    requires
        0 <= j <= s.len(),
    ensures
        ident_end(s + format_group(), j) == ident_end(s, j),
        j <= ident_end(s, j) <= s.len(),
    decreases s.len() - j,
{
    let u = s + format_group();
    if j < s.len() {
        assert(u[j] == s[j]);
        lemma_ident_end_append(s, j + 1);
    } else {
        assert(u[j] == '(');
    }
}

proof fn lemma_group_facts()
    ensures
        format_group().len() == 12,
        format_token().len() == 7,
        format_name().len() == 6,
        format_group()[0] == '(',
        forall|k: int| 1 <= k < 12 ==> format_group()[k] != '(',
        forall|k: int| 0 <= k < 7 ==> format_group()[k + 3] == format_token()[k],
        forall|k: int| 0 <= k < 6 ==> format_token()[k + 1] == format_name()[k],
{
}

proof fn lemma_no_group_inside(s: Seq<char>, i: int)
    requires
        0 <= i < s.len(),
        !contains_word(s, format_token()),
    ensures
        !occurs_at(s + format_group(), i, format_group()),
        !occurs_at(s, i, format_group()),
{
    lemma_group_facts();
    let u = s + format_group();
    let g = format_group();
    if occurs_at(s, i, g) {
        assert forall|k: int| 0 <= k < 7 implies s.subrange(i + 3, i + 10)[k] == format_token()[k] by {
            assert(s.subrange(i, i + 12)[k + 3] == g[k + 3]);
        }
        assert(s.subrange(i + 3, i + 10) =~= format_token());
        assert(occurs_at(s, i + 3, format_token()));
    }
    if occurs_at(u, i, g) {
        if i + 12 <= s.len() {
            assert(s.subrange(i, i + 12) =~= u.subrange(i, i + 12));
            assert(occurs_at(s, i, g));
        } else {
            let d = s.len() - i;
            assert(u.subrange(i, i + 12)[d] == g[d]);
            assert(u[s.len() as int] == g[0]);
        }
    }
}

spec fn with_format(r: Result<(Seq<Token>, Seq<Seq<char>>), PatternError>) -> Result<(Seq<Token>, Seq<Seq<char>>), PatternError> {
    match r {
        Ok(v) => Ok((v.0.push(Token::Format), v.1.push(format_name()))),
        Err(e) => Err(e),
    }
}

proof fn lemma_parse_lit_close(s: Seq<char>, i: int, toks: Seq<Token>, names: Seq<Seq<char>>, c: char)
    requires
        0 <= i < s.len(),
        !occurs_at(s, i, format_group()),
        !occurs_at(s + format_group(), i, format_group()),
        s[i] == c,
        c != '*',
        c != ':',
        !contains_word(s, format_token()),
        !names.contains(format_name()),
    ensures
        parse_from(s + format_group(), i, toks, names) == with_format(parse_from(s, i, toks, names)),
    decreases s.len() - i, 0int,
{
    lemma_parse_append(s, i + 1, toks.push(Token::Lit(c)), names);
    let u = s + format_group();
    assert(u[i] == c);
    lemma_parse_lit_step(u, i, toks, names, c);
    lemma_parse_lit_step(s, i, toks, names, c);
}

proof fn lemma_parse_append(
    s: Seq<char>,
    i: int,
    toks: Seq<Token>,
    names: Seq<Seq<char>>,
)
    requires
        0 <= i <= s.len(),
        !contains_word(s, format_token()),
        !names.contains(format_name()),
    ensures
        parse_from(s + format_group(), i, toks, names) == with_format(parse_from(s, i, toks, names)),
    decreases s.len() - i, 1int,
{
    lemma_group_facts();
    let u = s + format_group();
    let g = format_group();
    if i == s.len() {
        assert(u.subrange(i, i + 12) =~= g);
        assert(parse_from(u, i + 12, toks.push(Token::Format), names.push(format_name())) == Ok::<
            _,
            PatternError,
        >((toks.push(Token::Format), names.push(format_name()))));
        assert(parse_from(u, i, toks, names) == with_format(parse_from(s, i, toks, names)));
    } else {
        lemma_no_group_inside(s, i);
        assert(u[i] == s[i]);
        if i + 1 < s.len() {
            assert(u[i + 1] == s[i + 1]);
        } else {
            assert(u[i + 1] == '(');
        }
        if s[i] == '*' && i + 1 < s.len() && s[i + 1] == '*' {
            lemma_parse_append(s, i + 2, toks.push(Token::DoubleStar), names);
            assert(parse_from(u, i, toks, names) == parse_from(u, i + 2, toks.push(Token::DoubleStar), names));
            assert(parse_from(u, i, toks, names) == with_format(parse_from(s, i, toks, names)));
        } else if s[i] == '*' {
            lemma_parse_append(s, i + 1, toks.push(Token::Star), names);
            assert(parse_from(u, i, toks, names) == parse_from(u, i + 1, toks.push(Token::Star), names));
            assert(parse_from(u, i, toks, names) == with_format(parse_from(s, i, toks, names)));
        } else if s[i] == ':' {
            lemma_ident_end_append(s, i + 1);
            let j = ident_end(s, i + 1);
            if j > i + 1 && !names.contains(s.subrange(i + 1, j)) {
                assert(u.subrange(i + 1, j) =~= s.subrange(i + 1, j));
                if s.subrange(i + 1, j) == format_name() {
                    assert forall|k: int| 1 <= k < 7 implies s.subrange(i, i + 7)[k]
                        == format_token()[k] by {
                        assert(s.subrange(i + 1, j)[k - 1] == format_name()[k - 1]);
                    }
                    assert(s.subrange(i, i + 7) =~= format_token());
                    assert(occurs_at(s, i, format_token()));
                }
                let nn = names.push(s.subrange(i + 1, j));
                assert(!nn.contains(format_name())) by {
                    if nn.contains(format_name()) {
                        let k = choose|k: int| 0 <= k < nn.len() && nn[k] == format_name();
                        if k < names.len() {
                            assert(names[k] == format_name());
                        }
                    }
                }
                lemma_parse_append(s, j, toks.push(Token::Var), nn);
                assert(parse_from(u, i, toks, names) == parse_from(u, j, toks.push(Token::Var), nn));
                assert(parse_from(u, i, toks, names) == with_format(parse_from(s, i, toks, names)));
            } else {
                assert(u.subrange(i + 1, j) =~= s.subrange(i + 1, j));
                assert(parse_from(u, i, toks, names) == with_format(parse_from(s, i, toks, names)));
            }
        } else {
            lemma_parse_lit_close(s, i, toks, names, s[i]);
        }
    }
}

proof fn lemma_parse_lit_step(u: Seq<char>, i: int, toks: Seq<Token>, names: Seq<Seq<char>>, c: char)
    requires
        0 <= i < u.len(),
        !occurs_at(u, i, format_group()),
        u[i] == c,
        c != '*',
        c != ':',
    ensures
        parse_from(u, i, toks, names) == parse_from(u, i + 1, toks.push(Token::Lit(c)), names),
{
}

/// The format variable comes last: a pattern that does not name `:format` itself
/// compiles, once augmented, to its own tokens and variables, in their order of
/// appearance, followed by the optional format group under the name `format`; a
/// pattern that does not compile is refused for the same reason once augmented.
pub proof fn lemma_format_variable_last(s: Seq<char>)
    requires
        !contains_word(s, format_token()),
    ensures
        parse(augment(s)) == match parse(s) {
            Ok(v) => Ok::<_, PatternError>((v.0.push(Token::Format), v.1.push(format_name()))),
            Err(e) => Err(e),
        },
        parse(augment(s)) matches Ok(v) ==> v.1.last() == format_name(),
{
    lemma_parse_append(s, 0, seq![], seq![]);
}

} // verus!
