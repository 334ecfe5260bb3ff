//! The route table and its matcher compilation. A pattern such as
//! `/users/*` is escaped and anchored, each `*` standing for zero or more
//! characters of the fixed class `[A-Za-z0-9\-_~.]*` (a routing
//! compatibility contract), and compiled through the `regex` crate behind
//! trusted wrappers. Dispatch walks the table in registration order and the
//! first matching pattern wins. The listening socket, the handlers and the
//! accept loop belong to the embedder, which keeps one handler per
//! registered route, keyed by the index `match_route` returns.
use crate::errors::FailedToCompileRoute;
use vstd::prelude::*;
use vstd::string::StrSliceExecFns;
use vstd::string::StringExecFns;

verus! {

#[verifier::external_type_specification]
#[verifier::external_body]
pub struct ExRegex(regex::Regex);

/// The pattern a compiled regex holds, as `regex::Regex::as_str` returns it.
pub uninterp spec fn regex_pattern(re: regex::Regex) -> Seq<char>;

/// Whether `regex::Regex::new` accepts a pattern: a function of the pattern
/// alone (syntactic validity, within the default size limit).
pub uninterp spec fn regex_valid(pattern: Seq<char>) -> bool;

/// Whether a pattern matches anywhere in a haystack, as
/// `regex::Regex::is_match` decides it: a function of the two alone.
pub uninterp spec fn regex_match(pattern: Seq<char>, text: Seq<char>) -> bool;

/// Relies on regex::Regex::new: it returns `Ok` exactly on patterns it can
/// compile (valid syntax within the default size limit), and the compiled
/// value holds the pattern it was given.
#[verifier::external_body]
fn regex_new(pattern: &str) -> (r: Option<regex::Regex>)
    ensures
        r is Some <==> regex_valid(pattern@),
        r matches Some(re) ==> regex_pattern(re) == pattern@,
{
    regex::Regex::new(pattern).ok()
}

/// Relies on regex::Regex::is_match: whether the compiled pattern matches
/// anywhere in the haystack, a deterministic function of pattern and
/// haystack.
#[verifier::external_body]
fn regex_is_match(re: &regex::Regex, text: &str) -> (r: bool)
    ensures
        r == regex_match(regex_pattern(*re), text@),
{
    re.is_match(text)
}

/// How one route character is written in the compiled pattern: `/` and `.`
/// are escaped, `*` becomes the wildcard class, anything else stands as
/// itself.
pub open spec fn spec_escape_char(c: char) -> Seq<char> {
    if c == '/' {
        "\\/"@
    } else if c == '.' {
        "\\."@
    } else if c == '*' {
        "[A-Za-z0-9\\-_~.]*"@
    } else {
        seq![c]
    }
}

pub open spec fn spec_escaped(route: Seq<char>) -> Seq<char>
    decreases route.len(),
{
    if route.len() == 0 {
        Seq::empty()
    } else {
        spec_escape_char(route[0]) + spec_escaped(route.skip(1))
    }
}

/// The anchored matcher text a route string compiles to.
pub open spec fn spec_route_pattern(route: Seq<char>) -> Seq<char> {
    "^"@ + spec_escaped(route) + "$"@
}

/// Build the anchored matcher text for a route string.
fn route_pattern(route: &str) -> (r: String)
    ensures
        r@ == spec_route_pattern(route@),
{
    let mut out = String::new();
    out.append("^");
    let n = route.unicode_len();
    proof {
        assert(route@.skip(0) =~= route@);
        assert(out@ =~= "^"@ + Seq::<char>::empty());
        assert(out@ + spec_escaped(route@) =~= "^"@ + spec_escaped(route@));
    }
    for i in 0..n
        invariant
            n == route@.len(),
            out@ + spec_escaped(route@.skip(i as int)) == "^"@ + spec_escaped(route@),
    {
        proof {
            assert(route@.skip(i as int)[0] == route@[i as int]);
            assert(route@.skip(i as int).skip(1) =~= route@.skip(i + 1));
        }
        let ghost prev = out@;
        let c = route.get_char(i);
        if c == '/' {
            out.append("\\/");
        } else if c == '.' {
            out.append("\\.");
        } else if c == '*' {
            out.append("[A-Za-z0-9\\-_~.]*");
        } else {
            let piece = route.substring_char(i, i + 1);
            proof {
                assert(piece@ =~= seq![route@[i as int]]);
            }
            out.append(piece);
        }
        proof {
            assert(out@ =~= prev + spec_escape_char(route@[i as int]));
            assert(prev + (spec_escape_char(route@[i as int]) + spec_escaped(route@.skip(i + 1)))
                =~= (prev + spec_escape_char(route@[i as int])) + spec_escaped(route@.skip(i + 1)));
        }
    }
    proof {
        assert(route@.skip(n as int) =~= Seq::<char>::empty());
        assert(spec_escaped(Seq::<char>::empty()) =~= Seq::<char>::empty());
        assert(out@ =~= "^"@ + spec_escaped(route@));
    }
    out.append("$");
    proof {
        assert(("^"@ + spec_escaped(route@)) + "$"@ =~= spec_route_pattern(route@));
    }
    out
}

/// One registered route: its compiled matcher. The handler it dispatches to
/// belongs to the embedder, keyed by the route's position in the table.
pub struct Route {
    matcher: regex::Regex,
}

impl View for Route {
    type V = Seq<char>;

    closed spec fn view(&self) -> Seq<char> {
        regex_pattern(self.matcher)
    }
}

/// The index of the first pattern that matches the uri, in registration
/// order.
pub open spec fn spec_first_match(pats: Seq<Seq<char>>, uri: Seq<char>) -> Option<int>
    decreases pats.len(),
{
    if pats.len() == 0 {
        None
    } else if regex_match(pats[0], uri) {
        Some(0)
    } else {
        match spec_first_match(pats.skip(1), uri) {
            Some(i) => Some(i + 1),
            None => None,
        }
    }
}

/// Law: the winning route matches and no earlier route does; when nothing
/// matches, no route matches at all.
pub proof fn lemma_first_match_characterization(pats: Seq<Seq<char>>, uri: Seq<char>)
    ensures
        match spec_first_match(pats, uri) {
            Some(i) => 0 <= i < pats.len() && regex_match(pats[i], uri) && forall|j: int|
                0 <= j < i ==> !regex_match(pats[j], uri),
            None => forall|j: int| 0 <= j < pats.len() ==> !regex_match(pats[j], uri),
        },
    decreases pats.len(),
{
    if pats.len() > 0 && !regex_match(pats[0], uri) {
        lemma_first_match_characterization(pats.skip(1), uri);
        assert forall|j: int| 1 <= j < pats.len() implies pats.skip(1)[j - 1] == pats[j] by {}
    }
}

proof fn lemma_first_match_complete(pats: Seq<Seq<char>>, uri: Seq<char>, i: int)
    requires
        0 <= i < pats.len(),
        regex_match(pats[i], uri),
        forall|j: int| 0 <= j < i ==> !regex_match(pats[j], uri),
    ensures
        spec_first_match(pats, uri) == Some(i),
    decreases pats.len(),
{
    if i > 0 {
        assert(pats.skip(1)[i - 1] == pats[i]);
        assert forall|j: int| 0 <= j < i - 1 implies !regex_match(pats.skip(1)[j], uri) by {
            assert(pats.skip(1)[j] == pats[j + 1]);
        }
        lemma_first_match_complete(pats.skip(1), uri, i - 1);
    }
}

proof fn lemma_first_match_none(pats: Seq<Seq<char>>, uri: Seq<char>)
    requires
        forall|j: int| 0 <= j < pats.len() ==> !regex_match(pats[j], uri),
    ensures
        spec_first_match(pats, uri) is None,
    decreases pats.len(),
{
    if pats.len() > 0 {
        assert forall|j: int| 0 <= j < pats.skip(1).len() implies !regex_match(
            pats.skip(1)[j],
            uri,
        ) by {
            assert(pats.skip(1)[j] == pats[j + 1]);
        }
        lemma_first_match_none(pats.skip(1), uri);
    }
}

/// Law: registering a pattern a second time keeps both entries, and
/// dispatch still prefers the earlier of any two matching entries: when the
/// route at `i` matches, the winner's index is at most `i`, so a duplicate
/// registered later than a matching entry never wins.
pub proof fn lemma_first_registered_wins(pats: Seq<Seq<char>>, uri: Seq<char>, i: int)
    requires
        0 <= i < pats.len(),
        regex_match(pats[i], uri),
    ensures
        spec_first_match(pats, uri) matches Some(w) && 0 <= w <= i,
{
    lemma_first_match_characterization(pats, uri);
    match spec_first_match(pats, uri) {
        Some(w) => {
            if w > i {
                assert(!regex_match(pats[i], uri));
            }
        },
        None => {
            assert(!regex_match(pats[i], uri));
        },
    }
}

/// Why a transport write or shutdown failed; the embedder's stream
/// implementation maps its platform error to this.
#[derive(Debug, PartialEq, Eq, Structural, Clone, Copy)]
pub struct StreamError;

/// What the dispatch cycle needs of a connection's write half. The embedder
/// implements this for its platform stream; every response starts with the
/// fixed status line `HTTP/1.1 200\r\n\r\n` and no other status is ever
/// produced.
pub trait ServerStream {
    /// Close the write half of the connection.
    fn close_response(&self) -> Result<(), StreamError>;

    /// Write the fixed status line alone, then close the write half.
    fn write_empty(&mut self) -> Result<(), StreamError>;

    /// Write the fixed status line, then the body bytes, then close the
    /// write half.
    fn write_bytes(&mut self, response: &[u8]) -> Result<(), StreamError>;
}

/// The configuration a server is bound from: address, port and TTL are
/// handed to the embedder's transport at bind time; the routes are compiled
/// here, at registration time, the only place a routing error can surface.
pub struct ServerBuilder {
    pub ip_address: Option<String>,
    pub port: Option<u16>,
    pub ttl: Option<u32>,
    pub routes: Vec<Route>,
}

impl View for ServerBuilder {
    type V = Seq<Seq<char>>;

    open spec fn view(&self) -> Seq<Seq<char>> {
        self.routes@.map(|i: int, r: Route| r@)
    }
}

impl ServerBuilder {
    /// A builder with nothing configured; the embedder's defaults apply at
    /// bind time.
    pub fn new() -> (r: Self)
        ensures
            r.ip_address is None,
            r.port is None,
            r.ttl is None,
            r@ == Seq::<Seq<char>>::empty(),
    {
        let r = ServerBuilder { ip_address: None, port: None, ttl: None, routes: Vec::new() };
        proof {
            assert(r@ =~= Seq::<Seq<char>>::empty());
        }
        r
    }

    /// Set the address to bind to.
    pub fn ip_address(self, ip: String) -> (r: Self)
        ensures
            r.ip_address == Some(ip),
            r.port == self.port,
            r.ttl == self.ttl,
            r@ == self@,
    {
        ServerBuilder { ip_address: Some(ip), ..self }
    }

    /// Set the port to bind to.
    pub fn port(self, port: u16) -> (r: Self)
        ensures
            r.port == Some(port),
            r.ip_address == self.ip_address,
            r.ttl == self.ttl,
            r@ == self@,
    {
        ServerBuilder { port: Some(port), ..self }
    }

    /// Set the socket's time to live.
    pub fn ttl(self, ttl: u32) -> (r: Self)
        ensures
            r.ttl == Some(ttl),
            r.ip_address == self.ip_address,
            r.port == self.port,
            r@ == self@,
    {
        ServerBuilder { ttl: Some(ttl), ..self }
    }

    /// Register a route pattern for GET dispatch. The pattern is compiled
    /// once, here; a pattern the matcher engine refuses fails with
    /// `FailedToCompileRoute` and adds nothing. Registering the same pattern
    /// twice keeps two entries.
    pub fn get(self, route: &str) -> (r: Result<Self, FailedToCompileRoute>)
        ensures
            r is Ok <==> regex_valid(spec_route_pattern(route@)),
            r matches Ok(b) ==> b@ == self@.push(spec_route_pattern(route@)) && b.ip_address
                == self.ip_address && b.port == self.port && b.ttl == self.ttl,
    {
        let ghost sv = self@;
        let pattern = route_pattern(route);
        match regex_new(pattern.as_str()) {
            Some(re) => {
                let ServerBuilder { ip_address, port, ttl, mut routes } = self;
                routes.push(Route { matcher: re });
                let b = ServerBuilder { ip_address, port, ttl, routes };
                proof {
                    assert(b@ =~= sv.push(spec_route_pattern(route@)));
                }
                Ok(b)
            },
            None => Err(FailedToCompileRoute),
        }
    }

    /// The number of registered routes; the embedder keeps one handler per
    /// route, so `match_route`'s result indexes its handler list too.
    pub fn route_count(&self) -> (r: usize)
        ensures
            r == self@.len(),
    {
        self.routes.len()
    }

    /// The first registered route whose pattern matches the sanitized uri,
    /// in registration order; `None` when no route matches.
    pub fn match_route(&self, uri: &str) -> (r: Option<usize>)
        ensures
            match r {
                Some(i) => spec_first_match(self@, uri@) == Some(i as int),
                None => spec_first_match(self@, uri@) is None,
            },
            r matches Some(i) ==> i < self@.len() && regex_match(self@[i as int], uri@)
                && forall|j: int| 0 <= j < i ==> !regex_match(self@[j], uri@),
            r is None ==> forall|j: int| 0 <= j < self@.len() ==> !regex_match(self@[j], uri@),
    {
        let n = self.routes.len();
        proof {
            assert(self@.len() == self.routes@.len());
        }
        for i in 0..n
            invariant
                n == self.routes.len(),
                n == self@.len(),
                forall|j: int| 0 <= j < i ==> !regex_match(self@[j], uri@),
        {
            proof {
                assert(self@[i as int] == self.routes@[i as int]@);
            }
            if regex_is_match(&self.routes[i].matcher, uri) {
                proof {
                    lemma_first_match_complete(self@, uri@, i as int);
                }
                return Some(i);
            }
        }
        proof {
            lemma_first_match_none(self@, uri@);
        }
        None
    }
}

} // verus!
