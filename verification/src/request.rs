//! The request parser: the first line gives method, target and protocol;
//! the target's path is sanitized and its query handed to the query parser;
//! the remaining lines are matched case-insensitively against the known
//! header names, and unknown or malformed headers vanish from the output
//! without failing the request.
use crate::errors::RequestError;
use crate::mime::{spec_parse_many, ContentType};
use crate::query::{spec_query, Query};
use crate::text::{
    eq_ignore_case, eq_upper, join_from, spec_join, spec_split, spec_trim, spec_trim_char, split,
    str_eq, trim, trim_char,
};
use vstd::prelude::*;

verus! {

/// The closed set of request methods; any other token is rejected.
#[derive(Debug, PartialEq, Eq, Structural, Clone, Copy)]
pub enum Method {
    Get,
    Post,
}

/// What `Method::parse` returns: the trimmed token must equal `GET` or
/// `POST` case-sensitively.
pub open spec fn spec_method(s: Seq<char>) -> Result<Method, RequestError> {
    let t = spec_trim(s);
    if t == "GET"@ {
        Ok(Method::Get)
    } else if t == "POST"@ {
        Ok(Method::Post)
    } else {
        Err(RequestError::BadMethod)
    }
}

impl Method {
    /// Parse a method token, case-sensitively.
    pub fn parse(method: &str) -> (r: Result<Method, RequestError>)
        ensures
            r == spec_method(method@),
    {
        let t = trim(method);
        if str_eq(t, "GET") {
            Ok(Method::Get)
        } else if str_eq(t, "POST") {
            Ok(Method::Post)
        } else {
            Err(RequestError::BadMethod)
        }
    }
}

/// The parts that remain after dropping empty ones, in order.
pub open spec fn spec_nonempty(parts: Seq<Seq<char>>) -> Seq<Seq<char>>
    decreases parts.len(),
{
    if parts.len() == 0 {
        Seq::empty()
    } else if parts[0].len() > 0 {
        seq![parts[0]] + spec_nonempty(parts.skip(1))
    } else {
        spec_nonempty(parts.skip(1))
    }
}

/// What `sanatise_uri` returns: all leading and trailing dots trimmed from
/// the whole path, empty segments dropped, and the rest rejoined with `/`.
pub open spec fn spec_sanitize(s: Seq<char>) -> Seq<char> {
    spec_join(spec_nonempty(spec_split(spec_trim_char(s, '.'), "/"@)), "/"@)
}

/// Sanitize a request path: `./a//b/.` becomes `a/b`.
pub fn sanatise_uri(uri: &str) -> (r: String)
    ensures
        r@ == spec_sanitize(uri@),
{
    let t = trim_char(uri, '.');
    proof {
        reveal_strlit("/");
    }
    let parts = split(t, "/");
    let ghost dv = parts.deep_view();
    let mut kept: Vec<String> = Vec::new();
    proof {
        assert(dv.skip(0) =~= dv);
        assert(kept.deep_view() =~= Seq::<Seq<char>>::empty());
        assert(Seq::<Seq<char>>::empty() + spec_nonempty(dv) =~= spec_nonempty(dv));
    }
    let n = parts.len();
    for i in 0..n
        invariant
            n == parts.len(),
            dv == parts.deep_view(),
            spec_nonempty(dv) == kept.deep_view() + spec_nonempty(dv.skip(i as int)),
    {
        proof {
            assert(parts.deep_view()[i as int] == parts@[i as int]@);
            assert(dv.skip(i as int)[0] == dv[i as int]);
            assert(dv.skip(i as int).skip(1) =~= dv.skip(i + 1));
        }
        let ghost prev = kept.deep_view();
        if parts[i].as_str().unicode_len() > 0 {
            kept.push(parts[i].clone());
            proof {
                assert(kept.deep_view() =~~= prev.push(dv[i as int]));
                assert(prev + (seq![dv[i as int]] + spec_nonempty(dv.skip(i + 1))) =~= prev.push(
                    dv[i as int],
                ) + spec_nonempty(dv.skip(i + 1)));
            }
        }
    }
    proof {
        assert(dv.skip(n as int) =~= Seq::<Seq<char>>::empty());
        assert(kept.deep_view() + Seq::<Seq<char>>::empty() =~= kept.deep_view());
        assert(kept.deep_view().skip(0) =~= kept.deep_view());
    }
    join_from(&kept, 0, "/")
}

/// No character of `p` is `c`.
pub open spec fn char_free(p: Seq<char>, c: char) -> bool {
    forall|j: int| 0 <= j < p.len() ==> p[j] != c
}

proof fn lemma_split_char_parts_free(s: Seq<char>, c: char)
    ensures
        forall|k: int|
            0 <= k < spec_split(s, seq![c]).len() ==> char_free(
                #[trigger] spec_split(s, seq![c])[k],
                c,
            ),
    decreases s.len(),
{
    let pat = seq![c];
    if s.len() < 1 {
        assert(char_free(s, c));
    } else if s.subrange(0, 1) == pat {
        lemma_split_char_parts_free(s.skip(1), c);
        let rest = spec_split(s.skip(1), pat);
        assert(spec_split(s, pat) == seq![Seq::<char>::empty()] + rest);
        assert(char_free(Seq::<char>::empty(), c));
        assert forall|k: int| 0 <= k < spec_split(s, pat).len() implies char_free(
            #[trigger] spec_split(s, pat)[k],
            c,
        ) by {
            if k > 0 {
                assert(spec_split(s, pat)[k] == rest[k - 1]);
            }
        }
    } else {
        assert(s[0] != c) by {
            if s[0] == c {
                assert(s.subrange(0, 1) =~= pat);
            }
        }
        lemma_split_char_parts_free(s.skip(1), c);
        let rest = spec_split(s.skip(1), pat);
        assert(rest.len() >= 1) by {
            crate::text::lemma_split_len(s.skip(1), pat);
        }
        assert(spec_split(s, pat) == seq![seq![s[0]] + rest[0]] + rest.skip(1));
        assert(char_free(seq![s[0]] + rest[0], c)) by {
            assert(char_free(rest[0], c));
        }
        assert forall|k: int| 0 <= k < spec_split(s, pat).len() implies char_free(
            #[trigger] spec_split(s, pat)[k],
            c,
        ) by {
            if k > 0 {
                assert(spec_split(s, pat)[k] == rest.skip(1)[k - 1]);
                assert(rest.skip(1)[k - 1] == rest[k]);
            }
        }
    }
}

proof fn lemma_split_join(parts: Seq<Seq<char>>, c: char)
    requires
        parts.len() > 0,
        forall|k: int| 0 <= k < parts.len() ==> char_free(#[trigger] parts[k], c),
    ensures
        spec_split(spec_join(parts, seq![c]), seq![c]) == parts,
    decreases parts.len(),
{
    let pat = seq![c];
    if parts.len() == 1 {
        let p = parts[0];
        assert(spec_join(parts, pat) == p);
        assert forall|j: int| !crate::text::has_prefix_at(p, pat, j) by {
            if crate::text::has_prefix_at(p, pat, j) {
                assert(p.subrange(j, j + 1) == pat);
                assert(p[j] == p.subrange(j, j + 1)[0]);
                assert(p[j] == c);
                assert(char_free(parts[0], c));
            }
        }
        crate::text::lemma_split_no_match(p, pat);
        assert(seq![p] =~= parts);
    } else {
        let p0 = parts[0];
        let tail = spec_join(parts.skip(1), pat);
        let joined = p0 + pat + tail;
        assert(spec_join(parts, pat) == joined);
        let i = p0.len() as int;
        assert(crate::text::has_prefix_at(joined, pat, i)) by {
            assert(joined.subrange(i, i + 1) =~= pat);
        }
        assert forall|j: int| 0 <= j < i implies !crate::text::has_prefix_at(joined, pat, j) by {
            if crate::text::has_prefix_at(joined, pat, j) {
                assert(joined.subrange(j, j + 1) == pat);
                assert(joined.subrange(j, j + 1)[0] == joined[j]);
                assert(joined[j] == c);
                assert(joined[j] == p0[j]);
                assert(char_free(parts[0], c));
            }
        }
        crate::text::lemma_split_at_match(joined, pat, i);
        assert(joined.take(i) =~= p0);
        assert(joined.skip(i + 1) =~= tail);
        assert forall|k: int| 0 <= k < parts.skip(1).len() implies char_free(
            #[trigger] parts.skip(1)[k],
            c,
        ) by {
            assert(parts.skip(1)[k] == parts[k + 1]);
        }
        lemma_split_join(parts.skip(1), c);
        assert(seq![p0] + parts.skip(1) =~= parts);
    }
}

proof fn lemma_nonempty_id(parts: Seq<Seq<char>>)
    requires
        forall|k: int| 0 <= k < parts.len() ==> (#[trigger] parts[k]).len() > 0,
    ensures
        spec_nonempty(parts) == parts,
    decreases parts.len(),
{
    if parts.len() > 0 {
        lemma_nonempty_id(parts.skip(1));
        assert(seq![parts[0]] + parts.skip(1) =~= parts);
    }
}

proof fn lemma_nonempty_parts(parts: Seq<Seq<char>>)
    ensures
        forall|k: int|
            0 <= k < spec_nonempty(parts).len() ==> (#[trigger] spec_nonempty(parts)[k]).len() > 0,
    decreases parts.len(),
{
    if parts.len() > 0 {
        lemma_nonempty_parts(parts.skip(1));
        if parts[0].len() > 0 {
            assert forall|k: int| 0 <= k < spec_nonempty(parts).len() implies (
            #[trigger] spec_nonempty(parts)[k]).len() > 0 by {
                if k > 0 {
                    assert(spec_nonempty(parts)[k] == spec_nonempty(parts.skip(1))[k - 1]);
                }
            }
        }
    }
}

proof fn lemma_nonempty_char_free(parts: Seq<Seq<char>>, c: char)
    requires
        forall|k: int| 0 <= k < parts.len() ==> char_free(#[trigger] parts[k], c),
    ensures
        forall|k: int|
            0 <= k < spec_nonempty(parts).len() ==> char_free(#[trigger] spec_nonempty(parts)[k], c),
    decreases parts.len(),
{
    if parts.len() > 0 {
        assert forall|k: int| 0 <= k < parts.skip(1).len() implies char_free(
            #[trigger] parts.skip(1)[k],
            c,
        ) by {
            assert(parts.skip(1)[k] == parts[k + 1]);
        }
        lemma_nonempty_char_free(parts.skip(1), c);
        if parts[0].len() > 0 {
            assert forall|k: int| 0 <= k < spec_nonempty(parts).len() implies char_free(
                #[trigger] spec_nonempty(parts)[k],
                c,
            ) by {
                if k > 0 {
                    assert(spec_nonempty(parts)[k] == spec_nonempty(parts.skip(1))[k - 1]);
                }
            }
        }
    }
}

proof fn lemma_join_nonempty_len(parts: Seq<Seq<char>>, sep: Seq<char>)
    requires
        parts.len() > 0,
        forall|k: int| 0 <= k < parts.len() ==> (#[trigger] parts[k]).len() > 0,
    ensures
        spec_join(parts, sep).len() > 0,
        spec_join(parts, sep)[0] == parts[0][0],
    decreases parts.len(),
{
    if parts.len() > 1 {
        assert(spec_join(parts, sep) == parts[0] + sep + spec_join(parts.skip(1), sep));
    }
}

/// Law: path sanitization is idempotent. Sanitizing an already-sanitized
/// path returns it unchanged, provided the sanitized form neither starts
/// nor ends with a dot (a path such as `b/a./`, whose sanitized form
/// `b/a.` ends with a dot, loses that dot on a second pass).
pub proof fn lemma_sanitize_idempotent(s: Seq<char>)
    requires
        spec_sanitize(s).len() > 0 ==> spec_sanitize(s)[0] != '.',
        spec_sanitize(s).len() > 0 ==> spec_sanitize(s)[spec_sanitize(s).len() - 1] != '.',
    ensures
        spec_sanitize(spec_sanitize(s)) == spec_sanitize(s),
{
    reveal_strlit("/");
    assert("/"@ =~= seq!['/']);
    let slash = seq!['/'];
    let raw = spec_split(spec_trim_char(s, '.'), "/"@);
    let segs = spec_nonempty(raw);
    let t = spec_sanitize(s);
    assert(t == spec_join(segs, slash));
    lemma_split_char_parts_free(spec_trim_char(s, '.'), '/');
    lemma_nonempty_char_free(raw, '/');
    lemma_nonempty_parts(raw);
    if segs.len() == 0 {
        assert(t =~= Seq::<char>::empty());
        assert(spec_trim_char(t, '.') == t);
        assert(spec_split(t, slash) == seq![t]);
        assert(spec_nonempty(seq![t]) =~= Seq::<Seq<char>>::empty()) by {
            assert(seq![t].skip(1) =~= Seq::<Seq<char>>::empty());
            assert(spec_nonempty(Seq::<Seq<char>>::empty()) =~= Seq::<Seq<char>>::empty());
        }
        assert(spec_sanitize(t) =~= t);
    } else {
        lemma_join_nonempty_len(segs, slash);
        assert(t.len() > 0);
        assert(spec_trim_char(t, '.') == t) by {
            assert(crate::text::spec_trim_char_left(t, '.') == t);
            assert(crate::text::spec_trim_char_right(t, '.') == t);
        }
        lemma_split_join(segs, '/');
        assert(spec_split(t, slash) == segs);
        lemma_nonempty_id(segs);
        assert(spec_sanitize(t) == spec_join(segs, slash));
    }
}

/// The accumulated buffer holds the four-byte header terminator: the read
/// loop stops reading, closes the read half, and hands the whole buffer to
/// `Request::parse` once this holds.
pub open spec fn spec_has_terminator(s: Seq<char>) -> bool {
    exists|i: int| crate::text::has_prefix_at(s, "\r\n\r\n"@, i)
}

/// Whether the buffer read so far already holds the header terminator.
pub fn has_header_terminator(buffer: &str) -> (r: bool)
    ensures
        r == spec_has_terminator(buffer@),
{
    proof {
        reveal_strlit("\r\n\r\n");
    }
    crate::text::contains_pat(buffer, "\r\n\r\n")
}

/// The ghost shape of a parsed header: the value with its surrounding
/// whitespace gone, or the content types an `Accept` value yielded.
pub enum HeaderView {
    Host(Seq<char>),
    UserAgent(Seq<char>),
    Accept(Seq<ContentType>),
}

/// A recognized request header. Unrecognized names are never represented;
/// their lines simply vanish from the parsed request.
#[derive(Debug, Clone)]
pub enum Header {
    Host(String),
    UserAgent(String),
    Accept(Vec<ContentType>),
}

impl View for Header {
    type V = HeaderView;

    open spec fn view(&self) -> HeaderView {
        match self {
            Header::Host(s) => HeaderView::Host(s@),
            Header::UserAgent(s) => HeaderView::UserAgent(s@),
            Header::Accept(v) => HeaderView::Accept(v@),
        }
    }
}

fn cts_eq(a: &Vec<ContentType>, b: &Vec<ContentType>) -> (r: bool)
    ensures
        r == (a@ == b@),
{
    if a.len() != b.len() {
        return false;
    }
    let n = a.len();
    for i in 0..n
        invariant
            n == a.len(),
            n == b.len(),
            forall|j: int| 0 <= j < i ==> a@[j] == b@[j],
    {
        if !(a[i] == b[i]) {
            return false;
        }
    }
    proof {
        assert(a@ =~= b@);
    }
    true
}

impl PartialEq for Header {
    fn eq(&self, other: &Self) -> (r: bool) {
        match self {
            Header::Host(a) => match other {
                Header::Host(b) => str_eq(a.as_str(), b.as_str()),
                _ => false,
            },
            Header::UserAgent(a) => match other {
                Header::UserAgent(b) => str_eq(a.as_str(), b.as_str()),
                _ => false,
            },
            Header::Accept(a) => match other {
                Header::Accept(b) => cts_eq(a, b),
                _ => false,
            },
        }
    }
}

impl vstd::std_specs::cmp::PartialEqSpecImpl for Header {
    open spec fn obeys_eq_spec() -> bool {
        true
    }

    open spec fn eq_spec(&self, other: &Self) -> bool {
        self@ == other@
    }
}

/// What `Header::parse` returns for one (already trimmed) header line: the
/// name before the first `:` is matched case-insensitively, the value after
/// it is trimmed; an unknown name, or an `Accept` value with no parseable
/// content type, yields nothing.
pub open spec fn spec_header(line: Seq<char>) -> Option<HeaderView> {
    let parts = spec_split(line, ":"@);
    let name = spec_trim(parts[0]);
    let value = spec_trim(spec_join(parts.skip(1), ":"@));
    if eq_upper(name, "HOST"@) {
        Some(HeaderView::Host(value))
    } else if eq_upper(name, "USER-AGENT"@) {
        Some(HeaderView::UserAgent(value))
    } else if eq_upper(name, "ACCEPT"@) {
        let cts = spec_parse_many(value);
        if cts.len() == 0 {
            None
        } else {
            Some(HeaderView::Accept(cts))
        }
    } else {
        None
    }
}

impl Header {
    /// Parse one header line; `None` skips just this line, never the whole
    /// request.
    pub fn parse(header: &str) -> (r: Option<Self>)
        ensures
            (r is Some) == (spec_header(header@) is Some),
            r matches Some(h) ==> spec_header(header@) == Some(h@),
    {
        proof {
            reveal_strlit(":");
        }
        let parts = split(header, ":");
        proof {
            assert(parts.deep_view()[0] == parts@[0]@);
        }
        let joined = join_from(&parts, 1, ":");
        let value = trim(joined.as_str());
        let name = trim(parts[0].as_str());
        if eq_ignore_case(name, "HOST") {
            Some(Header::Host(value.to_owned()))
        } else if eq_ignore_case(name, "USER-AGENT") {
            Some(Header::UserAgent(value.to_owned()))
        } else if eq_ignore_case(name, "ACCEPT") {
            match ContentType::parse_many(value.to_owned()) {
                Some(cts) => Some(Header::Accept(cts)),
                None => None,
            }
        } else {
            None
        }
    }
}

/// The ghost shape of a parsed request.
#[verifier::ext_equal]
pub struct RequestView {
    pub method: Method,
    pub uri: Seq<char>,
    pub query: Seq<(Seq<char>, Seq<char>)>,
    pub headers: Seq<HeaderView>,
}

/// A parsed request: its method, the sanitized path, the parsed query, and
/// the recognized headers in order of appearance.
#[derive(Debug)]
pub struct Request {
    pub method: Method,
    pub uri: String,
    pub query: Query,
    pub headers: Vec<Header>,
}

impl View for Request {
    type V = RequestView;

    open spec fn view(&self) -> RequestView {
        RequestView {
            method: self.method,
            uri: self.uri@,
            query: self.query@,
            headers: self.headers@.map(|i: int, h: Header| h@),
        }
    }
}

impl PartialEq for Request {
    fn eq(&self, other: &Self) -> (r: bool) {
        proof {
            assert(self@.headers.len() == self.headers@.len());
            assert(other@.headers.len() == other.headers@.len());
        }
        if !(self.method == other.method && self.uri == other.uri && self.query == other.query) {
            return false;
        }
        if self.headers.len() != other.headers.len() {
            return false;
        }
        let n = self.headers.len();
        for i in 0..n
            invariant
                n == self.headers.len(),
                n == other.headers.len(),
                forall|j: int| 0 <= j < i ==> self.headers@[j]@ == other.headers@[j]@,
        {
            if !(self.headers[i] == other.headers[i]) {
                proof {
                    assert(self@.headers[i as int] == self.headers@[i as int]@);
                    assert(other@.headers[i as int] == other.headers@[i as int]@);
                }
                return false;
            }
        }
        proof {
            assert(self@.headers =~= other@.headers);
            assert(self@ =~= other@);
        }
        true
    }
}

impl vstd::std_specs::cmp::PartialEqSpecImpl for Request {
    open spec fn obeys_eq_spec() -> bool {
        true
    }

    open spec fn eq_spec(&self, other: &Self) -> bool {
        self@ == other@
    }
}

/// The headers that survive parsing each line past the first, in order;
/// each line is trimmed first.
pub open spec fn spec_headers(lines: Seq<Seq<char>>) -> Seq<HeaderView>
    decreases lines.len(),
{
    if lines.len() == 0 {
        Seq::empty()
    } else {
        match spec_header(spec_trim(lines[0])) {
            Some(h) => seq![h] + spec_headers(lines.skip(1)),
            None => spec_headers(lines.skip(1)),
        }
    }
}

/// What `Request::parse` returns for a whole header block. Anything past
/// the first `\r\n\r\n` terminator is discarded; the first line must hold
/// exactly three space-separated tokens, a valid method and, compared
/// case-insensitively, the protocol `HTTP/1.1`; the target splits at its
/// first `?` into a path (sanitized) and a query.
pub open spec fn spec_request(s: Seq<char>) -> Result<RequestView, RequestError> {
    let head = spec_split(s, "\r\n\r\n"@)[0];
    let lines = spec_split(head, "\n"@);
    let first = spec_split(spec_trim(lines[0]), " "@);
    if first.len() != 3 {
        Err(RequestError::TooManyValues)
    } else {
        match spec_method(first[0]) {
            Err(e) => Err(e),
            Ok(m) => {
                let uri_parts = spec_split(first[1], "?"@);
                let uri = spec_sanitize(uri_parts[0]);
                let query = if uri_parts.len() > 1 {
                    spec_query(spec_join(uri_parts.skip(1), "?"@))
                } else {
                    Seq::empty()
                };
                if !eq_upper(first[2], "HTTP/1.1"@) {
                    Err(RequestError::BadProtocol)
                } else {
                    Ok(
                        RequestView {
                            method: m,
                            uri,
                            query,
                            headers: spec_headers(lines.skip(1)),
                        },
                    )
                }
            },
        }
    }
}

impl Request {
    /// Parse an accumulated header block into a request, or report why its
    /// first line was rejected.
    pub fn parse(req: String) -> (r: Result<Self, RequestError>)
        ensures
            (r is Ok) == (spec_request(req@) is Ok),
            r matches Ok(q) ==> spec_request(req@) == Ok::<RequestView, RequestError>(q@),
            r matches Err(e) ==> spec_request(req@) == Err::<RequestView, RequestError>(e),
    {
        proof {
            reveal_strlit("\r\n\r\n");
            reveal_strlit("\n");
            reveal_strlit(" ");
            reveal_strlit("?");
        }
        let blocks = split(req.as_str(), "\r\n\r\n");
        proof {
            assert(blocks.deep_view()[0] == blocks@[0]@);
        }
        let lines = split(blocks[0].as_str(), "\n");
        proof {
            assert(lines.deep_view()[0] == lines@[0]@);
        }
        let first_line = trim(lines[0].as_str());
        let first = split(first_line, " ");
        if first.len() != 3 {
            return Err(RequestError::TooManyValues);
        }
        proof {
            assert(first.deep_view()[0] == first@[0]@);
            assert(first.deep_view()[1] == first@[1]@);
            assert(first.deep_view()[2] == first@[2]@);
        }
        let method = match Method::parse(first[0].as_str()) {
            Ok(m) => m,
            Err(e) => {
                return Err(e);
            },
        };
        let uri_parts = split(first[1].as_str(), "?");
        proof {
            assert(uri_parts.deep_view()[0] == uri_parts@[0]@);
        }
        let uri = sanatise_uri(uri_parts[0].as_str());
        let query = if uri_parts.len() > 1 {
            Query::parse(join_from(&uri_parts, 1, "?"))
        } else {
            Query::default()
        };
        if !eq_ignore_case(first[2].as_str(), "HTTP/1.1") {
            return Err(RequestError::BadProtocol);
        }
        let ghost ldv = lines.deep_view();
        let mut headers: Vec<Header> = Vec::new();
        proof {
            assert(ldv.skip(1).skip(0) =~= ldv.skip(1));
            assert(headers@.map(|k: int, h: Header| h@) =~= Seq::<HeaderView>::empty());
            assert(Seq::<HeaderView>::empty() + spec_headers(ldv.skip(1)) =~= spec_headers(
                ldv.skip(1),
            ));
        }
        let n = lines.len();
        let mut i: usize = 1;
        while i < n
            invariant
                n == lines.len(),
                1 <= i <= n,
                ldv == lines.deep_view(),
                spec_headers(ldv.skip(1)) == headers@.map(|k: int, h: Header| h@) + spec_headers(
                    ldv.skip(i as int),
                ),
            decreases n - i,
        {
            proof {
                assert(lines.deep_view()[i as int] == lines@[i as int]@);
                assert(ldv.skip(i as int)[0] == ldv[i as int]);
                assert(ldv.skip(i as int).skip(1) =~= ldv.skip(i + 1));
            }
            let ghost prev = headers@.map(|k: int, h: Header| h@);
            let line = trim(lines[i].as_str());
            match Header::parse(line) {
                Some(h) => {
                    let ghost hv = h@;
                    headers.push(h);
                    proof {
                        assert(headers@.map(|k: int, h: Header| h@) =~= prev.push(hv));
                        assert(prev + (seq![hv] + spec_headers(ldv.skip(i + 1))) =~= prev.push(hv)
                            + spec_headers(ldv.skip(i + 1)));
                    }
                },
                None => {},
            }
            i += 1;
        }
        proof {
            assert(ldv.skip(n as int) =~= Seq::<Seq<char>>::empty());
            assert(headers@.map(|k: int, h: Header| h@) + Seq::<HeaderView>::empty()
                =~= headers@.map(|k: int, h: Header| h@));
        }
        let result = Request { method, uri, query, headers };
        proof {
            let sv = spec_request(req@);
            assert(sv is Ok);
            assert(result@ =~= sv.unwrap());
        }
        Ok(result)
    }
}

} // verus!
