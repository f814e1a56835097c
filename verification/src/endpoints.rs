//! Service addresses: the REST and WebSocket endpoints of a job service,
//! built with the `url` crate, the upload address, and the errors of job
//! requests.
use vstd::prelude::*;
use crate::text::{concat2, concat4, trim_seq, trim_chars, chars_of, string_of, push_str, has_suffix, ends_with};

verus! {

/// `url::ParseError`, carried as it is.
#[verifier::external_type_specification]
#[verifier::external_body]
pub struct ExUrlParseError(url::ParseError);

// ---------------------------------------------------------------------------
// The `url` crate
// ---------------------------------------------------------------------------
//
// A URL is held by its serialization (`Url::as_str`); each wrapper below turns
// that text back into a `Url` with `Url::parse`, makes one call, and hands back
// text. Where that parse fails, the wrapper hands back its `ParseError`.

/// `Url::parse`: the serialization of the URL parsed from the input, `None`
/// when it does not parse.
pub uninterp spec fn url_parsed(input: Seq<char>) -> Option<Seq<char>>;

/// `Url::parse`. Its result is named by [`url_parsed`]: `Ok` exactly when the
/// name gives a serialization, and then that serialization. What the WHATWG
/// parser accepts and how it normalises is not restated.
#[verifier::external_body]
fn url_parse(input: &str) -> (r: Result<String, url::ParseError>)
    ensures
        r is Ok <==> url_parsed(input@) is Some,
        r matches Ok(t) ==> url_parsed(input@) == Some(t@),
{
    match url::Url::parse(input) {
        Ok(u) => Ok(u.as_str().to_string()),
        Err(e) => Err(e),
    }
}

/// `Url::path` of the URL with this serialization.
pub uninterp spec fn url_path_of(url: Seq<char>) -> Seq<char>;

/// `Url::path`, named by [`url_path_of`]; `Err` exactly when the text does
/// not parse.
#[verifier::external_body]
fn url_path(url: &str) -> (r: Result<String, url::ParseError>)
    ensures
        r is Ok <==> url_parsed(url@) is Some,
        r matches Ok(t) ==> t@ == url_path_of(url@),
{
    match url::Url::parse(url) {
        Ok(u) => Ok(u.path().to_string()),
        Err(e) => Err(e),
    }
}

/// `Url::set_path`: the serialization after replacing the path.
pub uninterp spec fn url_with_path(url: Seq<char>, path: Seq<char>) -> Seq<char>;

/// `Url::set_path`, named by [`url_with_path`]; `Err` exactly when the text
/// does not parse.
#[verifier::external_body]
fn url_set_path(url: &str, path: &str) -> (r: Result<String, url::ParseError>)
    ensures
        r is Ok <==> url_parsed(url@) is Some,
        r matches Ok(t) ==> t@ == url_with_path(url@, path@),
{
    match url::Url::parse(url) {
        Ok(mut u) => {
            u.set_path(path);
            Ok(u.as_str().to_string())
        },
        Err(e) => Err(e),
    }
}

/// `Url::join`: the serialization of `input` resolved against the URL, `None`
/// when that does not parse.
pub uninterp spec fn url_joined(url: Seq<char>, input: Seq<char>) -> Option<Seq<char>>;

/// `Url::join`, named by [`url_joined`] as [`url_parse`] is.
#[verifier::external_body]
fn url_join(url: &str, input: &str) -> (r: Result<String, url::ParseError>)
    ensures
        r is Ok <==> url_joined(url@, input@) is Some,
        r matches Ok(t) ==> url_joined(url@, input@) == Some(t@),
{
    match url::Url::parse(url) {
        Ok(u) => match u.join(input) {
            Ok(j) => Ok(j.as_str().to_string()),
            Err(e) => Err(e),
        },
        Err(e) => Err(e),
    }
}

/// `Url::scheme` of the URL with this serialization.
pub uninterp spec fn url_scheme_of(url: Seq<char>) -> Seq<char>;

/// `Url::scheme`, named by [`url_scheme_of`]; `Err` exactly when the text
/// does not parse.
#[verifier::external_body]
fn url_scheme(url: &str) -> (r: Result<String, url::ParseError>)
    ensures
        r is Ok <==> url_parsed(url@) is Some,
        r matches Ok(t) ==> t@ == url_scheme_of(url@),
{
    match url::Url::parse(url) {
        Ok(u) => Ok(u.scheme().to_string()),
        Err(e) => Err(e),
    }
}

/// `Url::set_scheme`: the serialization with the new scheme, `None` when the
/// crate refuses the change.
pub uninterp spec fn url_with_scheme(url: Seq<char>, scheme: Seq<char>) -> Option<Seq<char>>;

/// `Url::set_scheme`, named by [`url_with_scheme`]; `Err` exactly when the
/// text does not parse, `Ok(None)` when the crate refuses the change.
#[verifier::external_body]
fn url_set_scheme(url: &str, scheme: &str) -> (r: Result<Option<String>, url::ParseError>)
    ensures
        r is Ok <==> url_parsed(url@) is Some,
        r matches Ok(o) ==> (o is Some <==> url_with_scheme(url@, scheme@) is Some),
        r matches Ok(Some(t)) ==> url_with_scheme(url@, scheme@) == Some(t@),
{
    match url::Url::parse(url) {
        Ok(mut u) => match u.set_scheme(scheme) {
            Ok(()) => Ok(Some(u.as_str().to_string())),
            Err(()) => Ok(None),
        },
        Err(e) => Err(e),
    }
}

/// The message of a `url::ParseError` (its `Display` text; not restated).
#[verifier::external_body]
fn url_error_text(e: &url::ParseError) -> String {
    e.to_string()
}

// ---------------------------------------------------------------------------
// Errors of job requests
// ---------------------------------------------------------------------------

/// Why a job request failed. Failures of the HTTP client, the WebSocket, the
/// event bus and the task runtime are carried as their messages, a response
/// status as its text (`404 Not Found`).
#[derive(Debug)]
pub enum JobError {
    Request(String),
    Url(url::ParseError),
    UnexpectedStatus(String),
    WebSocket(String),
    Emit(String),
    Join(String),
    InvalidResponse(String),
    InvalidServiceUrl,
}

impl JobError {
    /// The error's message (its `Display` text); for `Url`, the parser's
    /// message after the prefix.
    pub fn message(&self) -> (r: String)
        ensures
            match *self {
                JobError::Request(d) => r@ == "request error: "@ + d@,
                JobError::Url(_) => r@.len() >= 21 && r@.take(21) == "invalid service url: "@,
                JobError::WebSocket(d) => r@ == "websocket error: "@ + d@,
                JobError::Emit(d) => r@ == "event emit error: "@ + d@,
                JobError::Join(d) => r@ == "task join error: "@ + d@,
                JobError::InvalidResponse(d) => r@ == "invalid response: "@ + d@,
                JobError::InvalidServiceUrl => r@ == "service url is empty"@,
                JobError::UnexpectedStatus(s) => r@ == "unexpected response status: "@ + s@,
            },
    {
        match self {
            JobError::Request(d) => concat2("request error: ", d.as_str()),
            JobError::Url(e) => {
                let t = url_error_text(e);
                let r = concat2("invalid service url: ", t.as_str());
                proof {
                    reveal_strlit("invalid service url: ");
                }
                assert(r@.take(21) =~= "invalid service url: "@);
                r
            },
            JobError::UnexpectedStatus(st) => concat2("unexpected response status: ", st.as_str()),
            JobError::WebSocket(d) => concat2("websocket error: ", d.as_str()),
            JobError::Emit(d) => concat2("event emit error: ", d.as_str()),
            JobError::Join(d) => concat2("task join error: ", d.as_str()),
            JobError::InvalidResponse(d) => concat2("invalid response: ", d.as_str()),
            JobError::InvalidServiceUrl => String::from_str("service url is empty"),
        }
    }
}

// ---------------------------------------------------------------------------
// Endpoints
// ---------------------------------------------------------------------------

/// The URL with a path that ends in `'/'`: unchanged when it already does,
/// otherwise with `'/'` appended to its path (`ensure_trailing_slash`);
/// `None` when the text does not parse.
pub open spec fn with_trailing_slash(url: Seq<char>) -> Option<Seq<char>> {
    if url_parsed(url) is None {
        None
    } else if has_suffix(url_path_of(url), "/"@) {
        Some(url)
    } else {
        Some(url_with_path(url, url_path_of(url) + "/"@))
    }
}

fn ensure_trailing_slash(url: String) -> (r: Result<String, url::ParseError>)
    ensures
        r is Ok <==> with_trailing_slash(url@) is Some,
        r matches Ok(t) ==> with_trailing_slash(url@) == Some(t@),
{
    let path = match url_path(url.as_str()) {
        Ok(p) => p,
        Err(e) => return Err(e),
    };
    let pv = chars_of(path.as_str());
    if ends_with(&pv, "/") {
        Ok(url)
    } else {
        let mut np = pv;
        np.push('/');
        let nps = string_of(&np);
        proof {
            reveal_strlit("/");
        }
        assert(nps@ =~= url_path_of(url@) + "/"@);
        url_set_path(url.as_str(), nps.as_str())
    }
}

/// The endpoint `path` of the service at `base`: the base trimmed and parsed,
/// its path given a trailing `'/'`, and `path` resolved against it
/// (`build_service_endpoint`). A blank base is `InvalidServiceUrl`; a base or
/// a result that does not parse is `Url`.
pub open spec fn service_endpoint(base: Seq<char>, path: Seq<char>) -> Option<Seq<char>> {
    match url_parsed(trim_seq(base)) {
        None => None,
        Some(u) => match with_trailing_slash(u) {
            None => None,
            Some(w) => url_joined(w, path),
        },
    }
}

/// See [`service_endpoint`].
pub fn build_service_endpoint(base: &str, path: &str) -> (r: Result<String, JobError>)
    ensures
        trim_seq(base@).len() == 0 ==> r matches Err(JobError::InvalidServiceUrl),
        trim_seq(base@).len() > 0 ==> match service_endpoint(base@, path@) {
            Some(t) => r matches Ok(s) && s@ == t,
            None => r matches Err(JobError::Url(_)),
        },
{
    let trimmed = trim_chars(&chars_of(base));
    if trimmed.len() == 0 {
        return Err(JobError::InvalidServiceUrl);
    }
    let ts = string_of(&trimmed);
    let parsed = match url_parse(ts.as_str()) {
        Ok(u) => u,
        Err(e) => return Err(JobError::Url(e)),
    };
    let with_slash = match ensure_trailing_slash(parsed) {
        Ok(w) => w,
        Err(e) => return Err(JobError::Url(e)),
    };
    match url_join(with_slash.as_str(), path) {
        Ok(j) => Ok(j),
        Err(e) => Err(JobError::Url(e)),
    }
}

/// The WebSocket scheme for a web scheme: `wss` for `https`, `ws` for `http`.
pub open spec fn ws_scheme_for(scheme: Seq<char>) -> Option<Seq<char>> {
    if scheme == "https"@ {
        Some("wss"@)
    } else if scheme == "http"@ {
        Some("ws"@)
    } else {
        None
    }
}

/// The WebSocket endpoint of a job (`build_websocket_endpoint`): the base
/// trimmed and parsed, `https` and `http` switched to `wss` and `ws` (a
/// refused switch is `InvalidServiceUrl`), the path given a trailing `'/'`,
/// and `ws/jobs/<job_id>` resolved against it.
pub open spec fn websocket_endpoint(base: Seq<char>, job_id: Seq<char>) -> Option<Option<Seq<char>>> {
    match url_parsed(trim_seq(base)) {
        None => None,
        Some(u) => if url_parsed(u) is None {
            None
        } else {
            let switched = match ws_scheme_for(url_scheme_of(u)) {
                Some(s) => url_with_scheme(u, s),
                None => Some(u),
            };
            match switched {
                None => Some(None),
                Some(v) => match with_trailing_slash(v) {
                    None => None,
                    Some(w) => match url_joined(w, "ws/jobs/"@ + job_id) {
                        Some(j) => Some(Some(j)),
                        None => None,
                    },
                },
            }
        },
    }
}

/// See [`websocket_endpoint`]: `None` there is a `Url` error, `Some(None)` an
/// `InvalidServiceUrl`.
pub fn build_websocket_endpoint(base: &str, job_id: &str) -> (r: Result<String, JobError>)
    ensures
        trim_seq(base@).len() == 0 ==> r matches Err(JobError::InvalidServiceUrl),
        trim_seq(base@).len() > 0 ==> match websocket_endpoint(base@, job_id@) {
            Some(Some(t)) => r matches Ok(s) && s@ == t,
            Some(None) => r matches Err(JobError::InvalidServiceUrl),
            None => r matches Err(JobError::Url(_)),
        },
{
    let trimmed = trim_chars(&chars_of(base));
    if trimmed.len() == 0 {
        return Err(JobError::InvalidServiceUrl);
    }
    let ts = string_of(&trimmed);
    let parsed = match url_parse(ts.as_str()) {
        Ok(u) => u,
        Err(e) => return Err(JobError::Url(e)),
    };
    let scheme = match url_scheme(parsed.as_str()) {
        Ok(s) => s,
        Err(e) => return Err(JobError::Url(e)),
    };
    let https = String::from_str("https");
    let http = String::from_str("http");
    let target = if scheme == https {
        Some("wss")
    } else if scheme == http {
        Some("ws")
    } else {
        None
    };
    proof {
        reveal_strlit("wss");
        reveal_strlit("ws");
    }
    let switched = match target {
        Some(t) => match url_set_scheme(parsed.as_str(), t) {
            Ok(Some(v)) => v,
            Ok(None) => return Err(JobError::InvalidServiceUrl),
            Err(e) => return Err(JobError::Url(e)),
        },
        None => parsed,
    };
    let with_slash = match ensure_trailing_slash(switched) {
        Ok(w) => w,
        Err(e) => return Err(JobError::Url(e)),
    };
    let endpoint = concat2("ws/jobs/", job_id);
    match url_join(with_slash.as_str(), endpoint.as_str()) {
        Ok(j) => Ok(j),
        Err(e) => Err(JobError::Url(e)),
    }
}

/// The REST path of a job action: `jobs/<id>` followed by `/<action>` when
/// there is one.
pub fn job_path(job_id: &str, action: Option<&str>) -> (r: String)
    ensures
        r@ == match action {
            Some(a) => "jobs/"@ + job_id@ + "/"@ + a@,
            None => "jobs/"@ + job_id@,
        },
{
    match action {
        Some(a) => concat4("jobs/", job_id, "/", a),
        None => concat2("jobs/", job_id),
    }
}

// ---------------------------------------------------------------------------
// Upload address
// ---------------------------------------------------------------------------

/// `s` without its trailing `c` characters.
pub open spec fn trim_end_char(s: Seq<char>, c: char) -> Seq<char>
    decreases s.len(),
{
    if s.len() > 0 && s.last() == c {
        trim_end_char(s.drop_last(), c)
    } else {
        s
    }
}

/// `s` without its leading `c` characters.
pub open spec fn trim_start_char(s: Seq<char>, c: char) -> Seq<char>
    decreases s.len(),
{
    if s.len() > 0 && s[0] == c {
        trim_start_char(s.drop_first(), c)
    } else {
        s
    }
}

/// The upload address (`build_remote_url`): base and path joined by exactly
/// one `'/'`, the slashes at their seam dropped; `/path` without a base, the
/// base alone without a path, and empty without either.
pub open spec fn remote_url(base: Seq<char>, path: Seq<char>) -> Seq<char> {
    let b = trim_end_char(base, '/');
    let p = trim_start_char(path, '/');
    if b.len() == 0 {
        if p.len() == 0 {
            Seq::empty()
        } else {
            "/"@ + p
        }
    } else if p.len() == 0 {
        b
    } else {
        b + "/"@ + p
    }
}

/// See [`remote_url`].
pub fn build_remote_url(base: &str, path: &str) -> (r: String)
    ensures
        r@ == remote_url(base@, path@),
{
    let bv = chars_of(base);
    let pv = chars_of(path);
    let mut hi = bv.len();
    assert(bv@.take(bv@.len() as int) =~= bv@);
    while hi > 0 && bv[hi - 1] == '/'
        invariant
            hi <= bv@.len(),
            trim_end_char(bv@.take(hi as int), '/') == trim_end_char(bv@, '/'),
        decreases hi,
    {
        assert(bv@.take(hi - 1) =~= bv@.take(hi as int).drop_last());
        hi = hi - 1;
    }
    let mut lo: usize = 0;
    assert(pv@.skip(0) =~= pv@);
    while lo < pv.len() && pv[lo] == '/'
        invariant
            lo <= pv@.len(),
            trim_start_char(pv@.skip(lo as int), '/') == trim_start_char(pv@, '/'),
        decreases pv.len() - lo,
    {
        assert(pv@.skip(lo + 1) =~= pv@.skip(lo as int).drop_first());
        lo = lo + 1;
    }
    let ghost b = bv@.take(hi as int);
    let ghost p = pv@.skip(lo as int);
    assert(trim_end_char(b, '/') == b);
    assert(trim_start_char(p, '/') == p);
    let mut out: Vec<char> = Vec::new();
    let mut i: usize = 0;
    while i < hi
        invariant
            hi <= bv@.len(),
            i <= hi,
            out@ == bv@.take(i as int),
        decreases hi - i,
    {
        out.push(bv[i]);
        assert(out@ =~= bv@.take(i + 1));
        i = i + 1;
    }
    if lo < pv.len() {
        out.push('/');
    }
    let ghost mid = out@;
    let mut j: usize = lo;
    while j < pv.len()
        invariant
            lo <= j <= pv@.len(),
            out@ == mid + pv@.subrange(lo as int, j as int),
        decreases pv.len() - j,
    {
        out.push(pv[j]);
        assert(out@ =~= mid + pv@.subrange(lo as int, j + 1));
        j = j + 1;
    }
    assert(pv@.subrange(lo as int, pv@.len() as int) =~= p);
    let r = string_of(&out);
    proof {
        reveal_strlit("/");
    }
    assert(bv@.take(hi as int) == b);
    assert(r@ =~= remote_url(base@, path@));
    r
}

} // verus!
