//! The requests a program describes, once evaluated.
use vstd::prelude::*;

use crate::locations::Span;
use crate::parser::ast::RequestMethod;
use crate::parser::stringify::method_text;
use crate::text::{lemma_pieces_up_to_pair, lemma_pieces_without_pairs, pieces_between};
use vstd::string::*;

verus! {

/// A header of a request.
#[derive(Debug)]
pub struct Header {
    pub name: String,
    pub value: String,
}

impl Header {
    pub fn new(name: String, value: String) -> (r: Header)
        ensures
            r.name == name,
            r.value == value,
    {
        Self { name, value }
    }
}

/// A request to send.
#[derive(Debug)]
pub struct Request {
    pub method: RequestMethod,
    pub url: String,
    pub headers: Vec<Header>,
    pub body: Option<String>,
}

/// Where the response of a request is written: the standard output, or a file.
#[derive(Debug)]
pub enum LogDestination {
    Std,
    File(String),
}

/// A request with what its attributes asked for: a name, debugging output, and
/// where to write the response.
#[derive(Debug)]
pub struct RequestItem {
    pub name: Option<String>,
    pub dbg: bool,
    pub span: Span,
    pub request: Request,
    pub log_destination: Option<LogDestination>,
}


/// What running a request gave: the response, or why it failed.
#[derive(Debug)]
pub enum RunResponse {
    Success(String),
    Failure(String),
}

/// What a run gives back: for each request run, in order, its id and the
/// response, or the text of the failure, that `outcomes` holds for it.
pub fn run_outcomes(requests: &Vec<RequestItem>, outcomes: Vec<Result<String, String>>) -> (r: Vec<
    (RequestId, RunResponse),
>)
    requires
        requests@.len() == outcomes@.len(),
    ensures
        r@.len() == requests@.len(),
        forall|j: int|
            0 <= j < r@.len() ==> {
                let (id, response) = #[trigger] r@[j];
                &&& id.method@ == method_text(requests@[j].request.method)
                &&& id.url_or_name@ == match requests@[j].name {
                    Some(n) => n@,
                    None => requests@[j].request.url@,
                }
                &&& match outcomes@[j] {
                    Ok(o) => response matches RunResponse::Success(t) && t == o,
                    Err(e) => response matches RunResponse::Failure(t) && t == e,
                }
            },
{
    let ghost all = outcomes@;
    let mut rest = outcomes;
    let mut r: Vec<(RequestId, RunResponse)> = Vec::new();
    let mut i: usize = 0;
    while i < requests.len()
        invariant
            requests@.len() == all.len(),
            i <= requests@.len(),
            rest@ == all.subrange(i as int, all.len() as int),
            r@.len() == i,
            forall|j: int|
                0 <= j < i ==> {
                    let (id, response) = #[trigger] r@[j];
                    &&& id.method@ == method_text(requests@[j].request.method)
                    &&& id.url_or_name@ == match requests@[j].name {
                        Some(n) => n@,
                        None => requests@[j].request.url@,
                    }
                    &&& match all[j] {
                        Ok(o) => response matches RunResponse::Success(t) && t == o,
                        Err(e) => response matches RunResponse::Failure(t) && t == e,
                    }
                },
        decreases requests@.len() - i,
    {
        let outcome = rest.remove(0);
        proof {
            assert(outcome == all[i as int]);
        }
        let id = RequestId::from_item(&requests[i]);
        let response = match outcome {
            Ok(o) => RunResponse::Success(o),
            Err(e) => RunResponse::Failure(e),
        };
        r.push((id, response));
        i = i + 1;
        proof {
            assert(rest@ =~= all.subrange(i as int, all.len() as int));
        }
    }
    r
}

/// Why running a request failed.
#[derive(Debug, Clone)]
pub struct RunError(pub String);

/// How a request is picked out: its method, and its name or else its url.
#[derive(Debug)]
pub struct RequestId {
    pub method: String,
    pub url_or_name: String,
}

impl RequestId {
    pub fn from_item(r: &RequestItem) -> (id: RequestId)
        ensures
            id.method@ == method_text(r.request.method),
            id.url_or_name@ == match r.name {
                Some(n) => n@,
                None => r.request.url@,
            },
    {
        let url_or_name = match &r.name {
            Some(name) => name.clone(),
            None => r.request.url.clone(),
        };
        RequestId { method: r.request.method.to_string(), url_or_name }
    }

    /// Reads an id back from its text, `METHOD::name`: the method is what comes
    /// before the first `::`, the name what comes after it, up to the next `::`.
    pub fn from_str(s: &str) -> (r: Result<RequestId, String>)
        ensures
            match request_id_parts(s@) {
                Some((m, n)) => r matches Ok(id) && id.method@ == m && id.url_or_name@ == n,
                None => r matches Err(e) && e@ == "failed to get url or name from string"@,
            },
    {
        let ghost cs = s@;
        let n = s.unicode_len();
        let mut i: usize = 0;
        while n - i > 1 && !(s.get_char(i) == ':' && s.get_char(i + 1) == ':')
            invariant
                cs == s@,
                n == cs.len(),
                i <= n,
                forall|m: int| 0 <= m < i ==> !(#[trigger] cs[m] == ':' && cs[m + 1] == ':'),
            decreases n - i,
        {
            i = i + 1;
        }
        if n - i <= 1 {
            proof {
                lemma_pieces_without_pairs(cs, ':', 0, 0);
            }
            return Err(String::from_str("failed to get url or name from string"));
        }
        let k = i;
        proof {
            lemma_pieces_up_to_pair(cs, ':', 0, 0, k as int);
        }
        let method = String::from_str(s.substring_char(0, k));
        let mut j: usize = k + 2;
        while n - j > 1 && !(s.get_char(j) == ':' && s.get_char(j + 1) == ':')
            invariant
                cs == s@,
                n == cs.len(),
                k + 2 <= j <= n,
                forall|m: int| k + 2 <= m < j ==> !(#[trigger] cs[m] == ':' && cs[m + 1] == ':'),
            decreases n - j,
        {
            j = j + 1;
        }
        let end: usize = if n - j > 1 {
            proof {
                lemma_pieces_up_to_pair(cs, ':', k + 2, k + 2, j as int);
            }
            j
        } else {
            proof {
                lemma_pieces_without_pairs(cs, ':', k + 2, k + 2);
            }
            n
        };
        let url_or_name = String::from_str(s.substring_char(k + 2, end));
        Ok(RequestId { method, url_or_name })
    }

    /// `METHOD::name`.
    pub fn as_string(&self) -> (s: String)
        ensures
            s@ == self.method@ + "::"@ + self.url_or_name@,
    {
        let mut s = self.method.clone();
        s.append("::");
        s.append(self.url_or_name.as_str());
        s
    }
}


/// The method and the name that the text `s` of a request id holds: the pieces
/// before and after its first `::`; none when it has no `::`.
pub open spec fn request_id_parts(s: Seq<char>) -> Option<(Seq<char>, Seq<char>)> {
    let ps = pieces_between(s, ':', 0, 0);
    if ps.len() >= 2 {
        Some((ps[0], ps[1]))
    } else {
        None
    }
}

/// The text of a request id reads back as that id, when neither the method nor
/// the name holds `::` and the method does not end in `:`.
pub proof fn a_request_id_reads_back_from_its_text(method: Seq<char>, name: Seq<char>)
    requires
        forall|k: int| 0 <= k && k + 1 < method.len() ==> !(#[trigger] method[k] == ':' && method[k + 1] == ':'),
        method.len() > 0 ==> method.last() != ':',
        forall|k: int| 0 <= k && k + 1 < name.len() ==> !(#[trigger] name[k] == ':' && name[k + 1] == ':'),
    ensures
        request_id_parts(method + seq![':', ':'] + name) == Some((method, name)),
{
    let s = method + seq![':', ':'] + name;
    let k = method.len() as int;
    assert forall|m: int| 0 <= m < k implies !(#[trigger] s[m] == ':' && s[m + 1] == ':') by {
        assert(s[m] == method[m]);
        if m + 1 < k {
            assert(s[m + 1] == method[m + 1]);
        } else {
            assert(method[m] == method.last());
        }
    }
    lemma_pieces_up_to_pair(s, ':', 0, 0, k);
    assert forall|m: int| k + 2 <= m && m + 1 < s.len() implies !(#[trigger] s[m] == ':' && s[m + 1] == ':') by {
        assert(s[m] == name[m - k - 2]);
        assert(s[m + 1] == name[m - k - 1]);
    }
    lemma_pieces_without_pairs(s, ':', k + 2, k + 2);
    assert(s.subrange(0, k) =~= method);
    assert(s.subrange(k + 2, s.len() as int) =~= name);
}

/// The headers of a request as options of `curl`: `-H "name: value" ` each.
pub open spec fn curl_headers(hs: Seq<Header>, n: nat) -> Seq<char>
    decreases n,
{
    if n == 0 || n > hs.len() {
        Seq::empty()
    } else {
        curl_headers(hs, (n - 1) as nat) + "-H "@ + "\""@ + hs[n - 1].name@ + ": "@
            + hs[n - 1].value@ + "\" "@
    }
}

/// The `curl` option that passes one header: `-H "name: value" `.
pub open spec fn header_option(h: Header) -> Seq<char> {
    "-H "@ + "\""@ + h.name@ + ": "@ + h.value@ + "\" "@
}

/// The length of the options of the first `k` headers.
pub open spec fn options_len(hs: Seq<Header>, k: nat) -> nat
    decreases k,
{
    if k == 0 || k > hs.len() {
        0
    } else {
        options_len(hs, (k - 1) as nat) + header_option(hs[k - 1]).len()
    }
}

proof fn lemma_options_grow(hs: Seq<Header>, j: nat, k: nat)
    requires
        j <= k <= hs.len(),
    ensures
        options_len(hs, j) <= options_len(hs, k),
    decreases k,
{
    if k > j {
        lemma_options_grow(hs, j, (k - 1) as nat);
    }
}

/// The header options of the first `n` headers: one after another, in order,
/// the `k`th passing the `k`th header.
proof fn lemma_curl_headers_in_order(hs: Seq<Header>, n: nat)
    requires
        n <= hs.len(),
    ensures
        curl_headers(hs, n).len() == options_len(hs, n),
        forall|k: int|
            0 <= k < n ==> curl_headers(hs, n).subrange(
                options_len(hs, k as nat) as int,
                options_len(hs, (k + 1) as nat) as int,
            ) == header_option(#[trigger] hs[k]),
    decreases n,
{
    if n > 0 {
        lemma_curl_headers_in_order(hs, (n - 1) as nat);
        let prev = curl_headers(hs, (n - 1) as nat);
        let now = curl_headers(hs, n);
        assert(now =~= prev + header_option(hs[n - 1]));
        assert forall|k: int| 0 <= k < n implies now.subrange(
            options_len(hs, k as nat) as int,
            options_len(hs, (k + 1) as nat) as int,
        ) == header_option(#[trigger] hs[k]) by {
            if k < n - 1 {
                lemma_options_grow(hs, (k + 1) as nat, (n - 1) as nat);
                assert(now.subrange(options_len(hs, k as nat) as int, options_len(hs, (k + 1) as nat) as int)
                    =~= prev.subrange(options_len(hs, k as nat) as int, options_len(hs, (k + 1) as nat) as int));
            } else {
                assert(now.subrange(options_len(hs, k as nat) as int, options_len(hs, (k + 1) as nat) as int)
                    =~= header_option(hs[k]));
            }
        }
    }
}

/// A request as a `curl` command passes every header, in order: after the
/// command's start, the `k`th `-H "name: value" ` option passes the `k`th header,
/// and after the last of them come the body, the url and the end.
pub proof fn every_header_is_passed_in_order(r: RequestItem)
    ensures
        ({
            let hs = r.request.headers@;
            let at = curl_head(r).len() as int;
            let text = curl_text(r);
            &&& forall|k: int|
                0 <= k < hs.len() ==> text.subrange(
                    at + options_len(hs, k as nat),
                    at + options_len(hs, (k + 1) as nat),
                ) == header_option(#[trigger] hs[k])
            &&& text.subrange(at + options_len(hs, hs.len()), text.len() as int) == curl_body(r)
                + r.request.url@ + curl_tail(r)
        }),
{
    let hs = r.request.headers@;
    let head = curl_head(r);
    let at = head.len() as int;
    let opts = curl_headers(hs, hs.len());
    let rest = curl_body(r) + r.request.url@ + curl_tail(r);
    let text = curl_text(r);
    lemma_curl_headers_in_order(hs, hs.len());
    assert(text =~= head + opts + rest);
    assert forall|k: int| 0 <= k < hs.len() implies text.subrange(
        at + options_len(hs, k as nat),
        at + options_len(hs, (k + 1) as nat),
    ) == header_option(#[trigger] hs[k]) by {
        lemma_options_grow(hs, (k + 1) as nat, hs.len());
        lemma_options_grow(hs, k as nat, (k + 1) as nat);
        assert(text.subrange(at + options_len(hs, k as nat), at + options_len(hs, (k + 1) as nat))
            =~= opts.subrange(options_len(hs, k as nat) as int, options_len(hs, (k + 1) as nat) as int));
    }
    assert(text.subrange(at + options_len(hs, hs.len()), text.len() as int) =~= rest);
}

/// The start of the command: tracing when debugging, the name, and the method.
pub open spec fn curl_head(r: RequestItem) -> Seq<char> {
    let trace = if r.dbg {
        "set -xe\n"@
    } else {
        Seq::empty()
    };
    let name = match r.name {
        Some(n) => "echo "@ + n@,
        None => Seq::empty(),
    };
    trace + name + "curl -X "@ + method_text(r.request.method) + " "@
}

/// The body option of the command, if the request has a body.
pub open spec fn curl_body(r: RequestItem) -> Seq<char> {
    match r.request.body {
        Some(b) => "-d '"@ + b@ + "' "@,
        None => Seq::empty(),
    }
}

/// The end of the command: where the response goes, and the end of tracing.
pub open spec fn curl_tail(r: RequestItem) -> Seq<char> {
    let log = match r.log_destination {
        Some(LogDestination::File(p)) => " 1> "@ + p@,
        _ => Seq::empty(),
    };
    let end = if r.dbg {
        "\nset +xe"@
    } else {
        Seq::empty()
    };
    log + end
}

/// A request written as a shell command that runs `curl`.
pub open spec fn curl_text(r: RequestItem) -> Seq<char> {
    curl_head(r) + curl_headers(r.request.headers@, r.request.headers@.len()) + curl_body(r)
        + r.request.url@ + curl_tail(r)
}

impl RequestItem {
    fn curl_head_string(&self) -> (r: String)
        ensures
            r@ == curl_head(*self),
    {
        let mut buffer = String::new();
        if self.dbg {
            buffer.append("set -xe\n");
        }
        if let Some(name) = &self.name {
            buffer.append("echo ");
            buffer.append(name.as_str());
        }
        buffer.append("curl -X ");
        let m = self.request.method.to_string();
        buffer.append(m.as_str());
        buffer.append(" ");
        proof {
            assert(buffer@ =~= curl_head(*self));
        }
        buffer
    }

    fn curl_headers_string(&self) -> (r: String)
        ensures
            r@ == curl_headers(self.request.headers@, self.request.headers@.len()),
    {
        let mut buffer = String::new();
        let mut i: usize = 0;
        while i < self.request.headers.len()
            invariant
                0 <= i <= self.request.headers@.len(),
                buffer@ == curl_headers(self.request.headers@, i as nat),
            decreases self.request.headers@.len() - i,
        {
            let header = &self.request.headers[i];
            let ghost before = buffer@;
            buffer.append("-H ");
            buffer.append("\"");
            buffer.append(header.name.as_str());
            buffer.append(": ");
            buffer.append(header.value.as_str());
            buffer.append("\" ");
            proof {
                assert(buffer@ =~= before + "-H "@ + "\""@ + header.name@ + ": "@ + header.value@
                    + "\" "@);
            }
            i = i + 1;
        }
        buffer
    }

    fn curl_tail_string(&self) -> (r: String)
        ensures
            r@ == curl_tail(*self),
    {
        let mut buffer = String::new();
        if let Some(dest) = &self.log_destination {
            match dest {
                LogDestination::Std => {},
                LogDestination::File(path) => {
                    buffer.append(" 1> ");
                    buffer.append(path.as_str());
                },
            }
        }
        if self.dbg {
            buffer.append("\nset +xe");
        }
        proof {
            assert(buffer@ =~= curl_tail(*self));
        }
        buffer
    }

    /// The request as a shell command that runs `curl`.
    pub fn to_curl_string(&self) -> (r: String)
        ensures
            r@ == curl_text(*self),
    {
        let mut buffer = self.curl_head_string();
        let headers = self.curl_headers_string();
        buffer.append(headers.as_str());
        if let Some(body) = &self.request.body {
            buffer.append("-d '");
            buffer.append(body.as_str());
            buffer.append("' ");
        }
        buffer.append(self.request.url.as_str());
        let tail = self.curl_tail_string();
        buffer.append(tail.as_str());
        proof {
            assert(buffer@ =~= curl_text(*self));
        }
        buffer
    }
}

} // verus!
