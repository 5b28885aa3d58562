//! HTTP/1.1 request messages and response messages.
//!
//! A request is built from a method and a URL, extended header by header
//! and rendered as text. A response is parsed from raw text in one step.
//! Lines end in a single line feed throughout, not in a carriage return
//! and a line feed.
//!
//! Each type has a view that says what a value of it is, and each function
//! is specified over these views: `spec_render` says what the text of a
//! request is, `spec_parse_response` what response a text denotes.

use crate::text::{
    chars_of, parse_u8, replace, spec_parse_u8, spec_replace, spec_split, spec_split_once, split,
    split_once, string_of, views,
};
use crate::url::ParsedUrl;
use vstd::prelude::*;

verus! {

/// The request methods that can be sent.
#[derive(Debug)]
pub enum Method {
    Get,
}

impl Method {
    /// The token that stands for the method on the request line.
    pub open spec fn spec_name(self) -> Seq<char> {
        match self {
            Method::Get => "GET"@,
        }
    }

    fn name(&self) -> (token: String)
        ensures
            token@ == self.spec_name(),
    {
        match self {
            Method::Get => "GET".to_owned(),
        }
    }
}

/// What a header field is: a name and a value, both taken as they come.
pub struct HeaderView {
    pub key: Seq<char>,
    pub value: Seq<char>,
}

#[derive(Debug)]
struct Header {
    key: String,
    value: String,
}

impl View for Header {
    type V = HeaderView;

    closed spec fn view(&self) -> HeaderView {
        HeaderView { key: self.key@, value: self.value@ }
    }
}

impl Header {
    fn new(key: String, value: String) -> (header: Header)
        ensures
            header@ == (HeaderView { key: key@, value: value@ }),
    {
        Header { key, value }
    }
}

/// What a request is: its method, path and protocol version, its header
/// fields in the order in which they were added, and its body.
pub struct RequestView {
    pub method: Method,
    pub path: Seq<char>,
    pub version: Seq<char>,
    pub headers: Seq<HeaderView>,
    pub body: Seq<char>,
}

impl RequestView {
    /// The protocol version is fixed and the first header field names the
    /// host.
    pub open spec fn wf(self) -> bool {
        &&& self.version == "HTTP/1.1"@
        &&& self.headers.len() > 0
        &&& self.headers[0].key == "Host"@
    }

    /// This request with one more header field at the end.
    pub open spec fn with_header(self, key: Seq<char>, value: Seq<char>) -> RequestView {
        RequestView { headers: self.headers.push(HeaderView { key, value }), ..self }
    }
}

/// The request that is first built for `method`, `host` and `path`.
pub open spec fn spec_new_request(method: Method, host: Seq<char>, path: Seq<char>) -> RequestView {
    RequestView {
        method,
        path,
        version: "HTTP/1.1"@,
        headers: seq![HeaderView { key: "Host"@, value: host }],
        body: "sending a request"@,
    }
}

/// The request line: method, path and version with single spaces between
/// them, ended by a line feed.
pub open spec fn spec_request_line(r: RequestView) -> Seq<char> {
    r.method.spec_name() + seq![' '] + r.path + seq![' '] + r.version + seq!['\n']
}

/// One header line: name, colon, space, value, line feed.
pub open spec fn spec_header_line(h: HeaderView) -> Seq<char> {
    h.key + ": "@ + h.value + seq!['\n']
}

/// The header lines of `headers`, one after the other.
pub open spec fn spec_header_block(headers: Seq<HeaderView>) -> Seq<char>
    decreases headers.len(),
{
    if headers.len() == 0 {
        Seq::empty()
    } else {
        spec_header_block(headers.drop_last()) + spec_header_line(headers.last())
    }
}

/// The text of a request on the wire: request line, header lines, one
/// empty line, then the body as it is.
pub open spec fn spec_render(r: RequestView) -> Seq<char> {
    spec_request_line(r) + spec_header_block(r.headers) + seq!['\n'] + r.body
}

/// An HTTP request under construction.
#[derive(Debug)]
pub struct HttpRequest {
    method: Method,
    path: String,
    version: String,
    headers: Vec<Header>,
    body: String,
}

impl View for HttpRequest {
    type V = RequestView;

    closed spec fn view(&self) -> RequestView {
        RequestView {
            method: self.method,
            path: self.path@,
            version: self.version@,
            headers: Seq::new(self.headers@.len(), |i: int| self.headers@[i]@),
            body: self.body@,
        }
    }
}

impl HttpRequest {
    /// Builds the request for `url`: version `HTTP/1.1`, the URL's path, a
    /// `Host` header with the URL's host, and the placeholder body
    /// `sending a request`. Neither part of the URL is checked.
    pub fn new(method: Method, url: &ParsedUrl) -> (req: HttpRequest)
        ensures
            req@ == spec_new_request(method, url.host@, url.path@),
            req@.wf(),
    {
        let mut req = HttpRequest {
            method,
            path: url.path.clone(),
            version: "HTTP/1.1".to_owned(),
            headers: Vec::new(),
            body: "sending a request".to_owned(),
        };

        req.add_header("Host".to_owned(), url.host.clone());

        assert(req@.headers =~= seq![HeaderView { key: "Host"@, value: url.host@ }]);
        req
    }

    /// Appends a header field. Nothing is merged or overwritten: a name may
    /// occur any number of times.
    pub fn add_header(&mut self, key: String, value: String)
        ensures
            final(self)@ == old(self)@.with_header(key@, value@),
            old(self)@.wf() ==> final(self)@.wf(),
    {
        self.headers.push(Header::new(key, value));
        assert(self@.headers =~= old(self)@.headers.push(HeaderView { key: key@, value: value@ }));
    }

    /// Renders the request as it goes on the wire: request line, header
    /// lines in the order in which they were added, an empty line, then the
    /// body with nothing after it. Each line ends in a single line feed.
    pub fn string(&self) -> (text: String)
        ensures
            text@ == spec_render(self@),
    {
        // request line
        let mut request = self.method.name();
        request.push(' ');
        request.append(self.path.as_str());
        request.push(' ');
        request.append(self.version.as_str());
        request.push('\n');

        // headers
        let ghost line = request@;
        let mut i: usize = 0;
        while i < self.headers.len()
            invariant
                i <= self.headers.len(),
                line == spec_request_line(self@),
                request@ == line + spec_header_block(self@.headers.take(i as int)),
            decreases self.headers.len() - i,
        {
            let h = &self.headers[i];
            request.append(h.key.as_str());
            request.append(": ");
            request.append(h.value.as_str());
            request.push('\n');
            proof {
                let seen = self@.headers.take(i + 1);
                assert(seen.drop_last() =~= self@.headers.take(i as int));
                assert(seen.last() == h@);
            }
            i = i + 1;
        }
        assert(self@.headers.take(i as int) =~= self@.headers);
        request.push('\n');

        // body
        request.append(self.body.as_str());

        request
    }
}

/// Why a response text could not be parsed.
#[derive(Debug, Clone, Copy, PartialEq, Eq)]
pub enum ParseError {
    /// The text holds no line feed, so no status line can be told from the
    /// rest.
    MalformedResponse,
    /// The status line has fewer than three tokens, or its second token is
    /// no number from 0 to 255.
    MalformedStatusLine,
}

/// What a response is: the three parts of its status line, its header
/// block as one piece of text, and its body.
pub struct ResponseView {
    pub version: Seq<char>,
    pub status_code: u8,
    pub reason: Seq<char>,
    pub headers: Seq<char>,
    pub body: Seq<char>,
}

/// A line feed followed by a carriage return, which counts as a line feed.
pub open spec fn reversed_line_ending() -> Seq<char> {
    seq!['\n', '\r']
}

/// The end of a line.
pub open spec fn line_feed() -> Seq<char> {
    seq!['\n']
}

/// Two line feeds in a row: what parts the header block from the body.
pub open spec fn blank_line() -> Seq<char> {
    seq!['\n', '\n']
}

/// What parts the tokens of the status line.
pub open spec fn space() -> Seq<char> {
    seq![' ']
}

/// The raw text with each reversed line ending turned into a line feed.
pub open spec fn spec_normalize(raw: Seq<char>) -> Seq<char> {
    spec_replace(raw, reversed_line_ending(), line_feed())
}

/// The header block and the body that follow the status line: what stands
/// before and after the first blank line, or no header block and
/// everything as body if there is no blank line.
pub open spec fn spec_headers_and_body(remaining: Seq<char>) -> (Seq<char>, Seq<char>) {
    match spec_split_once(remaining, blank_line()) {
        Some(parts) => parts,
        None => (Seq::empty(), remaining),
    }
}

/// What follows the status line of a normalized text: all that stands
/// after the first line feed.
pub open spec fn spec_after_status_line(text: Seq<char>) -> Seq<char> {
    match spec_split_once(text, line_feed()) {
        Some((_, remaining)) => remaining,
        None => Seq::empty(),
    }
}

/// The response that a normalized text denotes.
///
/// The status line ends at the first line feed and is cut at each space.
/// Its first three tokens are the version, the status code and the reason
/// phrase; further tokens are dropped.
pub open spec fn spec_parse_normalized(text: Seq<char>) -> Result<ResponseView, ParseError> {
    match spec_split_once(text, line_feed()) {
        None => Err(ParseError::MalformedResponse),
        Some((status_line, remaining)) => {
            let tokens = spec_split(status_line, space());
            let (headers, body) = spec_headers_and_body(remaining);
            if tokens.len() >= 3 && spec_parse_u8(tokens[1]) is Some {
                Ok(
                    ResponseView {
                        version: tokens[0],
                        status_code: spec_parse_u8(tokens[1])->0,
                        reason: tokens[2],
                        headers,
                        body,
                    },
                )
            } else {
                Err(ParseError::MalformedStatusLine)
            }
        },
    }
}

/// The response that a raw text denotes: line endings are normalized
/// before anything is split.
pub open spec fn spec_parse_response(raw: Seq<char>) -> Result<ResponseView, ParseError> {
    spec_parse_normalized(spec_normalize(raw))
}

/// A parsed HTTP response.
#[derive(Debug)]
pub struct HttpResponse {
    version: String,
    status_code: u8,
    reason: String,
    headers: String,
    body: String,
}

impl View for HttpResponse {
    type V = ResponseView;

    closed spec fn view(&self) -> ResponseView {
        ResponseView {
            version: self.version@,
            status_code: self.status_code,
            reason: self.reason@,
            headers: self.headers@,
            body: self.body@,
        }
    }
}

impl HttpResponse {
    /// Parses a raw response text.
    ///
    /// Each line feed that a carriage return follows is first turned into a
    /// plain line feed. The status line is what stands before the first
    /// line feed; the header block is what stands between that line feed
    /// and the first blank line; the body is the rest. Without a blank line
    /// the header block is empty and the body is all that follows the
    /// status line. The header block is kept as one text.
    ///
    /// Fails with `MalformedResponse` if there is no line feed, and with
    /// `MalformedStatusLine` if the status line has fewer than three
    /// tokens between single spaces or if the second token is no decimal
    /// number up to 255. Codes above 255 are therefore rejected.
    pub fn new(raw_response: String) -> (parsed: Result<HttpResponse, ParseError>)
        ensures
            match parsed {
                Ok(response) => spec_parse_response(raw_response@) == Ok::<
                    ResponseView,
                    ParseError,
                >(response@),
                Err(error) => spec_parse_response(raw_response@) == Err::<
                    ResponseView,
                    ParseError,
                >(error),
            },
    {
        let raw = chars_of(raw_response.as_str());
        let lf_cr: [char; 2] = ['\n', '\r'];
        let lf: [char; 1] = ['\n'];
        let lf_lf: [char; 2] = ['\n', '\n'];
        let sp: [char; 1] = [' '];
        assert(lf_cr@ =~= reversed_line_ending());
        assert(lf@ =~= line_feed());
        assert(lf_lf@ =~= blank_line());
        assert(sp@ =~= space());

        let preprocessed_response = replace(raw.as_slice(), lf_cr.as_slice(), lf.as_slice());

        let (status_line, remaining) = match split_once(
            preprocessed_response.as_slice(),
            lf.as_slice(),
        ) {
            Some((s, r)) => (s, r),
            None => {
                return Err(ParseError::MalformedResponse);
            },
        };

        let (headers, body) = match split_once(remaining, lf_lf.as_slice()) {
            Some((h, b)) => (h, b),
            None => (&remaining[0..0], remaining),
        };

        let statuses = split(status_line, sp.as_slice());
        if statuses.len() < 3 {
            return Err(ParseError::MalformedStatusLine);
        }
        let status_code = match parse_u8(statuses[1]) {
            Some(code) => code,
            None => {
                return Err(ParseError::MalformedStatusLine);
            },
        };

        proof {
            let tokens = views(statuses@);
            assert(tokens[0] == statuses@[0]@ && tokens[2] == statuses@[2]@);
            assert(spec_headers_and_body(remaining@) == (headers@, body@));
        }
        Ok(
            HttpResponse {
                version: string_of(statuses[0]),
                status_code,
                reason: string_of(statuses[2]),
                headers: string_of(headers),
                body: string_of(body),
            },
        )
    }

    /// The protocol version, the first token of the status line.
    pub fn version(&self) -> (version: String)
        ensures
            version@ == self@.version,
    {
        self.version.clone()
    }

    /// The status code, the second token of the status line.
    pub fn status_code(&self) -> (code: u8)
        ensures
            code == self@.status_code,
    {
        self.status_code
    }

    /// The reason phrase: the third token of the status line, so only the
    /// first word of a phrase of several words.
    pub fn reason(&self) -> (reason: String)
        ensures
            reason@ == self@.reason,
    {
        self.reason.clone()
    }

    /// The header block, as one piece of text.
    pub fn headers(&self) -> (headers: String)
        ensures
            headers@ == self@.headers,
    {
        self.headers.clone()
    }

    /// The body.
    pub fn body(&self) -> (body: String)
        ensures
            body@ == self@.body,
    {
        self.body.clone()
    }
}

} // verus!
