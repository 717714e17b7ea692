//! The WebSocket opening handshake: HTTP request parsing, upgrade
//! detection, and the `Sec-WebSocket-Accept` computation.

use base64::Engine;
use sha1::Digest;
use vstd::prelude::*;
use vstd::string::*;
use vstd::utf8::*;

verus! {

/// Failures of the opening handshake.
#[derive(Debug, PartialEq, Eq, Structural, Clone, Copy)]
pub enum HandshakeError {
    /// The request line lacks a method, path or protocol token.
    MalformedRequestLine,
    /// A header line without a colon.
    MalformedHeader,
    /// An upgrade request without a `Sec-WebSocket-Key` header.
    MissingKey,
}

/// The whitespace recognized when tokenizing the request line and
/// trimming header names and values.
pub open spec fn is_ws(c: char) -> bool {
    c == ' ' || c == '\t' || c == '\r' || c == '\n'
}

/// Index of the first whitespace character, or the length if there is
/// none.
pub open spec fn first_ws(s: Seq<char>) -> int
    decreases s.len(),
{
    if s.len() == 0 {
        0
    } else if is_ws(s[0]) {
        0
    } else {
        1 + first_ws(s.drop_first())
    }
}

proof fn lemma_first_ws_bounds(s: Seq<char>)
    ensures
        0 <= first_ws(s) <= s.len(),
    decreases s.len(),
{
    if s.len() != 0 && !is_ws(s[0]) {
        lemma_first_ws_bounds(s.drop_first());
    }
}

/// `first_ws` is pinned by its characteristic properties: everything
/// before index `i` is non-whitespace and `i` is the end or whitespace.
proof fn lemma_first_ws_char(s: Seq<char>, i: int)
    requires
        0 <= i <= s.len(),
        forall|j: int| 0 <= j < i ==> !is_ws(s[j]),
        i == s.len() || is_ws(s[i]),
    ensures
        first_ws(s) == i,
    decreases s.len(),
{
    if s.len() == 0 {
    } else if is_ws(s[0]) {
        assert(i == 0);
    } else {
        assert(i >= 1);
        lemma_first_ws_char(s.drop_first(), i - 1);
    }
}

/// The request line split on runs of whitespace, in order.
pub open spec fn split_ws(s: Seq<char>) -> Seq<Seq<char>>
    decreases s.len(),
    via split_ws_decreases
{
    if s.len() == 0 {
        Seq::empty()
    } else if is_ws(s[0]) {
        split_ws(s.drop_first())
    } else {
        seq![s.take(first_ws(s))] + split_ws(s.skip(first_ws(s)))
    }
}

#[via_fn]
proof fn split_ws_decreases(s: Seq<char>) {
    if s.len() != 0 && !is_ws(s[0]) {
        lemma_first_ws_bounds(s.drop_first());
        assert(first_ws(s) >= 1);
    }
}

/// Index of the first colon, or the length if there is none.
pub open spec fn first_colon(s: Seq<char>) -> int
    decreases s.len(),
{
    if s.len() == 0 {
        0
    } else if s[0] == ':' {
        0
    } else {
        1 + first_colon(s.drop_first())
    }
}

proof fn lemma_first_colon_char(s: Seq<char>, i: int)
    requires
        0 <= i <= s.len(),
        forall|j: int| 0 <= j < i ==> s[j] != ':',
        i == s.len() || s[i] == ':',
    ensures
        first_colon(s) == i,
    decreases s.len(),
{
    if s.len() == 0 {
    } else if s[0] == ':' {
        assert(i == 0);
    } else {
        assert(i >= 1);
        lemma_first_colon_char(s.drop_first(), i - 1);
    }
}

/// The characters that remain after removing leading and trailing
/// whitespace.
pub open spec fn trim_chars(s: Seq<char>) -> Seq<char>
    decreases s.len(),
{
    if s.len() == 0 {
        s
    } else if is_ws(s[0]) {
        trim_chars(s.drop_first())
    } else if is_ws(s[s.len() - 1]) {
        trim_chars(s.drop_last())
    } else {
        s
    }
}

proof fn lemma_trim_all_ws(s: Seq<char>)
    requires
        forall|j: int| 0 <= j < s.len() ==> is_ws(s[j]),
    ensures
        trim_chars(s) == Seq::<char>::empty(),
    decreases s.len(),
{
    if s.len() == 0 {
        assert(trim_chars(s) =~= Seq::<char>::empty());
    } else {
        lemma_trim_all_ws(s.drop_first());
    }
}

proof fn lemma_trim_subrange(s: Seq<char>, a: int, b: int)
    requires
        0 <= a < b <= s.len(),
        forall|j: int| 0 <= j < a ==> is_ws(s[j]),
        forall|j: int| b <= j < s.len() ==> is_ws(s[j]),
        !is_ws(s[a]),
        !is_ws(s[b - 1]),
    ensures
        trim_chars(s) == s.subrange(a, b),
    decreases s.len(),
{
    if a > 0 {
        lemma_trim_subrange(s.drop_first(), a - 1, b - 1);
        assert(s.drop_first().subrange(a - 1, b - 1) =~= s.subrange(a, b));
    } else if b < s.len() {
        lemma_trim_subrange(s.drop_last(), a, b);
        assert(s.drop_last().subrange(a, b) =~= s.subrange(a, b));
    } else {
        assert(s.subrange(0, s.len() as int) =~= s);
    }
}

/// Whitespace test on one character.
fn is_ws_exec(c: char) -> (r: bool)
    ensures
        r == is_ws(c),
{
    c == ' ' || c == '\t' || c == '\r' || c == '\n'
}

/// Splits a line on runs of whitespace into its tokens, in order.
fn tokenize(line: &str) -> (r: Vec<String>)
    ensures
        r.deep_view() == split_ws(line@),
{
    let n = line.unicode_len();
    let mut tokens: Vec<String> = Vec::new();
    let mut pos: usize = 0;
    proof {
        assert(line@.skip(0) =~= line@);
        assert(tokens.deep_view() + split_ws(line@) =~= split_ws(line@));
    }
    while pos < n
        invariant
            pos <= n,
            n == line@.len(),
            tokens.deep_view() + split_ws(line@.skip(pos as int)) == split_ws(line@),
        decreases n - pos,
    {
        let c = line.get_char(pos);
        if is_ws_exec(c) {
            proof {
                assert(line@.skip(pos as int).drop_first() =~= line@.skip(pos as int + 1));
            }
            pos = pos + 1;
        } else {
            let start = pos;
            let mut end = pos;
            while end < n && !is_ws_exec(line.get_char(end))
                invariant
                    start <= end <= n,
                    n == line@.len(),
                    forall|j: int| start <= j < end ==> !is_ws(line@[j]),
                decreases n - end,
            {
                end = end + 1;
            }
            let tok = String::from_str(line.substring_char(start, end));
            let ghost prev = tokens.deep_view();
            tokens.push(tok);
            proof {
                let t = line@.skip(start as int);
                assert(forall|j: int| 0 <= j < end - start ==> t[j] == line@[start + j]);
                assert(end - start < t.len() ==> t[end - start] == line@[end as int]);
                lemma_first_ws_char(t, end - start);
                assert(t.take(end - start) =~= line@.subrange(start as int, end as int));
                assert(t.skip(end - start) =~= line@.skip(end as int));
                assert(split_ws(t) == seq![t.take(end - start)] + split_ws(line@.skip(end as int)));
                assert(tokens.deep_view() =~= prev.push(tok@));
                assert(tokens.deep_view() + split_ws(line@.skip(end as int)) =~= prev + split_ws(
                    line@.skip(start as int),
                ));
            }
            pos = end;
        }
    }
    proof {
        assert(line@.skip(n as int) =~= Seq::<char>::empty());
        assert(tokens.deep_view() + split_ws(line@.skip(n as int)) =~= tokens.deep_view());
    }
    tokens
}

/// Removes leading and trailing whitespace.
fn trim_str(s: &str) -> (r: String)
    ensures
        r@ == trim_chars(s@),
{
    let n = s.unicode_len();
    let mut a: usize = 0;
    while a < n && is_ws_exec(s.get_char(a))
        invariant
            a <= n,
            n == s@.len(),
            forall|j: int| 0 <= j < a ==> is_ws(s@[j]),
        decreases n - a,
    {
        a = a + 1;
    }
    if a == n {
        proof {
            lemma_trim_all_ws(s@);
        }
        return String::new();
    }
    let mut b: usize = n;
    while b > a + 1 && is_ws_exec(s.get_char(b - 1))
        invariant
            a < b <= n,
            n == s@.len(),
            forall|j: int| b <= j < n ==> is_ws(s@[j]),
        decreases b,
    {
        b = b - 1;
    }
    let r = String::from_str(s.substring_char(a, b));
    proof {
        assert(!is_ws(s@[b - 1]));
        lemma_trim_subrange(s@, a as int, b as int);
    }
    r
}

/// A header line split on its first colon, name and value trimmed, or
/// nothing when the line has no colon.
pub open spec fn spec_parse_header(line: Seq<char>) -> Option<(Seq<char>, Seq<char>)> {
    let i = first_colon(line);
    if i == line.len() {
        None
    } else {
        Some((trim_chars(line.take(i)), trim_chars(line.skip(i + 1))))
    }
}

/// Parses the request line into its method, path and protocol tokens.
/// Fewer than three tokens is a fatal parse error; tokens beyond the
/// third are ignored.
pub fn parse_request_line(line: &str) -> (r: Result<(String, String, String), HandshakeError>)
    ensures
        r is Ok <==> split_ws(line@).len() >= 3,
        r matches Ok((m, p, v)) ==> m@ == split_ws(line@)[0] && p@ == split_ws(line@)[1] && v@
            == split_ws(line@)[2],
        r is Err ==> r == Result::<(String, String, String), HandshakeError>::Err(
            HandshakeError::MalformedRequestLine,
        ),
{
    let tokens = tokenize(line);
    if tokens.len() < 3 {
        return Err(HandshakeError::MalformedRequestLine);
    }
    let m = tokens[0].clone();
    let p = tokens[1].clone();
    let v = tokens[2].clone();
    proof {
        assert(m@ == tokens.deep_view()[0]);
        assert(p@ == tokens.deep_view()[1]);
        assert(v@ == tokens.deep_view()[2]);
    }
    Ok((m, p, v))
}

/// Parses one header line: split on the first colon, trim name and value.
/// A line without a colon is a fatal parse error.
pub fn parse_header_line(line: &str) -> (r: Result<(String, String), HandshakeError>)
    ensures
        r is Ok <==> spec_parse_header(line@) is Some,
        r matches Ok((name, value)) ==> spec_parse_header(line@) == Some((name@, value@)),
        r is Err ==> r == Result::<(String, String), HandshakeError>::Err(
            HandshakeError::MalformedHeader,
        ),
{
    let n = line.unicode_len();
    let mut i: usize = 0;
    while i < n && line.get_char(i) != ':'
        invariant
            i <= n,
            n == line@.len(),
            forall|j: int| 0 <= j < i ==> line@[j] != ':',
        decreases n - i,
    {
        i = i + 1;
    }
    proof {
        lemma_first_colon_char(line@, i as int);
    }
    if i == n {
        return Err(HandshakeError::MalformedHeader);
    }
    let name = trim_str(line.substring_char(0, i));
    let value = trim_str(line.substring_char(i + 1, n));
    proof {
        assert(line@.subrange(0, i as int) =~= line@.take(i as int));
        assert(line@.subrange(i as int + 1, n as int) =~= line@.skip(i as int + 1));
    }
    Ok((name, value))
}

/// An HTTP request as read from the socket before the upgrade: the
/// request line's three tokens and the ordered header list, with names
/// and values trimmed.  Duplicate header names are all retained; lookups
/// use the first match.
pub struct HttpRequest {
    pub method: String,
    pub path: String,
    pub protocol: String,
    pub headers: Vec<(String, String)>,
}

/// True when some header pair is exactly `Upgrade: websocket`.
pub open spec fn spec_is_upgrade(headers: Seq<(String, String)>) -> bool {
    exists|i: int|
        0 <= i < headers.len() && headers[i].0@ == "Upgrade"@ && headers[i].1@ == "websocket"@
}

/// The value of the first header with the given name, if any.
pub open spec fn spec_first_header_value(headers: Seq<(String, String)>, name: Seq<char>) -> Option<
    Seq<char>,
>
    decreases headers.len(),
{
    if headers.len() == 0 {
        None
    } else if headers[0].0@ == name {
        Some(headers[0].1@)
    } else {
        spec_first_header_value(headers.drop_first(), name)
    }
}

impl HttpRequest {
    /// True when the request asks for the WebSocket upgrade, that is,
    /// carries an `Upgrade: websocket` header.
    pub fn is_websocket_upgrade_request(&self) -> (r: bool)
        ensures
            r == spec_is_upgrade(self.headers@),
    {
        let upgrade = String::from_str("Upgrade");
        let websocket = String::from_str("websocket");
        let mut i: usize = 0;
        while i < self.headers.len()
            invariant
                i <= self.headers@.len(),
                upgrade@ == "Upgrade"@,
                websocket@ == "websocket"@,
                forall|j: int|
                    0 <= j < i ==> !(self.headers@[j].0@ == "Upgrade"@ && self.headers@[j].1@
                        == "websocket"@),
            decreases self.headers@.len() - i,
        {
            let h = &self.headers[i];
            if h.0 == upgrade && h.1 == websocket {
                return true;
            }
            i = i + 1;
        }
        false
    }

    /// The value of the first header with the given name, if any.
    pub fn first_header_value(&self, name: &str) -> (r: Option<String>)
        ensures
            match r {
                Some(v) => spec_first_header_value(self.headers@, name@) == Some(v@),
                None => spec_first_header_value(self.headers@, name@) is None,
            },
    {
        let name_string = String::from_str(name);
        let mut i: usize = 0;
        proof {
            assert(self.headers@.skip(0) =~= self.headers@);
        }
        while i < self.headers.len()
            invariant
                i <= self.headers@.len(),
                name_string@ == name@,
                spec_first_header_value(self.headers@.skip(i as int), name@)
                    == spec_first_header_value(self.headers@, name@),
            decreases self.headers@.len() - i,
        {
            let h = &self.headers[i];
            if h.0 == name_string {
                proof {
                    assert(self.headers@.skip(i as int)[0] == self.headers@[i as int]);
                }
                return Some(h.1.clone());
            }
            proof {
                assert(self.headers@.skip(i as int).drop_first() =~= self.headers@.skip(
                    i as int + 1,
                ));
            }
            i = i + 1;
        }
        proof {
            assert(self.headers@.skip(i as int).len() == 0);
        }
        None
    }
}

/// Parses one whole HTTP request head: the first line as the request
/// line, every further line as a header.  The caller supplies the lines
/// as read from the socket, without the terminating empty line.
pub fn parse_http_request(lines: &Vec<String>) -> (r: Result<HttpRequest, HandshakeError>)
    ensures
        r is Ok <==> lines.deep_view().len() >= 1 && split_ws(lines.deep_view()[0]).len() >= 3
            && (forall|i: int|
            1 <= i < lines.deep_view().len() ==> spec_parse_header(lines.deep_view()[i]) is Some),
        r matches Ok(req) ==> {
            &&& req.method@ == split_ws(lines.deep_view()[0])[0]
            &&& req.path@ == split_ws(lines.deep_view()[0])[1]
            &&& req.protocol@ == split_ws(lines.deep_view()[0])[2]
            &&& req.headers@.len() == lines.deep_view().len() - 1
            &&& forall|i: int|
                0 <= i < req.headers@.len() ==> Some(
                    (req.headers@[i].0@, req.headers@[i].1@),
                ) == spec_parse_header(lines.deep_view()[i + 1])
        },
        r == Result::<HttpRequest, HandshakeError>::Err(HandshakeError::MalformedRequestLine)
            <==> (lines.deep_view().len() == 0 || split_ws(lines.deep_view()[0]).len() < 3),
        r == Result::<HttpRequest, HandshakeError>::Err(HandshakeError::MalformedHeader) <==> (
        lines.deep_view().len() >= 1 && split_ws(lines.deep_view()[0]).len() >= 3 && exists|i: int|
            1 <= i < lines.deep_view().len() && spec_parse_header(lines.deep_view()[i]) is None),
{
    if lines.len() == 0 {
        return Err(HandshakeError::MalformedRequestLine);
    }
    proof {
        assert(lines.deep_view()[0] == lines@[0]@);
    }
    let (method, path, protocol) = match parse_request_line(lines[0].as_str()) {
        Ok(t) => t,
        Err(e) => {
            return Err(e);
        },
    };
    let mut headers: Vec<(String, String)> = Vec::new();
    let mut i: usize = 1;
    while i < lines.len()
        invariant
            1 <= i <= lines@.len(),
            lines.deep_view().len() == lines@.len(),
            split_ws(lines.deep_view()[0]).len() >= 3,
            method@ == split_ws(lines.deep_view()[0])[0],
            path@ == split_ws(lines.deep_view()[0])[1],
            protocol@ == split_ws(lines.deep_view()[0])[2],
            headers@.len() == i - 1,
            forall|j: int|
                0 <= j < headers@.len() ==> Some((headers@[j].0@, headers@[j].1@))
                    == spec_parse_header(lines.deep_view()[j + 1]),
        decreases lines@.len() - i,
    {
        proof {
            assert(lines.deep_view()[i as int] == lines@[i as int]@);
        }
        match parse_header_line(lines[i].as_str()) {
            Ok(h) => {
                headers.push(h);
            },
            Err(e) => {
                proof {
                    assert(spec_parse_header(lines.deep_view()[i as int]) is None);
                }
                return Err(e);
            },
        }
        i = i + 1;
    }
    proof {
        assert forall|k: int|
            1 <= k < lines.deep_view().len() implies spec_parse_header(
            lines.deep_view()[k],
        ) is Some by {
            assert(Some((headers@[k - 1].0@, headers@[k - 1].1@)) == spec_parse_header(
                lines.deep_view()[k],
            ));
        }
    }
    Ok(HttpRequest { method, path, protocol, headers })
}

/// The 20-byte SHA-1 digest of a byte sequence, as the outside hash
/// implementation computes it: a function of the input bytes alone.
pub uninterp spec fn sha1_of(bytes: Seq<u8>) -> Seq<u8>;

/// The padded standard-alphabet base64 text of a byte sequence, as the
/// outside encoder computes it: a function of the input bytes alone.
pub uninterp spec fn base64_of(bytes: Seq<u8>) -> Seq<char>;

/// Relies on `sha1::Sha1` through the `Digest` trait: the returned vector
/// is the 20-byte SHA-1 digest of the input, depending on the input bytes
/// alone.
#[verifier::external_body]
fn sha1_digest(input: &Vec<u8>) -> (r: Vec<u8>)
    ensures
        r@ == sha1_of(input@),
        r@.len() == 20,
{
    let mut hasher = sha1::Sha1::new();
    hasher.update(input.as_slice());
    hasher.finalize().to_vec()
}

/// Relies on base64's `STANDARD` engine: the returned string is the
/// padded base64 encoding of the input, depending on the input bytes
/// alone.  The input bound keeps the engine's output-size computation
/// from overflowing.
#[verifier::external_body]
fn base64_encode(input: &Vec<u8>) -> (r: String)
    requires
        input@.len() <= 0x10000000,
    ensures
        r@ == base64_of(input@),
        r@.len() == 4 * ((input@.len() + 2) / 3),
{
    base64::engine::general_purpose::STANDARD.encode(input.as_slice())
}

/// The fixed GUID that the accept computation appends to the client key.
pub open spec fn spec_guid() -> Seq<char> {
    "258EAFA5-E914-47DA-95CA-C5AB0DC85B11"@
}

/// The accept token owed for a client key: base64 of the SHA-1 digest of
/// the key's bytes followed by the fixed GUID's bytes.
pub open spec fn spec_accept_token(key: Seq<char>) -> Seq<char> {
    base64_of(sha1_of(encode_utf8(key) + encode_utf8(spec_guid())))
}

/// Computes the `Sec-WebSocket-Accept` token for a client's
/// `Sec-WebSocket-Key` value.
pub fn generate_accept_key(client_key: &str) -> (r: String)
    ensures
        r@ == spec_accept_token(client_key@),
{
    let guid = "258EAFA5-E914-47DA-95CA-C5AB0DC85B11";
    let mut input = client_key.as_bytes_vec();
    let mut guid_bytes = guid.as_bytes_vec();
    input.append(&mut guid_bytes);
    let digest = sha1_digest(&input);
    base64_encode(&digest)
}

/// The accept token depends on the client key alone: equal keys always
/// yield equal tokens.
pub proof fn lemma_accept_token_deterministic(k1: Seq<char>, k2: Seq<char>)
    requires
        k1 == k2,
    ensures
        spec_accept_token(k1) == spec_accept_token(k2),
{
}

/// The text of the switching-protocols response for a given accept token.
pub open spec fn spec_upgrade_response(accept: Seq<char>) -> Seq<char> {
    "HTTP/1.1 101 Switching Protocols\r\n"@ + "Sec-WebSocket-Accept: "@ + accept + "\r\n"@
        + "Connection: Upgrade\r\n"@ + "Upgrade: websocket\r\n"@ + "\r\n"@
}

/// Builds the complete `101 Switching Protocols` response for an accept
/// token, terminated by an empty line.
pub fn build_upgrade_response(accept_key: &str) -> (r: String)
    ensures
        r@ == spec_upgrade_response(accept_key@),
{
    let mut response = String::new();
    response.append("HTTP/1.1 101 Switching Protocols\r\n");
    response.append("Sec-WebSocket-Accept: ");
    response.append(accept_key);
    response.append("\r\n");
    response.append("Connection: Upgrade\r\n");
    response.append("Upgrade: websocket\r\n");
    response.append("\r\n");
    proof {
        assert(response@ =~= spec_upgrade_response(accept_key@));
    }
    response
}

/// What the handshake decides for one parsed request.
pub enum HandshakeDecision {
    /// A well-formed upgrade request: write this `101` response, then
    /// speak WebSocket frames on the connection.
    Upgrade(String),
    /// Not an upgrade request: hand the request to the plain-HTTP path.
    NotUpgrade,
    /// An upgrade request without the key header: fatal, close without
    /// upgrading.
    MissingKey,
}

/// Decides the handshake for one parsed request: route non-upgrade
/// requests away, fail on a missing `Sec-WebSocket-Key`, and otherwise
/// produce the switching-protocols response carrying the accept token.
pub fn handshake(request: &HttpRequest) -> (r: HandshakeDecision)
    ensures
        !spec_is_upgrade(request.headers@) <==> r is NotUpgrade,
        spec_is_upgrade(request.headers@) && spec_first_header_value(
            request.headers@,
            "Sec-WebSocket-Key"@,
        ) is None <==> r is MissingKey,
        spec_is_upgrade(request.headers@) && spec_first_header_value(
            request.headers@,
            "Sec-WebSocket-Key"@,
        ) is Some <==> r is Upgrade,
        r matches HandshakeDecision::Upgrade(resp) ==> spec_first_header_value(
            request.headers@,
            "Sec-WebSocket-Key"@,
        ) matches Some(key) && resp@ == spec_upgrade_response(spec_accept_token(key)),
{
    if !request.is_websocket_upgrade_request() {
        return HandshakeDecision::NotUpgrade;
    }
    match request.first_header_value("Sec-WebSocket-Key") {
        None => HandshakeDecision::MissingKey,
        Some(key) => {
            let accept = generate_accept_key(key.as_str());
            HandshakeDecision::Upgrade(build_upgrade_response(accept.as_str()))
        },
    }
}

} // verus!
