//! A minimal HTTP endpoint that serves `GET /metrics` for Prometheus to scrape: what it reads
//! and what it answers.
//!
//! It is read-only: the only thing it does is call the render function. It has no
//! authentication, so it binds to a loopback address unless the caller explicitly allows
//! otherwise. Requests are bounded: heads over [`MAX_REQUEST`] bytes are refused.

use crate::ascii;
use crate::telemetry::exposition::CONTENT_TYPE;
use crate::text;
use vstd::prelude::*;
use vstd::string::StringSliceAdditionalSpecFns;

verus! {

/// Largest request head accepted, in bytes.
pub const MAX_REQUEST: usize = 8192;

/// Most bytes discarded from a client after responding.
pub const DRAIN_LIMIT: usize = 65536;

/// Whether the endpoint may listen on an address.
pub fn may_listen(is_loopback: bool, allow_remote: bool) -> (r: bool)
    ensures
        r == (is_loopback || allow_remote),
{
    allow_remote || is_loopback
}

/// Whether these bytes hold the blank line that ends a request head.
pub open spec fn has_blank_line(head: Seq<u8>) -> bool {
    exists|i: int| #[trigger] blank_line_at(head, i)
}

/// Whether the blank line that ends a request head stands at `i`.
pub open spec fn blank_line_at(head: Seq<u8>, i: int) -> bool {
    &&& 0 <= i <= head.len() - 4
    &&& head[i] == ascii::CR
    &&& head[i + 1] == ascii::LF
    &&& head[i + 2] == ascii::CR
    &&& head[i + 3] == ascii::LF
}

/// How far a request head was read.
#[derive(Clone, Copy, Debug, PartialEq, Eq, Structural)]
pub enum HeadState {
    /// To its end, or to the end of what the client sends.
    Complete,
    /// Past the largest head accepted.
    TooLarge,
    /// More is to come.
    Partial,
}

/// What a head is after `chunk` came in. An empty chunk is the end of what the client sends.
pub open spec fn head_state(head: Seq<u8>, chunk: Seq<u8>) -> HeadState {
    let all = head + chunk;
    if chunk.len() == 0 {
        HeadState::Complete
    } else if all.len() > MAX_REQUEST {
        HeadState::TooLarge
    } else if has_blank_line(all) {
        HeadState::Complete
    } else {
        HeadState::Partial
    }
}

/// Takes the bytes that came in after `head`.
pub fn read_chunk(head: &mut Vec<u8>, chunk: &[u8]) -> (r: HeadState)
    ensures
        final(head)@ == old(head)@ + chunk@,
        r == head_state(old(head)@, chunk@),
{
    if chunk.len() == 0 {
        assert(head@ =~= old(head)@ + chunk@);
        return HeadState::Complete;
    }
    head.extend_from_slice(chunk);
    assert(head@ =~= old(head)@ + chunk@);
    if head.len() > MAX_REQUEST {
        return HeadState::TooLarge;
    }
    if find_blank_line(head.as_slice()) {
        HeadState::Complete
    } else {
        HeadState::Partial
    }
}

/// Whether these bytes hold the blank line that ends a request head.
fn find_blank_line(head: &[u8]) -> (r: bool)
    ensures
        r == has_blank_line(head@),
{
    if head.len() < 4 {
        return false;
    }
    let mut i: usize = 0;
    while i <= head.len() - 4
        invariant
            4 <= head.len(),
            i <= head.len() - 3,
            forall|k: int| 0 <= k < i ==> !#[trigger] blank_line_at(head@, k),
        decreases head.len() - i,
    {
        if head[i] == ascii::CR && head[i + 1] == ascii::LF && head[i + 2] == ascii::CR
            && head[i + 3] == ascii::LF {
            assert(blank_line_at(head@, i as int));
            return true;
        }
        i = i + 1;
    }
    false
}

/// Whether to go on discarding what the client still sends after a response. Closing with
/// unread input would make the kernel send a reset, which can destroy the response before the
/// client reads it.
pub fn keep_draining(drained: usize) -> (r: bool)
    ensures
        r == (drained < DRAIN_LIMIT),
        DRAIN_LIMIT == 65_536,
{
    drained < DRAIN_LIMIT
}

/// The first line of a request, without its line ending; empty if it has no complete one.
pub open spec fn request_line(head: Seq<u8>) -> Seq<u8> {
    let line = text::pieces(head, ascii::LF)[0];
    if line.len() > 0 && line.last() == ascii::CR {
        line.drop_last()
    } else {
        Seq::empty()
    }
}

/// Where a request leads.
#[derive(Clone, Copy, Debug, PartialEq, Eq, Structural)]
pub enum Route {
    /// To the metrics.
    Metrics,
    /// Nowhere: it is not a request.
    BadRequest,
    /// To something else.
    NotFound,
    /// Anywhere, but not to read.
    NotAllowed,
}

/// Where a request leads.
pub open spec fn route_of(head: Seq<u8>) -> Route {
    let parts = text::pieces(request_line(head), ascii::SPACE);
    if parts.len() != 3 || parts[2].len() < 7 || parts[2].take(7) != "HTTP/1.".spec_bytes() {
        Route::BadRequest
    } else if parts[0] != "GET".spec_bytes() {
        Route::NotAllowed
    } else if text::pieces(parts[1], ascii::QUESTION)[0] == "/metrics".spec_bytes() {
        Route::Metrics
    } else {
        Route::NotFound
    }
}

/// Where a request leads.
pub fn route(head: &[u8]) -> (r: Route)
    ensures
        r == route_of(head@),
{
    let lines: Vec<&[u8]> = text::split_on(head, ascii::LF);
    proof {
        text::lemma_pieces_len(head@, ascii::LF);
    }
    let first: &[u8] = lines[0];
    let line: &[u8] = if first.len() > 0 && first[first.len() - 1] == ascii::CR {
        vstd::slice::slice_subrange(first, 0, first.len() - 1)
    } else {
        vstd::slice::slice_subrange(first, 0, 0)
    };
    assert(line@ =~= request_line(head@));
    let parts: Vec<&[u8]> = text::split_on(line, ascii::SPACE);
    if parts.len() != 3 {
        return Route::BadRequest;
    }
    let (method, target, version) = (parts[0], parts[1], parts[2]);
    let protocol: &[u8] = "HTTP/1.".as_bytes();
    proof {
        lemma_protocol_len();
    }
    if version.len() < 7 || !text::same_bytes(
        vstd::slice::slice_subrange(version, 0, 7),
        protocol,
    ) {
        assert(version@.len() >= 7 ==> version@.subrange(0, 7) =~= version@.take(7));
        return Route::BadRequest;
    }
    assert(version@.subrange(0, 7) =~= version@.take(7));
    if !text::same_bytes(method, "GET".as_bytes()) {
        return Route::NotAllowed;
    }
    let paths: Vec<&[u8]> = text::split_on(target, ascii::QUESTION);
    proof {
        text::lemma_pieces_len(target@, ascii::QUESTION);
    }
    if text::same_bytes(paths[0], "/metrics".as_bytes()) {
        Route::Metrics
    } else {
        Route::NotFound
    }
}

/// The head of the response that carries `len` bytes of metrics.
pub open spec fn ok_head(len: nat) -> Seq<char> {
    "HTTP/1.1 200 OK\r\nContent-Type: "@ + CONTENT_TYPE@ + "\r\nContent-Length: "@
        + text::number_text(len, 1)
        + "\r\nCache-Control: no-store\r\nConnection: close\r\n\r\n"@
}

/// A response without a body.
pub open spec fn status_text(code: u16, reason: Seq<char>) -> Seq<char> {
    "HTTP/1.1 "@ + text::number_text(code as nat, 1) + " "@ + reason
        + "\r\nContent-Length: 0\r\nConnection: close\r\n"@ + (if code == 405 {
        "Allow: GET\r\n"@
    } else {
        Seq::empty()
    }) + "\r\n"@
}

/// A response without a body.
pub fn status(code: u16, reason: &str) -> (r: Vec<u8>)
    ensures
        r@ == vstd::utf8::encode_utf8(status_text(code, reason@)),
{
    let mut out: String = String::new();
    out.append("HTTP/1.1 ");
    text::push_number(&mut out, code as u64, 1);
    out.append(" ");
    out.append(reason);
    out.append("\r\nContent-Length: 0\r\nConnection: close\r\n");
    if code == 405 {
        out.append("Allow: GET\r\n");
    }
    out.append("\r\n");
    assert(out@ =~= status_text(code, reason@));
    bytes_of(out.as_str())
}

/// The bytes of some text.
fn bytes_of(text: &str) -> (r: Vec<u8>)
    ensures
        r@ == text.spec_bytes(),
{
    let mut out: Vec<u8> = Vec::new();
    out.extend_from_slice(text.as_bytes());
    assert(out@ =~= text.spec_bytes());
    out
}

/// The answer to a request whose head is too large.
pub fn too_large() -> (r: Vec<u8>)
    ensures
        r@ == vstd::utf8::encode_utf8(status_text(431, "Request Header Fields Too Large"@)),
{
    status(431, "Request Header Fields Too Large")
}

/// The answer that carries metrics.
pub open spec fn ok_bytes(body: Seq<char>) -> Seq<u8> {
    let bytes = vstd::utf8::encode_utf8(body);
    vstd::utf8::encode_utf8(ok_head(bytes.len())) + bytes
}

/// The answer that carries metrics.
pub fn ok(body: &str) -> (r: Vec<u8>)
    ensures
        r@ == ok_bytes(body@),
{
    let bytes: &[u8] = body.as_bytes();
    let mut head: String = String::new();
    head.append("HTTP/1.1 200 OK\r\nContent-Type: ");
    head.append(CONTENT_TYPE);
    head.append("\r\nContent-Length: ");
    text::push_number(&mut head, bytes.len() as u64, 1);
    head.append("\r\nCache-Control: no-store\r\nConnection: close\r\n\r\n");
    assert(head@ =~= ok_head(bytes@.len()));
    let mut out: Vec<u8> = bytes_of(head.as_str());
    out.extend_from_slice(bytes);
    assert(out@ =~= ok_bytes(body@));
    out
}

/// Whether `answer` carries something that `render` returns.
pub open spec fn rendered<F: FnOnce() -> String>(render: F, answer: Seq<u8>) -> bool {
    exists|body: String| #[trigger] call_ensures(render, (), body) && answer == ok_bytes(body@)
}

/// The answer to a request. `render` is called for the metrics, and for nothing else.
pub fn respond<F: FnOnce() -> String>(head: &[u8], render: F) -> (r: Vec<u8>)
    requires
        call_requires(render, ()),
    ensures
        match route_of(head@) {
            Route::Metrics => rendered(render, r@),
            Route::BadRequest => r@ == vstd::utf8::encode_utf8(status_text(400, "Bad Request"@)),
            Route::NotFound => r@ == vstd::utf8::encode_utf8(status_text(404, "Not Found"@)),
            Route::NotAllowed => r@ == vstd::utf8::encode_utf8(
                status_text(405, "Method Not Allowed"@),
            ),
        },
{
    match route(head) {
        Route::Metrics => {
            let body: String = render();
            ok(body.as_str())
        },
        Route::BadRequest => status(400, "Bad Request"),
        Route::NotFound => status(404, "Not Found"),
        Route::NotAllowed => status(405, "Method Not Allowed"),
    }
}

/// The protocol's name has its length in bytes too.
proof fn lemma_protocol_len()
    ensures
        "HTTP/1.".spec_bytes().len() == 7,
{
    reveal_strlit("HTTP/1.");
    vstd::utf8::is_ascii_chars_encode_utf8("HTTP/1."@);
}

/// A request line of a method, a target and a version leads where they say, whatever follows
/// it: to the metrics for a `GET` of their path in HTTP 1, with a query or without.
pub proof fn law_requests_are_routed(
    method: Seq<u8>,
    path: Seq<u8>,
    query: Option<Seq<u8>>,
    version: Seq<u8>,
    rest: Seq<u8>,
)
    requires
        is_word(method),
        is_word(path),
        !path.contains(ascii::QUESTION),
        query matches Some(q) ==> is_word(q),
        is_word(version),
    ensures
        ({
            let target = match query {
                Some(q) => path.push(ascii::QUESTION) + q,
                None => path,
            };
            let line = method.push(ascii::SPACE) + (target.push(ascii::SPACE) + version);
            route_of((line.push(ascii::CR)).push(ascii::LF) + rest) == (if version.len() < 7
                || version.take(7) != "HTTP/1.".spec_bytes() {
                Route::BadRequest
            } else if method != "GET".spec_bytes() {
                Route::NotAllowed
            } else if path == "/metrics".spec_bytes() {
                Route::Metrics
            } else {
                Route::NotFound
            })
        }),
{
    let target = match query {
        Some(q) => path.push(ascii::QUESTION) + q,
        None => path,
    };
    let line = method.push(ascii::SPACE) + (target.push(ascii::SPACE) + version);
    let ended = line.push(ascii::CR);
    assert(is_word(target)) by {
        assert forall|i: int| 0 <= i < target.len() implies is_word_byte(#[trigger] target[i]) by {
            if i < path.len() {
                assert(target[i] == path[i]);
            } else if i > path.len() {
                assert(target[i] == query.unwrap()[i - path.len() - 1]);
            }
        }
    }
    assert(!ended.contains(ascii::LF)) by {
        assert forall|i: int| 0 <= i < ended.len() implies ended[i] != ascii::LF by {
            if i < method.len() {
                assert(ended[i] == method[i]);
            } else if method.len() < i < method.len() + 1 + target.len() {
                assert(ended[i] == target[i - method.len() - 1]);
            } else if method.len() + 1 + target.len() < i < line.len() {
                assert(ended[i] == version[i - method.len() - target.len() - 2]);
            }
        }
    }
    text::lemma_pieces(ended, ascii::LF, rest);
    text::lemma_pieces_len(rest, ascii::LF);
    assert(ended.drop_last() =~= line);
    lemma_word(method);
    lemma_word(target);
    lemma_word(version);
    text::lemma_pieces(method, ascii::SPACE, target.push(ascii::SPACE) + version);
    text::lemma_pieces(target, ascii::SPACE, version);
    text::lemma_pieces(version, ascii::SPACE, Seq::empty());
    let parts = text::pieces(line, ascii::SPACE);
    assert(parts =~= seq![method, target, version]);
    match query {
        Some(q) => {
            text::lemma_pieces(path, ascii::QUESTION, q);
            text::lemma_pieces_len(q, ascii::QUESTION);
        },
        None => {
            text::lemma_pieces(path, ascii::QUESTION, Seq::empty());
        },
    }
}

/// A byte that can stand in a word of a request line.
pub open spec fn is_word_byte(b: u8) -> bool {
    b != ascii::SPACE && b != ascii::LF
}

/// A word of a request line.
pub open spec fn is_word(bytes: Seq<u8>) -> bool {
    forall|i: int| 0 <= i < bytes.len() ==> is_word_byte(#[trigger] bytes[i])
}

/// A word has no spaces in it.
proof fn lemma_word(bytes: Seq<u8>)
    requires
        is_word(bytes),
    ensures
        !bytes.contains(ascii::SPACE),
{
    assert forall|i: int| 0 <= i < bytes.len() implies bytes[i] != ascii::SPACE by {
        assert(is_word_byte(bytes[i]));
    }
}

/// How often a byte occurs.
pub open spec fn occurrences(bytes: Seq<u8>, at: u8) -> nat
    decreases bytes.len(),
{
    if bytes.len() == 0 {
        0
    } else if bytes.last() == at {
        occurrences(bytes.drop_last(), at) + 1
    } else {
        occurrences(bytes.drop_last(), at)
    }
}

/// Every separator starts another piece.
proof fn lemma_pieces_are_counted(bytes: Seq<u8>, at: u8)
    ensures
        text::pieces(bytes, at).len() == occurrences(bytes, at) + 1,
    decreases bytes.len(),
{
    if bytes.len() > 0 {
        lemma_pieces_are_counted(bytes.drop_last(), at);
    }
}

/// A request whose first line does not end in a carriage return and a line feed, or is not three
/// words with one space between each two, is a bad one, whatever follows it.
pub proof fn law_malformed_requests_are_bad(line: Seq<u8>, rest: Seq<u8>)
    requires
        !line.contains(0x0a),
        line.len() == 0 || line.last() != 0x0d || occurrences(line.drop_last(), 0x20) != 2,
    ensures
        route_of(line.push(0x0a) + rest) is BadRequest,
        route_of(line) is BadRequest,
{
    text::lemma_pieces(line, ascii::LF, rest);
    if line.len() > 0 && line.last() == 0x0d {
        lemma_pieces_are_counted(line.drop_last(), ascii::SPACE);
    } else {
        lemma_pieces_are_counted(Seq::empty(), ascii::SPACE);
    }
}

/// A request head is read until a blank line ends it or the client sends nothing more. One of more
/// than 8192 bytes is too large.
pub proof fn law_heads_end_with_a_blank_line(head: Seq<u8>, chunk: Seq<u8>, at: int)
    ensures
        ({
            let all = head + chunk;
            let blank = 0 <= at <= all.len() - 4 && all.subrange(at, at + 4) == seq![
                0x0du8,
                0x0a,
                0x0d,
                0x0a,
            ];
            &&& chunk.len() == 0 ==> head_state(head, chunk) is Complete
            &&& chunk.len() > 0 && all.len() > 8192 ==> head_state(head, chunk) is TooLarge
            &&& chunk.len() > 0 && all.len() <= 8192 && blank ==> head_state(
                head,
                chunk,
            ) is Complete
            &&& head_state(head, chunk) is Partial ==> !blank && chunk.len() > 0 && all.len()
                <= 8192
            &&& head_state(head, chunk) is Complete && chunk.len() > 0 ==> all.len() <= 8192
                && exists|i: int|
                0 <= i <= all.len() - 4 && #[trigger] all.subrange(i, i + 4) == seq![
                    0x0du8,
                    0x0a,
                    0x0d,
                    0x0a,
                ]
        }),
{
    let all = head + chunk;
    let end = seq![0x0du8, 0x0a, 0x0d, 0x0a];
    if 0 <= at <= all.len() - 4 && all.subrange(at, at + 4) == end {
        let found = all.subrange(at, at + 4);
        assert(found[0] == all[at] && found[1] == all[at + 1] && found[2] == all[at + 2] && found[3]
            == all[at + 3]);
        assert(blank_line_at(all, at));
    }
    if has_blank_line(all) {
        let i = choose|i: int| #[trigger] blank_line_at(all, i);
        assert(all.subrange(i, i + 4) =~= end);
    }
}

/// An answer without a body says so by its length, names its code and its reason, and tells what
/// is allowed where the method was not.
pub proof fn law_refusals_have_no_body(code: u16, reason: Seq<char>)
    ensures
        ({
            let answer = status_text(code, reason);
            let first = "HTTP/1.1 "@ + text::number_text(code as nat, 1) + " "@ + reason;
            &&& first.is_prefix_of(answer)
            &&& text::holds(answer, "\r\nContent-Length: 0\r\nConnection: close\r\n"@)
            &&& code == 405 ==> text::holds(answer, "Allow: GET\r\n"@)
            &&& code != 405 ==> answer.len() == first.len()
                + "\r\nContent-Length: 0\r\nConnection: close\r\n"@.len() + 2
        }),
{
    let answer = status_text(code, reason);
    let first = "HTTP/1.1 "@ + text::number_text(code as nat, 1) + " "@ + reason;
    let head = "\r\nContent-Length: 0\r\nConnection: close\r\n"@;
    let allow = "Allow: GET\r\n"@;
    reveal_strlit("\r\n");
    assert(first =~= answer.take(first.len() as int));
    let at = first.len() as int;
    assert((first + head).subrange(at, at + head.len()) =~= head);
    assert(text::holds(first + head, head));
    if code == 405 {
        let whole = first + head + allow;
        let from = (first + head).len() as int;
        assert(whole.subrange(from, from + allow.len()) =~= allow);
        assert(text::holds(whole, allow));
        text::lemma_holds_more(first + head, head, allow);
        text::lemma_holds_more(whole, head, "\r\n"@);
        text::lemma_holds_more(whole, allow, "\r\n"@);
    } else {
        let none = Seq::<char>::empty();
        text::lemma_holds_more(first + head, head, none);
        text::lemma_holds_more(first + head + none, head, "\r\n"@);
    }
}

/// The answer that carries metrics ends with them, unchanged, and states their length in bytes.
pub proof fn law_answers_carry_the_whole_body(body: Seq<char>)
    ensures
        ({
            let bytes = vstd::utf8::encode_utf8(body);
            let answer = ok_bytes(body);
            let head = ok_head(bytes.len());
            &&& answer.skip(answer.len() - bytes.len()) == bytes
            &&& answer.take(answer.len() - bytes.len()) == vstd::utf8::encode_utf8(head)
            &&& text::holds(
                head,
                "\r\nContent-Length: "@ + text::chars_of(text::digits(bytes.len(), 1)),
            )
            &&& text::holds(head, "HTTP/1.1 200 OK\r\nContent-Type: "@ + CONTENT_TYPE@)
        }),
{
    broadcast use {text::lemma_holds_its_end, text::lemma_holds_more, text::lemma_holds_itself};

    let bytes = vstd::utf8::encode_utf8(body);
    let answer = ok_bytes(body);
    assert(answer.skip(answer.len() - bytes.len()) =~= bytes);
    assert(answer.take(answer.len() - bytes.len()) =~= vstd::utf8::encode_utf8(
        ok_head(bytes.len()),
    ));
}

} // verus!
