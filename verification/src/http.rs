//! The web server: when a request has been read in full, which handler a request goes to,
//! and the fixed parts of the replies.

use vstd::prelude::*;
use vstd::utf8::{decode_utf8, encode_utf8, valid_utf8};
use crate::config::{lemma_wifi_conf_roundtrip, wifi_conf_read, wifi_conf_readable, wifi_conf_text};
use crate::number::{dec, parse_usize, parse_usize_chars, push_dec};
use crate::text::{
    chars_of,
    count_char,
    count_char_exec,
    decode_chars,
    find,
    find_chars,
    fit,
    fit_chars,
    push_lit,
    starts_with,
    starts_with_chars,
    string_of,
    subrange_chars,
    text,
    trim,
    trim_by,
    trim_chars,
    trim_ws,
    utf8_len,
    utf8_len_of,
};

verus! {

broadcast use vstd::seq::group_seq_axioms;

/// Capacity of a command taken from a request body, in bytes.
pub const COMMAND_CAP: usize = 256;

/// Where the headers end: the first blank line.
pub open spec fn header_end(req: Seq<char>) -> Option<int> {
    find(req, "\r\n\r\n"@)
}

/// Where a `Content-Length` header starts, in any of the three spellings looked for.
pub open spec fn content_length_at(req: Seq<char>) -> Option<int> {
    match find(req, "Content-Length:"@) {
        Some(i) => Some(i),
        None => match find(req, "content-length:"@) {
            Some(i) => Some(i),
            None => find(req, "Content-length:"@),
        },
    }
}

/// The declared body length of the header at `idx`: the trimmed text up to the line end
/// read as a number; 0 when there is no line end or it is not a number.
pub open spec fn declared_length(req: Seq<char>, idx: int) -> int {
    let after = req.skip(idx + 15);
    match find(after, "\r\n"@) {
        Some(k) => match parse_usize(trim(after.take(k))) {
            Some(v) => v,
            None => 0,
        },
        None => 0,
    }
}

/// Whether a request read so far is complete: a `GET` (or any method but `POST`) once its
/// headers end; a `POST` with a `Content-Length` once the bytes after the headers reach it;
/// a `POST` without one once its headers end.
pub open spec fn request_complete(req: Seq<char>) -> bool {
    if starts_with(req, "GET "@) {
        header_end(req) is Some
    } else if starts_with(req, "POST "@) {
        match content_length_at(req) {
            Some(idx) => match header_end(req) {
                Some(b) => utf8_len(req.skip(b + 4)) >= declared_length(req, idx),
                None => false,
            },
            None => header_end(req) is Some,
        }
    } else {
        header_end(req) is Some
    }
}

/// Whether reading stops after the bytes `buf` (of a buffer of `cap` bytes): the request is
/// valid UTF-8 and complete, or the buffer is full.
pub open spec fn read_done(buf: Seq<u8>, cap: int) -> bool {
    (valid_utf8(buf) && request_complete(decode_utf8(buf))) || buf.len() == cap
}

fn declared_length_exec(req: &[char], idx: usize) -> (r: usize)
    requires
        idx + 15 <= req.len(),
    ensures
        r == declared_length(req@, idx as int),
{
    let after = subrange_chars(req, idx + 15, req.len());
    assert(after@ =~= req@.skip(idx + 15));
    let crlf = chars_of("\r\n");
    match find_chars(after.as_slice(), crlf.as_slice()) {
        Some(k) => {
            proof {
                crate::text::lemma_find_spec(after@, crlf@);
            }
            let head = subrange_chars(after.as_slice(), 0, k);
            assert(head@ =~= after@.take(k as int));
            let t = trim_ws(head.as_slice());
            match parse_usize_chars(t.as_slice()) {
                Some(v) => v,
                None => 0,
            }
        },
        None => 0,
    }
}

fn content_length_at_exec(req: &[char]) -> (r: Option<usize>)
    ensures
        match r {
            Some(i) => content_length_at(req@) == Some(i as int),
            None => content_length_at(req@) is None,
        },
{
    let a = chars_of("Content-Length:");
    match find_chars(req, a.as_slice()) {
        Some(i) => Some(i),
        None => {
            let b = chars_of("content-length:");
            match find_chars(req, b.as_slice()) {
                Some(i) => Some(i),
                None => {
                    let c = chars_of("Content-length:");
                    find_chars(req, c.as_slice())
                },
            }
        },
    }
}

fn request_complete_exec(req: &[char]) -> (r: bool)
    ensures
        r == request_complete(req@),
{
    let end = header_end_exec(req);
    if starts_with_chars(req, chars_of("GET ").as_slice()) {
        end.is_some()
    } else if starts_with_chars(req, chars_of("POST ").as_slice()) {
        match content_length_at_exec(req) {
            Some(idx) => {
                proof {
                    reveal_strlit("Content-Length:");
                    reveal_strlit("content-length:");
                    reveal_strlit("Content-length:");
                    if find(req@, "Content-Length:"@) is Some {
                        crate::text::lemma_find_spec(req@, "Content-Length:"@);
                    } else if find(req@, "content-length:"@) is Some {
                        crate::text::lemma_find_spec(req@, "content-length:"@);
                    } else {
                        crate::text::lemma_find_spec(req@, "Content-length:"@);
                    }
                }
                let cl = declared_length_exec(req, idx);
                match end {
                    Some(b) => {
                        let rest = subrange_chars(req, b + 4, req.len());
                        assert(rest@ =~= req@.skip(b + 4));
                        let n = utf8_len_of(rest.as_slice());
                        n >= cl
                    },
                    None => false,
                }
            },
            None => end.is_some(),
        }
    } else {
        end.is_some()
    }
}

/// Whether reading stops after the bytes `buf`, read into a buffer of `cap` bytes.
pub fn read_finished(buf: &[u8], cap: usize) -> (r: bool)
    ensures
        r == read_done(buf@, cap as int),
{
    let complete = match decode_chars(buf) {
        Some(req) => request_complete_exec(req.as_slice()),
        None => false,
    };
    complete || buf.len() == cap
}

/// The body of a request whose headers end at `b`: NUL characters, then whitespace, trimmed
/// from both ends.
pub open spec fn request_body(req: Seq<char>, b: int) -> Seq<char> {
    trim(trim_by(req.skip(b + 4), true))
}

/// Where a request goes.
pub enum Route {
    /// `GET /`: the page (the shell in station mode, the setup form otherwise).
    Page,
    /// `GET /scan` in setup mode: the Wi-Fi scan report.
    Scan,
    /// `POST /connect` in setup mode with a two-line body: store these credentials.
    Connect(Seq<char>, Seq<char>),
    /// `POST /connect` in setup mode with a one-line body.
    InvalidBody,
    /// `POST /cmd` in station mode with a blank body.
    EmptyCommand,
    /// `POST /cmd` in station mode: run this command.
    Command(Seq<char>),
    /// `POST /cmd` in station mode whose headers never end.
    MissingBody,
    /// Anything else.
    NotFound,
    /// Nothing is answered: no bytes, not UTF-8, or a `POST /connect` whose headers never end.
    Silent,
}

/// Where a request goes, as computed.
pub enum HttpRoute {
    Page,
    Scan,
    Connect { ssid: String, pass: String },
    InvalidBody,
    EmptyCommand,
    Command(String),
    MissingBody,
    NotFound,
    Silent,
}

impl View for HttpRoute {
    type V = Route;

    open spec fn view(&self) -> Route {
        match self {
            HttpRoute::Page => Route::Page,
            HttpRoute::Scan => Route::Scan,
            HttpRoute::Connect { ssid, pass } => Route::Connect(ssid@, pass@),
            HttpRoute::InvalidBody => Route::InvalidBody,
            HttpRoute::EmptyCommand => Route::EmptyCommand,
            HttpRoute::Command(c) => Route::Command(c@),
            HttpRoute::MissingBody => Route::MissingBody,
            HttpRoute::NotFound => Route::NotFound,
            HttpRoute::Silent => Route::Silent,
        }
    }
}

/// The route of a `/connect` body: the two trimmed lines when it has exactly one line feed.
pub open spec fn connect_route_of(body: Seq<char>) -> Route {
    if count_char(body, '\n') == 1 {
        match find(body, seq!['\n']) {
            Some(k) => Route::Connect(trim(body.take(k)), trim(body.skip(k + 1))),
            None => Route::InvalidBody,
        }
    } else {
        Route::InvalidBody
    }
}

/// Where the request text `req` goes on a server in station mode (`is_sta`) or setup mode.
/// The credentials of `/connect` are the two lines of the body, each trimmed; the command
/// of `/cmd` is the body when it fits 256 bytes and empty otherwise.
pub open spec fn route_of(req: Seq<char>, is_sta: bool) -> Route {
    if starts_with(req, "GET / "@) {
        Route::Page
    } else if starts_with(req, "GET /scan "@) && !is_sta {
        Route::Scan
    } else if starts_with(req, "POST /connect "@) && !is_sta {
        match header_end(req) {
            None => Route::Silent,
            Some(b) => {
                let body = request_body(req, b);
                connect_route_of(body)
            },
        }
    } else if starts_with(req, "POST /cmd "@) && is_sta {
        match header_end(req) {
            None => Route::MissingBody,
            Some(b) => {
                let body = request_body(req, b);
                if body.len() == 0 {
                    Route::EmptyCommand
                } else {
                    Route::Command(fit(body, COMMAND_CAP as nat))
                }
            },
        }
    } else {
        Route::NotFound
    }
}

/// Where the request bytes `buf` go.
pub open spec fn route_request(buf: Seq<u8>, is_sta: bool) -> Route {
    if buf.len() == 0 || !valid_utf8(buf) {
        Route::Silent
    } else {
        route_of(decode_utf8(buf), is_sta)
    }
}

/// Routing a request aborts the device when a `/connect` body holds two or more line feeds;
/// every other request is routed.
pub open spec fn routable(buf: Seq<u8>, is_sta: bool) -> bool {
    buf.len() > 0 && valid_utf8(buf) && !is_sta ==> {
        let req = decode_utf8(buf);
        !starts_with(req, "GET / "@) && !starts_with(req, "GET /scan "@) && starts_with(
            req,
            "POST /connect "@,
        ) && header_end(req) is Some ==> count_char(request_body(req, header_end(req)->0), '\n')
            <= 1
    }
}

fn body_of(req: &[char], b: usize) -> (r: Vec<char>)
    requires
        b + 4 <= req.len(),
    ensures
        r@ == request_body(req@, b as int),
{
    let rest = subrange_chars(req, b + 4, req.len());
    assert(rest@ =~= req@.skip(b + 4));
    let t = trim_chars(rest.as_slice(), true);
    trim_ws(t.as_slice())
}

fn header_end_exec(req: &[char]) -> (r: Option<usize>)
    ensures
        match r {
            Some(b) => header_end(req@) == Some(b as int) && b + 4 <= req.len(),
            None => header_end(req@) is None,
        },
{
    let crlf2 = chars_of("\r\n\r\n");
    let r = find_chars(req, crlf2.as_slice());
    proof {
        reveal_strlit("\r\n\r\n");
        crate::text::lemma_find_spec(req@, crlf2@);
    }
    r
}

/// Whether routing the request bytes `buf` is defined (see `routable`).
pub fn is_routable(buf: &[u8], is_sta: bool) -> (r: bool)
    ensures
        r == routable(buf@, is_sta),
{
    if buf.len() == 0 || is_sta {
        return true;
    }
    match decode_chars(buf) {
        None => true,
        Some(req) => {
            if starts_with_chars(req.as_slice(), chars_of("GET / ").as_slice()) || starts_with_chars(
                req.as_slice(),
                chars_of("GET /scan ").as_slice(),
            ) || !starts_with_chars(req.as_slice(), chars_of("POST /connect ").as_slice()) {
                return true;
            }
            match header_end_exec(req.as_slice()) {
                None => true,
                Some(b) => {
                    let body = body_of(req.as_slice(), b);
                    count_char_exec(body.as_slice(), '\n') <= 1
                },
            }
        },
    }
}

fn connect_route(body: &[char]) -> (r: HttpRoute)
    ensures
        r@ == connect_route_of(body@),
{
    if count_char_exec(body, '\n') != 1 {
        return HttpRoute::InvalidBody;
    }
    let nl = ['\n'];
    assert(nl@ =~= seq!['\n']);
    match find_chars(body, &nl) {
        Some(k) => {
            proof {
                crate::text::lemma_find_spec(body@, nl@);
            }
            assert(crate::text::occurs_at(body@, nl@, k as int));
            assert(nl@.len() == 1);
            assert(k + 1 <= body.len());
            let before = subrange_chars(body, 0, k);
            let after = subrange_chars(body, k + 1, body.len());
            assert(before@ =~= body@.take(k as int));
            assert(after@ =~= body@.skip(k + 1));
            let ssid = trim_ws(before.as_slice());
            let pass = trim_ws(after.as_slice());
            HttpRoute::Connect { ssid: string_of(ssid.as_slice()), pass: string_of(pass.as_slice()) }
        },
        None => HttpRoute::InvalidBody,
    }
}

/// Routes the request bytes `buf` on a server in station mode (`is_sta`) or setup mode.
pub fn route(buf: &[u8], is_sta: bool) -> (r: HttpRoute)
    requires
        routable(buf@, is_sta),
    ensures
        r@ == route_request(buf@, is_sta),
{
    if buf.len() == 0 {
        return HttpRoute::Silent;
    }
    let req = match decode_chars(buf) {
        Some(v) => v,
        None => {
            return HttpRoute::Silent;
        },
    };
    let rq = req.as_slice();
    if starts_with_chars(rq, chars_of("GET / ").as_slice()) {
        HttpRoute::Page
    } else if starts_with_chars(rq, chars_of("GET /scan ").as_slice()) && !is_sta {
        HttpRoute::Scan
    } else if starts_with_chars(rq, chars_of("POST /connect ").as_slice()) && !is_sta {
        match header_end_exec(rq) {
            None => HttpRoute::Silent,
            Some(b) => {
                let body = body_of(rq, b);
                connect_route(body.as_slice())
            },
        }
    } else if starts_with_chars(rq, chars_of("POST /cmd ").as_slice()) && is_sta {
        match header_end_exec(rq) {
            None => HttpRoute::MissingBody,
            Some(b) => {
                let body = body_of(rq, b);
                if body.len() == 0 {
                    HttpRoute::EmptyCommand
                } else {
                    let cmd = fit_chars(body.as_slice(), COMMAND_CAP);
                    HttpRoute::Command(string_of(cmd.as_slice()))
                }
            },
        }
    } else {
        HttpRoute::NotFound
    }
}

/// The header of a successful reply carrying `len` bytes of JSON (`json`) or plain text.
pub open spec fn ok_header(json: bool, len: nat) -> Seq<char> {
    "HTTP/1.1 200 OK\r\nConnection: close\r\nContent-Type: "@ + (if json {
        "application/json"@
    } else {
        "text/plain"@
    }) + "; charset=utf-8\r\nContent-Length: "@ + dec(len) + "\r\n\r\n"@
}

/// Builds the header of a successful reply carrying `len` bytes.
pub fn ok_header_text(json: bool, len: usize) -> (r: String)
    ensures
        r@ == ok_header(json, len as nat),
{
    let mut out: Vec<char> = Vec::new();
    push_lit(&mut out, "HTTP/1.1 200 OK\r\nConnection: close\r\nContent-Type: ");
    if json {
        push_lit(&mut out, "application/json");
    } else {
        push_lit(&mut out, "text/plain");
    }
    push_lit(&mut out, "; charset=utf-8\r\nContent-Length: ");
    push_dec(&mut out, len as u64);
    push_lit(&mut out, "\r\n\r\n");
    string_of(out.as_slice())
}

/// The fixed reply of a route, when it has one: credentials stored (`saved`) or not, a bad
/// body, a blank command, a missing body, an unknown request.
pub fn fixed_reply(r: &HttpRoute, saved: bool) -> (s: Option<String>)
    ensures
        match r@ {
            Route::Connect(_, _) => s matches Some(t) && t@ == if saved {
                "HTTP/1.1 200 OK\r\nConnection: close\r\n\r\nSuccess"@
            } else {
                "HTTP/1.1 500 Internal Server Error\r\nConnection: close\r\n\r\nFS Error"@
            },
            Route::InvalidBody => s matches Some(t) && t@
                == "HTTP/1.1 400 Bad Request\r\nConnection: close\r\n\r\nInvalid Body"@,
            Route::EmptyCommand => s matches Some(t) && t@
                == "HTTP/1.1 200 OK\r\nConnection: close\r\n\r\n[Empty command ignored]\r\n"@,
            Route::MissingBody => s matches Some(t) && t@
                == "HTTP/1.1 400 Bad Request\r\nConnection: close\r\n\r\nMissing Body"@,
            Route::NotFound => s matches Some(t) && t@
                == "HTTP/1.1 404 Not Found\r\nConnection: close\r\n\r\n"@,
            _ => s is None,
        },
{
    match r {
        HttpRoute::Connect { .. } => if saved {
            Some(text("HTTP/1.1 200 OK\r\nConnection: close\r\n\r\nSuccess"))
        } else {
            Some(text("HTTP/1.1 500 Internal Server Error\r\nConnection: close\r\n\r\nFS Error"))
        },
        HttpRoute::InvalidBody => Some(
            text("HTTP/1.1 400 Bad Request\r\nConnection: close\r\n\r\nInvalid Body"),
        ),
        HttpRoute::EmptyCommand => Some(
            text("HTTP/1.1 200 OK\r\nConnection: close\r\n\r\n[Empty command ignored]\r\n"),
        ),
        HttpRoute::MissingBody => Some(
            text("HTTP/1.1 400 Bad Request\r\nConnection: close\r\n\r\nMissing Body"),
        ),
        HttpRoute::NotFound => Some(text("HTTP/1.1 404 Not Found\r\nConnection: close\r\n\r\n")),
        _ => None,
    }
}

/// The credentials of a `/connect` body hold no line feed and are their own trim.
proof fn lemma_connect_fields(body: Seq<char>, ssid: Seq<char>, pass: Seq<char>)
    requires
        connect_route_of(body) == Route::Connect(ssid, pass),
    ensures
        !ssid.contains('\n'),
        !pass.contains('\n'),
        trim(ssid) == ssid,
        trim(pass) == pass,
{
    let nl = seq!['\n'];
    let k = find(body, nl)->0;
    crate::text::lemma_find_spec(body, nl);
    assert(crate::text::occurs_at(body, nl, k));
    assert(body.subrange(k, k + 1)[0] == body[k]);
    let before = body.take(k);
    let after = body.skip(k + 1);
    assert(!before.contains('\n')) by {
        if before.contains('\n') {
            let j = choose|j: int| 0 <= j < before.len() && before[j] == '\n';
            assert(body.subrange(j, j + 1) =~= nl);
            assert(crate::text::occurs_at(body, nl, j));
        }
    }
    crate::text::lemma_count_char_absent(before, '\n');
    assert(body =~= before + seq![body[k]] + after);
    crate::text::lemma_count_char_append(before + seq![body[k]], after, '\n');
    crate::text::lemma_count_char_append(before, seq![body[k]], '\n');
    crate::text::lemma_count_char_single('\n');
    crate::text::lemma_count_char_zero(after, '\n');
    crate::text::lemma_trim_lacks(before, '\n');
    crate::text::lemma_trim_lacks(after, '\n');
    crate::text::lemma_trim_idempotent(before);
    crate::text::lemma_trim_idempotent(after);
}

/// Credentials posted to the setup form are what the device reads from its configuration
/// file on the next boot, when each fits 64 bytes and the file text fits 128 bytes.
pub proof fn lemma_connect_read_back(buf: Seq<u8>, is_sta: bool, ssid: Seq<char>, pass: Seq<char>)
    requires
        route_request(buf, is_sta) == Route::Connect(ssid, pass),
        utf8_len(ssid) <= 64,
        utf8_len(pass) <= 64,
        utf8_len(ssid) + 1 + utf8_len(pass) <= 128,
    ensures
        wifi_conf_readable(encode_utf8(wifi_conf_text(ssid, pass))),
        wifi_conf_read(encode_utf8(wifi_conf_text(ssid, pass))) == Some((ssid, pass)),
{
    let req = decode_utf8(buf);
    let b = header_end(req)->0;
    lemma_connect_fields(request_body(req, b), ssid, pass);
    lemma_wifi_conf_roundtrip(ssid, pass);
}

} // verus!
