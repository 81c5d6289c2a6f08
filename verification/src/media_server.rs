//! A tiny HTTP server that lets the web view stream the video being edited: which file it
//! serves, what it is asked for, and what it answers.
//!
//! Only a file registered with `publish` is served, under a random token.
use std::collections::hash_map::RandomState;
use vstd::prelude::*;
use crate::recording::{extension, lemma_suffix_in_last_part, path_suffix};
use crate::scan::{hex, hex_chars};
use crate::text::{
    after_last, append_chars, append_str, ascii_lowered, chars_of, cut_at, decimal, decimal_chars,
    last_of, last_piece, lemma_is_first_of, lemma_is_last_of, lemma_last_of, lemma_number_range, lowered, number_in,
    only, parse_number, same_chars, same_str, split_chars, split_on, split_once, split_words, string_of, strip_prefix,
    trim, trim_end, trimmed, trimmed_end, words,
};

verus! {

// ---- Published files ----

/// The one file that is served, under its token.
#[derive(Clone, Debug, PartialEq, Eq)]
pub struct Shelf {
    pub token: String,
    pub path: String,
    /// Whether there is one.
    pub filled: bool,
}

/// The token in a URL path (`/<token>.<ext>`).
pub open spec fn token_in(target: Seq<char>) -> Seq<char> {
    split_on(split_on(after_last(target, '/'), '.')[0], '?')[0]
}

/// The token in a URL path (`/<token>.<ext>`).
pub fn token_of(target: &str) -> (r: String)
    ensures
        r@ == token_in(target@),
{
    let t = chars_of(target);
    let last = last_piece(&t, '/');
    let dots = split_chars(last, '.');
    let marks = split_chars(&dots[0], '?');
    string_of(&marks[0])
}

/// The address of a published file.
pub open spec fn address(port: u16, token: Seq<char>, path: Seq<char>) -> Seq<char> {
    let ext = match path_suffix(path) {
        Some(e) => e,
        None => "mp4"@,
    };
    "http://127.0.0.1:"@ + decimal(port as nat) + "/"@ + token + "."@ + ext
}

impl Shelf {
    /// What is served for a target: the file, if the target names its token.
    pub open spec fn served(&self, target: Seq<char>) -> Option<Seq<char>> {
        if self.filled && self.token@ == token_in(target) {
            Some(self.path@)
        } else {
            None
        }
    }

    pub fn empty() -> (r: Shelf)
        ensures
            !r.filled,
    {
        Shelf { token: String::new(), path: String::new(), filled: false }
    }

    /// Serve `path` (replacing whatever was published before) and return its URL.
    pub fn publish(&mut self, path: &str, token: &str, port: u16) -> (r: String)
        ensures
            final(self).filled,
            final(self).token@ == token@,
            final(self).path@ == path@,
            r@ == address(port, token@, path@),
    {
        self.token = token.to_owned();
        self.path = path.to_owned();
        self.filled = true;
        let mut s = chars_of("http://127.0.0.1:");
        append_chars(&mut s, &decimal_chars(port as u64));
        append_str(&mut s, "/");
        append_str(&mut s, token);
        append_str(&mut s, ".");
        match extension(path) {
            Some(e) => append_str(&mut s, e.as_str()),
            None => append_str(&mut s, "mp4"),
        }
        string_of(&s)
    }

    /// Stop serving what `publish` returned `url` for (e.g. when another file is selected).
    pub fn unpublish(&mut self, url: &str)
        ensures
            final(self).filled == (old(self).filled && old(self).token@ != token_in(url@)),
            final(self).token == old(self).token,
            final(self).path == old(self).path,
    {
        let t = token_of(url);
        if same_str(self.token.as_str(), t.as_str()) {
            self.filled = false;
        }
    }

    /// The file to serve for a target.
    pub fn lookup(&self, target: &str) -> (r: Option<String>)
        ensures
            match r {
                Some(p) => self.served(target@) == Some(p@),
                None => self.served(target@) is None,
            },
    {
        let t = token_of(target);
        if self.filled && same_str(self.token.as_str(), t.as_str()) {
            Some(self.path.clone())
        } else {
            None
        }
    }
}

/// Characters that mean something in a URL.
pub open spec fn marks_url(c: char) -> bool {
    c == '/' || c == '.' || c == '?'
}

/// What was published is served at its address, and at the address for the app's own protocol.
/// Every target without its token is refused, and so is every target once it was taken back.
pub proof fn law_only_what_was_published_is_served(shelf: Shelf, port: u16, target: Seq<char>)
    requires
        is_token(shelf.token@),
    ensures
        ({
            let url = address(port, shelf.token@, shelf.path@);
            &&& shelf.filled ==> shelf.served(url) == Some(shelf.path@)
            &&& shelf.filled ==> shelf.served("/media/"@ + after_last(url, '/')) == Some(shelf.path@)
            &&& token_in(target) != shelf.token@ ==> shelf.served(target) is None
            &&& !shelf.filled ==> shelf.served(target) is None
            &&& token_in(url) == shelf.token@
        }),
{
    let token = shelf.token@;
    let url = address(port, token, shelf.path@);
    let (x, y) = choose|x: u64, y: u64| token == #[trigger] hex(x as int, 16) + #[trigger] hex(y as int, 16);
    lemma_hex_digits(x as int, 16);
    lemma_hex_digits(y as int, 16);
    assert forall|i: int| 0 <= i < token.len() implies !marks_url(#[trigger] token[i]) by {
        if i < hex(x as int, 16).len() {
            assert(token[i] == hex(x as int, 16)[i]);
        } else {
            assert(token[i] == hex(y as int, 16)[i - hex(x as int, 16).len()]);
        }
    }
    lemma_token_found(port, token, shelf.path@);
    // The same behind another folder.
    let last = after_last(url, '/');
    let other = "/media/"@ + last;
    reveal_strlit("/media/");
    lemma_last_of(url, only('/'));
    let at = last_of(url, only('/'));
    assert forall|k: int| 6 < k < other.len() implies !only('/')(#[trigger] other[k]) by {
        assert(other[k] == last[k - 7]);
        assert(last[k - 7] == url[at + 1 + k - 7]);
    }
    assert(other[6] == '/');
    lemma_is_last_of(other, only('/'), 6);
    assert(after_last(other, '/') =~= last);
}

/// Nothing but a published file is answered, and only to GET and HEAD: any other request gets
/// the same answer, which says nothing of the file.
pub proof fn law_refused_requests_are_not_found(method: Seq<char>, len: Option<u64>, range: Option<Seq<char>>, mime: Seq<char>)
    requires
        len is None || !(method == "GET"@ || method == "HEAD"@),
    ensures
        reply_for(method, len, range) == Reply::NotFound,
        head_text(reply_for(method, len, range), mime) == "HTTP/1.1 404 Not Found\r\nContent-Length: 0\r\n\r\n"@,
{
}

proof fn lemma_hex_digits(v: int, n: nat)
    ensures
        hex(v, n).len() == n,
        forall|i: int| 0 <= i < n ==> !marks_url(#[trigger] hex(v, n)[i]),
    decreases n,
{
    if n > 0 {
        lemma_hex_digits(v / 16, (n - 1) as nat);
    }
}

/// A token without such characters is found again in the address made with it.
proof fn lemma_token_found(port: u16, token: Seq<char>, path: Seq<char>)
    requires
        forall|i: int| 0 <= i < token.len() ==> !marks_url(#[trigger] token[i]),
    ensures
        token_in(address(port, token, path)) == token,
{
    lemma_suffix_in_last_part(path);
    reveal_strlit("http://127.0.0.1:");
    reveal_strlit("/");
    reveal_strlit(".");
    reveal_strlit("mp4");
    let ext = match path_suffix(path) {
        Some(e) => e,
        None => "mp4"@,
    };
    let a = address(port, token, path);
    let head = "http://127.0.0.1:"@ + decimal(port as nat);
    let tail = token + "."@ + ext;
    assert(a =~= head + "/"@ + tail);
    let at = head.len() as int;
    assert(a[at] == '/');
    assert forall|k: int| at < k < a.len() implies !only('/')(#[trigger] a[k]) by {
        assert(a[k] == tail[k - at - 1]);
        if k - at - 1 < token.len() {
            assert(tail[k - at - 1] == token[k - at - 1]);
        } else if k - at - 1 == token.len() {
        } else {
            assert(tail[k - at - 1] == ext[k - at - 2 - token.len()]);
            if path_suffix(path) is None {
            } else {
                assert(!ext.contains('/'));
            }
        }
    }
    lemma_is_last_of(a, only('/'), at);
    assert(after_last(a, '/') =~= tail);
    assert forall|k: int| 0 <= k < token.len() implies !only('.')(#[trigger] tail[k]) by {
        assert(tail[k] == token[k]);
    }
    assert(tail[token.len() as int] == '.');
    lemma_is_first_of(tail, only('.'), token.len() as int);
    assert(split_on(tail, '.')[0] =~= token);
    assert forall|k: int| 0 <= k < token.len() implies !only('?')(#[trigger] token[k]) by {}
    lemma_is_first_of(token, only('?'), token.len() as int);
    assert(split_on(token, '?')[0] =~= token);
}

/// Calls `RandomState::new`: keys that nobody can tell beforehand, so nothing is claimed of them.
#[verifier::external_body]
fn fresh_state() -> RandomState {
    RandomState::new()
}

/// Calls `BuildHasher::hash_one` of a `RandomState`: 64 bits that depend on its keys, so nothing
/// is claimed of them.
#[verifier::external_body]
fn keyed_hash(state: &RandomState, salt: u128) -> u64 {
    std::hash::BuildHasher::hash_one(state, salt)
}

/// Calls `SystemTime::now`: the nanoseconds since 1970, or zero before it. Nothing is claimed of
/// them.
#[verifier::external_body]
fn now_ns() -> u128 {
    std::time::SystemTime::now().duration_since(std::time::UNIX_EPOCH).unwrap_or_default().as_nanos()
}

/// 32 hexadecimal digits.
pub open spec fn is_token(s: Seq<char>) -> bool {
    exists|a: u64, b: u64| s == #[trigger] hex(a as int, 16) + #[trigger] hex(b as int, 16)
}

/// 128 bits from the OS's hash seeds: not guessable by other local programs.
pub fn random_token() -> (r: String)
    ensures
        is_token(r@),
{
    let a = keyed_hash(&fresh_state(), now_ns());
    let b = keyed_hash(&fresh_state(), now_ns());
    token_from(a, b)
}

/// The token made of two halves.
pub fn token_from(a: u64, b: u64) -> (r: String)
    ensures
        r@ == hex(a as int, 16) + hex(b as int, 16),
{
    let mut s = hex_chars(a, 16);
    append_chars(&mut s, &hex_chars(b, 16));
    string_of(&s)
}

/// The same-origin path, for the app's own protocol, of what `publish` returned `url` for.
pub fn in_app_path(url: &str) -> (r: String)
    ensures
        r@ == "/media/"@ + after_last(url@, '/'),
{
    let u = chars_of(url);
    let mut s = chars_of("/media/");
    append_chars(&mut s, last_piece(&u, '/'));
    string_of(&s)
}

/// The MIME type of a video. Chromium won't try "video/quicktime", but plays most MOVs as MP4.
pub open spec fn mime_type(path: Seq<char>, macos: bool) -> Seq<char> {
    if macos && path_suffix(path) is Some && lowered(path_suffix(path)->0) == "mov"@ {
        "video/quicktime"@
    } else {
        "video/mp4"@
    }
}

/// The MIME type of a video, on macOS or elsewhere.
pub fn content_type(path: &str, macos: bool) -> (r: &'static str)
    ensures
        r@ == mime_type(path@, macos),
{
    if !macos {
        return "video/mp4";
    }
    match extension(path) {
        Some(e) => {
            let low = ascii_lowered(&chars_of(e.as_str()));
            if same_chars(&low, &chars_of("mov")) {
                "video/quicktime"
            } else {
                "video/mp4"
            }
        },
        None => "video/mp4",
    }
}

// ---- Byte ranges ----

/// The range `spec` (`a-b`, `a-` or `-n`) of a file of `len` bytes, before it is checked.
pub open spec fn spec_range(spec: Seq<char>, len: u64) -> Option<(int, int)> {
    match cut_at(spec, '-') {
        None => None,
        Some((a, b)) => {
            let (a, b) = (trimmed(a), trimmed(b));
            let max = u64::MAX as int;
            if a.len() == 0 {
                // Suffix: the last `n` bytes.
                match number_in(b, max) {
                    Some(n) => if n == 0 {
                        None
                    } else {
                        Some((if n < len { len - n } else { 0 }, len - 1))
                    },
                    None => None,
                }
            } else if b.len() == 0 {
                match number_in(a, max) {
                    Some(x) => Some((x, len - 1)),
                    None => None,
                }
            } else {
                match (number_in(a, max), number_in(b, max)) {
                    (Some(x), Some(y)) => Some((x, if y < len - 1 { y } else { len - 1 })),
                    _ => None,
                }
            }
        },
    }
}

/// The inclusive byte range for a `Range` header on a file of `len` bytes: only the first range
/// of several; the whole file without a header; nothing if it can't be satisfied.
pub open spec fn wanted_range(header: Option<Seq<char>>, len: u64) -> Option<(int, int)> {
    if len == 0 {
        None
    } else {
        let range = match header {
            None => Some((0int, len - 1)),
            Some(h) => {
                let t = trimmed(h);
                if !"bytes="@.is_prefix_of(t) {
                    None
                } else {
                    spec_range(trimmed(split_on(t.skip("bytes="@.len() as int), ',')[0]), len)
                }
            },
        };
        match range {
            Some((a, b)) => if a <= b && a < len {
                Some((a, b))
            } else {
                None
            },
            None => None,
        }
    }
}

fn parse_spec(spec: &[char], len: u64) -> (r: Option<(u64, u64)>)
    requires
        len > 0,
    ensures
        match r {
            Some((a, b)) => spec_range(spec@, len) == Some((a as int, b as int)),
            None => spec_range(spec@, len) is None,
        },
{
    let (a, b) = match split_once(spec, '-') {
        Some(x) => x,
        None => return None,
    };
    let a = trim(a);
    let b = trim(b);
    if a.len() == 0 {
        return match parse_number(b, u64::MAX) {
            Some(n) => if n == 0 {
                None
            } else {
                Some((len.saturating_sub(n), len - 1))
            },
            None => None,
        };
    }
    if b.len() == 0 {
        return match parse_number(a, u64::MAX) {
            Some(x) => Some((x, len - 1)),
            None => None,
        };
    }
    match (parse_number(a, u64::MAX), parse_number(b, u64::MAX)) {
        (Some(x), Some(y)) => {
            let end: u64 = if y < len - 1 {
                y
            } else {
                len - 1
            };
            Some((x, end))
        },
        _ => None,
    }
}

/// The characters of an optional text.
pub open spec fn opt_text(s: Option<&str>) -> Option<Seq<char>> {
    match s {
        Some(t) => Some(t@),
        None => None,
    }
}

/// The inclusive byte range `[start, end]` for a `Range` header on a `len`-byte file. No header
/// means the whole file; `None` if it can't be satisfied.
pub fn byte_range(header: Option<&str>, len: u64) -> (r: Option<(u64, u64)>)
    ensures
        match r {
            Some((a, b)) => wanted_range(opt_text(header), len) == Some((a as int, b as int)) && a <= b < len,
            None => wanted_range(opt_text(header), len) is None,
        },
{
    if len == 0 {
        return None;
    }
    let (start, end): (u64, u64) = match header {
        None => (0, len - 1),
        Some(h) => {
            let h = chars_of(h);
            let t = trim(&h);
            let rest = match strip_prefix(t, "bytes=") {
                Some(x) => x,
                None => return None,
            };
            // Only the first range of a multi-range request; web views never ask for more.
            let parts = split_chars(rest, ',');
            match parse_spec(trim(&parts[0]), len) {
                Some(x) => x,
                None => return None,
            }
        },
    };
    if start <= end && start < len {
        assert(end < len) by {
            law_ranges_stay_inside(opt_text(header), len);
        }
        Some((start, end))
    } else {
        None
    }
}

/// Whatever is asked for, what is served lies inside the file and is not empty.
pub proof fn law_ranges_stay_inside(header: Option<Seq<char>>, len: u64)
    ensures
        wanted_range(header, len) matches Some((a, b)) ==> 0 <= a <= b < len,
{
    if let Some(h) = header {
        reveal_strlit("bytes=");
        let spec = trimmed(split_on(trimmed(h).skip("bytes="@.len() as int), ',')[0]);
        if let Some((a, b)) = cut_at(spec, '-') {
            lemma_number_range(trimmed(a), u64::MAX as int);
            lemma_number_range(trimmed(b), u64::MAX as int);
        }
    }
}

/// Longest byte range answered at once through the app's own protocol, which holds it in
/// memory; the web view asks again for the rest.
pub const IN_APP_CHUNK: u64 = 4_194_304;

/// The part of a range answered at once through the app's own protocol.
pub open spec fn in_app_part(start: int, end: int) -> (int, int) {
    (
        start,
        if end - start < IN_APP_CHUNK {
            end
        } else {
            start + IN_APP_CHUNK - 1
        },
    )
}

/// The part of a range answered at once.
pub fn in_app_range(start: u64, end: u64) -> (r: (u64, u64))
    requires
        start <= end,
    ensures
        (r.0 as int, r.1 as int) == in_app_part(start as int, end as int),
{
    if end - start < IN_APP_CHUNK {
        (start, end)
    } else {
        (start, start + (IN_APP_CHUNK - 1))
    }
}

// ---- Requests and answers ----

/// The method and target of a request line; nothing where there is none.
pub open spec fn request_of(line: Seq<char>) -> (Seq<char>, Seq<char>) {
    let w = words(line);
    (
        if w.len() > 0 { w[0] } else { Seq::empty() },
        if w.len() > 1 { w[1] } else { Seq::empty() },
    )
}

/// The method and target of a request line.
pub fn request_line(line: &str) -> (r: (String, String))
    ensures
        (r.0@, r.1@) == request_of(line@),
{
    let l = chars_of(line);
    let w = split_words(&l);
    let ghost all = words(line@);
    assert(all.len() == w@.len());
    let method = if w.len() > 0 {
        assert(all[0] == w@[0]@);
        string_of(&w[0])
    } else {
        let s = String::new();
        assert(s@ =~= Seq::<char>::empty());
        s
    };
    let target = if w.len() > 1 {
        assert(all[1] == w@[1]@);
        string_of(&w[1])
    } else {
        let s = String::new();
        assert(s@ =~= Seq::<char>::empty());
        s
    };
    (method, target)
}

/// What a header line says.
pub enum HeaderLine {
    /// The empty line that ends the headers.
    End,
    /// The byte range asked for.
    Range(Seq<char>),
    /// Something else.
    Other,
}

pub open spec fn header_of(line: Seq<char>) -> HeaderLine {
    let l = trimmed_end(line);
    if l.len() == 0 {
        HeaderLine::End
    } else {
        match cut_at(l, ':') {
            Some((name, value)) => if lowered(trimmed(name)) == "range"@ {
                HeaderLine::Range(trimmed(value))
            } else {
                HeaderLine::Other
            },
            None => HeaderLine::Other,
        }
    }
}

/// What a header line says.
#[derive(Clone, Debug, PartialEq, Eq)]
pub enum Header {
    End,
    Range(String),
    Other,
}

/// Read a header line.
pub fn header_line(line: &str) -> (r: Header)
    ensures
        match r {
            Header::End => header_of(line@) == HeaderLine::End,
            Header::Range(v) => header_of(line@) == HeaderLine::Range(v@),
            Header::Other => header_of(line@) == HeaderLine::Other,
        },
{
    let l = chars_of(line);
    let l = trim_end(&l);
    if l.len() == 0 {
        return Header::End;
    }
    match split_once(l, ':') {
        Some((name, value)) => {
            let low = ascii_lowered(trim(name));
            if same_chars(&low, &chars_of("range")) {
                Header::Range(string_of(trim(value)))
            } else {
                Header::Other
            }
        },
        None => Header::Other,
    }
}

/// What to answer a request with.
#[derive(Clone, Copy, Debug, PartialEq, Eq, Structural)]
pub enum Reply {
    NotFound,
    /// The range can't be satisfied.
    BadRange { len: u64 },
    /// All of the file.
    Whole { len: u64 },
    /// The bytes `[start, end]`.
    Part { start: u64, end: u64, len: u64 },
}

/// The reply to a request for a file of `len` bytes (`None` if there is none, or it can't be
/// opened): only GET and HEAD are answered.
pub open spec fn reply_for(method: Seq<char>, len: Option<u64>, range: Option<Seq<char>>) -> Reply {
    if len is None || !(method == "GET"@ || method == "HEAD"@) {
        Reply::NotFound
    } else {
        match wanted_range(range, len->0) {
            None => Reply::BadRange { len: len->0 },
            Some((a, b)) => if range is Some {
                Reply::Part { start: a as u64, end: b as u64, len: len->0 }
            } else {
                Reply::Whole { len: len->0 }
            },
        }
    }
}

/// What to answer a request with.
pub fn serve(method: &str, len: Option<u64>, range: Option<&str>) -> (r: Reply)
    ensures
        r == reply_for(method@, len, opt_text(range)),
{
    let len = match len {
        Some(n) => n,
        None => return Reply::NotFound,
    };
    if !same_str(method, "GET") && !same_str(method, "HEAD") {
        return Reply::NotFound;
    }
    match byte_range(range, len) {
        None => Reply::BadRange { len },
        Some((start, end)) => if range.is_some() {
            Reply::Part { start, end, len }
        } else {
            Reply::Whole { len }
        },
    }
}

/// The reply to a request through the app's own protocol for a file of `len` bytes (`None` if
/// there is none, or it can't be opened). It is partial content even where no range was asked
/// for, so that the web view knows it can seek.
pub open spec fn in_app_reply_for(len: Option<u64>, range: Option<Seq<char>>) -> Reply {
    match len {
        None => Reply::NotFound,
        Some(n) => match wanted_range(range, n) {
            None => Reply::BadRange { len: n },
            Some((a, b)) => Reply::Part {
                start: in_app_part(a, b).0 as u64,
                end: in_app_part(a, b).1 as u64,
                len: n,
            },
        },
    }
}

/// What to answer a request through the app's own protocol with.
pub fn in_app_reply(len: Option<u64>, range: Option<&str>) -> (r: Reply)
    ensures
        r == in_app_reply_for(len, opt_text(range)),
{
    let len = match len {
        Some(n) => n,
        None => return Reply::NotFound,
    };
    match byte_range(range, len) {
        None => Reply::BadRange { len },
        Some((a, b)) => {
            let (start, end) = in_app_range(a, b);
            Reply::Part { start, end, len }
        },
    }
}

/// Whatever is asked for through the app's own protocol, what is answered lies inside the file,
/// is not empty and no longer than is held in memory at once. It starts where the range does,
/// and ends with it or is as long as it may be.
pub proof fn law_in_app_parts_are_small(len: u64, range: Option<Seq<char>>)
    ensures
        in_app_reply_for(Some(len), range) matches Reply::Part { start, end, len: n } ==> {
            &&& start <= end < n == len
            &&& end - start + 1 <= IN_APP_CHUNK
            &&& wanted_range(range, len) matches Some((a, b)) && a == start && (end == b || end - start + 1
                == IN_APP_CHUNK && end < b)
        },
{
    law_ranges_stay_inside(range, len);
}

/// The header of an answer.
pub open spec fn head_text(reply: Reply, mime: Seq<char>) -> Seq<char> {
    match reply {
        Reply::NotFound => "HTTP/1.1 404 Not Found\r\nContent-Length: 0\r\n\r\n"@,
        Reply::BadRange { len } => "HTTP/1.1 416 Range Not Satisfiable\r\nContent-Range: bytes */"@ + decimal(len as nat)
            + "\r\nContent-Length: 0\r\n\r\n"@,
        Reply::Whole { len } => "HTTP/1.1 200 OK"@ + body_head(mime, len as int),
        Reply::Part { start, end, len } => "HTTP/1.1 206 Partial Content\r\nContent-Range: bytes "@ + decimal(start as nat)
            + "-"@ + decimal(end as nat) + "/"@ + decimal(len as nat) + body_head(mime, end - start + 1),
    }
}

/// What the header says of the body.
pub open spec fn body_head(mime: Seq<char>, size: int) -> Seq<char> {
    "\r\nContent-Type: "@ + mime + "\r\nAccept-Ranges: bytes\r\nContent-Length: "@ + decimal(size as nat)
        + "\r\nCache-Control: no-store\r\n\r\n"@
}

fn body_head_chars(mime: &str, size: u64) -> (r: Vec<char>)
    ensures
        r@ == body_head(mime@, size as int),
{
    let mut s = chars_of("\r\nContent-Type: ");
    append_str(&mut s, mime);
    append_str(&mut s, "\r\nAccept-Ranges: bytes\r\nContent-Length: ");
    append_chars(&mut s, &decimal_chars(size));
    append_str(&mut s, "\r\nCache-Control: no-store\r\n\r\n");
    s
}

/// The header of an answer.
pub fn reply_head(reply: Reply, mime: &str) -> (r: String)
    requires
        reply matches Reply::Part { start, end, len } ==> start <= end < len,
    ensures
        r@ == head_text(reply, mime@),
{
    match reply {
        Reply::NotFound => "HTTP/1.1 404 Not Found\r\nContent-Length: 0\r\n\r\n".to_owned(),
        Reply::BadRange { len } => {
            let mut s = chars_of("HTTP/1.1 416 Range Not Satisfiable\r\nContent-Range: bytes */");
            append_chars(&mut s, &decimal_chars(len));
            append_str(&mut s, "\r\nContent-Length: 0\r\n\r\n");
            string_of(&s)
        },
        Reply::Whole { len } => {
            let mut s = chars_of("HTTP/1.1 200 OK");
            append_chars(&mut s, &body_head_chars(mime, len));
            string_of(&s)
        },
        Reply::Part { start, end, len } => {
            let mut s = chars_of("HTTP/1.1 206 Partial Content\r\nContent-Range: bytes ");
            append_chars(&mut s, &decimal_chars(start));
            append_str(&mut s, "-");
            append_chars(&mut s, &decimal_chars(end));
            append_str(&mut s, "/");
            append_chars(&mut s, &decimal_chars(len));
            append_chars(&mut s, &body_head_chars(mime, end - start + 1));
            string_of(&s)
        },
    }
}

} // verus!
