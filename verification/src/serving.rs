//! What a player gets for what it asks: the bytes of a range, and what the answer says of them.
use vstd::prelude::*;
use crate::media_server::{
    body_head, head_text, header_of, mime_type, reply_for, request_of, spec_range, token_in, wanted_range, HeaderLine, Reply,
};
use crate::recording::path_suffix;
use crate::text::{
    cut_at, decimal, first_of, is_digit, is_white, lemma_already_trimmed, lemma_decimal_reads_back, lemma_first_of,
    lemma_is_first_of, lemma_is_last_of, lowered, number_in, only, split_on, trimmed, trimmed_end, trimmed_start, words,
};

verus! {

/// A range header means what it says: `bytes=a-b` the bytes from `a` up to `b`, both counted, or up
/// to the end where the file is shorter; `bytes=a-` all from `a` on; and `bytes=-n` the last `n`,
/// or all there are. Where that leaves nothing there is no range, and without a header it is the
/// whole file.
pub proof fn law_ranges_mean_what_they_say(a: u64, b: u64, len: u64)
    requires
        len > 0,
    ensures
        wanted_range(Some("bytes="@ + decimal(a as nat) + "-"@ + decimal(b as nat)), len) == if a <= b && a < len {
            Some((a as int, if b < len {
                b as int
            } else {
                len - 1
            }))
        } else {
            None
        },
        wanted_range(Some("bytes="@ + decimal(a as nat) + "-"@), len) == if a < len {
            Some((a as int, len - 1))
        } else {
            None
        },
        wanted_range(Some("bytes=-"@ + decimal(b as nat)), len) == if b == 0 {
            None
        } else if b < len {
            Some((len - b, len - 1))
        } else {
            Some((0int, len - 1))
        },
        wanted_range(None, len) == Some((0int, len - 1)),
{
    let (x, y) = (decimal(a as nat), decimal(b as nat));
    let none = Seq::<char>::empty();
    lemma_number(a);
    lemma_number(b);
    reveal_strlit("bytes=");
    reveal_strlit("-");
    assert("bytes=-"@ =~= "bytes="@ + "-"@) by {
        reveal_strlit("bytes=-");
    }
    lemma_asked(x, y, len);
    lemma_asked(x, none, len);
    lemma_asked(none, y, len);
    assert("bytes="@ + x + "-"@ + none =~= "bytes="@ + x + "-"@);
    assert("bytes="@ + none + "-"@ + y =~= "bytes=-"@ + y);
}

/// Digits alone, which may be none.
spec fn only_digits(s: Seq<char>) -> bool {
    forall|i: int| 0 <= i < s.len() ==> is_digit(#[trigger] s[i])
}

proof fn lemma_number(n: u64)
    ensures
        only_digits(decimal(n as nat)),
        decimal(n as nat).len() > 0,
        number_in(decimal(n as nat), u64::MAX as int) == Some(n as int),
{
    lemma_decimal_reads_back(n as nat);
    assert(is_digit(decimal(n as nat)[0]));
}

/// What stands behind `bytes=` is what is looked at.
proof fn lemma_asked(x: Seq<char>, y: Seq<char>, len: u64)
    requires
        len > 0,
        only_digits(x),
        only_digits(y),
    ensures
        ({
            let h = "bytes="@ + x + "-"@ + y;
            let range = spec_range(x + "-"@ + y, len);
            &&& wanted_range(Some(h), len) == match range {
                Some((a, b)) => if a <= b && a < len {
                    Some((a, b))
                } else {
                    None
                },
                None => None,
            }
            &&& cut_at(x + "-"@ + y, '-') == Some((x, y))
            &&& trimmed(x) == x && trimmed(y) == y
        }),
{
    reveal_strlit("bytes=");
    reveal_strlit("-");
    let h = "bytes="@ + x + "-"@ + y;
    let s = x + "-"@ + y;
    assert forall|i: int| 0 <= i < s.len() implies !is_white(#[trigger] s[i]) && s[i] != ',' by {
        if i < x.len() {
            assert(is_digit(x[i]));
        } else if i > x.len() {
            assert(is_digit(y[i - x.len() - 1]));
        }
    }
    assert(h =~= "bytes="@ + s);
    assert(h.last() == s.last());
    assert(!is_white(s[s.len() - 1]));
    lemma_already_trimmed(h);
    assert("bytes="@.is_prefix_of(h)) by {
        assert(h.subrange(0, 6) =~= "bytes="@);
    }
    assert(h.skip(6) =~= s);
    assert forall|k: int| 0 <= k < s.len() implies !only(',')(#[trigger] s[k]) by {}
    lemma_is_first_of(s, only(','), s.len() as int);
    assert(split_on(s, ',')[0] == s);
    assert(!is_white(s[0]));
    lemma_already_trimmed(s);
    assert forall|k: int| 0 <= k < x.len() implies !only('-')(#[trigger] s[k]) by {
        assert(s[k] == x[k]);
        assert(is_digit(x[k]));
    }
    assert(s[x.len() as int] == '-');
    lemma_is_first_of(s, only('-'), x.len() as int);
    assert(s.take(x.len() as int) =~= x);
    assert(s.skip(x.len() as int + 1) =~= y);
    if x.len() > 0 {
        assert(is_digit(x[0]) && is_digit(x[x.len() - 1]));
    }
    if y.len() > 0 {
        assert(is_digit(y[0]) && is_digit(y[y.len() - 1]));
    }
    lemma_already_trimmed(x);
    lemma_already_trimmed(y);
}

/// An answer tells how many bytes follow: those of the range, both ends counted, or the whole
/// file. The answer to a range also tells which bytes of how many they are. It is told that ranges
/// can be asked for.
pub proof fn law_answers_tell_their_length(reply: Reply, mime: Seq<char>) -> (r: (Seq<char>, Seq<char>, Seq<char>))
    ensures
        reply matches Reply::Whole { len } ==> head_text(reply, mime) == "HTTP/1.1 200 OK"@ + r.0
            + "\r\nAccept-Ranges: bytes\r\nContent-Length: "@ + decimal(len as nat) + "\r\n"@ + r.1,
        reply matches Reply::Part { start, end, len } ==> head_text(reply, mime)
            == "HTTP/1.1 206 Partial Content\r\nContent-Range: bytes "@ + decimal(start as nat) + "-"@ + decimal(end as nat)
            + "/"@ + decimal(len as nat) + r.0 + "\r\nAccept-Ranges: bytes\r\nContent-Length: "@ + decimal(
            (end - start + 1) as nat,
        ) + "\r\n"@ + r.1,
        reply matches Reply::BadRange { len } ==> head_text(reply, mime)
            == "HTTP/1.1 416 Range Not Satisfiable\r\nContent-Range: bytes */"@ + decimal(len as nat)
            + "\r\nContent-Length: 0\r\n\r\n"@,
        reply is NotFound ==> head_text(reply, mime) == "HTTP/1.1 404 Not Found\r\nContent-Length: 0\r\n\r\n"@,
        r.0 == "\r\nContent-Type: "@ + mime,
{
    let kind = "\r\nContent-Type: "@ + mime;
    let rest = "Cache-Control: no-store\r\n\r\n"@;
    let last = "\r\nCache-Control: no-store\r\n\r\n"@;
    assert(last =~= "\r\n"@ + rest) by {
        reveal_strlit("\r\nCache-Control: no-store\r\n\r\n");
        reveal_strlit("Cache-Control: no-store\r\n\r\n");
        reveal_strlit("\r\n");
    }
    match reply {
        Reply::Whole { len } => {
            let d = decimal(len as nat);
            assert(body_head(mime, len as int) =~= kind + "\r\nAccept-Ranges: bytes\r\nContent-Length: "@ + d + ("\r\n"@
                + rest));
            assert(head_text(reply, mime) =~= "HTTP/1.1 200 OK"@ + kind + "\r\nAccept-Ranges: bytes\r\nContent-Length: "@ + d
                + "\r\n"@ + rest);
        },
        Reply::Part { start, end, len } => {
            let d = decimal((end - start + 1) as nat);
            let front = "HTTP/1.1 206 Partial Content\r\nContent-Range: bytes "@ + decimal(start as nat) + "-"@ + decimal(
                end as nat,
            ) + "/"@ + decimal(len as nat);
            assert(body_head(mime, end - start + 1) =~= kind + "\r\nAccept-Ranges: bytes\r\nContent-Length: "@ + d + (
            "\r\n"@ + rest));
            assert(head_text(reply, mime) =~= front + kind + "\r\nAccept-Ranges: bytes\r\nContent-Length: "@ + d + "\r\n"@
                + rest);
        },
        _ => {},
    }
    (kind, rest, Seq::empty())
}

/// The words of a text are its first word and those of what follows the space behind it.
pub proof fn lemma_next_word(w: Seq<char>, rest: Seq<char>)
    requires
        w.len() > 0,
        forall|i: int| 0 <= i < w.len() ==> !is_white(#[trigger] w[i]),
    ensures
        words(w.push(' ') + rest) == seq![w] + words(rest),
        words(w) == seq![w],
{
    let white = |c: char| is_white(c);
    let s = w.push(' ') + rest;
    let n = w.len() as int;
    assert(s[0] == w[0]);
    assert(s[n] == ' ');
    assert forall|k: int| 0 <= k < n implies !white(#[trigger] s[k]) by {
        assert(s[k] == w[k]);
    }
    lemma_is_first_of(s, white, n);
    lemma_is_first_of(w, white, n);
    assert(s.take(n) =~= w);
    assert(w.take(n) =~= w);
    let behind = s.skip(n);
    assert(behind[0] == ' ');
    assert(behind.skip(1) =~= rest);
    assert(trimmed_start(behind) == trimmed_start(rest));
    assert(w.skip(n).len() == 0);
    assert(trimmed_start(w.skip(n)).len() == 0);
    assert(words(w.skip(n)) =~= Seq::empty());
    reveal_with_fuel(words, 2);
    assert(words(behind) == words(rest));
}

/// The first word of a request is its method and the second its target.
pub proof fn law_requests_say_method_and_target(method: Seq<char>, target: Seq<char>, rest: Seq<char>)
    requires
        method.len() > 0,
        forall|i: int| 0 <= i < method.len() ==> !is_white(#[trigger] method[i]),
        target.len() > 0,
        forall|i: int| 0 <= i < target.len() ==> !is_white(#[trigger] target[i]),
    ensures
        request_of(method.push(' ') + (target.push(' ') + rest)) == (method, target),
{
    lemma_next_word(target, rest);
    lemma_next_word(method, target.push(' ') + rest);
}

/// The header that asks for a range is told by its name, whatever its case; the range is what
/// follows the colon. An empty line ends the headers.
pub proof fn law_headers_are_told_by_their_names(name: Seq<char>, value: Seq<char>)
    requires
        name.len() > 0,
        !is_white(name[0]),
        !is_white(name.last()),
        !name.contains(':'),
        value.len() > 0,
        !is_white(value[0]),
        !is_white(value.last()),
    ensures
        lowered(name) == seq!['r', 'a', 'n', 'g', 'e'] ==> header_of(name + seq![':', ' '] + value) == HeaderLine::Range(
            value,
        ),
        lowered(name) != seq!['r', 'a', 'n', 'g', 'e'] ==> header_of(name + seq![':', ' '] + value) == HeaderLine::Other,
        header_of(Seq::empty()) == HeaderLine::End,
        header_of(seq!['\r', '\n']) == HeaderLine::End,
{
    let line = name + seq![':', ' '] + value;
    let n = name.len() as int;
    reveal_strlit("range");
    assert("range"@ =~= seq!['r', 'a', 'n', 'g', 'e']);
    assert(line.last() == value.last());
    assert(trimmed_end(line) == line);
    assert(line[n] == ':');
    assert forall|k: int| 0 <= k < n implies !only(':')(#[trigger] line[k]) by {
        assert(line[k] == name[k]);
    }
    lemma_is_first_of(line, only(':'), n);
    assert(line.take(n) =~= name);
    let behind = line.skip(n + 1);
    assert(behind =~= seq![' '] + value);
    assert(behind.skip(1) =~= value);
    assert(trimmed_start(behind) == trimmed_start(value));
    lemma_already_trimmed(name);
    lemma_already_trimmed(value);
    assert(trimmed(behind) == value);
    let end = seq!['\r', '\n'];
    assert(is_white('\r') && is_white('\n'));
    assert(end.drop_last() =~= seq!['\r']);
    assert(end.drop_last().drop_last() =~= Seq::<char>::empty());
    let white = |c: char| is_white(c);
    reveal_with_fuel(crate::text::drop_end, 3);
    assert(trimmed_end(end).len() == 0);
    assert(trimmed_end(Seq::<char>::empty()).len() == 0);
}

/// A video is announced as MP4, except that macOS is told of a QuickTime file what it is.
pub proof fn law_videos_are_announced(path: Seq<char>, ext: Seq<char>, macos: bool)
    requires
        path_suffix(path) == Some(ext),
    ensures
        mime_type(path, macos) == if macos && lowered(ext) == seq!['m', 'o', 'v'] {
            "video/quicktime"@
        } else {
            "video/mp4"@
        },
{
    reveal_strlit("mov");
    assert("mov"@ =~= seq!['m', 'o', 'v']);
}

/// The token of a target is what stands between its last slash and the next dot or question mark.
pub proof fn law_tokens_stand_behind_the_last_slash(front: Seq<char>, token: Seq<char>, rest: Seq<char>)
    requires
        !token.contains('/'),
        !token.contains('.'),
        !token.contains('?'),
        !rest.contains('/'),
        rest.len() > 0 ==> rest[0] == '.' || rest[0] == '?',
    ensures
        token_in(front.push('/') + token + rest) == token,
{
    let t = front.push('/') + token + rest;
    let n = front.len() as int;
    assert(t[n] == '/');
    assert forall|k: int| n < k < t.len() implies !only('/')(#[trigger] t[k]) by {
        if k <= n + token.len() {
            assert(t[k] == token[k - n - 1]);
        } else {
            assert(t[k] == rest[k - n - 1 - token.len()]);
        }
    }
    lemma_is_last_of(t, only('/'), n);
    let last = t.skip(n + 1);
    assert(last =~= token + rest);
    let m = token.len() as int;
    let i = first_of(last, only('.'));
    lemma_first_of(last, only('.'));
    assert(i >= m) by {
        if i < m {
            assert(last[i] == token[i] && token.contains(token[i]));
        }
    }
    let part = split_on(last, '.')[0];
    assert(part =~= last.take(i));
    assert forall|k: int| 0 <= k < m implies !only('?')(#[trigger] part[k]) by {
        assert(part[k] == token[k] && token.contains(token[k]));
    }
    if i > m {
        assert(part[m] == rest[0]);
        assert(!only('.')(last[m]) && last[m] == rest[0]);
    }
    lemma_is_first_of(part, only('?'), m);
    assert(split_on(part, '?')[0] =~= part.take(m));
    assert(part.take(m) =~= token);
}

/// A request is answered with the whole file where it asks for no range, with the range where it
/// asks for one that there is, and with an error where there is none such. Only reading is
/// answered at all.
pub proof fn law_requests_are_answered_as_asked(method: Seq<char>, len: Option<u64>, range: Option<Seq<char>>)
    ensures
        len is None ==> reply_for(method, len, range) == Reply::NotFound,
        method != "GET"@ && method != "HEAD"@ ==> reply_for(method, len, range) == Reply::NotFound,
        (method == "GET"@ || method == "HEAD"@) && len is Some ==> {
            let n = len->0;
            &&& range is None && n > 0 ==> reply_for(method, len, range) == (Reply::Whole { len: n })
            &&& wanted_range(range, n) is None ==> reply_for(method, len, range) == (Reply::BadRange { len: n })
            &&& range is Some && wanted_range(range, n) is Some ==> ({
                let (a, b) = wanted_range(range, n)->0;
                reply_for(method, len, range) == (Reply::Part { start: a as u64, end: b as u64, len: n })
            })
        },
{
}

} // verus!
