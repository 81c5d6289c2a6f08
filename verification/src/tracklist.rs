//! Turning a pasted tracklist into titles.
use vstd::prelude::*;
use vstd::slice::slice_subrange;
use crate::edit::{RecordingEdit, Split, TrackMeta};
use crate::text::{
    all_digits, chars_of, digit, drop_end, drop_start, first_of, is_digit, is_white, last_of, lemma_drop_start,
    lemma_dropped_piece, lemma_first_of, lemma_is_first_of, lemma_last_of, lemma_piece_of_piece, lemma_split_on_join,
    lemma_trimmed, one_of, only, piece_of, rfind_char, rfind_white, split_chars, split_on, string_of, strings, texts, trim,
    trim_end, trim_end_of, trim_start, trim_start_of, trimmed, trimmed_end, trimmed_start, white,
};

verus! {

/// Marks that may stand before a number or a title: dashes, dots, brackets, bullets.
pub open spec fn lead_marks() -> Seq<char> {
    seq!['-', '\u{2013}', '\u{2014}', '.', ')', ':', '|', '\u{2022}', '*', '#']
}

/// Marks that may follow a number.
pub open spec fn number_ends() -> Seq<char> {
    seq!['.', '-', '\u{2013}', '\u{2014}', ')', ':', '|']
}

/// Dashes and bars that may be left at the end of a title.
pub open spec fn tail_marks() -> Seq<char> {
    seq!['-', '\u{2013}', '\u{2014}', '|']
}

/// One or two digits.
pub open spec fn clock_part(s: Seq<char>) -> bool {
    0 < s.len() <= 2 && all_digits(s)
}

/// Two or three parts of one or two digits, with colons between: `3:12`, `01:02:03`.
pub open spec fn looks_like_time(s: Seq<char>) -> bool {
    let parts = split_on(s, ':');
    2 <= parts.len() <= 3 && forall|i: int| 0 <= i < parts.len() ==> clock_part(#[trigger] parts[i])
}

/// A track number or a time.
pub open spec fn numbering(token: Seq<char>) -> bool {
    (0 < token.len() <= 3 && all_digits(token)) || looks_like_time(token)
}

/// What follows a leading number or time, if it ends the line or is followed by a space or a
/// mark: "1984 Song" keeps its year, and so does "7th".
pub open spec fn after_number(token: Seq<char>, rest: Seq<char>) -> Option<Seq<char>> {
    if numbering(trimmed(token)) && (rest.len() == 0 || is_white(rest[0]) || number_ends().contains(rest[0])) {
        Some(rest)
    } else {
        None
    }
}

/// `s` without one leading number or time, which may stand in brackets.
pub open spec fn without_number(s: Seq<char>) -> Option<Seq<char>> {
    if s.len() > 0 && (s[0] == '[' || s[0] == '(') {
        let r = s.skip(1);
        let end = first_of(r, |c: char| c == ']' || c == ')');
        if end >= r.len() {
            None
        } else {
            after_number(r.take(end), r.skip(end + 1))
        }
    } else {
        let end = first_of(s, |c: char| !(is_digit(c) || c == ':'));
        after_number(s.take(end), s.skip(end))
    }
}

/// `s` without leading marks, and then without one leading number or time.
pub open spec fn lead_step(s: Seq<char>) -> Seq<char> {
    let a = trimmed_start(drop_start(s, |c: char| lead_marks().contains(c)));
    match without_number(a) {
        Some(rest) => rest,
        None => a,
    }
}

/// `lead_step` until nothing more comes off.
pub open spec fn without_lead(s: Seq<char>) -> Seq<char>
    decreases s.len(),
{
    let t = lead_step(s);
    if t.len() < s.len() {
        without_lead(t)
    } else {
        s
    }
}

/// `s` without a trailing time in the given brackets.
pub open spec fn without_bracketed_time(s: Seq<char>, open: char, close: char) -> Seq<char> {
    let x = s.drop_last();
    let i = last_of(x, only(open));
    if s.len() > 0 && s.last() == close && i >= 0 && looks_like_time(trimmed(x.skip(i + 1))) {
        trimmed_end(x.take(i))
    } else {
        s
    }
}

/// `s` without a trailing time after white space.
pub open spec fn without_bare_time(s: Seq<char>) -> Seq<char> {
    let i = last_of(s, |c: char| is_white(c));
    if i >= 0 && looks_like_time(s.skip(i + 1)) {
        trimmed_end(s.take(i))
    } else {
        s
    }
}

/// The title on a line.
pub open spec fn title_of(line: Seq<char>) -> Seq<char> {
    let s = trimmed_end(without_lead(trimmed(line)));
    let s = without_bracketed_time(s, '(', ')');
    let s = without_bracketed_time(s, '[', ']');
    let s = without_bare_time(s);
    trimmed(drop_end(s, |c: char| tail_marks().contains(c)))
}

/// The titles on the given lines, where there is one.
pub open spec fn titles_of(lines: Seq<Seq<char>>) -> Seq<Seq<char>>
    decreases lines.len(),
{
    if lines.len() == 0 {
        Seq::empty()
    } else {
        let before = titles_of(lines.drop_last());
        let t = title_of(lines.last());
        if t.len() > 0 {
            before.push(t)
        } else {
            before
        }
    }
}

/// One title per non-empty line, with leading numbering / timestamps and trailing durations
/// removed. Handles the usual shapes:
///
/// ```text
/// 1. Title            01 - Title          03:12 Title
/// [00:03:12] Title    Title (4:32)        Title [4:32]
/// ```
pub fn parse(text: &str) -> (r: Vec<String>)
    ensures
        strings(r@) == titles_of(split_on(text@, '\n')),
{
    let chars = chars_of(text);
    let lines = split_chars(&chars, '\n');
    let mut out: Vec<String> = Vec::new();
    let mut i: usize = 0;
    assert(strings(out@) =~= titles_of(texts(lines@).take(0)));
    while i < lines.len()
        invariant
            i <= lines@.len(),
            strings(out@) == titles_of(texts(lines@).take(i as int)),
        decreases lines@.len() - i,
    {
        let ghost before = strings(out@);
        let t = clean_line(&lines[i]);
        assert(texts(lines@).take(i + 1).drop_last() =~= texts(lines@).take(i as int));
        assert(texts(lines@).take(i + 1).last() == lines@[i as int]@);
        if t.len() > 0 {
            out.push(string_of(&t));
            assert(strings(out@) =~= before.push(t@));
        }
        i += 1;
    }
    assert(texts(lines@).take(i as int) =~= texts(lines@));
    out
}

/// A tracklist is read line by line: two of them with a line break between them give the titles
/// of the first and then those of the second.
pub proof fn law_tracklists_join(a: Seq<char>, b: Seq<char>)
    ensures
        titles_of(split_on(a + "\n"@ + b, '\n')) == titles_of(split_on(a, '\n')) + titles_of(split_on(b, '\n')),
{
    reveal_strlit("\n");
    assert(a + "\n"@ + b =~= a.push('\n') + b);
    lemma_split_on_join(a, b, '\n');
    lemma_titles_join(split_on(a, '\n'), split_on(b, '\n'));
}

proof fn lemma_titles_join(a: Seq<Seq<char>>, b: Seq<Seq<char>>)
    ensures
        titles_of(a + b) == titles_of(a) + titles_of(b),
    decreases b.len(),
{
    if b.len() == 0 {
        assert(a + b =~= a);
        assert(titles_of(a) + titles_of(b) =~= titles_of(a));
    } else {
        assert((a + b).drop_last() =~= a + b.drop_last());
        lemma_titles_join(a, b.drop_last());
        assert(titles_of(a + b) =~= titles_of(a) + titles_of(b));
    }
}

/// Every line gives at most one title, and the titles come in the order of their lines. A title
/// is a piece of its line, not empty and without white space at either end. `from` says which
/// lines they are on; all others have none.
pub proof fn law_titles_come_from_their_lines(lines: Seq<Seq<char>>) -> (from: Seq<int>)
    ensures
        from.len() == titles_of(lines).len(),
        forall|k: int| 0 <= k < from.len() ==> {
            &&& 0 <= #[trigger] from[k] < lines.len()
            &&& titles_of(lines)[k] == title_of(lines[from[k]])
            &&& titles_of(lines)[k].len() > 0
            &&& !is_white(titles_of(lines)[k][0])
            &&& !is_white(titles_of(lines)[k].last())
            &&& piece_of(titles_of(lines)[k], lines[from[k]])
        },
        forall|j: int, k: int| 0 <= j < k < from.len() ==> #[trigger] from[j] < #[trigger] from[k],
        forall|i: int| 0 <= i < lines.len() && !from.contains(i) ==> title_of(#[trigger] lines[i]).len() == 0,
    decreases lines.len(),
{
    if lines.len() == 0 {
        Seq::empty()
    } else {
        let less = lines.drop_last();
        let last = lines.len() - 1;
        let before = law_titles_come_from_their_lines(less);
        assert forall|k: int| 0 <= k < before.len() implies lines[#[trigger] before[k]] == less[before[k]] by {}
        lemma_title_is_a_piece(lines.last());
        if title_of(lines.last()).len() > 0 {
            let from = before.push(last);
            assert(from[before.len() as int] == last);
            assert forall|i: int| 0 <= i < lines.len() && !from.contains(i) implies title_of(#[trigger] lines[i]).len() == 0 by {
                if before.contains(i) {
                    let k = choose|k: int| 0 <= k < before.len() && before[k] == i;
                    assert(from[k] == i);
                }
                assert(i < last);
                assert(less[i] == lines[i]);
            }
            from
        } else {
            assert forall|i: int| 0 <= i < lines.len() && !before.contains(i) implies title_of(#[trigger] lines[i]).len()
                == 0 by {
                if i < last {
                    assert(less[i] == lines[i]);
                }
            }
            before
        }
    }
}

proof fn lemma_title_is_a_piece(line: Seq<char>)
    ensures
        piece_of(title_of(line), line),
        title_of(line).len() > 0 ==> !is_white(title_of(line)[0]) && !is_white(title_of(line).last()),
{
    let white = |c: char| is_white(c);
    assert(line =~= line.subrange(0, line.len() as int));
    lemma_trimmed(line, line);
    lemma_lead_leaves_a_piece(trimmed(line), line);
    let a = without_lead(trimmed(line));
    lemma_dropped_piece(a, line, white);
    let b = trimmed_end(a);
    lemma_bracketed_leaves_a_piece(b, line, '(', ')');
    let c = without_bracketed_time(b, '(', ')');
    lemma_bracketed_leaves_a_piece(c, line, '[', ']');
    let d = without_bracketed_time(c, '[', ']');
    let i = last_of(d, white);
    if i >= 0 && looks_like_time(d.skip(i + 1)) {
        lemma_last_of(d, white);
        assert(d.take(i) =~= d.subrange(0, i));
        lemma_piece_of_piece(d, line, 0, i);
        lemma_dropped_piece(d.take(i), line, white);
    }
    let e = without_bare_time(d);
    let tail = |c: char| tail_marks().contains(c);
    lemma_dropped_piece(e, line, tail);
    lemma_trimmed(drop_end(e, tail), line);
}

proof fn lemma_bracketed_leaves_a_piece(s: Seq<char>, line: Seq<char>, open: char, close: char)
    requires
        piece_of(s, line),
    ensures
        piece_of(without_bracketed_time(s, open, close), line),
{
    let x = s.drop_last();
    let i = last_of(x, only(open));
    if s.len() > 0 && s.last() == close && i >= 0 && looks_like_time(trimmed(x.skip(i + 1))) {
        lemma_last_of(x, only(open));
        assert(x.take(i) =~= s.subrange(0, i));
        lemma_piece_of_piece(s, line, 0, i);
        lemma_dropped_piece(x.take(i), line, |c: char| is_white(c));
    }
}

proof fn lemma_lead_leaves_a_piece(s: Seq<char>, line: Seq<char>)
    requires
        piece_of(s, line),
    ensures
        piece_of(without_lead(s), line),
    decreases s.len(),
{
    let marks = |c: char| lead_marks().contains(c);
    lemma_dropped_piece(s, line, marks);
    let m = drop_start(s, marks);
    lemma_dropped_piece(m, line, |c: char| is_white(c));
    let a = trimmed_start(m);
    if a.len() > 0 && (a[0] == '[' || a[0] == '(') {
        let r = a.skip(1);
        let ends = |c: char| c == ']' || c == ')';
        let end = first_of(r, ends);
        lemma_first_of(r, ends);
        if end < r.len() {
            assert(r.skip(end + 1) =~= a.subrange(end + 2, a.len() as int));
            lemma_piece_of_piece(a, line, end + 2, a.len() as int);
        }
    } else {
        let other = |c: char| !(is_digit(c) || c == ':');
        let end = first_of(a, other);
        lemma_first_of(a, other);
        assert(a.skip(end) =~= a.subrange(end, a.len() as int));
        lemma_piece_of_piece(a, line, end, a.len() as int);
    }
    assert(piece_of(lead_step(s), line));
    if lead_step(s).len() < s.len() {
        lemma_lead_leaves_a_piece(lead_step(s), line);
    }
}

/// The title on a line.
pub fn clean_line(line: &[char]) -> (r: Vec<char>)
    ensures
        r@ == title_of(line@),
{
    let marks = lead_mark_list();
    let mut s: &[char] = trim(line);
    loop
        invariant
            marks@ == lead_marks(),
            without_lead(trimmed(line@)) == without_lead(s@),
        ensures
            s@ == without_lead(trimmed(line@)),
        decreases s@.len(),
    {
        let before: usize = s.len();
        let ghost was = s@;
        let a = trim_start(trim_start_of(s, &marks));
        proof {
            assert((|c: char| marks@.contains(c)) =~= (|c: char| lead_marks().contains(c)));
            lemma_drop_start(was, |c: char| lead_marks().contains(c));
            lemma_drop_start(drop_start(was, |c: char| lead_marks().contains(c)), |c: char| is_white(c));
        }
        let next: &[char] = match strip_leading_token(a) {
            Some(rest) => rest,
            None => a,
        };
        assert(next@ == lead_step(was));
        if next.len() >= before {
            break;
        }
        s = next;
    }
    let s = trim_end(s);
    let s = strip_bracketed_time(s, '(', ')');
    let s = strip_bracketed_time(s, '[', ']');
    let s = strip_bare_time(s);
    let tails = tail_mark_list();
    assert((|c: char| tails@.contains(c)) =~= (|c: char| tail_marks().contains(c)));
    crate::text::copy_of(trim(trim_end_of(s, &tails)))
}

fn lead_mark_list() -> (r: Vec<char>)
    ensures
        r@ == lead_marks(),
{
    let v = vec!['-', '\u{2013}', '\u{2014}', '.', ')', ':', '|', '\u{2022}', '*', '#'];
    assert(v@ =~= lead_marks());
    v
}

fn number_end_list() -> (r: Vec<char>)
    ensures
        r@ == number_ends(),
{
    let v = vec!['.', '-', '\u{2013}', '\u{2014}', ')', ':', '|'];
    assert(v@ =~= number_ends());
    v
}

fn tail_mark_list() -> (r: Vec<char>)
    ensures
        r@ == tail_marks(),
{
    let v = vec!['-', '\u{2013}', '\u{2014}', '|'];
    assert(v@ =~= tail_marks());
    v
}

fn strip_bracketed_time(s: &[char], open: char, close: char) -> (r: &[char])
    ensures
        r@ == without_bracketed_time(s@, open, close),
{
    let n: usize = s.len();
    if n == 0 || s[n - 1] != close {
        return s;
    }
    let x = slice_subrange(s, 0, n - 1);
    assert(x@ =~= s@.drop_last());
    match rfind_char(x, open) {
        None => s,
        Some(i) => {
            let inner = slice_subrange(x, i + 1, x.len());
            assert(inner@ =~= x@.skip(i + 1));
            if is_time(trim(inner)) {
                let head = slice_subrange(x, 0, i);
                assert(head@ =~= x@.take(i as int));
                trim_end(head)
            } else {
                s
            }
        },
    }
}

fn strip_bare_time(s: &[char]) -> (r: &[char])
    ensures
        r@ == without_bare_time(s@),
{
    let n: usize = s.len();
    match rfind_white(s) {
        None => s,
        Some(i) => {
            let last = slice_subrange(s, i + 1, n);
            assert(last@ =~= s@.skip(i + 1));
            if is_time(last) {
                let head = slice_subrange(s, 0, i);
                assert(head@ =~= s@.take(i as int));
                trim_end(head)
            } else {
                s
            }
        },
    }
}

/// Strip one leading number / timestamp token (optionally bracketed) if it is followed by
/// a separator or space.
pub fn strip_leading_token(s: &[char]) -> (r: Option<&[char]>)
    ensures
        match r {
            Some(rest) => without_number(s@) == Some(rest@),
            None => without_number(s@) is None,
        },
        r matches Some(rest) ==> rest@.len() <= s@.len(),
{
    let n: usize = s.len();
    if n > 0 && (s[0] == '[' || s[0] == '(') {
        let inner = slice_subrange(s, 1, n);
        assert(inner@ =~= s@.skip(1));
        let ghost p = |c: char| c == ']' || c == ')';
        let mut end: usize = 0;
        while end < inner.len() && !(inner[end] == ']' || inner[end] == ')')
            invariant
                end <= inner@.len(),
                p == (|c: char| c == ']' || c == ')'),
                forall|k: int| 0 <= k < end ==> !p(#[trigger] inner@[k]),
            decreases inner@.len() - end,
        {
            end += 1;
        }
        proof {
            lemma_is_first_of(inner@, p, end as int);
        }
        if end >= inner.len() {
            return None;
        }
        let token = slice_subrange(inner, 0, end);
        let rest = slice_subrange(inner, end + 1, inner.len());
        assert(token@ =~= inner@.take(end as int));
        assert(rest@ =~= inner@.skip(end + 1));
        split_off_number(token, rest)
    } else {
        let ghost p = |c: char| !(is_digit(c) || c == ':');
        let mut end: usize = 0;
        while end < n && (digit(s[end]) || s[end] == ':')
            invariant
                end <= n == s@.len(),
                p == (|c: char| !(is_digit(c) || c == ':')),
                forall|k: int| 0 <= k < end ==> !p(#[trigger] s@[k]),
            decreases n - end,
        {
            end += 1;
        }
        proof {
            lemma_is_first_of(s@, p, end as int);
        }
        let token = slice_subrange(s, 0, end);
        let rest = slice_subrange(s, end, n);
        assert(token@ =~= s@.take(end as int));
        assert(rest@ =~= s@.skip(end as int));
        split_off_number(token, rest)
    }
}

fn split_off_number<'a>(token: &[char], rest: &'a [char]) -> (r: Option<&'a [char]>)
    ensures
        match r {
            Some(x) => after_number(token@, rest@) == Some(x@) && x@ == rest@,
            None => after_number(token@, rest@) is None,
        },
{
    let token = trim(token);
    let is_number = token.len() > 0 && token.len() <= 3 && digits_only(token);
    if !(is_number || is_time(token)) {
        return None;
    }
    // "1984 Song" should keep its year: require a separator or space after a bare number.
    if rest.len() == 0 {
        return Some(rest);
    }
    let ends = number_end_list();
    if white(rest[0]) || one_of(rest[0], &ends) {
        Some(rest)
    } else {
        None
    }
}

fn digits_only(s: &[char]) -> (r: bool)
    ensures
        r == all_digits(s@),
{
    let mut i: usize = 0;
    while i < s.len()
        invariant
            i <= s@.len(),
            forall|k: int| 0 <= k < i ==> is_digit(#[trigger] s@[k]),
        decreases s@.len() - i,
    {
        if !digit(s[i]) {
            assert(!is_digit(s@[i as int]));
            return false;
        }
        i += 1;
    }
    true
}

/// Whether `s` is a time such as `3:12` or `01:02:03`.
pub fn is_time(s: &[char]) -> (r: bool)
    ensures
        r == looks_like_time(s@),
{
    let parts = split_chars(s, ':');
    assert(parts@.len() == split_on(s@, ':').len());
    if parts.len() < 2 || parts.len() > 3 {
        return false;
    }
    let mut i: usize = 0;
    while i < parts.len()
        invariant
            i <= parts@.len(),
            texts(parts@) == split_on(s@, ':'),
            forall|k: int| 0 <= k < i ==> clock_part(#[trigger] split_on(s@, ':')[k]),
        decreases parts@.len() - i,
    {
        let p = &parts[i];
        assert(split_on(s@, ':')[i as int] == p@);
        if p.len() == 0 || p.len() > 2 || !digits_only(p) {
            assert(!clock_part(split_on(s@, ':')[i as int]));
            return false;
        }
        i += 1;
    }
    true
}

/// How many of the first `k` tracks are kept.
pub open spec fn kept_before(e: RecordingEdit, k: int) -> int
    decreases k,
{
    if k <= 0 {
        0
    } else if e.meta_at(k - 1).drop {
        kept_before(e, k - 1)
    } else {
        kept_before(e, k - 1) + 1
    }
}

/// What becomes of track `k`: the pasted title with its number among the kept tracks, if it is
/// kept and there is one.
pub open spec fn titled(e: RecordingEdit, titles: Seq<String>, k: int) -> TrackMeta {
    let m = e.meta_at(k);
    if !m.drop && kept_before(e, k) < titles.len() {
        TrackMeta { title: titles[kept_before(e, k)], drop: false }
    } else {
        m
    }
}

/// `b` is `a` except for the metadata of its tracks.
pub open spec fn same_but_metas(a: RecordingEdit, b: RecordingEdit) -> bool {
    &&& a.status == b.status
    &&& a.detect == b.detect
    &&& a.detected == b.detected
    &&& a.silences == b.silences
    &&& a.silences_detected == b.silences_detected
    &&& a.splits@.len() == b.splits@.len()
    &&& forall|i: int| #![trigger a.splits@[i]] #![trigger b.splits@[i]]
        0 <= i < a.splits@.len() ==> a.splits@[i] == (Split { track: a.splits@[i].track, ..b.splits@[i] })
}

/// Give the kept (non-dropped) tracks the pasted titles, in order. Returns how many were set.
pub fn apply(edit: &mut RecordingEdit, titles: &[String]) -> (r: usize)
    requires
        old(edit).splits@.len() < usize::MAX,
    ensures
        same_but_metas(*final(edit), *old(edit)),
        forall|k: int| #![trigger final(edit).meta_at(k)]
            0 <= k < old(edit).track_count() ==> final(edit).meta_at(k) == titled(*old(edit), titles@, k),
        r == if kept_before(*old(edit), old(edit).track_count()) < titles@.len() {
            kept_before(*old(edit), old(edit).track_count())
        } else {
            titles@.len() as int
        },
{
    let n: usize = edit.splits.len();
    let ghost e = *old(edit);
    let mut set: usize = 0;
    let mut k: usize = 0;
    while k <= n
        invariant
            n == e.splits@.len() < usize::MAX,
            k <= n + 1,
            e == *old(edit),
            same_but_metas(*edit, e),
            forall|j: int| #![trigger edit.meta_at(j)] 0 <= j < k ==> edit.meta_at(j) == titled(e, titles@, j),
            forall|j: int| #![trigger edit.meta_at(j)] k <= j <= n ==> edit.meta_at(j) == e.meta_at(j),
            set == if kept_before(e, k as int) < titles@.len() {
                kept_before(e, k as int)
            } else {
                titles@.len() as int
            },
            0 <= kept_before(e, k as int) <= k,
        decreases n + 1 - k,
    {
        let ghost now = *edit;
        assert(edit.meta_at(k as int) == e.meta_at(k as int));
        let dropped = if k == 0 {
            edit.head.drop
        } else {
            edit.splits[k - 1].track.drop
        };
        if !dropped && set < titles.len() {
            match edit.track_meta_mut(k) {
                Some(m) => {
                    m.title = titles[set].clone();
                },
                None => {},
            }
            set += 1;
            assert(edit.meta_at(k as int) == titled(e, titles@, k as int));
            assert forall|j: int| #![trigger edit.meta_at(j)] 0 <= j <= n && j != k implies edit.meta_at(j) == now.meta_at(
                j,
            ) by {}
        }
        k += 1;
    }
    set
}

} // verus!
