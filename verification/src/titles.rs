//! What a tracklist line is read as: which part of it is the title, and what comes off.
use vstd::prelude::*;
use crate::text::{
    all_digits, drop_end, drop_start, first_of, is_digit, is_white, last_of, lemma_already_trimmed, lemma_drop_end,
    lemma_drop_start, lemma_first_of, lemma_is_first_of, lemma_is_last_of, lemma_last_of, lemma_split_on_join, only,
    split_on, trimmed, trimmed_end, trimmed_start,
};
use crate::tracklist::{
    clock_part, lead_marks, lead_step, looks_like_time, number_ends, tail_marks, title_of, without_bare_time,
    without_bracketed_time, without_lead, without_number,
};

verus! {

/// One or two digits.
pub open spec fn two_digits(s: Seq<char>) -> bool {
    1 <= s.len() <= 2 && forall|i: int| 0 <= i < s.len() ==> '0' <= #[trigger] s[i] <= '9'
}

/// `a:b`, of one or two digits each.
pub open spec fn of_two(s: Seq<char>, a: Seq<char>, b: Seq<char>) -> bool {
    two_digits(a) && two_digits(b) && s == a + seq![':'] + b
}

/// `a:b:c`, of one or two digits each.
pub open spec fn of_three(s: Seq<char>, a: Seq<char>, b: Seq<char>, c: Seq<char>) -> bool {
    two_digits(a) && two_digits(b) && two_digits(c) && s == a + seq![':'] + b + seq![':'] + c
}

/// A time such as `3:12` or `01:02:03`.
pub open spec fn clock(s: Seq<char>) -> bool {
    ||| exists|a: Seq<char>, b: Seq<char>| #[trigger] of_two(s, a, b)
    ||| exists|a: Seq<char>, b: Seq<char>, c: Seq<char>| #[trigger] of_three(s, a, b, c)
}

/// What is taken for a time is two or three parts of one or two digits, with colons between.
pub proof fn law_times_are_clocks(s: Seq<char>)
    ensures
        looks_like_time(s) <==> clock(s),
{
    let parts = split_on(s, ':');
    if looks_like_time(s) {
        let i = first_of(s, only(':'));
        lemma_first_of(s, only(':'));
        assert(i < s.len()) by {
            if i >= s.len() {
                assert(parts.len() == 1);
            }
        }
        let (a, rest) = (s.take(i), s.skip(i + 1));
        let more = split_on(rest, ':');
        assert(parts =~= seq![a] + more);
        assert(parts[0] == a);
        assert(clock_part(parts[0]));
        lemma_clock_part(a);
        assert(s =~= a + seq![':'] + rest);
        let j = first_of(rest, only(':'));
        lemma_first_of(rest, only(':'));
        if j >= rest.len() {
            assert(more =~= seq![rest]);
            assert(parts[1] == rest);
            assert(clock_part(parts[1]));
            lemma_clock_part(rest);
            assert(of_two(s, a, rest));
        } else {
            let (b, c) = (rest.take(j), rest.skip(j + 1));
            let last = split_on(c, ':');
            assert(more =~= seq![b] + last);
            let l = first_of(c, only(':'));
            lemma_first_of(c, only(':'));
            assert(last.len() == 1);
            if l < c.len() {
                assert(last =~= seq![c.take(l)] + split_on(c.skip(l + 1), ':'));
                lemma_some_part(c.skip(l + 1), ':');
            }
            assert(last =~= seq![c]);
            assert(parts[1] == b && parts[2] == c);
            assert(clock_part(parts[1]) && clock_part(parts[2]));
            lemma_clock_part(b);
            lemma_clock_part(c);
            assert(s =~= a + seq![':'] + b + seq![':'] + c);
            assert(of_three(s, a, b, c));
        }
    }
    if clock(s) {
        if exists|a: Seq<char>, b: Seq<char>| #[trigger] of_two(s, a, b) {
            let (a, b) = choose|a: Seq<char>, b: Seq<char>| #[trigger] of_two(s, a, b);
            assert(s =~= a.push(':') + b);
            lemma_split_on_join(a, b, ':');
            lemma_one_part(a);
            lemma_one_part(b);
            assert(parts =~= seq![a, b]);
        } else {
            let (a, b, c) = choose|a: Seq<char>, b: Seq<char>, c: Seq<char>| #[trigger] of_three(s, a, b, c);
            assert(s =~= a.push(':') + (b.push(':') + c));
            lemma_split_on_join(a, b.push(':') + c, ':');
            lemma_split_on_join(b, c, ':');
            lemma_one_part(a);
            lemma_one_part(b);
            lemma_one_part(c);
            assert(parts =~= seq![a, b, c]);
        }
    }
}

proof fn lemma_some_part(s: Seq<char>, sep: char)
    ensures
        split_on(s, sep).len() >= 1,
{
}

proof fn lemma_clock_part(s: Seq<char>)
    requires
        clock_part(s),
    ensures
        two_digits(s),
{
    assert forall|i: int| 0 <= i < s.len() implies '0' <= #[trigger] s[i] <= '9' by {
        assert(is_digit(s[i]));
    }
}

proof fn lemma_one_part(s: Seq<char>)
    requires
        two_digits(s),
    ensures
        split_on(s, ':') == seq![s],
        clock_part(s),
{
    assert forall|k: int| 0 <= k < s.len() implies !only(':')(#[trigger] s[k]) by {}
    lemma_is_first_of(s, only(':'), s.len() as int);
    assert forall|i: int| 0 <= i < s.len() implies is_digit(#[trigger] s[i]) by {}
}

/// A time starts and ends with a digit, holds nothing but digits and colons, and has a colon
/// after one or two digits.
proof fn lemma_clock(s: Seq<char>)
    requires
        clock(s),
    ensures
        s.len() >= 3,
        '0' <= s[0] <= '9',
        '0' <= s.last() <= '9',
        s[1] == ':' || s[2] == ':',
        forall|i: int| 0 <= i < s.len() ==> '0' <= #[trigger] s[i] <= '9' || s[i] == ':',
{
    if exists|a: Seq<char>, b: Seq<char>| #[trigger] of_two(s, a, b) {
        let (a, b) = choose|a: Seq<char>, b: Seq<char>| #[trigger] of_two(s, a, b);
        assert(s[0] == a[0] && s.last() == b.last());
    } else {
        let (a, b, c) = choose|a: Seq<char>, b: Seq<char>, c: Seq<char>| #[trigger] of_three(s, a, b, c);
        assert(s[0] == a[0] && s.last() == c.last());
    }
}

// ---- Nothing but numbering and times comes off ----

/// What numbering in front of a title is made of: digits and colons, white space, dashes, dots,
/// brackets, bars, bullets, stars and hashes.
pub open spec fn numbering_char(c: char) -> bool {
    ||| '0' <= c <= '9'
    ||| is_white(c)
    ||| c == ':' || c == '-' || c == '\u{2013}' || c == '\u{2014}' || c == '.' || c == '|' || c == '\u{2022}'
    ||| c == '*' || c == '#' || c == '(' || c == ')' || c == '[' || c == ']'
}

/// What a time behind a title is made of: digits and colons, white space, dashes, bars and
/// brackets.
pub open spec fn duration_char(c: char) -> bool {
    ||| '0' <= c <= '9'
    ||| is_white(c)
    ||| c == ':' || c == '-' || c == '\u{2013}' || c == '\u{2014}' || c == '|'
    ||| c == '(' || c == ')' || c == '[' || c == ']'
}

/// `t` is `s` without some numbering in front and some times behind.
pub open spec fn is_core(t: Seq<char>, s: Seq<char>, i: int, j: int) -> bool {
    &&& 0 <= i <= j <= s.len()
    &&& t == s.subrange(i, j)
    &&& forall|k: int| 0 <= k < i ==> numbering_char(#[trigger] s[k])
    &&& forall|k: int| j <= k < s.len() ==> duration_char(#[trigger] s[k])
}

pub open spec fn has_core(s: Seq<char>, t: Seq<char>) -> bool {
    exists|i: int, j: int| #[trigger] is_core(t, s, i, j)
}

/// No letter of a line is lost: its title is the line without some numbering in front, and
/// without dashes, bars and times behind.
pub proof fn law_no_letter_is_lost(line: Seq<char>)
    ensures
        has_core(line, title_of(line)),
{
    let white = |c: char| is_white(c);
    let tail = |c: char| tail_marks().contains(c);
    assert(line =~= line.subrange(0, line.len() as int));
    assert(is_core(line, line, 0, line.len() as int));
    lemma_front_off(line, line, white);
    lemma_end_off(line, trimmed_start(line), white);
    lemma_lead_off(line, trimmed(line));
    let a = without_lead(trimmed(line));
    lemma_end_off(line, a, white);
    let b = trimmed_end(a);
    lemma_bracketed_off(line, b, '(', ')');
    let c = without_bracketed_time(b, '(', ')');
    lemma_bracketed_off(line, c, '[', ']');
    let d = without_bracketed_time(c, '[', ']');
    lemma_bare_off(line, d);
    let e = without_bare_time(d);
    assert forall|x: char| tail(x) implies #[trigger] duration_char(x) by {
        lemma_tail_marks(x);
    }
    lemma_end_off(line, e, tail);
    let f = drop_end(e, tail);
    lemma_front_off(line, f, white);
    lemma_end_off(line, trimmed_start(f), white);
}

proof fn lemma_tail_marks(c: char)
    ensures
        tail_marks().contains(c) <==> c == '-' || c == '\u{2013}' || c == '\u{2014}' || c == '|',
{
    let m = tail_marks();
    assert(m[0] == '-' && m[1] == '\u{2013}' && m[2] == '\u{2014}' && m[3] == '|');
}

proof fn lemma_lead_marks(c: char)
    ensures
        lead_marks().contains(c) <==> {
            ||| c == '-' || c == '\u{2013}' || c == '\u{2014}' || c == '.' || c == ')' || c == ':' || c == '|'
            ||| c == '\u{2022}' || c == '*' || c == '#'
        },
{
    let m = lead_marks();
    assert(m[0] == '-' && m[1] == '\u{2013}' && m[2] == '\u{2014}' && m[3] == '.' && m[4] == ')' && m[5] == ':');
    assert(m[6] == '|' && m[7] == '\u{2022}' && m[8] == '*' && m[9] == '#');
}

proof fn lemma_number_ends(c: char)
    ensures
        number_ends().contains(c) <==> {
            ||| c == '.' || c == '-' || c == '\u{2013}' || c == '\u{2014}' || c == ')' || c == ':' || c == '|'
        },
{
    let m = number_ends();
    assert(m[0] == '.' && m[1] == '-' && m[2] == '\u{2013}' && m[3] == '\u{2014}' && m[4] == ')' && m[5] == ':');
    assert(m[6] == '|');
}

/// Characters of numbering come off the front.
proof fn lemma_skip_off(s: Seq<char>, t: Seq<char>, n: int)
    requires
        has_core(s, t),
        0 <= n <= t.len(),
        forall|k: int| 0 <= k < n ==> numbering_char(#[trigger] t[k]),
    ensures
        has_core(s, t.skip(n)),
{
    let (i, j) = choose|i: int, j: int| #[trigger] is_core(t, s, i, j);
    assert(t.skip(n) =~= s.subrange(i + n, j));
    assert forall|k: int| 0 <= k < i + n implies numbering_char(#[trigger] s[k]) by {
        if k >= i {
            assert(t[k - i] == s[k]);
        }
    }
    assert(is_core(t.skip(n), s, i + n, j));
}

/// Characters of times come off the end.
proof fn lemma_take_off(s: Seq<char>, t: Seq<char>, n: int)
    requires
        has_core(s, t),
        0 <= n <= t.len(),
        forall|k: int| n <= k < t.len() ==> duration_char(#[trigger] t[k]),
    ensures
        has_core(s, t.take(n)),
{
    let (i, j) = choose|i: int, j: int| #[trigger] is_core(t, s, i, j);
    assert(t.take(n) =~= s.subrange(i, i + n));
    assert forall|k: int| i + n <= k < s.len() implies duration_char(#[trigger] s[k]) by {
        if k < j {
            assert(t[k - i] == s[k]);
        }
    }
    assert(is_core(t.take(n), s, i, i + n));
}

proof fn lemma_front_off(s: Seq<char>, t: Seq<char>, p: spec_fn(char) -> bool)
    requires
        has_core(s, t),
        forall|c: char| p(c) ==> #[trigger] numbering_char(c),
    ensures
        has_core(s, drop_start(t, p)),
{
    lemma_drop_start(t, p);
    let n = t.len() - drop_start(t, p).len();
    assert forall|k: int| 0 <= k < n implies numbering_char(#[trigger] t[k]) by {
        assert(p(t[k]));
    }
    lemma_skip_off(s, t, n);
}

proof fn lemma_end_off(s: Seq<char>, t: Seq<char>, p: spec_fn(char) -> bool)
    requires
        has_core(s, t),
        forall|c: char| p(c) ==> #[trigger] duration_char(c),
    ensures
        has_core(s, drop_end(t, p)),
{
    lemma_drop_end(t, p);
    let n = drop_end(t, p).len() as int;
    assert forall|k: int| n <= k < t.len() implies duration_char(#[trigger] t[k]) by {
        assert(p(t[k]));
    }
    lemma_take_off(s, t, n);
}

proof fn lemma_lead_off(s: Seq<char>, t: Seq<char>)
    requires
        has_core(s, t),
    ensures
        has_core(s, without_lead(t)),
    decreases t.len(),
{
    let marks = |c: char| lead_marks().contains(c);
    assert forall|x: char| marks(x) implies #[trigger] numbering_char(x) by {
        lemma_lead_marks(x);
    }
    lemma_front_off(s, t, marks);
    let m = drop_start(t, marks);
    lemma_front_off(s, m, |c: char| is_white(c));
    let a = trimmed_start(m);
    if without_number(a) is Some {
        if a.len() > 0 && (a[0] == '[' || a[0] == '(') {
            let r = a.skip(1);
            let ends = |c: char| c == ']' || c == ')';
            let end = first_of(r, ends);
            lemma_first_of(r, ends);
            let token = r.take(end);
            lemma_number_chars(token);
            assert forall|k: int| 0 <= k < end + 2 implies numbering_char(#[trigger] a[k]) by {
                if 0 < k < end + 1 {
                    assert(token[k - 1] == a[k]);
                } else if k == end + 1 {
                    assert(r[end] == a[k]);
                }
            }
            lemma_skip_off(s, a, end + 2);
            assert(a.skip(end + 2) =~= r.skip(end + 1));
        } else {
            let other = |c: char| !(is_digit(c) || c == ':');
            let end = first_of(a, other);
            lemma_first_of(a, other);
            assert forall|k: int| 0 <= k < end implies numbering_char(#[trigger] a[k]) by {
                assert(!other(a[k]));
            }
            lemma_skip_off(s, a, end);
        }
    }
    assert(has_core(s, lead_step(t)));
    if lead_step(t).len() < t.len() {
        lemma_lead_off(s, lead_step(t));
    }
}

/// White space and a number or time within.
proof fn lemma_number_chars(s: Seq<char>)
    requires
        ({
            let t = trimmed(s);
            (0 < t.len() <= 3 && all_digits(t)) || looks_like_time(t)
        }),
    ensures
        forall|k: int| 0 <= k < s.len() ==> numbering_char(#[trigger] s[k]) && duration_char(s[k]),
{
    let white = |c: char| is_white(c);
    let t = trimmed(s);
    law_times_are_clocks(t);
    if clock(t) {
        lemma_clock(t);
    }
    lemma_drop_start(s, white);
    let u = trimmed_start(s);
    lemma_drop_end(u, white);
    let n = s.len() - u.len();
    assert forall|k: int| 0 <= k < s.len() implies numbering_char(#[trigger] s[k]) && duration_char(s[k]) by {
        if k < n {
            assert(white(s[k]));
        } else {
            assert(u[k - n] == s[k]);
            if k - n < t.len() {
                assert(t[k - n] == u[k - n]);
                if !clock(t) {
                    assert(is_digit(t[k - n]));
                }
            } else {
                assert(white(u[k - n]));
            }
        }
    }
}

proof fn lemma_bracketed_off(s: Seq<char>, t: Seq<char>, open: char, close: char)
    requires
        has_core(s, t),
        duration_char(open),
        duration_char(close),
    ensures
        has_core(s, without_bracketed_time(t, open, close)),
{
    let x = t.drop_last();
    let i = last_of(x, only(open));
    if t.len() > 0 && t.last() == close && i >= 0 && looks_like_time(trimmed(x.skip(i + 1))) {
        lemma_last_of(x, only(open));
        let inner = x.skip(i + 1);
        lemma_number_chars(inner);
        assert forall|k: int| i <= k < t.len() implies duration_char(#[trigger] t[k]) by {
            if i < k < t.len() - 1 {
                assert(inner[k - i - 1] == t[k]);
            } else if k == i {
                assert(x[i] == t[i]);
            }
        }
        lemma_take_off(s, t, i);
        assert(t.take(i) =~= x.take(i));
        lemma_end_off(s, x.take(i), |c: char| is_white(c));
    }
}

proof fn lemma_bare_off(s: Seq<char>, t: Seq<char>)
    requires
        has_core(s, t),
    ensures
        has_core(s, without_bare_time(t)),
{
    let white = |c: char| is_white(c);
    let i = last_of(t, white);
    if i >= 0 && looks_like_time(t.skip(i + 1)) {
        lemma_last_of(t, white);
        let inner = t.skip(i + 1);
        law_times_are_clocks(inner);
        lemma_clock(inner);
        assert forall|k: int| i <= k < t.len() implies duration_char(#[trigger] t[k]) by {
            if k > i {
                assert(inner[k - i - 1] == t[k]);
            } else {
                assert(white(t[i]));
            }
        }
        lemma_take_off(s, t, i);
        lemma_end_off(s, t.take(i), white);
    }
}

// ---- What is a title as it stands ----

/// A character that ends a number in front of a title.
pub open spec fn ends_a_number(c: char) -> bool {
    is_white(c) || c == '.' || c == '-' || c == '\u{2013}' || c == '\u{2014}' || c == ')' || c == ':' || c == '|'
}

/// A mark that may stand in front of a title.
pub open spec fn is_lead_mark(c: char) -> bool {
    ||| c == '-' || c == '\u{2013}' || c == '\u{2014}' || c == '.' || c == ')' || c == ':' || c == '|'
    ||| c == '\u{2022}' || c == '*' || c == '#'
}

/// The first `k` characters are digits, and no number stands in front: there are four or more of
/// them, as in `1984 Song`, or what follows goes on with the word, as in `7th` or `Intro`.
pub open spec fn no_number_first(s: Seq<char>, k: int) -> bool {
    &&& 0 <= k <= s.len()
    &&& forall|i: int| 0 <= i < k ==> '0' <= #[trigger] s[i] <= '9'
    &&& k >= 4 || {
        &&& k < s.len()
        &&& !('0' <= s[k] <= '9')
        &&& !ends_a_number(s[k])
        &&& k == 0 ==> !is_lead_mark(s[0]) && s[0] != '(' && s[0] != '['
    }
}

/// A text that starts with its title: not with white space, a mark, a bracket or a number.
pub open spec fn starts_as_title(s: Seq<char>) -> bool {
    exists|k: int| #[trigger] no_number_first(s, k)
}

/// A time stands at the end, in brackets of the given kind.
pub open spec fn ends_in_brackets(s: Seq<char>, open: char, close: char) -> bool {
    &&& s.len() > 0 && s.last() == close
    &&& exists|i: int|
        0 <= i < s.len() - 1 && #[trigger] s[i] == open && clock(trimmed(s.subrange(i + 1, s.len() - 1)))
}

/// A time stands at the end, after white space.
pub open spec fn ends_in_time(s: Seq<char>) -> bool {
    exists|i: int| 0 <= i < s.len() && is_white(#[trigger] s[i]) && clock(s.skip(i + 1))
}

/// A text that ends with its title: not with white space, a dash, a bar or a time.
pub open spec fn ends_as_title(s: Seq<char>) -> bool {
    &&& s.len() > 0
    &&& !is_white(s.last())
    &&& s.last() != '-' && s.last() != '\u{2013}' && s.last() != '\u{2014}' && s.last() != '|'
    &&& !ends_in_brackets(s, '(', ')')
    &&& !ends_in_brackets(s, '[', ']')
    &&& !ends_in_time(s)
}

/// A line that starts and ends with its title is its own title: what stands in brackets at the
/// end comes off only where it is a time, and a number in front only where it is one.
pub proof fn law_plain_lines_are_their_titles(line: Seq<char>)
    requires
        starts_as_title(line),
        ends_as_title(line),
    ensures
        title_of(line) == line,
{
    lemma_starts(line);
    lemma_already_trimmed(line);
    lemma_no_lead(line);
    assert(trimmed_end(line) == line);
    lemma_end_stays(line);
}

/// What starts as a title starts with neither white space nor a mark.
proof fn lemma_starts(s: Seq<char>)
    requires
        starts_as_title(s),
    ensures
        s.len() > 0,
        !is_white(s[0]),
        !is_lead_mark(s[0]),
        s[0] != '(' && s[0] != '[',
{
    let k = choose|k: int| #[trigger] no_number_first(s, k);
    if k > 0 {
        assert('0' <= s[0] <= '9');
    }
}

/// Nothing comes off the front of what starts as a title.
proof fn lemma_no_lead(s: Seq<char>)
    requires
        starts_as_title(s),
    ensures
        without_lead(s) == s,
{
    lemma_starts(s);
    lemma_lead_marks(s[0]);
    assert(drop_start(s, |c: char| lead_marks().contains(c)) == s);
    assert(trimmed_start(s) == s);
    lemma_no_number(s);
}

proof fn lemma_no_number(s: Seq<char>)
    requires
        starts_as_title(s),
    ensures
        without_number(s) is None,
{
    lemma_starts(s);
    let k = choose|k: int| #[trigger] no_number_first(s, k);
    let other = |c: char| !(is_digit(c) || c == ':');
    let end = first_of(s, other);
    lemma_first_of(s, other);
    let token = s.take(end);
    lemma_digits_trimmed(token);
    law_times_are_clocks(token);
    if k >= 4 {
        assert(end >= 4) by {
            if end < 4 {
                assert('0' <= s[end] <= '9');
                assert(other(s[end]));
            }
        }
        if clock(token) {
            lemma_clock(token);
            assert(token[1] == s[1] && token[2] == s[2]);
            assert('0' <= s[1] <= '9' && '0' <= s[2] <= '9');
        }
    } else {
        assert forall|i: int| 0 <= i < k implies !other(#[trigger] s[i]) by {
            assert('0' <= s[i] <= '9');
        }
        assert(other(s[k]));
        lemma_is_first_of(s, other, k);
        if k == 0 {
            assert(token =~= Seq::empty());
            if clock(token) {
                lemma_clock(token);
            }
        } else {
            assert(s.skip(k)[0] == s[k]);
            lemma_number_ends(s[k]);
        }
    }
}

/// Digits and colons have no white space to trim.
proof fn lemma_digits_trimmed(s: Seq<char>)
    requires
        forall|i: int| 0 <= i < s.len() ==> is_digit(#[trigger] s[i]) || s[i] == ':',
    ensures
        trimmed(s) == s,
{
    if s.len() > 0 {
        assert(is_digit(s[0]) || s[0] == ':');
        assert(is_digit(s[s.len() - 1]) || s[s.len() - 1] == ':');
    }
    lemma_already_trimmed(s);
}

/// What is left of a text once its front is off.
spec fn end_off(s: Seq<char>) -> Seq<char> {
    let s = without_bracketed_time(s, '(', ')');
    let s = without_bracketed_time(s, '[', ']');
    let s = without_bare_time(s);
    trimmed(drop_end(s, |c: char| tail_marks().contains(c)))
}

proof fn lemma_brackets_stay(s: Seq<char>, open: char, close: char)
    requires
        !ends_in_brackets(s, open, close),
    ensures
        without_bracketed_time(s, open, close) == s,
{
    let x = s.drop_last();
    let i = last_of(x, only(open));
    lemma_last_of(x, only(open));
    if s.len() > 0 && s.last() == close && i >= 0 {
        assert(x[i] == s[i]);
        assert(x.skip(i + 1) =~= s.subrange(i + 1, s.len() - 1));
        law_times_are_clocks(trimmed(x.skip(i + 1)));
    }
}

proof fn lemma_end_stays(s: Seq<char>)
    requires
        starts_as_title(s),
        ends_as_title(s),
    ensures
        end_off(s) == s,
        trimmed_end(s) == s,
{
    lemma_starts(s);
    lemma_brackets_stay(s, '(', ')');
    lemma_brackets_stay(s, '[', ']');
    let white = |c: char| is_white(c);
    let i = last_of(s, white);
    lemma_last_of(s, white);
    if i >= 0 {
        assert(is_white(s[i]));
        law_times_are_clocks(s.skip(i + 1));
    }
    assert(without_bare_time(s) == s);
    lemma_tail_marks(s.last());
    assert(drop_end(s, |c: char| tail_marks().contains(c)) == s);
    lemma_already_trimmed(s);
}

// ---- Numbering in front ----

/// A track number of up to three digits, or a time.
pub open spec fn is_numbering(n: Seq<char>) -> bool {
    ||| 1 <= n.len() <= 3 && forall|i: int| 0 <= i < n.len() ==> '0' <= #[trigger] n[i] <= '9'
    ||| clock(n)
}

/// White space and marks between a number and a title. A colon cannot follow a number directly.
pub open spec fn is_separator(sep: Seq<char>) -> bool {
    &&& sep.len() > 0
    &&& ends_a_number(sep[0])
    &&& forall|i: int| 0 <= i < sep.len() ==> is_white(#[trigger] sep[i]) || is_lead_mark(sep[i])
}

/// A number or time in front of a title comes off, with what separates it, in brackets or not.
pub proof fn law_numbering_comes_off(n: Seq<char>, sep: Seq<char>, title: Seq<char>)
    requires
        is_numbering(n),
        is_separator(sep),
        starts_as_title(title),
    ensures
        sep[0] != ':' ==> title_of(n + sep + title) == title_of(title),
        title_of(seq!['['] + n + seq![']'] + sep + title) == title_of(title),
        title_of(seq!['('] + n + seq![')'] + sep + title) == title_of(title),
{
    lemma_starts(title);
    let x = trimmed_end(title);
    lemma_title_end(title);
    assert(trimmed(title) == x);
    lemma_no_lead(x);
    lemma_separator_off(sep, x);
    lemma_numbering(n);
    if sep[0] != ':' {
        let p = n + sep;
        lemma_end_of_rest(p, title);
        assert(p + x =~= n + (sep + x));
        assert((p + title)[0] == n[0]);
        assert(trimmed_start(p + title) == p + title);
        lemma_bare_number_off(n, sep + x);
    }
    lemma_in_brackets('[', ']', n, sep, title, x);
    lemma_in_brackets('(', ')', n, sep, title, x);
}

proof fn lemma_in_brackets(open: char, close: char, n: Seq<char>, sep: Seq<char>, title: Seq<char>, x: Seq<char>)
    requires
        (open == '[' && close == ']') || (open == '(' && close == ')'),
        is_numbering(n),
        is_separator(sep),
        starts_as_title(title),
        x == trimmed_end(title),
        x.len() > 0,
        trimmed(title) == x,
        without_lead(x) == x,
        without_lead(sep + x) == x,
    ensures
        title_of(seq![open] + n + seq![close] + sep + title) == title_of(title),
{
    let p = seq![open] + n + seq![close] + sep;
    lemma_numbering(n);
    lemma_end_of_rest(p, title);
    assert((p + title)[0] == open);
    assert(trimmed_start(p + title) == p + title);
    let s = p + x;
    let rest = sep + x;
    assert(s =~= seq![open] + n + seq![close] + rest);
    lemma_lead_marks(s[0]);
    assert(drop_start(s, |c: char| lead_marks().contains(c)) == s);
    assert(trimmed_start(s) == s);
    let r = s.skip(1);
    assert(r =~= n + seq![close] + rest);
    let ends = |c: char| c == ']' || c == ')';
    assert forall|k: int| 0 <= k < n.len() implies !ends(#[trigger] r[k]) by {
        assert(r[k] == n[k]);
    }
    assert(r[n.len() as int] == close);
    lemma_is_first_of(r, ends, n.len() as int);
    assert(r.take(n.len() as int) =~= n);
    assert(r.skip(n.len() as int + 1) =~= rest);
    lemma_after_number(n, rest);
    assert(rest[0] == sep[0]);
    assert(lead_step(s) == rest);
    assert(without_lead(s) == without_lead(rest));
}

/// A number or time holds digits and colons alone, and starts with a digit.
proof fn lemma_numbering(n: Seq<char>)
    requires
        is_numbering(n),
    ensures
        n.len() > 0,
        '0' <= n[0] <= '9',
        forall|i: int| 0 <= i < n.len() ==> '0' <= #[trigger] n[i] <= '9' || n[i] == ':',
        trimmed(n) == n,
        crate::tracklist::numbering(n),
{
    law_times_are_clocks(n);
    if clock(n) {
        lemma_clock(n);
    } else {
        assert forall|i: int| 0 <= i < n.len() implies is_digit(#[trigger] n[i]) by {}
    }
    assert forall|i: int| 0 <= i < n.len() implies is_digit(#[trigger] n[i]) || n[i] == ':' by {}
    lemma_digits_trimmed(n);
}

proof fn lemma_after_number(n: Seq<char>, rest: Seq<char>)
    requires
        is_numbering(n),
        rest.len() > 0,
        ends_a_number(rest[0]),
    ensures
        crate::tracklist::after_number(n, rest) == Some(rest),
{
    lemma_numbering(n);
    lemma_number_ends(rest[0]);
}

proof fn lemma_bare_number_off(n: Seq<char>, rest: Seq<char>)
    requires
        is_numbering(n),
        rest.len() > 0,
        ends_a_number(rest[0]),
        rest[0] != ':',
    ensures
        without_lead(n + rest) == without_lead(rest),
{
    let s = n + rest;
    lemma_numbering(n);
    assert(s[0] == n[0]);
    lemma_lead_marks(s[0]);
    assert(drop_start(s, |c: char| lead_marks().contains(c)) == s);
    assert(trimmed_start(s) == s);
    let other = |c: char| !(is_digit(c) || c == ':');
    assert forall|k: int| 0 <= k < n.len() implies !other(#[trigger] s[k]) by {
        assert(s[k] == n[k]);
    }
    assert(s[n.len() as int] == rest[0]);
    assert(other(rest[0]));
    lemma_is_first_of(s, other, n.len() as int);
    assert(s.take(n.len() as int) =~= n);
    assert(s.skip(n.len() as int) =~= rest);
    lemma_after_number(n, rest);
    assert(lead_step(s) == rest);
}

/// White space at the end of a title comes off, and it still starts as one.
proof fn lemma_title_end(title: Seq<char>)
    requires
        starts_as_title(title),
    ensures
        trimmed_end(title).len() > 0,
        starts_as_title(trimmed_end(title)),
        trimmed_start(title) == title,
{
    lemma_starts(title);
    let white = |c: char| is_white(c);
    let x = trimmed_end(title);
    lemma_drop_end(title, white);
    let k = choose|k: int| #[trigger] no_number_first(title, k);
    let need = if k >= 4 {
        4
    } else {
        k + 1
    };
    assert(x.len() >= need) by {
        if x.len() < need {
            let i = if k >= 4 {
                3int
            } else {
                k
            };
            assert('0' <= title[3] <= '9' || i == k);
            assert(white(title[i]));
        }
    }
    let m = if k >= 4 {
        4int
    } else {
        k
    };
    assert forall|i: int| 0 <= i < m implies '0' <= #[trigger] x[i] <= '9' by {
        assert(x[i] == title[i]);
        assert('0' <= title[i] <= '9');
    }
    if k < 4 {
        assert(x[k] == title[k]);
    }
    assert(no_number_first(x, m));
}

/// What is trimmed off the end of a text does not depend on what stands in front of it.
proof fn lemma_end_of_rest(p: Seq<char>, s: Seq<char>)
    requires
        trimmed_end(s).len() > 0,
    ensures
        trimmed_end(p + s) == p + trimmed_end(s),
    decreases s.len(),
{
    assert((p + s).last() == s.last());
    if is_white(s.last()) {
        assert((p + s).drop_last() =~= p + s.drop_last());
        lemma_end_of_rest(p, s.drop_last());
    }
}

/// White space and marks come off in front of what starts as a title.
proof fn lemma_separator_off(sep: Seq<char>, x: Seq<char>)
    requires
        starts_as_title(x),
        forall|i: int| 0 <= i < sep.len() ==> is_white(#[trigger] sep[i]) || is_lead_mark(sep[i]),
    ensures
        without_lead(sep + x) == x,
    decreases sep.len(),
{
    lemma_starts(x);
    if sep.len() == 0 {
        assert(sep + x =~= x);
        lemma_no_lead(x);
    } else {
        let s = sep + x;
        let marks = |c: char| lead_marks().contains(c);
        let white = |c: char| is_white(c);
        let m = drop_start(s, marks);
        lemma_drop_start(s, marks);
        let a = trimmed_start(m);
        lemma_drop_start(m, white);
        let off = s.len() - a.len();
        // Nothing of the title comes off, and at least one character of the separator does.
        lemma_lead_marks(x[0]);
        assert(s[sep.len() as int] == x[0]);
        let d = s.len() - m.len();
        assert(d <= sep.len()) by {
            if d > sep.len() {
                assert(marks(s[sep.len() as int]));
            }
        }
        assert(off <= sep.len()) by {
            if off > sep.len() {
                assert(m[sep.len() - d] == s[sep.len() as int]);
                assert(white(m[sep.len() - d]));
            }
        }
        assert(off > 0) by {
            assert(s[0] == sep[0]);
            lemma_lead_marks(s[0]);
            if off == 0 {
                assert(m =~= s && a =~= s);
                assert(!marks(s[0]) && !white(s[0]));
            }
        }
        let less = sep.skip(off);
        assert(a =~= s.skip(off));
        assert(a =~= less + x);
        assert forall|i: int| 0 <= i < less.len() implies is_white(#[trigger] less[i]) || is_lead_mark(less[i]) by {
            assert(less[i] == sep[i + off]);
        }
        lemma_separator_off(less, x);
        if less.len() == 0 {
            assert(a =~= x);
            lemma_no_number(a);
        } else {
            assert(a[0] == less[0]);
            assert(!is_white(a[0]));
            lemma_mark_is_no_number(a);
        }
        assert(lead_step(s) == a);
    }
}

/// No number starts with a mark.
proof fn lemma_mark_is_no_number(s: Seq<char>)
    requires
        s.len() > 0,
        is_lead_mark(s[0]),
    ensures
        without_number(s) is None,
{
    let other = |c: char| !(is_digit(c) || c == ':');
    let end = first_of(s, other);
    lemma_first_of(s, other);
    let token = s.take(end);
    assert forall|i: int| 0 <= i < token.len() implies is_digit(#[trigger] token[i]) || token[i] == ':' by {
        assert(!other(s[i]));
    }
    lemma_digits_trimmed(token);
    law_times_are_clocks(token);
    if token.len() > 0 {
        assert(token[0] == s[0]);
        assert(!is_digit(token[0]));
    }
    if clock(token) {
        lemma_clock(token);
    }
}

// ---- Times behind ----

/// A time behind a title comes off: in round or square brackets, or after white space.
pub proof fn law_times_come_off(title: Seq<char>, time: Seq<char>)
    requires
        starts_as_title(title),
        ends_as_title(title),
        clock(time),
    ensures
        title_of(title + seq![' ', '('] + time + seq![')']) == title,
        title_of(title + seq![' ', '['] + time + seq![']']) == title,
        title_of(title + seq![' '] + time) == title,
{
    lemma_clock(time);
    lemma_end_stays(title);
    lemma_bracketed_time_off(title, time, '(', ')');
    lemma_bracketed_time_off(title, time, '[', ']');
    let s = title + seq![' '] + time;
    lemma_goes_on(title, seq![' '] + time);
    assert(s =~= title + (seq![' '] + time));
    lemma_starts(s);
    assert(s.last() == time.last());
    lemma_already_trimmed(s);
    lemma_no_lead(s);
    assert(trimmed_end(s) == s);
    assert(without_bracketed_time(s, '(', ')') == s);
    assert(without_bracketed_time(s, '[', ']') == s);
    let white = |c: char| is_white(c);
    let i = title.len() as int;
    assert(s[i] == ' ' && white(s[i]));
    assert forall|k: int| i < k < s.len() implies !white(#[trigger] s[k]) by {
        assert(s[k] == time[k - i - 1]);
    }
    lemma_is_last_of(s, white, i);
    assert(s.skip(i + 1) =~= time);
    assert(s.take(i) =~= title);
    law_times_are_clocks(time);
    assert(without_bare_time(s) == title);
    lemma_front_and_end(title);
}

/// The last two steps leave what ends as a title.
proof fn lemma_front_and_end(title: Seq<char>)
    requires
        starts_as_title(title),
        ends_as_title(title),
    ensures
        trimmed(drop_end(title, |c: char| tail_marks().contains(c))) == title,
        without_bare_time(title) == title,
        without_bracketed_time(title, '(', ')') == title,
        without_bracketed_time(title, '[', ']') == title,
{
    lemma_starts(title);
    lemma_end_stays(title);
    lemma_brackets_stay(title, '(', ')');
    lemma_brackets_stay(title, '[', ']');
    lemma_tail_marks(title.last());
    lemma_already_trimmed(title);
    let white = |c: char| is_white(c);
    let i = last_of(title, white);
    lemma_last_of(title, white);
    if i >= 0 {
        assert(is_white(title[i]));
        law_times_are_clocks(title.skip(i + 1));
    }
}

/// What follows a title does not change how it starts.
proof fn lemma_goes_on(title: Seq<char>, more: Seq<char>)
    requires
        starts_as_title(title),
    ensures
        starts_as_title(title + more),
{
    let s = title + more;
    let k = choose|k: int| #[trigger] no_number_first(title, k);
    assert forall|i: int| 0 <= i < k implies '0' <= #[trigger] s[i] <= '9' by {
        assert(s[i] == title[i]);
    }
    if k < title.len() {
        assert(s[k] == title[k]);
    }
    assert(no_number_first(s, k));
}

proof fn lemma_bracketed_time_off(title: Seq<char>, time: Seq<char>, open: char, close: char)
    requires
        (open == '[' && close == ']') || (open == '(' && close == ')'),
        starts_as_title(title),
        ends_as_title(title),
        clock(time),
    ensures
        title_of(title + seq![' ', open] + time + seq![close]) == title,
{
    lemma_clock(time);
    let s = title + seq![' ', open] + time + seq![close];
    let more = seq![' ', open] + time + seq![close];
    assert(s =~= title + more);
    lemma_goes_on(title, more);
    lemma_starts(s);
    assert(s.last() == close);
    lemma_already_trimmed(s);
    lemma_no_lead(s);
    assert(trimmed_end(s) == s);
    let x = s.drop_last();
    let i = title.len() as int + 1;
    assert(x[i] == open);
    assert forall|k: int| i < k < x.len() implies !only(open)(#[trigger] x[k]) by {
        assert(x[k] == time[k - i - 1]);
    }
    lemma_is_last_of(x, only(open), i);
    assert(x.skip(i + 1) =~= time);
    assert forall|k: int| 0 <= k < time.len() implies is_digit(#[trigger] time[k]) || time[k] == ':' by {}
    lemma_digits_trimmed(time);
    law_times_are_clocks(time);
    let head = x.take(i);
    assert(head =~= title.push(' '));
    assert(head.drop_last() =~= title);
    lemma_front_and_end(title);
    lemma_end_stays(title);
    assert(trimmed_end(head) == trimmed_end(title));
    assert(without_bracketed_time(s, open, close) == title);
    if open == '[' {
        assert(without_bracketed_time(s, '(', ')') == s);
    }
}

} // verus!
