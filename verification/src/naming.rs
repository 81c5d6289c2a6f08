//! What exported files are called, how large they get and when that is worth a warning.
use vstd::prelude::*;
use crate::export::{
    double_of, filled_in, number_width, preset_kbps, safe_core, safe_name, vbr_rate, worth_less, Profile, SourceFacts, MARGIN,
};
use crate::text::{
    decimal, drop_end, drop_start, is_white, lemma_already_trimmed, lemma_decimal_reads_back, lemma_decimal_width,
    lemma_drop_end, lemma_drop_start, lemma_padded_reads_back, only, padded, replaced, trimmed_end,
    trimmed_start, value_of,
};

verus! {

/// A character that some file system gives a meaning of its own, or a control character.
pub open spec fn unsafe_char(c: char) -> bool {
    ||| c == '/' || c == '\\' || c == ':' || c == '*' || c == '?' || c == '"' || c == '<' || c == '>' || c == '|'
    ||| (c as u32) < 0x20 || 0x7F <= c as u32 <= 0x9F
}

/// A name that is safe as it stands is not changed.
pub proof fn law_safe_names_stay(s: Seq<char>)
    requires
        0 < s.len() <= 180,
        forall|i: int| 0 <= i < s.len() ==> !unsafe_char(#[trigger] s[i]),
        !is_white(s[0]) && s[0] != '.',
        !is_white(s.last()) && s.last() != '.',
    ensures
        safe_name(s) == s,
{
    let m = s.map_values(|c: char| crate::export::safe_char(c));
    assert(m =~= s) by {
        assert forall|i: int| 0 <= i < s.len() implies m[i] == s[i] by {
            assert(!unsafe_char(s[i]));
        }
    }
    lemma_already_trimmed(s);
    assert(drop_start(s, only('.')) == s);
    assert(drop_end(s, only('.')) == s);
    assert(drop_end(s, |c: char| crate::export::is_edge(c)) == s);
}

/// `r` stands in `s` at `at`, but for the unsafe characters, which are underscores in it.
pub open spec fn is_safe_piece(r: Seq<char>, s: Seq<char>, at: int) -> bool {
    &&& 0 <= at && at + r.len() <= s.len()
    &&& forall|i: int| 0 <= i < r.len() ==> #[trigger] r[i] == if unsafe_char(s[at + i]) {
        '_'
    } else {
        s[at + i]
    }
    &&& forall|i: int| 0 <= i < at ==> is_white(#[trigger] s[i]) || s[i] == '.'
}

/// A safe name is a piece of the name, with underscores for the unsafe characters. In front of it
/// only white space and dots are left out, and behind it too, as long as it is no longer than 180
/// characters. It is "untitled" where nothing else is left.
pub proof fn law_safe_names_keep_the_rest(s: Seq<char>) -> (at: int)
    ensures
        ({
            let r = safe_name(s);
            ||| r == "untitled"@ && forall|i: int| 0 <= i < s.len() ==> is_white(#[trigger] s[i]) || s[i] == '.'
            ||| is_safe_piece(r, s, at) && (r.len() < 180 ==> forall|i: int|
                at + r.len() <= i < s.len() ==> is_white(#[trigger] s[i]) || s[i] == '.')
        }),
{
    let m = s.map_values(|c: char| crate::export::safe_char(c));
    let white = |c: char| is_white(c);
    let edge = |c: char| crate::export::is_edge(c);
    let a0 = trimmed_start(m);
    let a = trimmed_end(a0);
    let b = drop_start(a, only('.'));
    let c = drop_end(b, only('.'));
    let d0 = trimmed_start(c);
    let d = trimmed_end(d0);
    let e = drop_end(d, edge);
    lemma_drop_start(m, white);
    lemma_drop_end(a0, white);
    lemma_drop_start(a, only('.'));
    lemma_drop_end(b, only('.'));
    lemma_drop_start(c, white);
    lemma_drop_end(d0, white);
    lemma_drop_end(d, edge);
    let i1 = m.len() - a0.len();
    let i2 = i1 + (a.len() - b.len());
    let at = i2 + (c.len() - d0.len());
    assert(safe_core(s) == e);
    assert forall|k: int| 0 <= k < s.len() && crate::export::is_edge(#[trigger] m[k]) implies is_white(s[k]) || s[k] == '.' by {
        assert(m[k] == crate::export::safe_char(s[k]));
    }
    assert forall|k: int| 0 <= k < at implies crate::export::is_edge(#[trigger] m[k]) by {
        if k < i1 {
            assert(white(m[k]));
        } else if k < i2 {
            assert(a[k - i1] == a0[k - i1] && a0[k - i1] == m[k]);
            assert(only('.')(a[k - i1]));
        } else {
            assert(c[k - i2] == b[k - i2] && b[k - i2] == a[k - i1] && a[k - i1] == a0[k - i1] && a0[k - i1] == m[k]);
            assert(white(c[k - i2]));
        }
    }
    assert forall|k: int| 0 <= k < e.len() implies #[trigger] e[k] == m[at + k] by {
        assert(e[k] == d[k] && d[k] == d0[k] && d0[k] == c[k + (at - i2)] && c[k + (at - i2)] == b[k + (at - i2)]);
        assert(b[k + (at - i2)] == a[k + (at - i1)] && a[k + (at - i1)] == a0[k + (at - i1)]);
        assert(a0[k + (at - i1)] == m[at + k]);
    }
    assert forall|k: int| at + e.len() <= k < m.len() implies crate::export::is_edge(#[trigger] m[k]) by {
        assert(m[k] == a0[k - i1]);
        if k - i1 >= a.len() {
            assert(white(a0[k - i1]));
        } else {
            assert(a0[k - i1] == a[k - i1] && a[k - i1] == b[k - i2]);
            if k - i2 >= c.len() {
                assert(only('.')(b[k - i2]));
            } else {
                assert(b[k - i2] == c[k - i2] && c[k - i2] == d0[k - at]);
                if k - at >= d.len() {
                    assert(white(d0[k - at]));
                } else {
                    assert(d0[k - at] == d[k - at]);
                    assert(edge(d[k - at]));
                }
            }
        }
    }
    let r = safe_name(s);
    if e.len() > 0 {
        assert forall|i: int| 0 <= i < r.len() implies #[trigger] r[i] == if unsafe_char(s[at + i]) {
            '_'
        } else {
            s[at + i]
        } by {
            assert(r[i] == e[i]);
            assert(m[at + i] == crate::export::safe_char(s[at + i]));
        }
        assert forall|i: int| 0 <= i < at implies is_white(#[trigger] s[i]) || s[i] == '.' by {
            assert(crate::export::is_edge(m[i]));
        }
        assert(is_safe_piece(r, s, at));
        assert forall|i: int| r.len() < 180 && at + r.len() <= i < s.len() implies is_white(#[trigger] s[i]) || s[i] == '.' by {
            assert(crate::export::is_edge(m[i]));
        }
    } else {
        assert forall|i: int| 0 <= i < s.len() implies is_white(#[trigger] s[i]) || s[i] == '.' by {
            if i < at {
                assert(crate::export::is_edge(m[i]));
            } else {
                assert(crate::export::is_edge(m[i]));
            }
        }
    }
    at
}

// ---- Templates ----

/// Text without an opening brace holds no placeholder.
pub open spec fn plain(s: Seq<char>) -> bool {
    forall|i: int| 0 <= i < s.len() ==> #[trigger] s[i] != '{'
}

/// A template is filled in: each placeholder gives way to what it stands for, and the text around
/// it stays. `{n}` is the number, `{nn}` the number with zeros in front, `{title}` the title and
/// `{source}` the name of the recording.
pub proof fn law_placeholders_are_filled_in(
    before: Seq<char>,
    behind: Seq<char>,
    number: nat,
    width: nat,
    title: Seq<char>,
    source: Seq<char>,
)
    requires
        plain(before),
        plain(behind),
        plain(title),
        plain(source),
    ensures
        filled_in(before, number, width, title, source) == before,
        filled_in(before + "{n}"@ + behind, number, width, title, source) == before + decimal(number) + behind,
        filled_in(before + "{nn}"@ + behind, number, width, title, source) == before + padded(number, width) + behind,
        filled_in(before + "{title}"@ + behind, number, width, title, source) == before + title + behind,
        filled_in(before + "{source}"@ + behind, number, width, title, source) == before + source + behind,
        filled_in("{nn} - {title}"@, number, width, title, source) == padded(number, width) + " - "@ + title,
{
    lemma_patterns();
    lemma_number_is_plain(number, width);
    lemma_no_placeholder(before, number, width, title, source);
    lemma_number_filled_in(before, behind, number, width, title, source);
    lemma_padded_filled_in(before, behind, number, width, title, source);
    lemma_title_filled_in(before, behind, number, width, title, source);
    lemma_source_filled_in(before, behind, number, width, title, source);
    lemma_usual_template(number, width, title, source);
}

/// A placeholder starts with its only opening brace.
spec fn pattern(s: Seq<char>) -> bool {
    s.len() > 2 && s[0] == '{' && plain(s.skip(1))
}

/// Two placeholders that differ within the first three characters.
spec fn differ(a: Seq<char>, b: Seq<char>) -> bool {
    a[1] != b[1] || a[2] != b[2]
}

proof fn lemma_patterns()
    ensures
        pattern("{n}"@) && pattern("{nn}"@) && pattern("{title}"@) && pattern("{source}"@),
        differ("{n}"@, "{nn}"@) && differ("{n}"@, "{title}"@) && differ("{n}"@, "{source}"@),
        differ("{nn}"@, "{n}"@) && differ("{nn}"@, "{title}"@) && differ("{nn}"@, "{source}"@),
        differ("{title}"@, "{source}"@) && differ("{title}"@, "{n}"@) && differ("{title}"@, "{nn}"@),
        differ("{source}"@, "{title}"@) && differ("{source}"@, "{n}"@) && differ("{source}"@, "{nn}"@),
{
    reveal_strlit("{n}");
    reveal_strlit("{nn}");
    reveal_strlit("{title}");
    reveal_strlit("{source}");
}

proof fn lemma_no_placeholder(before: Seq<char>, number: nat, width: nat, title: Seq<char>, source: Seq<char>)
    requires
        plain(before),
    ensures
        filled_in(before, number, width, title, source) == before,
{
    lemma_patterns();
    lemma_plain_stays(before, "{nn}"@, padded(number, width));
    lemma_plain_stays(before, "{n}"@, decimal(number));
    lemma_plain_stays(before, "{title}"@, title);
    lemma_plain_stays(before, "{source}"@, source);
}

proof fn lemma_number_filled_in(
    before: Seq<char>,
    behind: Seq<char>,
    number: nat,
    width: nat,
    title: Seq<char>,
    source: Seq<char>,
)
    requires
        plain(before),
        plain(behind),
    ensures
        filled_in(before + "{n}"@ + behind, number, width, title, source) == before + decimal(number) + behind,
{
    lemma_patterns();
    lemma_number_is_plain(number, width);
    let d = decimal(number);
    lemma_other_stays(before, "{n}"@, behind, "{nn}"@, padded(number, width));
    lemma_one_filled_in(before, "{n}"@, behind, d);
    lemma_plain_joined(before, d, behind);
    lemma_plain_stays(before + d + behind, "{title}"@, title);
    lemma_plain_stays(before + d + behind, "{source}"@, source);
}

proof fn lemma_padded_filled_in(
    before: Seq<char>,
    behind: Seq<char>,
    number: nat,
    width: nat,
    title: Seq<char>,
    source: Seq<char>,
)
    requires
        plain(before),
        plain(behind),
    ensures
        filled_in(before + "{nn}"@ + behind, number, width, title, source) == before + padded(number, width) + behind,
{
    lemma_patterns();
    lemma_number_is_plain(number, width);
    let p = padded(number, width);
    lemma_one_filled_in(before, "{nn}"@, behind, p);
    lemma_plain_joined(before, p, behind);
    lemma_plain_stays(before + p + behind, "{n}"@, decimal(number));
    lemma_plain_stays(before + p + behind, "{title}"@, title);
    lemma_plain_stays(before + p + behind, "{source}"@, source);
}

proof fn lemma_title_filled_in(
    before: Seq<char>,
    behind: Seq<char>,
    number: nat,
    width: nat,
    title: Seq<char>,
    source: Seq<char>,
)
    requires
        plain(before),
        plain(behind),
        plain(title),
    ensures
        filled_in(before + "{title}"@ + behind, number, width, title, source) == before + title + behind,
{
    lemma_patterns();
    lemma_other_stays(before, "{title}"@, behind, "{nn}"@, padded(number, width));
    lemma_other_stays(before, "{title}"@, behind, "{n}"@, decimal(number));
    lemma_one_filled_in(before, "{title}"@, behind, title);
    lemma_plain_joined(before, title, behind);
    lemma_plain_stays(before + title + behind, "{source}"@, source);
}

proof fn lemma_source_filled_in(
    before: Seq<char>,
    behind: Seq<char>,
    number: nat,
    width: nat,
    title: Seq<char>,
    source: Seq<char>,
)
    requires
        plain(before),
        plain(behind),
    ensures
        filled_in(before + "{source}"@ + behind, number, width, title, source) == before + source + behind,
{
    lemma_patterns();
    lemma_other_stays(before, "{source}"@, behind, "{nn}"@, padded(number, width));
    lemma_other_stays(before, "{source}"@, behind, "{n}"@, decimal(number));
    lemma_other_stays(before, "{source}"@, behind, "{title}"@, title);
    lemma_one_filled_in(before, "{source}"@, behind, source);
}

proof fn lemma_usual_template(number: nat, width: nat, title: Seq<char>, source: Seq<char>)
    requires
        plain(title),
    ensures
        filled_in("{nn} - {title}"@, number, width, title, source) == padded(number, width) + " - "@ + title,
{
    lemma_patterns();
    lemma_number_is_plain(number, width);
    let (p, d) = (padded(number, width), decimal(number));
    let none = Seq::<char>::empty();
    let (dash, t) = (" - "@, "{title}"@);
    let rest = dash + t;
    assert("{nn} - {title}"@ =~= "{nn}"@ + rest) by {
        reveal_strlit("{nn} - {title}");
        reveal_strlit("{nn}");
        reveal_strlit(" - ");
        reveal_strlit("{title}");
    }
    assert(plain(dash)) by {
        reveal_strlit(" - ");
    }
    lemma_pattern_goes("{nn}"@, rest, p);
    assert(rest =~= dash + t + none);
    lemma_other_stays(dash, t, none, "{nn}"@, p);
    let lead = p + dash;
    lemma_plain_joined(p, dash, none);
    assert(lead + none =~= lead);
    assert(p + rest =~= lead + t + none);
    lemma_other_stays(lead, t, none, "{n}"@, d);
    lemma_one_filled_in(lead, t, none, title);
    lemma_plain_joined(lead, title, none);
    lemma_plain_stays(lead + title + none, "{source}"@, source);
    assert(lead + title + none =~= p + dash + title);
}

proof fn lemma_number_is_plain(number: nat, width: nat)
    ensures
        plain(decimal(number)),
        plain(padded(number, width)),
{
    lemma_decimal_reads_back(number);
    lemma_padded_reads_back(number, width);
    assert forall|i: int| 0 <= i < decimal(number).len() implies #[trigger] decimal(number)[i] != '{' by {
        assert(crate::text::is_digit(decimal(number)[i]));
    }
}

proof fn lemma_plain_joined(a: Seq<char>, b: Seq<char>, c: Seq<char>)
    requires
        plain(a),
        plain(b),
        plain(c),
    ensures
        plain(a + b + c),
{
}

/// Nothing is replaced in text without a brace.
proof fn lemma_plain_stays(s: Seq<char>, pat: Seq<char>, to: Seq<char>)
    requires
        plain(s),
        pat.len() > 0,
        pat[0] == '{',
    ensures
        replaced(s, pat, to) == s,
{
    let none = Seq::<char>::empty();
    lemma_plain_first(s, none, pat, to);
    assert(s + none =~= s);
    assert(replaced(none, pat, to) =~= none);
}

/// Text without a brace in front of other text stays.
proof fn lemma_plain_first(s: Seq<char>, rest: Seq<char>, pat: Seq<char>, to: Seq<char>)
    requires
        plain(s),
        pat.len() > 0,
        pat[0] == '{',
    ensures
        replaced(s + rest, pat, to) == s + replaced(rest, pat, to),
    decreases s.len(),
{
    if s.len() == 0 {
        assert(s + rest =~= rest);
        assert(s + replaced(rest, pat, to) =~= replaced(rest, pat, to));
    } else {
        let all = s + rest;
        assert(all[0] == s[0]);
        assert(!pat.is_prefix_of(all)) by {
            if pat.is_prefix_of(all) {
                assert(pat[0] == all[0]);
            }
        }
        assert(all.skip(1) =~= s.skip(1) + rest);
        assert(plain(s.skip(1))) by {
            assert forall|i: int| 0 <= i < s.skip(1).len() implies #[trigger] s.skip(1)[i] != '{' by {
                assert(s.skip(1)[i] == s[i + 1]);
            }
        }
        lemma_plain_first(s.skip(1), rest, pat, to);
        assert(seq![s[0]] + (s.skip(1) + replaced(rest, pat, to)) =~= s + replaced(rest, pat, to));
    }
}

proof fn lemma_pattern_goes(pat: Seq<char>, rest: Seq<char>, to: Seq<char>)
    requires
        pat.len() > 0,
    ensures
        replaced(pat + rest, pat, to) == to + replaced(rest, pat, to),
{
    let all = pat + rest;
    assert(pat.is_prefix_of(all)) by {
        assert(all.subrange(0, pat.len() as int) =~= pat);
    }
    assert(all.skip(pat.len() as int) =~= rest);
}

/// A placeholder between two texts gives way.
proof fn lemma_one_filled_in(before: Seq<char>, pat: Seq<char>, behind: Seq<char>, to: Seq<char>)
    requires
        plain(before),
        plain(behind),
        pat.len() > 0,
        pat[0] == '{',
    ensures
        replaced(before + pat + behind, pat, to) == before + to + behind,
{
    assert(before + pat + behind =~= before + (pat + behind));
    lemma_plain_first(before, pat + behind, pat, to);
    lemma_pattern_goes(pat, behind, to);
    lemma_plain_stays(behind, pat, to);
    assert(before + (to + behind) =~= before + to + behind);
}

/// Another placeholder stays.
proof fn lemma_other_stays(before: Seq<char>, other: Seq<char>, behind: Seq<char>, pat: Seq<char>, to: Seq<char>)
    requires
        plain(before),
        plain(behind),
        pat.len() > 2,
        other.len() > 2,
        pat[0] == '{' && other[0] == '{',
        pat[1] != other[1] || pat[2] != other[2],
        plain(other.skip(1)),
    ensures
        replaced(before + other + behind, pat, to) == before + other + behind,
{
    let rest = other + behind;
    assert(before + other + behind =~= before + rest);
    lemma_plain_first(before, rest, pat, to);
    assert(!pat.is_prefix_of(rest)) by {
        if pat.is_prefix_of(rest) {
            assert(pat[1] == rest[1] && pat[2] == rest[2]);
            assert(rest[1] == other[1] && rest[2] == other[2]);
        }
    }
    assert(rest.skip(1) =~= other.skip(1) + behind);
    lemma_plain_first(other.skip(1), behind, pat, to);
    lemma_plain_stays(behind, pat, to);
    assert(seq![rest[0]] + (other.skip(1) + behind) =~= rest);
}

/// Numbers are filled up to the width of the highest, and to two digits at least, so that the
/// files sort in the order of the tracks.
pub proof fn law_numbers_are_as_wide(total: nat, number: nat)
    requires
        number <= total,
    ensures
        padded(number, number_width(total)).len() == number_width(total),
        number_width(total) == 2 || (total >= 100 && number_width(total) == decimal(total).len()),
        value_of(padded(number, number_width(total))) == number,
{
    lemma_padded_reads_back(number, number_width(total));
    lemma_decimal_width(total);
    lemma_longer(number, total);
}

/// A larger number has no fewer digits.
proof fn lemma_longer(a: nat, b: nat)
    requires
        a <= b,
    ensures
        decimal(a).len() <= decimal(b).len(),
    decreases b,
{
    if a >= 10 {
        lemma_longer(a / 10, b / 10);
    }
}

// ---- Warnings and sizes ----

/// A bitrate is worth a warning where it is more than 15 % above that of the source, and not
/// where it is less than that. Only at 15 % exactly the rounding decides.
pub proof fn law_bitrates_far_above_the_source_are_worth_less(target: u32, kbps: u32)
    ensures
        target * 100 > kbps * 115 ==> worth_less(target, kbps),
        target * 100 < kbps * 115 ==> !worth_less(target, kbps),
{
    let n = kbps * MARGIN;
    let d = double_of(n, 1);
    lemma_double_is_near(n, 1);
    let one = 0x10_0000_0000_0000int;
    // The margin is at most half a unit off.
    assert(-50 <= 100 * MARGIN - 115 * one <= 50);
    assert(100 * n == kbps * (100 * MARGIN)) by (nonlinear_arith)
        requires
            n == kbps * MARGIN,
    ;
    assert(-50 * kbps <= 100 * n - kbps * (115 * one) <= 50 * kbps) by (nonlinear_arith)
        requires
            100 * n == kbps * (100 * MARGIN),
            -50 <= 100 * MARGIN - 115 * one <= 50,
            kbps >= 0,
    ;
    assert(kbps * (115 * one) == (kbps * 115) * one) by (nonlinear_arith);
    assert(n <= 0xffff_ffff * MARGIN) by (nonlinear_arith)
        requires
            n == kbps * MARGIN,
            kbps <= 0xffff_ffff,
    ;
    assert(100 * (target * one) == (target * 100) * one) by (nonlinear_arith);
}

/// Rounding to 53 bits is off by at most one part in 2^53.
proof fn lemma_double_is_near(n: int, unit: int)
    requires
        0 <= n,
        unit == 1 || (1 <= unit && unit * 0x10_0000_0000_0000 <= n),
    ensures
        -n <= (double_of(n, unit) - n) * 0x20_0000_0000_0000 <= n,
    decreases n - unit,
{
    let (q, rest) = (n / unit, n % unit);
    if n < 0x20_0000_0000_0000 * unit {
        let r = double_of(n, unit);
        assert(n == q * unit + rest && 0 <= rest < unit) by (nonlinear_arith)
            requires
                q == n / unit,
                rest == n % unit,
                unit > 0,
        ;
        assert((q + 1) * unit == q * unit + unit) by (nonlinear_arith);
        assert(-unit <= 2 * (r - n) <= unit);
        if unit == 1 {
            assert(rest == 0);
            assert(r == n);
        } else {
            assert(unit * 0x10_0000_0000_0000 <= n);
        }
    } else {
        lemma_double_is_near(n, 2 * unit);
    }
}

/// The size of an export: an MP3 takes an eighth of its bitrate in bytes a second, a copy that of
/// the source, a WAV file two bytes for each sample, and FLAC 58 % of the samples at their width.
pub proof fn law_sizes_follow_the_format(src: SourceFacts, kbps: u16)
    ensures
        Profile::Original.byte_rate_1600(src) * 8 == 1600 * (src.kbps * 1000),
        (Profile::Mp3Cbr { kbps }).byte_rate_1600(src) * 8 == 1600 * (kbps * 1000),
        Profile::Wav16.byte_rate_1600(src) == 1600 * (src.sample_rate * src.channels * 2),
        src.bits is None || src.bits->0 <= 16 ==> Profile::Flac.byte_rate_1600(src) * 100 == 58
            * Profile::Wav16.byte_rate_1600(src),
        src.bits is Some && src.bits->0 > 16 ==> Profile::Flac.byte_rate_1600(src) * 1600 == 58 * (src.bits->0
            * Profile::Wav16.byte_rate_1600(src)),
        !src.copyable ==> Profile::Original.used_for(src) == Profile::Flac,
        src.copyable ==> Profile::Original.used_for(src) == Profile::Original,
{
    if src.bits is Some && src.bits->0 > 16 {
        let (pcm, b) = (src.sample_rate * src.channels * 2, src.bits->0 as int);
        assert(pcm * b * 58 * 1600 == 58 * (b * (pcm * 1600))) by (nonlinear_arith);
    }
}

/// When there is something to say: nothing about a copy; of a lossy source that it loses quality
/// in MP3 or gains none in FLAC or WAV; of one that isn't only what MP3 or 16 bits cannot hold.
pub proof fn law_warnings_have_a_reason(p: Profile, src: SourceFacts)
    ensures
        p == Profile::Original && src.copyable ==> p.all_warnings(src).len() == 0,
        p == Profile::Original && !src.copyable ==> p.all_warnings(src).len() == 1,
        p == Profile::Flac ==> p.all_warnings(src).len() == if src.lossy {
            1int
        } else {
            0
        },
        p == Profile::Wav16 ==> p.all_warnings(src).len() == (if src.lossy {
            1int
        } else {
            0
        }) + (if src.bits is Some && src.bits->0 > 16 {
            1int
        } else {
            0
        }),
        p is Mp3Cbr ==> p.all_warnings(src).len() == (if !src.lossy {
            0int
        } else if worth_less(p->kbps as u32, src.kbps) {
            2
        } else {
            1
        }) + (if src.sample_rate > 48_000 {
            1int
        } else {
            0
        }),
        p is Mp3Vbr && !src.lossy && src.sample_rate <= 48_000 ==> p.all_warnings(src).len() == 0,
        p is Mp3Vbr && src.lossy ==> p.all_warnings(src).len() >= 1,
{
}

/// The bitrates that the presets of the encoder come to, from the best to the smallest.
pub proof fn law_presets_have_their_bitrates(quality: u8)
    ensures
        vbr_rate(quality) == match quality {
            0 => 245u32,
            1 => 225,
            2 => 190,
            3 => 175,
            4 => 165,
            5 => 130,
            6 => 115,
            7 => 100,
            8 => 85,
            _ => 65,
        },
{
    let s = preset_kbps();
    assert(s[0] == 245 && s[1] == 225 && s[2] == 190 && s[3] == 175 && s[4] == 165);
    assert(s[5] == 130 && s[6] == 115 && s[7] == 100 && s[8] == 85 && s[9] == 65);
}

} // verus!
