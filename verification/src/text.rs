//! Text as sequences of characters: trimming, splitting, decimal numbers and replacement.
//!
//! Everything here works on `&[char]`, so that every step can be stated over `Seq<char>`.
//! `chars_of` and `string_of` convert from and to ordinary strings.
use vstd::prelude::*;
use vstd::slice::slice_subrange;

verus! {

/// `String::push` appends the given character to the end of the string.
pub assume_specification[ String::push ](s: &mut String, c: char)
    ensures
        final(s)@ == old(s)@.push(c),
;

/// The characters of a string, in order.
pub fn chars_of(s: &str) -> (r: Vec<char>)
    ensures
        r@ == s@,
{
    let mut out: Vec<char> = Vec::new();
    for c in it: s.chars()
        invariant
            out@ == it.seq().take(it.index()),
            it.seq() == s@,
    {
        out.push(c);
    }
    assert(s@.take(s@.len() as int) =~= s@);
    out
}

/// The string made of the given characters.
pub fn string_of(s: &[char]) -> (r: String)
    ensures
        r@ == s@,
{
    let mut out = String::new();
    let mut i: usize = 0;
    while i < s.len()
        invariant
            i <= s@.len(),
            out@ == s@.take(i as int),
        decreases s@.len() - i,
    {
        out.push(s[i]);
        assert(s@.take(i as int).push(s@[i as int]) =~= s@.take(i + 1));
        i += 1;
    }
    assert(s@.take(i as int) =~= s@);
    out
}

/// A copy of the given characters.
pub fn copy_of(s: &[char]) -> (r: Vec<char>)
    ensures
        r@ == s@,
{
    let mut out: Vec<char> = Vec::new();
    let mut i: usize = 0;
    while i < s.len()
        invariant
            i <= s@.len(),
            out@ == s@.take(i as int),
        decreases s@.len() - i,
    {
        out.push(s[i]);
        assert(s@.take(i as int).push(s@[i as int]) =~= s@.take(i + 1));
        i += 1;
    }
    assert(s@.take(i as int) =~= s@);
    out
}

/// Append all of `more` to `out`.
pub fn append_chars(out: &mut Vec<char>, more: &[char])
    ensures
        final(out)@ == old(out)@ + more@,
{
    let mut i: usize = 0;
    while i < more.len()
        invariant
            i <= more@.len(),
            out@ == old(out)@ + more@.take(i as int),
        decreases more@.len() - i,
    {
        out.push(more[i]);
        assert((old(out)@ + more@.take(i as int)).push(more@[i as int]) =~= old(out)@ + more@.take(i + 1));
        i += 1;
    }
    assert(more@.take(i as int) =~= more@);
}

/// Append a string's characters to `out`.
pub fn append_str(out: &mut Vec<char>, more: &str)
    ensures
        final(out)@ == old(out)@ + more@,
{
    let m = chars_of(more);
    append_chars(out, &m);
}

/// Whether two texts hold the same characters.
pub fn same_chars(a: &[char], b: &[char]) -> (r: bool)
    ensures
        r == (a@ == b@),
{
    if a.len() != b.len() {
        return false;
    }
    let mut i: usize = 0;
    while i < a.len()
        invariant
            i <= a@.len(),
            a@.len() == b@.len(),
            forall|k: int| 0 <= k < i ==> a@[k] == b@[k],
        decreases a@.len() - i,
    {
        if a[i] != b[i] {
            return false;
        }
        i += 1;
    }
    assert(a@ =~= b@);
    true
}

/// Whether two strings hold the same characters.
pub fn same_str(a: &str, b: &str) -> (r: bool)
    ensures
        r == (a@ == b@),
{
    let x = chars_of(a);
    let y = chars_of(b);
    same_chars(&x, &y)
}

// ---- Character classes ----

/// The characters with the Unicode property `White_Space`.
pub open spec fn is_white(c: char) -> bool {
    let n = c as u32;
    ||| 0x9 <= n <= 0xD
    ||| n == 0x20
    ||| n == 0x85
    ||| n == 0xA0
    ||| n == 0x1680
    ||| 0x2000 <= n <= 0x200A
    ||| n == 0x2028
    ||| n == 0x2029
    ||| n == 0x202F
    ||| n == 0x205F
    ||| n == 0x3000
}

/// Whether `c` is white space.
pub fn white(c: char) -> (r: bool)
    ensures
        r == is_white(c),
{
    let n: u32 = c as u32;
    (0x9 <= n && n <= 0xD) || n == 0x20 || n == 0x85 || n == 0xA0 || n == 0x1680 || (0x2000 <= n && n <= 0x200A)
        || n == 0x2028 || n == 0x2029 || n == 0x202F || n == 0x205F || n == 0x3000
}

/// The characters of the Unicode category `Cc`.
pub open spec fn is_control(c: char) -> bool {
    let n = c as u32;
    n <= 0x1F || 0x7F <= n <= 0x9F
}

/// Whether `c` is a control character.
pub fn control(c: char) -> (r: bool)
    ensures
        r == is_control(c),
{
    let n: u32 = c as u32;
    n <= 0x1F || (0x7F <= n && n <= 0x9F)
}

/// The digits `0` to `9`.
pub open spec fn is_digit(c: char) -> bool {
    '0' <= c <= '9'
}

/// Whether `c` is an ASCII digit.
pub fn digit(c: char) -> (r: bool)
    ensures
        r == is_digit(c),
{
    '0' <= c && c <= '9'
}

/// ASCII capitals become small letters, everything else stays.
pub open spec fn lower(c: char) -> char {
    if 'A' <= c <= 'Z' {
        ((c as u32) + 32) as char
    } else {
        c
    }
}

/// `lower` of one character.
pub fn ascii_lower(c: char) -> (r: char)
    ensures
        r == lower(c),
{
    if 'A' <= c && c <= 'Z' {
        let n: u32 = c as u32;
        let b: u8 = (n as u8) + 32;
        b as char
    } else {
        c
    }
}

/// `lower` of every character.
pub open spec fn lowered(s: Seq<char>) -> Seq<char> {
    s.map_values(|c: char| lower(c))
}

/// A text with its ASCII capitals made small.
pub fn ascii_lowered(s: &[char]) -> (r: Vec<char>)
    ensures
        r@ == lowered(s@),
{
    let mut out: Vec<char> = Vec::new();
    let mut i: usize = 0;
    while i < s.len()
        invariant
            i <= s@.len(),
            out@ == lowered(s@).take(i as int),
        decreases s@.len() - i,
    {
        out.push(ascii_lower(s[i]));
        assert(lowered(s@).take(i as int).push(lower(s@[i as int])) =~= lowered(s@).take(i + 1));
        i += 1;
    }
    assert(lowered(s@).take(i as int) =~= lowered(s@));
    out
}

// ---- Trimming ----

/// `s` without the longest run of characters at its start that satisfy `p`.
pub open spec fn drop_start(s: Seq<char>, p: spec_fn(char) -> bool) -> Seq<char>
    decreases s.len(),
{
    if s.len() > 0 && p(s[0]) {
        drop_start(s.skip(1), p)
    } else {
        s
    }
}

/// `s` without the longest run of characters at its end that satisfy `p`.
pub open spec fn drop_end(s: Seq<char>, p: spec_fn(char) -> bool) -> Seq<char>
    decreases s.len(),
{
    if s.len() > 0 && p(s.last()) {
        drop_end(s.drop_last(), p)
    } else {
        s
    }
}

pub open spec fn trimmed_start(s: Seq<char>) -> Seq<char> {
    drop_start(s, |c: char| is_white(c))
}

pub open spec fn trimmed_end(s: Seq<char>) -> Seq<char> {
    drop_end(s, |c: char| is_white(c))
}

/// `s` without white space at either end.
pub open spec fn trimmed(s: Seq<char>) -> Seq<char> {
    trimmed_end(trimmed_start(s))
}

/// Dropping characters from the start leaves a suffix, and nothing if all of them satisfy `p`.
pub proof fn lemma_drop_start(s: Seq<char>, p: spec_fn(char) -> bool)
    ensures
        drop_start(s, p).len() <= s.len(),
        drop_start(s, p) == s.skip(s.len() - drop_start(s, p).len()),
        forall|k: int| 0 <= k < s.len() - drop_start(s, p).len() ==> p(#[trigger] s[k]),
        drop_start(s, p).len() > 0 ==> !p(drop_start(s, p)[0]),
    decreases s.len(),
{
    if s.len() > 0 && p(s[0]) {
        lemma_drop_start(s.skip(1), p);
        let d = drop_start(s, p);
        assert(s.skip(1).skip(s.len() - 1 - d.len()) =~= s.skip(s.len() - d.len()));
        assert forall|k: int| 0 <= k < s.len() - d.len() implies p(#[trigger] s[k]) by {
            if k > 0 {
                assert(s.skip(1)[k - 1] == s[k]);
            }
        }
    } else {
        assert(s.skip(0) =~= s);
    }
}

/// Dropping characters from the end leaves a prefix.
pub proof fn lemma_drop_end(s: Seq<char>, p: spec_fn(char) -> bool)
    ensures
        drop_end(s, p).len() <= s.len(),
        drop_end(s, p) == s.take(drop_end(s, p).len() as int),
        forall|k: int| drop_end(s, p).len() <= k < s.len() ==> p(#[trigger] s[k]),
        drop_end(s, p).len() > 0 ==> !p(drop_end(s, p).last()),
    decreases s.len(),
{
    if s.len() > 0 && p(s.last()) {
        lemma_drop_end(s.drop_last(), p);
        let d = drop_end(s, p);
        assert(s.drop_last().take(d.len() as int) =~= s.take(d.len() as int));
        assert forall|k: int| d.len() <= k < s.len() implies p(#[trigger] s[k]) by {
            if k < s.len() - 1 {
                assert(s.drop_last()[k] == s[k]);
            }
        }
    } else {
        assert(s.take(s.len() as int) =~= s);
    }
}

/// The part of `s` after its leading white space.
pub fn trim_start(s: &[char]) -> (r: &[char])
    ensures
        r@ == trimmed_start(s@),
{
    let mut i: usize = 0;
    assert(s@.skip(0) =~= s@);
    while i < s.len() && white(s[i])
        invariant
            i <= s@.len(),
            trimmed_start(s@) == trimmed_start(s@.skip(i as int)),
        decreases s@.len() - i,
    {
        assert(s@.skip(i as int).skip(1) =~= s@.skip(i + 1));
        i += 1;
    }
    assert(s@.skip(i as int) =~= s@.subrange(i as int, s@.len() as int));
    slice_subrange(s, i, s.len())
}

/// The part of `s` before its trailing white space.
pub fn trim_end(s: &[char]) -> (r: &[char])
    ensures
        r@ == trimmed_end(s@),
{
    let mut i: usize = s.len();
    assert(s@.take(i as int) =~= s@);
    while i > 0 && white(s[i - 1])
        invariant
            i <= s@.len(),
            trimmed_end(s@) == trimmed_end(s@.take(i as int)),
        decreases i,
    {
        assert(s@.take(i as int).drop_last() =~= s@.take(i - 1));
        i -= 1;
    }
    assert(s@.take(i as int) =~= s@.subrange(0, i as int));
    slice_subrange(s, 0, i)
}

/// `s` without white space at either end.
pub fn trim(s: &[char]) -> (r: &[char])
    ensures
        r@ == trimmed(s@),
{
    trim_end(trim_start(s))
}

/// Whether `c` is one of the characters of `set`.
pub fn one_of(c: char, set: &[char]) -> (r: bool)
    ensures
        r == set@.contains(c),
{
    let mut i: usize = 0;
    while i < set.len()
        invariant
            i <= set@.len(),
            forall|k: int| 0 <= k < i ==> set@[k] != c,
        decreases set@.len() - i,
    {
        if set[i] == c {
            return true;
        }
        i += 1;
    }
    false
}

/// `s` without leading characters of `set`.
pub fn trim_start_of<'a>(s: &'a [char], set: &[char]) -> (r: &'a [char])
    ensures
        r@ == drop_start(s@, |c: char| set@.contains(c)),
{
    let ghost p = |c: char| set@.contains(c);
    let mut i: usize = 0;
    assert(s@.skip(0) =~= s@);
    while i < s.len() && one_of(s[i], set)
        invariant
            i <= s@.len(),
            p == (|c: char| set@.contains(c)),
            drop_start(s@, p) == drop_start(s@.skip(i as int), p),
        decreases s@.len() - i,
    {
        assert(s@.skip(i as int).skip(1) =~= s@.skip(i + 1));
        i += 1;
    }
    assert(s@.skip(i as int) =~= s@.subrange(i as int, s@.len() as int));
    slice_subrange(s, i, s.len())
}

/// `s` without trailing characters of `set`.
pub fn trim_end_of<'a>(s: &'a [char], set: &[char]) -> (r: &'a [char])
    ensures
        r@ == drop_end(s@, |c: char| set@.contains(c)),
{
    let ghost p = |c: char| set@.contains(c);
    let mut i: usize = s.len();
    assert(s@.take(i as int) =~= s@);
    while i > 0 && one_of(s[i - 1], set)
        invariant
            i <= s@.len(),
            p == (|c: char| set@.contains(c)),
            drop_end(s@, p) == drop_end(s@.take(i as int), p),
        decreases i,
    {
        assert(s@.take(i as int).drop_last() =~= s@.take(i - 1));
        i -= 1;
    }
    assert(s@.take(i as int) =~= s@.subrange(0, i as int));
    slice_subrange(s, 0, i)
}

// ---- Searching and splitting ----

/// The index of the first character that satisfies `p`, or the length if none does.
pub open spec fn first_of(s: Seq<char>, p: spec_fn(char) -> bool) -> int
    decreases s.len(),
{
    if s.len() == 0 || p(s[0]) {
        0
    } else {
        1 + first_of(s.skip(1), p)
    }
}

/// The index of the last character that satisfies `p`, or -1 if none does.
pub open spec fn last_of(s: Seq<char>, p: spec_fn(char) -> bool) -> int
    decreases s.len(),
{
    if s.len() == 0 {
        -1
    } else if p(s.last()) {
        s.len() - 1
    } else {
        last_of(s.drop_last(), p)
    }
}

/// `first_of` is where it says, and nothing before it satisfies `p`.
pub proof fn lemma_first_of(s: Seq<char>, p: spec_fn(char) -> bool)
    ensures
        0 <= first_of(s, p) <= s.len(),
        first_of(s, p) < s.len() ==> p(s[first_of(s, p)]),
        forall|k: int| 0 <= k < first_of(s, p) ==> !p(#[trigger] s[k]),
    decreases s.len(),
{
    if s.len() > 0 && !p(s[0]) {
        lemma_first_of(s.skip(1), p);
        assert forall|k: int| 0 <= k < first_of(s, p) implies !p(#[trigger] s[k]) by {
            if k > 0 {
                assert(s.skip(1)[k - 1] == s[k]);
            }
        }
    }
}

/// An index that satisfies `p`, with none before it, is `first_of`.
pub proof fn lemma_is_first_of(s: Seq<char>, p: spec_fn(char) -> bool, i: int)
    requires
        0 <= i <= s.len(),
        i < s.len() ==> p(s[i]),
        forall|k: int| 0 <= k < i ==> !p(#[trigger] s[k]),
    ensures
        first_of(s, p) == i,
{
    lemma_first_of(s, p);
    let f = first_of(s, p);
    if f < i {
        assert(!p(s[f]));
    } else if i < f {
        assert(!p(s[i]));
    }
}

/// `last_of` is where it says, and nothing after it satisfies `p`.
pub proof fn lemma_last_of(s: Seq<char>, p: spec_fn(char) -> bool)
    ensures
        -1 <= last_of(s, p) < s.len(),
        last_of(s, p) >= 0 ==> p(s[last_of(s, p)]),
        forall|k: int| last_of(s, p) < k < s.len() ==> !p(#[trigger] s[k]),
    decreases s.len(),
{
    if s.len() > 0 && !p(s.last()) {
        let t = s.drop_last();
        lemma_last_of(t, p);
        assert forall|k: int| last_of(s, p) < k < s.len() implies !p(#[trigger] s[k]) by {
            if k < t.len() {
                assert(t[k] == s[k]);
            }
        }
    }
}

/// An index that satisfies `p`, with none after it, is `last_of`.
pub proof fn lemma_is_last_of(s: Seq<char>, p: spec_fn(char) -> bool, i: int)
    requires
        -1 <= i < s.len(),
        i >= 0 ==> p(s[i]),
        forall|k: int| i < k < s.len() ==> !p(#[trigger] s[k]),
    ensures
        last_of(s, p) == i,
    decreases s.len(),
{
    if s.len() > 0 && i < s.len() - 1 {
        assert(!p(s[s.len() - 1]));
        let t = s.drop_last();
        assert forall|k: int| i < k < t.len() implies !p(#[trigger] t[k]) by {
            assert(t[k] == s[k]);
        }
        lemma_is_last_of(t, p, i);
    }
}

/// Being the given character.
pub open spec fn only(c: char) -> spec_fn(char) -> bool {
    |x: char| x == c
}

/// The index of the first `c`, or the length.
pub fn find_char(s: &[char], c: char) -> (r: usize)
    ensures
        r == first_of(s@, only(c)),
        r <= s@.len(),
        r < s@.len() ==> s@[r as int] == c,
        forall|k: int| 0 <= k < r ==> s@[k] != c,
{
    let mut i: usize = 0;
    while i < s.len() && s[i] != c
        invariant
            i <= s@.len(),
            forall|k: int| 0 <= k < i ==> s@[k] != c,
        decreases s@.len() - i,
    {
        i += 1;
    }
    proof {
        lemma_is_first_of(s@, only(c), i as int);
    }
    i
}

/// The index of the last `c`, if there is one.
pub fn rfind_char(s: &[char], c: char) -> (r: Option<usize>)
    ensures
        last_of(s@, only(c)) == match r {
            Some(i) => i as int,
            None => -1,
        },
        r matches Some(i) ==> i < s@.len() && s@[i as int] == c,
        r is None ==> !s@.contains(c),
{
    let mut i: usize = s.len();
    while i > 0 && s[i - 1] != c
        invariant
            i <= s@.len(),
            forall|k: int| i <= k < s@.len() ==> s@[k] != c,
        decreases i,
    {
        i -= 1;
    }
    proof {
        lemma_is_last_of(s@, only(c), i - 1);
    }
    if i == 0 {
        None
    } else {
        Some(i - 1)
    }
}

/// The index of the last white space, if there is any.
pub fn rfind_white(s: &[char]) -> (r: Option<usize>)
    ensures
        last_of(s@, |x: char| is_white(x)) == match r {
            Some(i) => i as int,
            None => -1,
        },
        r matches Some(i) ==> i < s@.len(),
{
    let mut i: usize = s.len();
    while i > 0 && !white(s[i - 1])
        invariant
            i <= s@.len(),
            forall|k: int| i <= k < s@.len() ==> !is_white(#[trigger] s@[k]),
        decreases i,
    {
        i -= 1;
    }
    proof {
        lemma_is_last_of(s@, |x: char| is_white(x), i - 1);
    }
    if i == 0 {
        None
    } else {
        Some(i - 1)
    }
}

/// The parts of `s` between the separators, empty ones too.
pub open spec fn split_on(s: Seq<char>, sep: char) -> Seq<Seq<char>>
    decreases s.len(),
    via split_on_gets_shorter
{
    let i = first_of(s, only(sep));
    if i >= s.len() {
        seq![s]
    } else {
        seq![s.take(i)] + split_on(s.skip(i + 1), sep)
    }
}

#[via_fn]
proof fn split_on_gets_shorter(s: Seq<char>, sep: char) {
    lemma_first_of(s, only(sep));
}

/// The parts of two texts with a separator between them are the parts of each.
pub proof fn lemma_split_on_join(a: Seq<char>, b: Seq<char>, sep: char)
    ensures
        split_on(a.push(sep) + b, sep) == split_on(a, sep) + split_on(b, sep),
    decreases a.len(),
{
    let s = a.push(sep) + b;
    let i = first_of(a, only(sep));
    lemma_first_of(a, only(sep));
    assert forall|k: int| 0 <= k < i implies !only(sep)(#[trigger] s[k]) by {
        assert(s[k] == a[k]);
    }
    assert(only(sep)(s[i]));
    lemma_is_first_of(s, only(sep), i);
    assert(s.take(i) =~= a.take(i));
    if i >= a.len() {
        assert(s.skip(i + 1) =~= b);
        assert(a.take(i) =~= a);
    } else {
        let rest = a.skip(i + 1);
        lemma_split_on_join(rest, b, sep);
        assert(s.skip(i + 1) =~= rest.push(sep) + b);
        assert(split_on(s, sep) =~= seq![a.take(i)] + (split_on(rest, sep) + split_on(b, sep)));
        assert(split_on(s, sep) =~= split_on(a, sep) + split_on(b, sep));
    }
}

/// `t` stands in `s`, in one piece.
pub open spec fn piece_of(t: Seq<char>, s: Seq<char>) -> bool {
    exists|i: int, j: int| 0 <= i <= j <= s.len() && t == #[trigger] s.subrange(i, j)
}

/// What is cut out of a piece is a piece.
pub proof fn lemma_piece_of_piece(t: Seq<char>, s: Seq<char>, i: int, j: int)
    requires
        piece_of(t, s),
        0 <= i <= j <= t.len(),
    ensures
        piece_of(t.subrange(i, j), s),
{
    let (a, b) = choose|a: int, b: int| 0 <= a <= b <= s.len() && t == #[trigger] s.subrange(a, b);
    assert(t.subrange(i, j) =~= s.subrange(a + i, a + j));
}

/// Dropping characters at either end leaves a piece.
pub proof fn lemma_dropped_piece(t: Seq<char>, s: Seq<char>, p: spec_fn(char) -> bool)
    requires
        piece_of(t, s),
    ensures
        piece_of(drop_start(t, p), s),
        piece_of(drop_end(t, p), s),
{
    lemma_drop_start(t, p);
    lemma_drop_end(t, p);
    let (x, y) = (drop_start(t, p), drop_end(t, p));
    assert(x =~= t.subrange(t.len() - x.len(), t.len() as int));
    assert(y =~= t.subrange(0, y.len() as int));
    lemma_piece_of_piece(t, s, t.len() - x.len(), t.len() as int);
    lemma_piece_of_piece(t, s, 0, y.len() as int);
}

/// Trimming leaves a piece with no white space at either end.
pub proof fn lemma_trimmed(t: Seq<char>, s: Seq<char>)
    requires
        piece_of(t, s),
    ensures
        piece_of(trimmed(t), s),
        trimmed(t).len() > 0 ==> !is_white(trimmed(t)[0]) && !is_white(trimmed(t).last()),
{
    let p = |c: char| is_white(c);
    lemma_dropped_piece(t, s, p);
    let u = drop_start(t, p);
    lemma_dropped_piece(u, s, p);
    lemma_drop_start(t, p);
    lemma_drop_end(u, p);
    if trimmed(t).len() > 0 {
        assert(trimmed(t)[0] == u[0]);
    }
}

/// A text that starts and ends with something else than white space is trimmed already.
pub proof fn lemma_already_trimmed(s: Seq<char>)
    requires
        s.len() > 0 ==> !is_white(s[0]) && !is_white(s.last()),
    ensures
        trimmed(s) == s,
{
}

/// Every part, and nothing else, as the views of a list of texts.
pub open spec fn texts(v: Seq<Vec<char>>) -> Seq<Seq<char>> {
    v.map_values(|x: Vec<char>| x@)
}

/// The parts of `s` between the separators.
pub fn split_chars(s: &[char], sep: char) -> (r: Vec<Vec<char>>)
    ensures
        texts(r@) == split_on(s@, sep),
        r@.len() == split_on(s@, sep).len(),
        r@.len() > 0,
        forall|i: int| 0 <= i < r@.len() ==> (#[trigger] r@[i])@ == split_on(s@, sep)[i],
{
    let mut out: Vec<Vec<char>> = Vec::new();
    let mut rest: &[char] = s;
    loop
        invariant_except_break
            split_on(s@, sep) == texts(out@) + split_on(rest@, sep),
        ensures
            texts(out@) == split_on(s@, sep),
        decreases rest@.len(),
    {
        let i = find_char(rest, sep);
        let ghost before = out@;
        let ghost was = rest@;
        if i >= rest.len() {
            out.push(copy_of(rest));
            assert(texts(out@) =~= texts(before) + split_on(was, sep));
            break;
        }
        let part = slice_subrange(rest, 0, i);
        assert(part@ =~= was.take(i as int));
        out.push(copy_of(part));
        rest = slice_subrange(rest, i + 1, rest.len());
        assert(rest@ =~= was.skip(i + 1));
        assert(split_on(was, sep) =~= seq![was.take(i as int)] + split_on(rest@, sep));
        assert(texts(out@) + split_on(rest@, sep) =~= texts(before) + split_on(was, sep));
    }
    proof {
        assert(texts(out@).len() == out@.len());
        assert forall|i: int| 0 <= i < out@.len() implies (#[trigger] out@[i])@ == split_on(s@, sep)[i] by {
            assert(texts(out@)[i] == out@[i]@);
        }
    }
    out
}

/// The first part of `s` before `sep`, and the rest behind it.
pub open spec fn cut_at(s: Seq<char>, sep: char) -> Option<(Seq<char>, Seq<char>)> {
    let i = first_of(s, only(sep));
    if i >= s.len() {
        None
    } else {
        Some((s.take(i), s.skip(i + 1)))
    }
}

/// `s` cut in two at the first `sep`.
pub fn split_once<'a>(s: &'a [char], sep: char) -> (r: Option<(&'a [char], &'a [char])>)
    ensures
        match r {
            Some((a, b)) => cut_at(s@, sep) == Some((a@, b@)),
            None => cut_at(s@, sep) is None,
        },
{
    let n: usize = s.len();
    let i = find_char(s, sep);
    if i >= n {
        return None;
    }
    let a = slice_subrange(s, 0, i);
    let b = slice_subrange(s, i + 1, n);
    assert(a@ =~= s@.take(i as int));
    assert(b@ =~= s@.skip(i + 1));
    Some((a, b))
}

/// What follows the last `sep`, or all of `s`.
pub open spec fn after_last(s: Seq<char>, sep: char) -> Seq<char> {
    s.skip(last_of(s, only(sep)) + 1)
}

/// What follows the last `sep`, or all of `s`.
pub fn last_piece(s: &[char], sep: char) -> (r: &[char])
    ensures
        r@ == after_last(s@, sep),
{
    let n: usize = s.len();
    let from: usize = match rfind_char(s, sep) {
        Some(i) => i + 1,
        None => 0,
    };
    let r = slice_subrange(s, from, n);
    assert(r@ =~= s@.skip(from as int));
    r
}

/// The characters of each of a list of strings.
pub open spec fn strings(v: Seq<String>) -> Seq<Seq<char>> {
    v.map_values(|x: String| x@)
}

/// Whether `pat` occurs in `s`.
pub open spec fn contains(s: Seq<char>, pat: Seq<char>) -> bool {
    exists|i: int| 0 <= i <= s.len() && pat.is_prefix_of(#[trigger] s.skip(i))
}

/// Whether `pat` occurs in `s`.
pub fn has_text(s: &[char], pat: &str) -> (r: bool)
    ensures
        r == contains(s@, pat@),
{
    let p = chars_of(pat);
    let n: usize = s.len();
    let mut i: usize = 0;
    loop
        invariant
            i <= n,
            n == s@.len(),
            p@ == pat@,
            forall|j: int| 0 <= j < i ==> !pat@.is_prefix_of(#[trigger] s@.skip(j)),
        decreases n - i,
    {
        if starts_at(s, i, &p) {
            return true;
        }
        if i == n {
            return false;
        }
        i += 1;
    }
}

/// Add one string to a list.
pub fn push_text(v: &mut Vec<String>, text: &str)
    ensures
        strings(final(v)@) == strings(old(v)@).push(text@),
{
    let ghost before = v@;
    let s: String = text.to_owned();
    v.push(s);
    assert(strings(v@) =~= strings(before).push(text@));
}

/// `s` without `prefix`, if it starts with it.
pub fn strip_prefix<'a>(s: &'a [char], prefix: &str) -> (r: Option<&'a [char]>)
    ensures
        match r {
            Some(rest) => prefix@.is_prefix_of(s@) && rest@ == s@.skip(prefix@.len() as int),
            None => !prefix@.is_prefix_of(s@),
        },
{
    let p = chars_of(prefix);
    assert(s@.skip(0) =~= s@);
    if starts_at(s, 0, &p) {
        let rest = slice_subrange(s, p.len(), s.len());
        assert(rest@ =~= s@.skip(p@.len() as int));
        Some(rest)
    } else {
        None
    }
}

/// The words of `s`: what stands between white space.
pub open spec fn words(s: Seq<char>) -> Seq<Seq<char>>
    decreases s.len(),
    via words_get_fewer
{
    let t = trimmed_start(s);
    if t.len() == 0 {
        Seq::empty()
    } else {
        let i = first_of(t, |c: char| is_white(c));
        seq![t.take(i)] + words(t.skip(i))
    }
}

#[via_fn]
proof fn words_get_fewer(s: Seq<char>) {
    let t = trimmed_start(s);
    lemma_drop_start(s, |c: char| is_white(c));
    lemma_first_of(t, |c: char| is_white(c));
}

/// The words of `s`.
pub fn split_words(s: &[char]) -> (r: Vec<Vec<char>>)
    ensures
        texts(r@) == words(s@),
{
    let mut out: Vec<Vec<char>> = Vec::new();
    let mut rest: &[char] = s;
    assert(texts(out@) + words(s@) =~= words(s@));
    loop
        invariant_except_break
            texts(out@) + words(rest@) == words(s@),
        ensures
            texts(out@) == words(s@),
        decreases rest@.len(),
    {
        let ghost before = texts(out@);
        let ghost was = rest@;
        let t = trim_start(rest);
        proof {
            lemma_drop_start(was, |c: char| is_white(c));
        }
        if t.len() == 0 {
            assert(before + Seq::<Seq<char>>::empty() =~= before);
            break;
        }
        let ghost p = |c: char| is_white(c);
        let mut i: usize = 0;
        while i < t.len() && !white(t[i])
            invariant
                i <= t@.len(),
                p == (|c: char| is_white(c)),
                forall|k: int| 0 <= k < i ==> !p(#[trigger] t@[k]),
            decreases t@.len() - i,
        {
            i += 1;
        }
        proof {
            lemma_is_first_of(t@, p, i as int);
        }
        let word = slice_subrange(t, 0, i);
        assert(word@ =~= t@.take(i as int));
        out.push(copy_of(word));
        rest = slice_subrange(t, i, t.len());
        assert(rest@ =~= t@.skip(i as int));
        assert(texts(out@) =~= before.push(word@));
        assert(texts(out@) + words(rest@) =~= before + words(was));
    }
    out
}

// ---- Replacing ----

/// `s` with every `pat` in it, found from left to right, replaced by `to`.
pub open spec fn replaced(s: Seq<char>, pat: Seq<char>, to: Seq<char>) -> Seq<char>
    decreases s.len(),
{
    if s.len() == 0 {
        s
    } else if pat.len() > 0 && pat.is_prefix_of(s) {
        to + replaced(s.skip(pat.len() as int), pat, to)
    } else {
        seq![s[0]] + replaced(s.skip(1), pat, to)
    }
}

pub fn starts_at(s: &[char], i: usize, pat: &[char]) -> (r: bool)
    requires
        i <= s@.len(),
    ensures
        r == pat@.is_prefix_of(s@.skip(i as int)),
{
    if pat.len() > s.len() - i {
        return false;
    }
    let part = slice_subrange(s, i, i + pat.len());
    assert(s@.skip(i as int).take(pat@.len() as int) =~= part@);
    let r = same_chars(part, pat);
    assert(r == pat@.is_prefix_of(s@.skip(i as int))) by {
        if pat@.is_prefix_of(s@.skip(i as int)) {
            assert(part@ =~= pat@);
        }
    }
    r
}

/// `s` with every `pat` in it replaced by `to`.
pub fn replace(s: &[char], pat: &[char], to: &[char]) -> (r: Vec<char>)
    requires
        pat@.len() > 0,
    ensures
        r@ == replaced(s@, pat@, to@),
{
    let mut out: Vec<char> = Vec::new();
    let mut i: usize = 0;
    assert(s@.skip(0) =~= s@);
    assert(out@ + replaced(s@, pat@, to@) =~= replaced(s@, pat@, to@));
    while i < s.len()
        invariant
            pat@.len() > 0,
            i <= s@.len(),
            out@ + replaced(s@.skip(i as int), pat@, to@) == replaced(s@, pat@, to@),
        decreases s@.len() - i,
    {
        let ghost before = out@;
        let ghost rest = s@.skip(i as int);
        if starts_at(s, i, pat) {
            append_chars(&mut out, to);
            i += pat.len();
            assert(rest.skip(pat@.len() as int) =~= s@.skip(i as int));
        } else {
            out.push(s[i]);
            i += 1;
            assert(rest.skip(1) =~= s@.skip(i as int));
        }
        assert(out@ + replaced(s@.skip(i as int), pat@, to@) =~= before + replaced(rest, pat@, to@));
    }
    assert(s@.skip(i as int) =~= Seq::<char>::empty());
    assert(out@ + replaced(s@.skip(i as int), pat@, to@) =~= out@);
    out
}

// ---- Decimal numbers ----

/// The digit for a value below ten.
pub open spec fn digit_char(d: nat) -> char {
    (48 + d) as char
}

/// `n` in decimal, without leading zeros.
pub open spec fn decimal(n: nat) -> Seq<char>
    decreases n,
{
    if n < 10 {
        seq![digit_char(n)]
    } else {
        decimal(n / 10).push(digit_char(n % 10))
    }
}

/// `n` in decimal, filled up with zeros at the front to at least `width` characters.
pub open spec fn padded(n: nat, width: nat) -> Seq<char> {
    let d = decimal(n);
    if d.len() < width {
        Seq::new((width - d.len()) as nat, |i: int| '0') + d
    } else {
        d
    }
}

/// The value of a sequence of digits.
pub open spec fn value_of(s: Seq<char>) -> int
    decreases s.len(),
{
    if s.len() == 0 {
        0
    } else {
        value_of(s.drop_last()) * 10 + (s.last() as int - 48)
    }
}

/// Writing a number down and reading it back gives the number: no two numbers look alike.
pub proof fn lemma_decimal_reads_back(n: nat)
    ensures
        value_of(decimal(n)) == n,
        decimal(n).len() > 0,
        forall|i: int| 0 <= i < decimal(n).len() ==> is_digit(#[trigger] decimal(n)[i]),
        n >= 10 ==> decimal(n)[0] != '0',
        n > 0 ==> decimal(n)[0] != '0',
    decreases n,
{
    reveal_with_fuel(value_of, 2);
    if n >= 10 {
        lemma_decimal_reads_back(n / 10);
        assert(decimal(n).drop_last() =~= decimal(n / 10));
    } else {
        assert(decimal(n).drop_last() =~= Seq::<char>::empty());
    }
}

/// Zeros in front don't change a number, and fill it up to the width.
pub proof fn lemma_padded_reads_back(n: nat, width: nat)
    ensures
        value_of(padded(n, width)) == n,
        padded(n, width).len() >= width,
        padded(n, width).len() == width || padded(n, width) == decimal(n),
        padded(n, width).len() > 0,
        forall|i: int| 0 <= i < padded(n, width).len() ==> '0' <= #[trigger] padded(n, width)[i] <= '9',
{
    lemma_decimal_reads_back(n);
    let d = decimal(n);
    if d.len() < width {
        let k = (width - d.len()) as nat;
        lemma_zeros_in_front(k, d);
        assert forall|i: int| 0 <= i < padded(n, width).len() implies '0' <= #[trigger] padded(n, width)[i] <= '9' by {
            if i >= k {
                assert(padded(n, width)[i] == d[i - k]);
                assert(is_digit(d[i - k]));
            }
        }
    } else {
        assert forall|i: int| 0 <= i < padded(n, width).len() implies '0' <= #[trigger] padded(n, width)[i] <= '9' by {
            assert(is_digit(d[i]));
        }
    }
}

proof fn lemma_zeros_in_front(k: nat, d: Seq<char>)
    ensures
        value_of(Seq::new(k, |i: int| '0') + d) == value_of(d),
    decreases d.len() + k,
{
    let s = Seq::new(k, |i: int| '0') + d;
    if d.len() > 0 {
        assert(s.drop_last() =~= Seq::new(k, |i: int| '0') + d.drop_last());
        lemma_zeros_in_front(k, d.drop_last());
    } else if k > 0 {
        assert(s.drop_last() =~= Seq::new((k - 1) as nat, |i: int| '0') + d);
        lemma_zeros_in_front((k - 1) as nat, d);
    } else {
        assert(s =~= d);
    }
}

/// A number below ten to the `k` has at most `k` digits.
pub proof fn lemma_decimal_width(n: nat)
    ensures
        n < 100 ==> decimal(n).len() <= 2,
        n < 1000 ==> decimal(n).len() <= 3,
        n < 1_000_000 ==> decimal(n).len() <= 6,
{
    reveal_with_fuel(decimal, 7);
}

fn digit_of(d: u64) -> (c: char)
    requires
        d < 10,
    ensures
        c == digit_char(d as nat),
{
    let b: u8 = 48u8 + (d as u8);
    b as char
}

/// `n` in decimal.
pub fn decimal_chars(n: u64) -> (r: Vec<char>)
    ensures
        r@ == decimal(n as nat),
    decreases n,
{
    let mut out: Vec<char> = Vec::new();
    if n < 10 {
        out.push(digit_of(n));
        assert(out@ =~= decimal(n as nat));
    } else {
        out = decimal_chars(n / 10);
        out.push(digit_of(n % 10));
    }
    out
}

/// `n` in decimal, at least `width` characters wide.
pub fn padded_chars(n: u64, width: usize) -> (r: Vec<char>)
    ensures
        r@ == padded(n as nat, width as nat),
{
    let d = decimal_chars(n);
    if d.len() >= width {
        return d;
    }
    let fill: usize = width - d.len();
    let mut out: Vec<char> = Vec::new();
    while out.len() < fill
        invariant
            out@.len() <= fill,
            out@ =~= Seq::new(out@.len(), |i: int| '0'),
        decreases fill - out@.len(),
    {
        out.push('0');
    }
    append_chars(&mut out, &d);
    out
}

/// All digits.
pub open spec fn all_digits(s: Seq<char>) -> bool {
    forall|i: int| 0 <= i < s.len() ==> is_digit(#[trigger] s[i])
}

/// The number that a text is: digits, perhaps after a plus sign, not above `max`.
pub open spec fn number_in(s: Seq<char>, max: int) -> Option<int> {
    let d = if s.len() > 0 && s[0] == '+' { s.skip(1) } else { s };
    if d.len() == 0 || !all_digits(d) || value_of(d) > max {
        None
    } else {
        Some(value_of(d))
    }
}

/// No number that is read is negative.
pub proof fn lemma_number_range(s: Seq<char>, max: int)
    ensures
        number_in(s, max) matches Some(n) ==> 0 <= n <= max,
{
    let d = if s.len() > 0 && s[0] == '+' { s.skip(1) } else { s };
    if all_digits(d) {
        lemma_value_grows(d, d.len() as int);
        assert(d.take(d.len() as int) =~= d);
    }
}

proof fn lemma_value_grows(s: Seq<char>, i: int)
    requires
        0 <= i <= s.len(),
        all_digits(s),
    ensures
        0 <= value_of(s.take(i)) <= value_of(s),
    decreases s.len(),
{
    if i < s.len() {
        let t = s.drop_last();
        assert forall|k: int| 0 <= k < t.len() implies is_digit(#[trigger] t[k]) by {
            assert(t[k] == s[k]);
        }
        lemma_value_grows(t, i);
        assert(t.take(i) =~= s.take(i));
        assert(is_digit(s[s.len() - 1]));
    } else {
        assert(s.take(i) =~= s);
        if i > 0 {
            let t = s.drop_last();
            assert forall|k: int| 0 <= k < t.len() implies is_digit(#[trigger] t[k]) by {
                assert(t[k] == s[k]);
            }
            lemma_value_grows(t, i - 1);
            assert(t.take(i - 1) =~= t);
            assert(is_digit(s[s.len() - 1]));
        }
    }
}

/// Read a number not above `max`.
pub fn parse_number(s: &[char], max: u64) -> (r: Option<u64>)
    ensures
        match r {
            Some(n) => number_in(s@, max as int) == Some(n as int) && n <= max,
            None => number_in(s@, max as int) is None,
        },
{
    let d: &[char] = if s.len() > 0 && s[0] == '+' {
        slice_subrange(s, 1, s.len())
    } else {
        s
    };
    assert(d@ =~= if s@.len() > 0 && s@[0] == '+' { s@.skip(1) } else { s@ });
    if d.len() == 0 {
        return None;
    }
    let mut i: usize = 0;
    let mut n: u64 = 0;
    assert(d@.take(0) =~= Seq::<char>::empty());
    while i < d.len()
        invariant
            i <= d@.len(),
            d@ == (if s@.len() > 0 && s@[0] == '+' { s@.skip(1) } else { s@ }),
            forall|k: int| 0 <= k < i ==> is_digit(#[trigger] d@[k]),
            n == value_of(d@.take(i as int)),
            n <= max,
        decreases d@.len() - i,
    {
        let c = d[i];
        if !digit(c) {
            assert(!is_digit(d@[i as int]));
            return None;
        }
        let v: u64 = (c as u32 - 48) as u64;
        let next: u128 = n as u128 * 10 + v as u128;
        proof {
            assert(d@.take(i + 1).drop_last() =~= d@.take(i as int));
            assert(d@.take(i + 1).last() == c);
            assert(next == value_of(d@.take(i + 1)));
        }
        if next > max as u128 {
            proof {
                if all_digits(d@) {
                    lemma_value_grows(d@, i + 1);
                }
            }
            return None;
        }
        n = next as u64;
        i += 1;
    }
    assert(d@.take(i as int) =~= d@);
    Some(n)
}

/// Millionths in decimal: a sign, the whole part, and the fraction without trailing zeros.
pub open spec fn millionths(n: int) -> Seq<char> {
    let m = if n < 0 { -n } else { n };
    let sign = if n < 0 { seq!['-'] } else { Seq::empty() };
    let frac = drop_end(padded((m % 1_000_000) as nat, 6), only('0'));
    let whole = sign + decimal((m / 1_000_000) as nat);
    if frac.len() == 0 {
        whole
    } else {
        whole + seq!['.'] + frac
    }
}

/// `n` millionths in decimal.
pub fn millionths_chars(n: i32) -> (r: Vec<char>)
    ensures
        r@ == millionths(n as int),
{
    let m: u64 = if n < 0 {
        (0 - (n as i64)) as u64
    } else {
        n as u64
    };
    let mut out: Vec<char> = Vec::new();
    if n < 0 {
        out.push('-');
    }
    let whole = decimal_chars(m / 1_000_000);
    append_chars(&mut out, &whole);
    let digits = padded_chars(m % 1_000_000, 6);
    let zero = vec!['0'];
    let frac = trim_end_of(&digits, &zero);
    proof {
        assert((|c: char| zero@.contains(c)) =~= only('0')) by {
            assert(zero@[0] == '0');
        }
        let sign = if n < 0 { seq!['-'] } else { Seq::<char>::empty() };
        assert(out@ =~= sign + decimal((m / 1_000_000) as nat));
    }
    if frac.len() > 0 {
        out.push('.');
        append_chars(&mut out, frac);
        assert(out@ =~= millionths(n as int));
    }
    out
}

} // verus!
