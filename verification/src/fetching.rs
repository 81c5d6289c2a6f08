//! How versions, checksums and links are read.
use vstd::prelude::*;
use crate::download::{opt_text, says, with_extension, Progress};
use crate::listing::{law_files_are_told_by_their_extension, law_names_follow_the_last_slash};
use crate::scan::hex;
use crate::serving::lemma_next_word;
use crate::text::{
    decimal, drop_start, first_of, is_digit, is_white, lemma_already_trimmed, lemma_decimal_reads_back, lemma_first_of,
    lemma_is_first_of, lemma_split_on_join, number_in, only, split_on, trimmed_start, words,
};
use crate::tools::{
    deno_name, ffmpeg_spec, first_sum, gap_at, is_entry, origin_len, redirected, sum_on_line, yt_dlp_name, FfmpegSpec,
};
use crate::update_check::{build_link, newer, plain_patch, version_of};

verus! {

// ---- Versions ----

/// A version in writing, with what may follow its numbers.
pub open spec fn version_text(a: nat, b: nat, c: nat, tail: Seq<char>) -> Seq<char> {
    decimal(a).push('.') + (decimal(b).push('.') + (decimal(c) + tail))
}

proof fn lemma_first_piece(s: Seq<char>, sep: char, i: int)
    requires
        0 <= i <= s.len(),
        i < s.len() ==> s[i] == sep,
        forall|k: int| 0 <= k < i ==> #[trigger] s[k] != sep,
    ensures
        split_on(s, sep).len() > 0,
        split_on(s, sep)[0] == s.take(i),
{
    assert forall|k: int| 0 <= k < i implies !only(sep)(#[trigger] s[k]) by {
        assert(s[k] != sep);
    }
    lemma_is_first_of(s, only(sep), i);
    if i >= s.len() {
        assert(s.take(i) =~= s);
    }
}

proof fn lemma_whole(s: Seq<char>, sep: char)
    requires
        !s.contains(sep),
    ensures
        split_on(s, sep) == seq![s],
{
    assert forall|k: int| 0 <= k < s.len() implies !only(sep)(#[trigger] s[k]) by {
        assert(s.contains(s[k]));
    }
    lemma_is_first_of(s, only(sep), s.len() as int);
}

proof fn lemma_number(n: nat, max: int)
    requires
        n <= max,
    ensures
        number_in(decimal(n), max) == Some(n as int),
        decimal(n).len() > 0,
        forall|c: char| !is_digit(c) ==> !#[trigger] decimal(n).contains(c),
{
    lemma_decimal_reads_back(n);
    let d = decimal(n);
    assert(is_digit(d[0]));
}

/// A version reads back as its three numbers, with or without a `v` in front, and whatever name
/// or build follows a dash or a plus sign.
pub proof fn law_versions_read_back(a: u32, b: u32, c: u32, tail: Seq<char>)
    requires
        tail.len() > 0 ==> tail[0] == '-' || tail[0] == '+',
    ensures
        version_of(version_text(a as nat, b as nat, c as nat, tail)) == Some((a as int, b as int, c as int)),
        version_of(seq!['v'] + version_text(a as nat, b as nat, c as nat, tail)) == Some((a as int, b as int, c as int)),
{
    let max = u32::MAX as int;
    let (x, y, z) = (decimal(a as nat), decimal(b as nat), decimal(c as nat));
    lemma_number(a as nat, max);
    lemma_number(b as nat, max);
    lemma_number(c as nat, max);
    let last = z + tail;
    let s = version_text(a as nat, b as nat, c as nat, tail);
    assert(s[0] == x[0] && x.contains(x[0]));
    assert(is_digit(s[0]));
    let v = seq!['v'] + s;
    assert(v.skip(1) =~= s);
    assert(drop_start(s, only('v')) == s);
    assert(drop_start(v, only('v')) == s);
    lemma_split_on_join(x, y.push('.') + last, '.');
    lemma_split_on_join(y, last, '.');
    lemma_whole(x, '.');
    lemma_whole(y, '.');
    let parts = split_on(s, '.');
    let more = split_on(last, '.');
    let i = first_of(last, only('.'));
    lemma_first_of(last, only('.'));
    assert forall|k: int| 0 <= k < i implies #[trigger] last[k] != '.' by {
        assert(!only('.')(last[k]));
    }
    lemma_first_piece(last, '.', i);
    assert(i >= z.len()) by {
        if i < z.len() {
            assert(last[i] == z[i] && z.contains(z[i]));
        }
    }
    assert(parts =~= seq![x, y] + more);
    assert(parts[0] == x && parts[1] == y && parts[2] == more[0]);
    let patch = more[0];
    assert(patch == last.take(i));
    assert(patch.len() >= z.len());
    assert forall|k: int| 0 <= k < z.len() implies #[trigger] patch[k] != '-' && patch[k] != '+' && is_digit(patch[k]) by {
        assert(patch[k] == z[k] && z.contains(z[k]));
    }
    assert(patch.take(z.len() as int) =~= z);
    lemma_patch(z, patch);
}

proof fn lemma_patch(z: Seq<char>, patch: Seq<char>)
    requires
        z.len() <= patch.len(),
        patch.take(z.len() as int) == z,
        forall|k: int| 0 <= k < z.len() ==> #[trigger] patch[k] != '-' && patch[k] != '+',
        patch.len() > z.len() ==> patch[z.len() as int] == '-' || patch[z.len() as int] == '+',
    ensures
        plain_patch(patch) == z,
{
    let n = z.len() as int;
    if patch.len() > n && patch[n] == '-' {
        lemma_first_piece(patch, '-', n);
        lemma_first_piece(z, '+', n);
        assert(z.take(n) =~= z);
    } else {
        let i = first_of(patch, only('-'));
        lemma_first_of(patch, only('-'));
        assert forall|k: int| 0 <= k < i implies #[trigger] patch[k] != '-' by {
            assert(!only('-')(patch[k]));
        }
        lemma_first_piece(patch, '-', i);
        let head = patch.take(i);
        assert(i >= n);
        assert forall|k: int| 0 <= k < n implies #[trigger] head[k] != '+' by {
            assert(head[k] == patch[k]);
        }
        if i > n {
            assert(head[n] == patch[n]);
        }
        lemma_first_piece(head, '+', n);
        assert(head.take(n) =~= z);
    }
}

/// A version is newer where its first number that differs is the larger one.
pub proof fn law_the_first_difference_decides(a: Seq<char>, b: Seq<char>)
    requires
        version_of(a) is Some,
        version_of(b) is Some,
    ensures
        ({
            let (x, y) = (version_of(a)->0, version_of(b)->0);
            &&& x.0 != y.0 ==> (newer(a, b) <==> x.0 > y.0)
            &&& x.0 == y.0 && x.1 != y.1 ==> (newer(a, b) <==> x.1 > y.1)
            &&& x.0 == y.0 && x.1 == y.1 ==> (newer(a, b) <==> x.2 > y.2)
        }),
{
}

// ---- Checksums ----

/// The checksum of a file is what stands on its line, two spaces in front of its name, and a line
/// for another file has none for it.
pub proof fn law_sums_are_found_by_name(sum: Seq<char>, name: Seq<char>, other: Seq<char>)
    requires
        !sum.contains(' '),
        name.len() > 0,
        !is_white(name[0]),
        !is_white(name.last()),
        other != name,
    ensures
        sum_on_line(sum + seq![' ', ' '] + name, name) == Some(sum),
        sum_on_line(sum + seq![' ', ' '] + name, other) is None,
{
    let line = sum + seq![' ', ' '] + name;
    let n = sum.len() as int;
    lemma_gap(line, n);
    assert(line.take(n) =~= sum);
    assert(line.skip(n + 2) =~= name);
    lemma_already_trimmed(name);
}

proof fn lemma_gap(line: Seq<char>, n: int)
    requires
        0 <= n,
        n + 2 <= line.len(),
        line[n] == ' ' && line[n + 1] == ' ',
        forall|k: int| 0 <= k < n ==> #[trigger] line[k] != ' ',
    ensures
        gap_at(line) == n,
    decreases n,
{
    if n > 0 {
        let t = line.skip(1);
        assert forall|k: int| 0 <= k < n - 1 implies #[trigger] t[k] != ' ' by {
            assert(t[k] == line[k + 1]);
        }
        assert(line[0] != ' ');
        lemma_gap(t, n - 1);
    }
}

/// The value of a digit to base sixteen.
pub open spec fn hex_value(c: char) -> int {
    if '0' <= c <= '9' {
        c as int - '0' as int
    } else if 'a' <= c <= 'f' {
        c as int - 'a' as int + 10
    } else {
        -1
    }
}

/// The number that digits to base sixteen stand for.
pub open spec fn read_hex(s: Seq<char>) -> int
    decreases s.len(),
{
    if s.len() == 0 {
        0
    } else {
        read_hex(s.drop_last()) * 16 + hex_value(s.last())
    }
}

/// A number in digits to base sixteen reads back, where there are digits enough.
pub proof fn law_hex_reads_back(v: int, n: nat)
    requires
        0 <= v < vstd::arithmetic::power::pow(16, n),
    ensures
        hex(v, n).len() == n,
        read_hex(hex(v, n)) == v,
    decreases n,
{
    reveal(vstd::arithmetic::power::pow);
    if n > 0 {
        let m = (n - 1) as nat;
        let p = vstd::arithmetic::power::pow(16, m);
        assert(v < 16 * p);
        law_hex_reads_back(v / 16, m);
        assert(hex(v, n).drop_last() =~= hex(v / 16, m));
    }
}

// ---- Links ----

/// A link to a place on the same host keeps the host, and only that; any other link is taken as it
/// is.
pub proof fn law_links_keep_the_host(scheme: Seq<char>, host: Seq<char>, rest: Seq<char>, place: Seq<char>)
    requires
        !scheme.contains('/'),
        !host.contains('/'),
        rest.len() > 0 ==> rest[0] == '/',
    ensures
        place.len() > 0 && place[0] == '/' ==> redirected(scheme + seq!['/', '/'] + host + rest, place) == scheme + seq![
            '/',
            '/',
        ] + host + place,
        place.len() == 0 || place[0] != '/' ==> redirected(scheme + seq!['/', '/'] + host + rest, place) == place,
{
    let url = scheme + seq!['/', '/'] + host + rest;
    let origin = scheme + seq!['/', '/'] + host;
    let n = scheme.len() as int;
    assert(forall|k: int| 0 <= k < n ==> #[trigger] url[k] == scheme[k]);
    lemma_origin(url, n, 3);
    let a = url.skip(n);
    assert(a[0] == '/' && a[1] == '/');
    let b = a.skip(1);
    let c = b.skip(1);
    assert(c =~= host + rest);
    let m = host.len() as int;
    assert(forall|k: int| 0 <= k < m ==> #[trigger] c[k] == host[k]);
    lemma_origin(c, m, 1);
    assert(c.skip(m) =~= rest);
    reveal_with_fuel(origin_len, 3);
    assert(origin_len(rest, 1) == 0);
    assert(origin_len(url, 3) == origin.len());
    assert(url.take(origin.len() as int) =~= origin);
}

proof fn lemma_origin(s: Seq<char>, n: int, slashes: int)
    requires
        0 <= n <= s.len(),
        forall|k: int| 0 <= k < n ==> #[trigger] s[k] != '/',
    ensures
        origin_len(s, slashes) == n + origin_len(s.skip(n), slashes),
    decreases n,
{
    if n > 0 {
        let t = s.skip(1);
        assert forall|k: int| 0 <= k < n - 1 implies #[trigger] t[k] != '/' by {
            assert(t[k] == s[k + 1]);
        }
        assert(s[0] != '/');
        lemma_origin(t, n - 1, slashes);
        assert(t.skip(n - 1) =~= s.skip(n));
    } else {
        assert(s.skip(0) =~= s);
    }
}

// ---- Checksums and builds ----

/// The checksum in a text is its first word of 64 digits to base sixteen, in small letters.
pub proof fn law_the_first_sum_is_taken(ws: Seq<Seq<char>>, i: int)
    requires
        0 <= i < ws.len(),
        ws[i].len() == 64,
        forall|k: int| 0 <= k < 64 ==> ('0' <= #[trigger] ws[i][k] <= '9' || 'a' <= ws[i][k] <= 'f' || 'A' <= ws[i][k] <= 'F'),
        forall|j: int| 0 <= j < i ==> (#[trigger] ws[j]).len() != 64,
    ensures
        first_sum(ws) is Some,
        first_sum(ws)->0.len() == 64,
        forall|k: int| 0 <= k < 64 ==> {
            let (c, d) = (ws[i][k], #[trigger] first_sum(ws)->0[k]);
            if 'A' <= c <= 'F' {
                'a' <= d <= 'f' && d as int == c as int + 32
            } else {
                d == c
            }
        },
    decreases i,
{
    if i > 0 {
        let t = ws.skip(1);
        assert(ws[0].len() != 64);
        assert(t[i - 1] == ws[i]);
        assert forall|j: int| 0 <= j < i - 1 implies (#[trigger] t[j]).len() != 64 by {
            assert(t[j] == ws[j + 1]);
        }
        law_the_first_sum_is_taken(t, i - 1);
    }
}

/// A line of the downloader tells how many bytes came, how many there are, and how many there may
/// be, in this order.
pub proof fn law_progress_tells_the_bytes(state: Seq<char>, done: Seq<char>, total: Seq<char>, estimate: Seq<char>, p: Option<Progress>)
    requires
        is_word(state),
        is_word(done),
        is_word(total),
        is_word(estimate),
        state != "finished"@,
        says(
            "SPLITTER-PROGRESS"@ + (seq![' '] + (state.push(' ') + (done.push(' ') + (total.push(' ') + estimate)))),
            p,
        ),
    ensures
        p is Some,
        p->0 is Downloading,
        opt_text(p->0->done) == Some(done),
        opt_text(p->0->total) == Some(total),
        opt_text(p->0->estimate) == Some(estimate),
{
    let rest = state.push(' ') + (done.push(' ') + (total.push(' ') + estimate));
    let mark = "SPLITTER-PROGRESS"@;
    let line = mark + (seq![' '] + rest);
    assert(line.subrange(0, mark.len() as int) =~= mark);
    let s = line.skip(mark.len() as int);
    assert(s =~= seq![' '] + rest);
    assert(s[0] == ' ' && s.skip(1) =~= rest);
    assert(trimmed_start(s) == trimmed_start(rest));
    assert(words(s) == words(rest));
    lemma_next_word(estimate, Seq::empty());
    lemma_next_word(total, estimate);
    lemma_next_word(done, total.push(' ') + estimate);
    lemma_next_word(state, done.push(' ') + (total.push(' ') + estimate));
    let f = words(s);
    assert(f =~= seq![state, done, total, estimate]);
}

/// Some characters, and no white space among them.
pub open spec fn is_word(s: Seq<char>) -> bool {
    s.len() > 0 && forall|i: int| 0 <= i < s.len() ==> !is_white(#[trigger] s[i])
}

/// A file is found in an archive by its name, in whatever folder it lies, and not by the end of a
/// longer name.
pub proof fn law_files_are_found_in_any_folder(folder: Seq<char>, name: Seq<char>)
    requires
        name.len() > 0,
        folder.len() > 0,
    ensures
        is_entry(name, name),
        folder.last() == '/' ==> is_entry(folder + name, name),
        folder.last() != '/' ==> !is_entry(folder + name, name),
{
    let p = folder + name;
    assert(p.skip(folder.len() as int) =~= name);
    assert(p[folder.len() - 1] == folder.last());
}

/// The builds of ffmpeg that are fetched are those for the system at hand and for its processor.
pub proof fn law_builds_are_for_the_processor(os: Seq<char>, arch: Seq<char>)
    requires
        arch == "x86_64"@ || arch == "aarch64"@,
    ensures
        os == "windows"@ ==> (ffmpeg_spec(os, arch) matches Some(FfmpegSpec::Release(name)) && name
            == "ffmpeg-master-latest-win"@ + (if arch == "aarch64"@ {
            "arm64"@
        } else {
            "64"@
        }) + "-gpl.zip"@),
        os == "macos"@ || os == "linux"@ ==> (ffmpeg_spec(os, arch) matches Some(FfmpegSpec::Latest(place)) && place
            == "/redirect/latest/"@ + os + (if arch == "aarch64"@ {
            "/arm64"@
        } else {
            "/amd64"@
        }) + "/release/ffmpeg.zip"@),
        os == "macos"@ ==> yt_dlp_name(os, arch) == Some("yt-dlp_macos"@),
        os == "windows"@ ==> yt_dlp_name(os, arch) == Some("yt-dlp.exe"@),
        os == "linux"@ ==> yt_dlp_name(os, arch) == Some(
            "yt-dlp_linux"@ + if arch == "aarch64"@ {
                "_aarch64"@
            } else {
                ""@
            },
        ),
        deno_name(os, arch) matches Some(n) ==> ("deno-"@ + arch).is_prefix_of(n),
{
    reveal_strlit("windows");
    reveal_strlit("macos");
    reveal_strlit("linux");
    reveal_strlit("x86_64");
    reveal_strlit("aarch64");
    assert("windows"@.len() == 7 && "macos"@.len() == 5 && "x86_64"@.len() == 6 && "aarch64"@.len() == 7);
    assert("macos"@[0] == 'm' && "linux"@[0] == 'l');
    reveal_strlit("win64");
    reveal_strlit("winarm64");
    reveal_strlit("64");
    reveal_strlit("arm64");
    reveal_strlit("ffmpeg-master-latest-");
    reveal_strlit("ffmpeg-master-latest-win");
    assert("ffmpeg-master-latest-"@ + "win64"@ =~= "ffmpeg-master-latest-win"@ + "64"@);
    assert("ffmpeg-master-latest-"@ + "winarm64"@ =~= "ffmpeg-master-latest-win"@ + "arm64"@);
    reveal_strlit("/");
    reveal_strlit("/arm64");
    reveal_strlit("/amd64");
    reveal_strlit("amd64");
    reveal_strlit("/release/ffmpeg.zip");
    let root = "/redirect/latest/"@ + os;
    assert(root + "/"@ + "arm64"@ =~= root + "/arm64"@);
    assert(root + "/"@ + "amd64"@ =~= root + "/amd64"@);
    reveal_strlit("yt-dlp_linux");
    reveal_strlit("yt-dlp_linux_aarch64");
    reveal_strlit("_aarch64");
    reveal_strlit("");
    assert("yt-dlp_linux"@ + "_aarch64"@ =~= "yt-dlp_linux_aarch64"@);
    assert("yt-dlp_linux"@ + ""@ =~= "yt-dlp_linux"@);
    if let Some(n) = deno_name(os, arch) {
        let front = "deno-"@ + arch;
        assert(n.subrange(0, front.len() as int) =~= front);
    }
}

/// The link for an update is that of the build, marked as asked for by the program, and without a
/// build the page that lists them.
pub proof fn law_updates_lead_somewhere(url: Seq<char>)
    ensures
        url.len() > 0 ==> build_link(Some(url)) == url + "?src=updater"@,
        url.len() == 0 ==> build_link(Some(url)) == build_link(None),
        build_link(None) == "https://mayorana.ch/en/apps"@,
{
}

/// Another extension takes the place of the old one, and nothing else changes.
pub proof fn law_the_extension_alone_is_replaced(folder: Seq<char>, stem: Seq<char>, old_ext: Seq<char>, ext: Seq<char>)
    requires
        folder.len() > 0 ==> folder.last() == '/',
        stem.len() > 0,
        !stem.contains('/'),
        !old_ext.contains('/'),
        !old_ext.contains('.'),
        stem.push('.') + old_ext != seq!['.', '.'],
    ensures
        with_extension(folder + (stem.push('.') + old_ext), ext) == folder + (stem.push('.') + ext),
{
    let name = stem.push('.') + old_ext;
    let p = folder + name;
    assert forall|k: int| 0 <= k < name.len() implies #[trigger] name[k] != '/' by {
        if k < stem.len() {
            assert(name[k] == stem[k] && stem.contains(stem[k]));
        } else if k > stem.len() {
            assert(name[k] == old_ext[k - stem.len() - 1] && old_ext.contains(old_ext[k - stem.len() - 1]));
        }
    }
    assert(name.len() >= 2);
    law_names_follow_the_last_slash(folder, name);
    law_files_are_told_by_their_extension(p, stem, old_ext);
    assert(p.take(folder.len() as int) =~= folder);
}

} // verus!
