//! yt-dlp and Deno (the JavaScript runtime yt-dlp needs for YouTube), and ffmpeg (video export
//! and video downloads): which builds to fetch, which checksums they must have, and when to
//! update them.
use vstd::prelude::*;
use vstd::slice::slice_subrange;
use crate::bytes::append_bytes;
use crate::scan::{hex, hex_char, hex_chars};
use crate::text::{
    after_last, append_chars, append_str, ascii_lowered, chars_of, copy_of, last_piece, lowered, same_chars, same_str,
    split_chars, split_on, split_words, string_of, strings, texts, trim, trimmed, words,
};

verus! {

/// Nanoseconds in a day: how often yt-dlp updates itself at most.
pub const UPDATE_EVERY: u128 = 86_400_000_000_000;

/// Whether an update is due, given how long ago the last check was (if that is known).
pub fn update_due(age_ns: Option<u128>) -> (r: bool)
    ensures
        r == (age_ns is None || age_ns->0 > UPDATE_EVERY),
{
    match age_ns {
        None => true,
        Some(age) => age > UPDATE_EVERY,
    }
}

/// What there is to do before the tools can be used.
#[derive(Clone, Copy, Debug, PartialEq, Eq, Structural)]
pub struct Missing {
    pub yt_dlp: bool,
    pub deno: bool,
    /// Nothing is missing, but yt-dlp should look for an update.
    pub update: bool,
}

/// What there is to do, given what is installed and when yt-dlp was last checked.
pub fn missing_tools(have_yt_dlp: bool, have_deno: bool, age_ns: Option<u128>) -> (r: Missing)
    ensures
        r.yt_dlp == !have_yt_dlp,
        r.deno == !have_deno,
        r.update == (have_yt_dlp && have_deno && (age_ns is None || age_ns->0 > UPDATE_EVERY)),
{
    Missing { yt_dlp: !have_yt_dlp, deno: !have_deno, update: have_yt_dlp && have_deno && update_due(age_ns) }
}

/// The name of yt-dlp's build for a platform.
pub open spec fn yt_dlp_name(os: Seq<char>, arch: Seq<char>) -> Option<Seq<char>> {
    if os == "macos"@ {
        Some("yt-dlp_macos"@)
    } else if os == "windows"@ {
        Some("yt-dlp.exe"@)
    } else if os == "linux"@ && arch == "x86_64"@ {
        Some("yt-dlp_linux"@)
    } else if os == "linux"@ && arch == "aarch64"@ {
        Some("yt-dlp_linux_aarch64"@)
    } else {
        None
    }
}

/// yt-dlp's build for a platform: universal on macOS; x64 on Windows, which runs it emulated on
/// ARM.
pub fn yt_dlp_asset(os: &str, arch: &str) -> (r: Option<&'static str>)
    ensures
        match r {
            Some(a) => yt_dlp_name(os@, arch@) == Some(a@),
            None => yt_dlp_name(os@, arch@) is None,
        },
{
    if same_str(os, "macos") {
        Some("yt-dlp_macos")
    } else if same_str(os, "windows") {
        Some("yt-dlp.exe")
    } else if same_str(os, "linux") && same_str(arch, "x86_64") {
        Some("yt-dlp_linux")
    } else if same_str(os, "linux") && same_str(arch, "aarch64") {
        Some("yt-dlp_linux_aarch64")
    } else {
        None
    }
}

/// The name of Deno's build for a platform.
pub open spec fn deno_name(os: Seq<char>, arch: Seq<char>) -> Option<Seq<char>> {
    let target = if os == "macos"@ {
        Some("apple-darwin"@)
    } else if os == "windows"@ {
        Some("pc-windows-msvc"@)
    } else if os == "linux"@ {
        Some("unknown-linux-gnu"@)
    } else {
        None
    };
    if (arch == "x86_64"@ || arch == "aarch64"@) && target is Some {
        Some("deno-"@ + arch + "-"@ + target->0 + ".zip"@)
    } else {
        None
    }
}

/// Deno's build for a platform.
pub fn deno_asset(os: &str, arch: &str) -> (r: Option<String>)
    ensures
        match r {
            Some(a) => deno_name(os@, arch@) == Some(a@),
            None => deno_name(os@, arch@) is None,
        },
{
    if !same_str(arch, "x86_64") && !same_str(arch, "aarch64") {
        return None;
    }
    let target = if same_str(os, "macos") {
        "apple-darwin"
    } else if same_str(os, "windows") {
        "pc-windows-msvc"
    } else if same_str(os, "linux") {
        "unknown-linux-gnu"
    } else {
        return None;
    };
    let mut s = chars_of("deno-");
    append_str(&mut s, arch);
    append_str(&mut s, "-");
    append_str(&mut s, target);
    append_str(&mut s, ".zip");
    Some(string_of(&s))
}

/// Where ffmpeg comes from on a platform.
#[derive(Clone, Debug, PartialEq, Eq)]
pub enum FfmpegBuild {
    /// A file of the release, whose sum is in the release's list.
    Release { asset: String },
    /// A path that redirects to the newest build, whose sum sits next to it.
    Latest { path: String },
}

/// Where ffmpeg comes from: a file, or a path that redirects.
pub enum FfmpegSpec {
    Release(Seq<char>),
    Latest(Seq<char>),
}

pub open spec fn ffmpeg_spec(os: Seq<char>, arch: Seq<char>) -> Option<FfmpegSpec> {
    if os == "windows"@ {
        let a = if arch == "aarch64"@ { "winarm64"@ } else { "win64"@ };
        Some(FfmpegSpec::Release("ffmpeg-master-latest-"@ + a + "-gpl.zip"@))
    } else if (os == "macos"@ || os == "linux"@) && (arch == "x86_64"@ || arch == "aarch64"@) {
        let a = if arch == "x86_64"@ { "amd64"@ } else { "arm64"@ };
        Some(FfmpegSpec::Latest("/redirect/latest/"@ + os + "/"@ + a + "/release/ffmpeg.zip"@))
    } else {
        None
    }
}

/// ffmpeg's build for a platform, if there is one.
pub fn ffmpeg_build(os: &str, arch: &str) -> (r: Option<FfmpegBuild>)
    ensures
        match r {
            Some(FfmpegBuild::Release { asset }) => ffmpeg_spec(os@, arch@) == Some(FfmpegSpec::Release(asset@)),
            Some(FfmpegBuild::Latest { path }) => ffmpeg_spec(os@, arch@) == Some(FfmpegSpec::Latest(path@)),
            None => ffmpeg_spec(os@, arch@) is None,
        },
{
    if same_str(os, "windows") {
        let mut s = chars_of("ffmpeg-master-latest-");
        append_str(
            &mut s,
            if same_str(arch, "aarch64") {
                "winarm64"
            } else {
                "win64"
            },
        );
        append_str(&mut s, "-gpl.zip");
        return Some(FfmpegBuild::Release { asset: string_of(&s) });
    }
    if !same_str(os, "macos") && !same_str(os, "linux") {
        return None;
    }
    let a = if same_str(arch, "x86_64") {
        "amd64"
    } else if same_str(arch, "aarch64") {
        "arm64"
    } else {
        return None;
    };
    let mut s = chars_of("/redirect/latest/");
    append_str(&mut s, os);
    append_str(&mut s, "/");
    append_str(&mut s, a);
    append_str(&mut s, "/release/ffmpeg.zip");
    Some(FfmpegBuild::Latest { path: string_of(&s) })
}

/// How many characters of a URL come before its third slash.
pub open spec fn origin_len(url: Seq<char>, slashes: int) -> int
    decreases url.len(),
{
    if url.len() == 0 || (url[0] == '/' && slashes <= 1) {
        0
    } else {
        1 + origin_len(
            url.skip(1),
            if url[0] == '/' {
                slashes - 1
            } else {
                slashes
            },
        )
    }
}

/// Where a redirect leads: a path is one on the same server.
pub open spec fn redirected(url: Seq<char>, location: Seq<char>) -> Seq<char> {
    if location.len() > 0 && location[0] == '/' {
        url.take(origin_len(url, 3)) + location
    } else {
        location
    }
}

/// Where `url` redirects to (absolute), given the location that its answer names.
pub fn redirect_target(url: &str, location: &str) -> (r: String)
    ensures
        r@ == redirected(url@, location@),
{
    let to = chars_of(location);
    if to.len() == 0 || to[0] != '/' {
        return string_of(&to);
    }
    let u = chars_of(url);
    let mut i: usize = 0;
    let mut slashes: u8 = 3;
    assert(u@.skip(0) =~= u@);
    while i < u.len() && !(u[i] == '/' && slashes <= 1)
        invariant
            i <= u@.len(),
            1 <= slashes <= 3,
            origin_len(u@, 3) == i + origin_len(u@.skip(i as int), slashes as int),
        decreases u@.len() - i,
    {
        assert(u@.skip(i as int).skip(1) =~= u@.skip(i + 1));
        assert(u@.skip(i as int)[0] == u@[i as int]);
        if u[i] == '/' {
            slashes -= 1;
        }
        i += 1;
    }
    assert(i < u@.len() ==> u@.skip(i as int)[0] == u@[i as int]);
    let mut s = copy_of(slice_subrange(&u, 0, i));
    assert(s@ =~= u@.take(i as int));
    append_chars(&mut s, &to);
    string_of(&s)
}

// ---- Checksums ----

/// A hexadecimal digit.
pub open spec fn is_hex(c: char) -> bool {
    '0' <= c <= '9' || 'a' <= c <= 'f' || 'A' <= c <= 'F'
}

/// A word that can be a SHA-256 sum: 64 hexadecimal digits.
pub open spec fn is_sum(w: Seq<char>) -> bool {
    w.len() == 64 && forall|i: int| 0 <= i < w.len() ==> is_hex(#[trigger] w[i])
}

/// The first sum among the words, in small letters.
pub open spec fn first_sum(ws: Seq<Seq<char>>) -> Option<Seq<char>>
    decreases ws.len(),
{
    if ws.len() == 0 {
        None
    } else if is_sum(ws[0]) {
        Some(lowered(ws[0]))
    } else {
        first_sum(ws.skip(1))
    }
}

fn sum_word(w: &[char]) -> (r: bool)
    ensures
        r == is_sum(w@),
{
    if w.len() != 64 {
        return false;
    }
    let mut i: usize = 0;
    while i < 64
        invariant
            i <= 64 == w@.len(),
            forall|k: int| 0 <= k < i ==> is_hex(#[trigger] w@[k]),
        decreases 64 - i,
    {
        let c = w[i];
        if !(('0' <= c && c <= '9') || ('a' <= c && c <= 'f') || ('A' <= c && c <= 'F')) {
            assert(!is_hex(w@[i as int]));
            return false;
        }
        i += 1;
    }
    true
}

/// The first 64-hex-digit word in `text` (Deno's sum files differ between platforms).
pub fn find_sha256(text: &str) -> (r: Option<String>)
    ensures
        match r {
            Some(s) => first_sum(words(text@)) == Some(s@),
            None => first_sum(words(text@)) is None,
        },
{
    let t = chars_of(text);
    let list = split_words(&t);
    let ghost all = words(text@);
    let mut i: usize = 0;
    assert(all.skip(0) =~= all);
    while i < list.len()
        invariant
            i <= list@.len(),
            all == texts(list@),
            all == words(text@),
            first_sum(all) == first_sum(all.skip(i as int)),
        decreases list@.len() - i,
    {
        assert(all.skip(i as int)[0] == list@[i as int]@);
        assert(all.skip(i as int).skip(1) =~= all.skip(i + 1));
        if sum_word(&list[i]) {
            return Some(string_of(&ascii_lowered(&list[i])));
        }
        i += 1;
    }
    None
}

/// The index of the first two spaces in a row, or the length.
pub open spec fn gap_at(s: Seq<char>) -> int
    decreases s.len(),
{
    if s.len() < 2 {
        s.len() as int
    } else if s[0] == ' ' && s[1] == ' ' {
        0
    } else {
        1 + gap_at(s.skip(1))
    }
}

/// The sum on a line of a list for the file called `asset`: `sum  name`.
pub open spec fn sum_on_line(line: Seq<char>, asset: Seq<char>) -> Option<Seq<char>> {
    let i = gap_at(line);
    if i + 2 <= line.len() && trimmed(line.skip(i + 2)) == asset {
        Some(line.take(i))
    } else {
        None
    }
}

/// The first of the lines' sums for `asset`.
pub open spec fn sum_in(lines: Seq<Seq<char>>, asset: Seq<char>) -> Option<Seq<char>>
    decreases lines.len(),
{
    if lines.len() == 0 {
        None
    } else if sum_on_line(lines[0], asset) is Some {
        sum_on_line(lines[0], asset)
    } else {
        sum_in(lines.skip(1), asset)
    }
}

fn line_sum(line: &[char], asset: &[char]) -> (r: Option<Vec<char>>)
    ensures
        match r {
            Some(s) => sum_on_line(line@, asset@) == Some(s@),
            None => sum_on_line(line@, asset@) is None,
        },
{
    let n: usize = line.len();
    let mut i: usize = 0;
    assert(line@.skip(0) =~= line@);
    while n - i >= 2 && !(line[i] == ' ' && line[i + 1] == ' ')
        invariant
            n == line@.len(),
            i <= n,
            gap_at(line@) == i + gap_at(line@.skip(i as int)),
        decreases n - i,
    {
        assert(line@.skip(i as int)[0] == line@[i as int] && line@.skip(i as int)[1] == line@[i + 1]);
        assert(line@.skip(i as int).skip(1) =~= line@.skip(i + 1));
        i += 1;
    }
    if n - i < 2 {
        assert(gap_at(line@) + 2 > line@.len());
        return None;
    }
    assert(line@.skip(i as int)[0] == line@[i as int] && line@.skip(i as int)[1] == line@[i + 1]);
    let name = slice_subrange(line, i + 2, n);
    assert(name@ =~= line@.skip(i + 2));
    if same_chars(trim(name), asset) {
        let sum = slice_subrange(line, 0, i);
        assert(sum@ =~= line@.take(i as int));
        Some(copy_of(sum))
    } else {
        None
    }
}

/// The sum that a list of sums gives for `asset`.
pub fn sum_for(text: &str, asset: &str) -> (r: Option<String>)
    ensures
        match r {
            Some(s) => sum_in(split_on(text@, '\n'), asset@) == Some(s@),
            None => sum_in(split_on(text@, '\n'), asset@) is None,
        },
{
    let t = chars_of(text);
    let a = chars_of(asset);
    let list = split_chars(&t, '\n');
    let ghost all = split_on(text@, '\n');
    let mut i: usize = 0;
    assert(all.skip(0) =~= all);
    while i < list.len()
        invariant
            i <= list@.len(),
            a@ == asset@,
            all == texts(list@),
            all == split_on(text@, '\n'),
            sum_in(all, asset@) == sum_in(all.skip(i as int), asset@),
        decreases list@.len() - i,
    {
        assert(all.skip(i as int)[0] == list@[i as int]@);
        assert(all.skip(i as int).skip(1) =~= all.skip(i + 1));
        if let Some(s) = line_sum(&list[i], &a) {
            return Some(string_of(&s));
        }
        i += 1;
    }
    None
}

/// The SHA-256 digest of a message.
pub uninterp spec fn sha256(message: Seq<u8>) -> Seq<u8>;

/// Calls `Sha256::digest` of the crate sha2: 32 bytes that depend on the message alone.
#[verifier::external_body]
fn sha256_digest(message: &[u8]) -> (r: Vec<u8>)
    ensures
        r@ == sha256(message@),
        r@.len() == 32,
{
    <sha2::Sha256 as sha2::Digest>::digest(message).to_vec()
}

/// Bytes in hexadecimal, two digits each.
pub open spec fn hex_bytes(s: Seq<u8>) -> Seq<char>
    decreases s.len(),
{
    if s.len() == 0 {
        Seq::empty()
    } else {
        hex_bytes(s.drop_last()) + hex(s.last() as int, 2)
    }
}

fn hex_text(s: &[u8]) -> (r: Vec<char>)
    ensures
        r@ == hex_bytes(s@),
{
    let mut out: Vec<char> = Vec::new();
    let mut i: usize = 0;
    assert(out@ =~= hex_bytes(s@.take(0)));
    while i < s.len()
        invariant
            i <= s@.len(),
            out@ == hex_bytes(s@.take(i as int)),
        decreases s@.len() - i,
    {
        append_chars(&mut out, &hex_chars(s[i] as u64, 2));
        assert(s@.take(i + 1).drop_last() =~= s@.take(i as int));
        i += 1;
    }
    assert(s@.take(i as int) =~= s@);
    out
}

/// Two digits tell every byte from the others.
proof fn lemma_hex_byte(a: u8, b: u8)
    requires
        hex(a as int, 2) == hex(b as int, 2),
    ensures
        a == b,
{
    reveal_with_fuel(hex, 3);
    let (x, y) = (hex(a as int, 2), hex(b as int, 2));
    assert(x[1] == y[1] && x[0] == y[0]);
    assert(x[1] == hex_char(a as int % 16) && x[0] == hex_char(a as int / 16 % 16));
    assert(y[1] == hex_char(b as int % 16) && y[0] == hex_char(b as int / 16 % 16));
}

/// A sum stands for one digest only: what matches a published sum has exactly the digest that
/// the sum was made from.
pub proof fn law_sums_tell_digests_apart(a: Seq<u8>, b: Seq<u8>)
    requires
        hex_bytes(a) == hex_bytes(b),
    ensures
        a == b,
    decreases a.len(),
{
    lemma_hex_len(a);
    lemma_hex_len(b);
    if a.len() > 0 {
        let (x, y) = (hex_bytes(a.drop_last()), hex_bytes(b.drop_last()));
        let (u, v) = (hex(a.last() as int, 2), hex(b.last() as int, 2));
        lemma_hex_len(a.drop_last());
        lemma_hex_len(b.drop_last());
        assert(hex_bytes(a) == x + u && hex_bytes(b) == y + v);
        assert(x =~= (x + u).take(x.len() as int));
        assert(y =~= (y + v).take(y.len() as int));
        assert(u =~= (x + u).skip(x.len() as int));
        assert(v =~= (y + v).skip(y.len() as int));
        lemma_hex_byte(a.last(), b.last());
        law_sums_tell_digests_apart(a.drop_last(), b.drop_last());
        assert(a =~= a.drop_last().push(a.last()));
        assert(b =~= b.drop_last().push(b.last()));
    } else {
        assert(a =~= b);
    }
}

proof fn lemma_hex_len(a: Seq<u8>)
    ensures
        hex_bytes(a).len() == 2 * a.len(),
        forall|v: int| #[trigger] hex(v, 2).len() == 2,
    decreases a.len(),
{
    reveal_with_fuel(hex, 3);
    if a.len() > 0 {
        lemma_hex_len(a.drop_last());
    }
}

/// A download as it comes in.
#[derive(Clone, Debug, PartialEq, Eq)]
pub struct Fetch {
    /// All bytes so far.
    pub bytes: Vec<u8>,
}

impl Fetch {
    pub fn start() -> (r: Fetch)
        ensures
            r.bytes@.len() == 0,
    {
        Fetch { bytes: Vec::new() }
    }

    /// A piece came in.
    pub fn chunk(&mut self, piece: &[u8])
        ensures
            final(self).bytes@ == old(self).bytes@ + piece@,
    {
        append_bytes(&mut self.bytes, piece);
    }

    /// Whether what came in has the published sum, whose letters may be capitals.
    pub fn matches(&self, published: &str) -> (r: bool)
        ensures
            r == (hex_bytes(sha256(self.bytes@)) == lowered(published@)),
    {
        digest_matches(&sha256_digest(&self.bytes), published)
    }
}

/// Whether a digest is the published one, whose letters may be capitals.
pub fn digest_matches(digest: &[u8], published: &str) -> (r: bool)
    ensures
        r == (hex_bytes(digest@) == lowered(published@)),
{
    let actual = hex_text(digest);
    let wanted = ascii_lowered(&chars_of(published));
    same_chars(&actual, &wanted)
}

/// The name of a download: the last part of its address.
pub fn download_name(url: &str) -> (r: String)
    ensures
        r@ == after_last(url@, '/'),
{
    let u = chars_of(url);
    string_of(last_piece(&u, '/'))
}

/// The names of the entries of a ZIP archive, in the order of its directory; `None` where the
/// bytes are no archive that can be read.
pub uninterp spec fn zip_names(archive: Seq<u8>) -> Option<Seq<Seq<char>>>;

/// What the entry called `name` of a ZIP archive holds, unpacked; `None` where it cannot be read.
pub uninterp spec fn zip_entry(archive: Seq<u8>, name: Seq<char>) -> Option<Seq<u8>>;

/// Calls `zip::ZipArchive::new` on the bytes and then `file_names`: the names depend on the bytes
/// alone. Of an error nothing is claimed but that there is one; its text is passed on.
#[verifier::external_body]
fn archive_names(archive: &[u8]) -> (r: Result<Vec<String>, String>)
    ensures
        match r {
            Ok(names) => zip_names(archive@) == Some(strings(names@)),
            Err(_) => zip_names(archive@) is None,
        },
{
    let zip = zip::ZipArchive::new(std::io::Cursor::new(archive)).map_err(|e| e.to_string())?;
    Ok(zip.file_names().map(str::to_owned).collect())
}

/// Calls `zip::ZipArchive::by_name` and reads what it gives to the end: the contents depend on the
/// bytes and the name alone. Of an error nothing is claimed but that there is one; its text is
/// passed on.
#[verifier::external_body]
fn archive_entry(archive: &[u8], name: &str) -> (r: Result<Vec<u8>, String>)
    ensures
        match r {
            Ok(contents) => zip_entry(archive@, name@) == Some(contents@),
            Err(_) => zip_entry(archive@, name@) is None,
        },
{
    let mut zip = zip::ZipArchive::new(std::io::Cursor::new(archive)).map_err(|e| e.to_string())?;
    let mut file = zip.by_name(name).map_err(|e| e.to_string())?;
    let mut contents = Vec::new();
    std::io::Read::read_to_end(&mut file, &mut contents).map_err(|e| e.to_string())?;
    Ok(contents)
}

/// Why a file could not be unpacked.
#[derive(Clone, Debug, PartialEq, Eq)]
pub enum UnzipError {
    /// The archive, or its entry, cannot be read; with the reason.
    Unreadable(String),
    /// There is no such file inside.
    NoEntry,
}

/// What unpacking the file named `entry` gives, from an archive with the given names.
pub open spec fn is_unzipped(
    archive: Seq<u8>,
    names: Seq<Seq<char>>,
    entry: Seq<char>,
    found: Option<usize>,
    r: Result<Vec<u8>, UnzipError>,
) -> bool {
    &&& first_entry(names, entry, found)
    &&& match found {
        None => r == Err::<Vec<u8>, UnzipError>(UnzipError::NoEntry),
        Some(k) => match zip_entry(archive, names[k as int]) {
            Some(contents) => r is Ok && r->Ok_0@ == contents,
            None => r is Err && r->Err_0 is Unreadable,
        },
    }
}

/// Unpack the file named `entry` (at the top, or in any folder) of a ZIP archive.
pub fn unzip_one(archive: &[u8], entry: &str) -> (r: Result<Vec<u8>, UnzipError>)
    ensures
        match zip_names(archive@) {
            None => r is Err && r->Err_0 is Unreadable,
            Some(names) => exists|found: Option<usize>| #[trigger] is_unzipped(archive@, names, entry@, found, r),
        },
{
    let names = match archive_names(archive) {
        Ok(names) => names,
        Err(e) => return Err(UnzipError::Unreadable(e)),
    };
    let found = find_entry(&names, entry);
    let r = match found {
        None => Err(UnzipError::NoEntry),
        Some(k) => {
            assert(strings(names@)[k as int] == names@[k as int]@);
            match archive_entry(archive, names[k].as_str()) {
                Ok(contents) => Ok(contents),
                Err(e) => Err(UnzipError::Unreadable(e)),
            }
        },
    };
    assert(is_unzipped(archive@, zip_names(archive@)->0, entry@, found, r));
    r
}

/// An archive's entry is the file looked for, at the top or in any folder.
pub open spec fn is_entry(name: Seq<char>, entry: Seq<char>) -> bool {
    name == entry || (name.len() > entry.len() && name.skip(name.len() - entry.len()) == entry && name[name.len()
        - entry.len() - 1] == '/')
}

/// `r` is the first of the names that is the file looked for.
pub open spec fn first_entry(names: Seq<Seq<char>>, entry: Seq<char>, r: Option<usize>) -> bool {
    match r {
        None => forall|i: int| 0 <= i < names.len() ==> !is_entry(#[trigger] names[i], entry),
        Some(k) => {
            &&& k < names.len()
            &&& is_entry(names[k as int], entry)
            &&& forall|i: int| 0 <= i < k ==> !is_entry(#[trigger] names[i], entry)
        },
    }
}

/// Which of an archive's entries is the file named `entry` (at the top, or in any folder).
pub fn find_entry(names: &[String], entry: &str) -> (r: Option<usize>)
    ensures
        first_entry(strings(names@), entry@, r),
{
    let e = chars_of(entry);
    let mut i: usize = 0;
    while i < names.len()
        invariant
            i <= names@.len(),
            e@ == entry@,
            forall|k: int| 0 <= k < i ==> !is_entry(#[trigger] strings(names@)[k], entry@),
        decreases names@.len() - i,
    {
        let n = chars_of(names[i].as_str());
        let same = same_chars(&n, &e);
        let inside = if n.len() > e.len() {
            let cut: usize = n.len() - e.len();
            let tail = slice_subrange(&n, cut, n.len());
            assert(tail@ =~= n@.skip(n@.len() - e@.len()));
            same_chars(tail, &e) && n[cut - 1] == '/'
        } else {
            false
        };
        assert(strings(names@)[i as int] == n@);
        if same || inside {
            return Some(i);
        }
        i += 1;
    }
    None
}

} // verus!
