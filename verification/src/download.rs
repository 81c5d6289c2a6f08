//! Opening a recording from a URL: reading what the downloader prints, and what to make of how
//! it ended.
use vstd::prelude::*;
use crate::recording::{ends_with, extension, file_stem, path_stem, with_file_name, with_name};
use crate::text::{
    append_chars, append_str, ascii_lowered, chars_of, contains, has_text, same_chars, split_words, string_of,
    strings, strip_prefix, texts, trim, trimmed, words,
};

verus! {

/// The link to download, without spaces around it. `None` for what isn't a link.
pub fn link(url: &str) -> (r: Option<String>)
    ensures
        match r {
            Some(u) => u@ == trimmed(url@) && is_link(trimmed(url@)),
            None => !is_link(trimmed(url@)),
        },
{
    let chars = chars_of(url);
    let t = trim(&chars);
    if strip_prefix(t, "https://").is_some() || strip_prefix(t, "http://").is_some() {
        Some(string_of(t))
    } else {
        None
    }
}

pub open spec fn is_link(s: Seq<char>) -> bool {
    "https://"@.is_prefix_of(s) || "http://"@.is_prefix_of(s)
}

/// What a progress line says: the fields are numbers where they are known. The size is either
/// known or estimated.
#[derive(Clone, Debug, PartialEq, Eq)]
pub enum Progress {
    /// The file is complete.
    Finished,
    Downloading { done: Option<String>, total: Option<String>, estimate: Option<String> },
}

/// Field `i` of a list, as text.
pub open spec fn field(s: Seq<Seq<char>>, i: int) -> Option<Seq<char>> {
    if i < s.len() {
        Some(s[i])
    } else {
        None
    }
}

pub open spec fn opt_text(s: Option<String>) -> Option<Seq<char>> {
    match s {
        Some(x) => Some(x@),
        None => None,
    }
}

/// The words after the marker of a progress line.
pub open spec fn progress_fields(line: Seq<char>) -> Option<Seq<Seq<char>>> {
    if "SPLITTER-PROGRESS"@.is_prefix_of(line) {
        Some(words(line.skip("SPLITTER-PROGRESS"@.len() as int)))
    } else {
        None
    }
}

/// `p` is what the line says.
pub open spec fn says(line: Seq<char>, p: Option<Progress>) -> bool {
    match progress_fields(line) {
        None => p is None,
        Some(f) => if field(f, 0) == Some("finished"@) {
            p == Some(Progress::Finished)
        } else {
            &&& p is Some
            &&& p->0 is Downloading
            &&& opt_text(p->0->done) == field(f, 1)
            &&& opt_text(p->0->total) == field(f, 2)
            &&& opt_text(p->0->estimate) == field(f, 3)
        },
    }
}

fn field_text(words: &Vec<Vec<char>>, i: usize) -> (r: Option<String>)
    ensures
        opt_text(r) == field(texts(words@), i as int),
{
    if i < words.len() {
        Some(string_of(&words[i]))
    } else {
        None
    }
}

/// One of our progress lines.
pub fn parse_progress(line: &str) -> (r: Option<Progress>)
    ensures
        says(line@, r),
{
    let chars = chars_of(line);
    let rest = match strip_prefix(&chars, "SPLITTER-PROGRESS") {
        Some(rest) => rest,
        None => return None,
    };
    let fields = split_words(rest);
    assert(progress_fields(line@) == Some(texts(fields@)));
    if fields.len() > 0 {
        let finished = chars_of("finished");
        assert(texts(fields@)[0] == fields@[0]@);
        if same_chars(&fields[0], &finished) {
            return Some(Progress::Finished);
        }
    }
    let done = field_text(&fields, 1);
    let total = field_text(&fields, 2);
    let estimate = field_text(&fields, 3);
    Some(Progress::Downloading { done, total, estimate })
}

/// A line of the downloader's output.
#[derive(Clone, Debug, PartialEq, Eq)]
pub enum Line {
    /// The path of the downloaded file.
    File(String),
    Progress(Progress),
    Error(String),
    Other,
}

/// A line on the output stream: the file, or progress.
pub fn stdout_line(line: &str) -> (r: Line)
    ensures
        if "SPLITTER-FILE"@.is_prefix_of(line@) {
            r is File && r->File_0@ == trimmed(line@.skip("SPLITTER-FILE"@.len() as int))
        } else {
            progress_or_other(line@, r)
        },
{
    let chars = chars_of(line);
    match strip_prefix(&chars, "SPLITTER-FILE") {
        Some(rest) => Line::File(string_of(trim(rest))),
        None => match parse_progress(line) {
            Some(p) => Line::Progress(p),
            None => Line::Other,
        },
    }
}

pub open spec fn progress_or_other(line: Seq<char>, r: Line) -> bool {
    match r {
        Line::Progress(p) => says(line, Some(p)),
        Line::Other => says(line, None),
        _ => false,
    }
}

/// A line on the error stream: progress can come here too; otherwise only errors count.
pub fn stderr_line(line: &str) -> (r: Line)
    ensures
        match r {
            Line::Progress(p) => says(line@, Some(p)),
            Line::Error(e) => says(line@, None) && "ERROR:"@.is_prefix_of(line@) && e@ == trimmed(
                line@.skip("ERROR:"@.len() as int),
            ),
            Line::Other => says(line@, None) && !"ERROR:"@.is_prefix_of(line@),
            Line::File(_) => false,
        },
{
    let chars = chars_of(line);
    match parse_progress(line) {
        Some(p) => Line::Progress(p),
        None => match strip_prefix(&chars, "ERROR:") {
            Some(rest) => Line::Error(string_of(trim(rest))),
            None => Line::Other,
        },
    }
}

/// What is added to the errors people will actually hit.
pub open spec fn hint(err: Seq<char>) -> Seq<char> {
    if contains(err, "Requested format is not available"@) {
        " — this site offers no M4A or MP3 audio for it"@
    } else if contains(err, "Sign in to confirm"@) || contains(err, "not a bot"@) || contains(err, "HTTP Error 403"@) {
        " — YouTube is refusing this network for now; yt-dlp updates itself daily, so try again later"@
    } else {
        ""@
    }
}

/// The message for the downloader's errors.
pub fn explain(err: &str) -> (r: String)
    ensures
        r@ == "Download failed: "@ + err@ + hint(err@),
{
    let e = chars_of(err);
    let mut out = chars_of("Download failed: ");
    append_chars(&mut out, &e);
    if has_text(&e, "Requested format is not available") {
        append_str(&mut out, " — this site offers no M4A or MP3 audio for it");
    } else if has_text(&e, "Sign in to confirm") || has_text(&e, "not a bot") || has_text(&e, "HTTP Error 403") {
        append_str(
            &mut out,
            " — YouTube is refusing this network for now; yt-dlp updates itself daily, so try again later",
        );
    } else {
        append_str(&mut out, "");
    }
    string_of(&out)
}

/// The lines with a line break between any two.
pub open spec fn lines_joined(s: Seq<Seq<char>>) -> Seq<char>
    decreases s.len(),
{
    if s.len() == 0 {
        Seq::empty()
    } else if s.len() == 1 {
        s[0]
    } else {
        lines_joined(s.drop_last()).push('\n') + s.last()
    }
}

fn join_lines(lines: &Vec<String>) -> (r: String)
    ensures
        r@ == lines_joined(strings(lines@)),
{
    let mut out: Vec<char> = Vec::new();
    let mut i: usize = 0;
    let ghost all = strings(lines@);
    while i < lines.len()
        invariant
            i <= lines@.len(),
            all == strings(lines@),
            out@ == lines_joined(all.take(i as int)),
        decreases lines@.len() - i,
    {
        if i > 0 {
            out.push('\n');
        }
        append_str(&mut out, lines[i].as_str());
        assert(all.take(i + 1).drop_last() =~= all.take(i as int));
        assert(all.take(i + 1).last() == lines@[i as int]@);
        assert(out@ =~= lines_joined(all.take(i + 1)));
        i += 1;
    }
    assert(all.take(i as int) =~= all);
    string_of(&out)
}

/// How a download ended.
#[derive(Clone, Debug, PartialEq, Eq)]
pub enum Ended {
    Cancelled,
    /// The file can be opened as it is.
    Ready(String),
    /// The file has to be converted to this one first.
    Convert { from: String, to: String },
    /// The downloader says why not.
    Failed(String),
    /// It stopped without a file and without a reason.
    Stopped,
}

/// `p` with its extension changed.
pub open spec fn with_extension(p: Seq<char>, ext: Seq<char>) -> Seq<char> {
    match path_stem(p) {
        Some(stem) => with_name(p, stem.push('.') + ext),
        None => p,
    }
}

fn wav_path(path: &str) -> (r: String)
    ensures
        r@ == with_extension(path@, "wav"@),
{
    match file_stem(path) {
        Some(stem) => {
            let mut name = chars_of(stem.as_str());
            name.push('.');
            append_str(&mut name, "wav");
            string_of(&with_file_name(&chars_of(path), &name))
        },
        None => path.to_owned(),
    }
}

/// A file was named, the downloader ended well, and the file is there.
pub open spec fn has_file(file: Option<String>, success: bool, is_file: bool) -> bool {
    file is Some && success && is_file
}

/// What to make of the end of the downloader: the file it named, whether it ended well, whether
/// the file is there, and its errors. MP3 is opened as it is, AAC is converted to WAV.
pub fn ended(cancelled: bool, file: Option<String>, success: bool, is_file: bool, errors: &Vec<String>) -> (r: Ended)
    ensures
        r is Cancelled <==> cancelled,
        !cancelled && has_file(file, success, is_file) ==> if ends_with(file->0@, "m4a"@) {
            r is Convert && r->from@ == file->0@ && r->to@ == with_extension(file->0@, "wav"@)
        } else {
            r is Ready && r->Ready_0@ == file->0@
        },
        !cancelled && !has_file(file, success, is_file) ==> if errors@.len() > 0 {
            let e = lines_joined(strings(errors@));
            r is Failed && r->Failed_0@ == "Download failed: "@ + e + hint(e)
        } else {
            r is Stopped
        },
{
    if cancelled {
        return Ended::Cancelled;
    }
    if success && is_file {
        if let Some(path) = file {
            let aac = match extension(path.as_str()) {
                Some(e) => same_chars(&ascii_lowered(&chars_of(e.as_str())), &chars_of("m4a")),
                None => false,
            };
            return if aac {
                let to = wav_path(path.as_str());
                Ended::Convert { from: path, to }
            } else {
                Ended::Ready(path)
            };
        }
    }
    if errors.len() > 0 {
        let all = join_lines(errors);
        Ended::Failed(explain(all.as_str()))
    } else {
        Ended::Stopped
    }
}

} // verus!
