//! Recordings in the queue: which files they are, what they are called, and how far their
//! review has come. Paths are text with `/` between their parts.
use vstd::prelude::*;
use vstd::slice::slice_subrange;
use crate::export::{is_reserved, law_safe_names_are_safe, safe_name, sanitize_chars};
use crate::text::{
    append_chars, ascii_lowered, chars_of, copy_of, last_of, lemma_is_last_of, lemma_last_of, lowered, only, rfind_char,
    same_chars, string_of, strings,
};

verus! {

/// How far the review of a recording has come.
#[derive(Clone, Copy, Debug, PartialEq, Eq, Structural)]
pub enum Status {
    Todo,
    InProgress,
    Done,
    Flagged,
    Exported,
}

impl Default for Status {
    fn default() -> (r: Status)
        ensures
            r == Status::Todo,
    {
        Status::Todo
    }
}

/// A recording in the queue.
#[derive(Clone, Debug, PartialEq, Eq)]
pub struct Recording {
    pub path: String,
}

/// Where the last part of a path starts and ends, passing over a `/` or `.` at its end. None for
/// a path that ends in `..`, and for one without any parts.
pub open spec fn last_range(p: Seq<char>) -> Option<(int, int)>
    decreases p.len(),
{
    let i = last_of(p, only('/'));
    let part = p.skip(i + 1);
    if part.len() == 0 || part == seq!['.'] {
        if i < 0 || i >= p.len() {
            None
        } else {
            last_range(p.take(i))
        }
    } else if part == seq!['.', '.'] {
        None
    } else {
        Some((i + 1, p.len() as int))
    }
}

/// The last part of a path: its file name.
pub open spec fn last_part(p: Seq<char>) -> Option<Seq<char>> {
    match last_range(p) {
        Some((a, b)) => Some(p.subrange(a, b)),
        None => None,
    }
}

/// What comes after the last dot of a file name, unless that is its first character.
pub open spec fn suffix_of(name: Seq<char>) -> Option<Seq<char>> {
    let i = last_of(name, only('.'));
    if i <= 0 {
        None
    } else {
        Some(name.skip(i + 1))
    }
}

/// The extension of a path's file name.
pub open spec fn path_suffix(p: Seq<char>) -> Option<Seq<char>> {
    match last_part(p) {
        Some(name) => suffix_of(name),
        None => None,
    }
}

/// Where the last part of a path starts and ends.
fn last_part_range(p: &[char]) -> (r: Option<(usize, usize)>)
    ensures
        match r {
            Some((a, b)) => a <= b <= p@.len() && last_range(p@) == Some((a as int, b as int)),
            None => last_range(p@) is None,
        },
{
    let mut end: usize = p.len();
    assert(p@.take(end as int) =~= p@);
    loop
        invariant
            end <= p@.len(),
            last_range(p@) == last_range(p@.take(end as int)),
        decreases end,
    {
        let head = slice_subrange(p, 0, end);
        assert(head@ =~= p@.take(end as int));
        let slash = rfind_char(head, '/');
        let start: usize = match slash {
            Some(i) => i + 1,
            None => 0,
        };
        let part = slice_subrange(head, start, end);
        assert(part@ =~= head@.skip(start as int));
        assert(part@ =~= p@.subrange(start as int, end as int));
        let dot = part.len() == 1 && part[0] == '.';
        assert(dot == (part@ == seq!['.'])) by {
            if dot {
                assert(part@ =~= seq!['.']);
            }
        }
        if part.len() == 0 || dot {
            match slash {
                None => return None,
                Some(i) => {
                    assert(head@.take(i as int) =~= p@.take(i as int));
                    end = i;
                },
            }
        } else {
            let dots = part.len() == 2 && part[0] == '.' && part[1] == '.';
            assert(dots == (part@ == seq!['.', '.'])) by {
                if dots {
                    assert(part@ =~= seq!['.', '.']);
                }
            }
            if dots {
                return None;
            }
            return Some((start, end));
        }
    }
}

/// The file name of a path.
pub fn file_name(path: &str) -> (r: Option<String>)
    ensures
        match r {
            Some(n) => last_part(path@) == Some(n@),
            None => last_part(path@) is None,
        },
{
    let p = chars_of(path);
    match last_part_range(&p) {
        Some((a, b)) => Some(string_of(slice_subrange(&p, a, b))),
        None => None,
    }
}

fn suffix_chars(name: &[char]) -> (r: Option<&[char]>)
    ensures
        match r {
            Some(e) => suffix_of(name@) == Some(e@),
            None => suffix_of(name@) is None,
        },
{
    let n: usize = name.len();
    match rfind_char(name, '.') {
        None => None,
        Some(i) => {
            if i == 0 {
                None
            } else {
                let e = slice_subrange(name, i + 1, n);
                assert(e@ =~= name@.skip(i + 1));
                Some(e)
            }
        },
    }
}

/// The extension of a path's file name.
pub fn extension(path: &str) -> (r: Option<String>)
    ensures
        match r {
            Some(e) => path_suffix(path@) == Some(e@),
            None => path_suffix(path@) is None,
        },
{
    let p = chars_of(path);
    match last_part_range(&p) {
        Some((a, b)) => {
            let name = slice_subrange(&p, a, b);
            match suffix_chars(name) {
                Some(e) => Some(string_of(e)),
                None => None,
            }
        },
        None => None,
    }
}

impl Recording {
    pub fn new(path: String) -> (r: Recording)
        ensures
            r.path == path,
    {
        Recording { path }
    }

    /// The file name, or nothing.
    pub fn name(&self) -> (r: String)
        ensures
            r@ == match last_part(self.path@) {
                Some(n) => n,
                None => Seq::empty(),
            },
    {
        match file_name(self.path.as_str()) {
            Some(n) => n,
            None => {
                let s = String::new();
                assert(s@ =~= Seq::<char>::empty());
                s
            },
        }
    }
}

/// The extension of the path is the given one, but for the case of its letters.
pub open spec fn ends_with(p: Seq<char>, ext: Seq<char>) -> bool {
    path_suffix(p) is Some && lowered(path_suffix(p)->0) == ext
}

fn has_extension(path: &str, ext: &str) -> (r: bool)
    ensures
        r == ends_with(path@, ext@),
{
    match extension(path) {
        Some(e) => {
            let low = ascii_lowered(&chars_of(e.as_str()));
            same_chars(&low, &chars_of(ext))
        },
        None => false,
    }
}

/// Sound files: MP3 and WAV.
pub open spec fn audio_path(p: Seq<char>) -> bool {
    ends_with(p, "mp3"@) || ends_with(p, "wav"@)
}

/// Video files whose audio is split (AAC in MP4/QuickTime); tracks are exported as audio.
pub open spec fn video_path(p: Seq<char>) -> bool {
    ends_with(p, "mp4"@) || ends_with(p, "m4v"@) || ends_with(p, "mov"@)
}

pub fn is_audio(path: &str) -> (r: bool)
    ensures
        r == audio_path(path@),
{
    has_extension(path, "mp3") || has_extension(path, "wav")
}

pub fn is_video(path: &str) -> (r: bool)
    ensures
        r == video_path(path@),
{
    has_extension(path, "mp4") || has_extension(path, "m4v") || has_extension(path, "mov")
}

/// A file the app can open: audio, or a video whose audio it splits.
pub fn is_recording(path: &str) -> (r: bool)
    ensures
        r == (audio_path(path@) || video_path(path@)),
{
    is_audio(path) || is_video(path)
}

/// `p` and `name` as one path.
pub open spec fn joined(p: Seq<char>, name: Seq<char>) -> Seq<char> {
    if p.len() == 0 || p.last() == '/' {
        p + name
    } else {
        p.push('/') + name
    }
}

/// The new file name: `stem` made safe, with the extension of the old one.
pub open spec fn new_name(p: Seq<char>, stem: Seq<char>) -> Seq<char> {
    match path_suffix(p) {
        Some(e) => safe_name(stem).push('.') + e,
        None => safe_name(stem),
    }
}

/// `p` with its last part replaced by `name`; where it has none, with `name` added.
pub open spec fn with_name(p: Seq<char>, name: Seq<char>) -> Seq<char> {
    match last_range(p) {
        Some((a, b)) => p.take(a) + name,
        None => joined(p, name),
    }
}

/// The file is called that already.
pub open spec fn is_named(p: Seq<char>, name: Seq<char>) -> bool {
    last_part(p) == Some(name)
}

/// `path` with its file name changed to `stem` (made safe for a file name), keeping the
/// extension. `None` if nothing would change.
pub fn renamed(path: &str, stem: &str) -> (r: Option<String>)
    ensures
        r is None <==> is_named(path@, new_name(path@, stem@)),
        r matches Some(to) ==> to@ == with_name(path@, new_name(path@, stem@)),
{
    let p = chars_of(path);
    let mut name = sanitize_chars(&chars_of(stem));
    if let Some((a, b)) = last_part_range(&p) {
        let old_name = slice_subrange(&p, a, b);
        if let Some(e) = suffix_chars(old_name) {
            name.push('.');
            append_chars(&mut name, e);
        }
        if same_chars(&name, old_name) {
            return None;
        }
    }
    Some(string_of(&with_file_name(&p, &name)))
}

/// Renaming a file moves it nowhere: the new path has the same folder and the same extension,
/// and the stem asked for, made safe. It is another path unless the file is called that already,
/// and renaming it once more to the same changes nothing.
pub proof fn law_renaming_changes_the_stem_alone(p: Seq<char>, stem: Seq<char>)
    requires
        path_suffix(p) is Some,
    ensures
        ({
            let name = new_name(p, stem);
            let to = with_name(p, name);
            let (start, _end) = last_range(p)->0;
            &&& last_range(to) == Some((start, to.len() as int))
            &&& to.take(start) == p.take(start)
            &&& last_part(to) == Some(name)
            &&& path_suffix(to) == path_suffix(p)
            &&& path_stem(to) == Some(safe_name(stem))
            &&& !is_named(p, name) ==> to != p
            &&& new_name(to, stem) == name
            &&& is_named(to, new_name(to, stem))
        }),
{
    let (a, b) = last_range(p)->0;
    let old_name = last_part(p)->0;
    let e = path_suffix(p)->0;
    let dot = last_of(old_name, only('.'));
    lemma_last_range(p);
    lemma_last_of(old_name, only('.'));
    law_safe_names_are_safe(stem);
    let safe = safe_name(stem);
    let name = new_name(p, stem);
    assert(name == safe.push('.') + e);
    let to = with_name(p, name);
    assert forall|k: int| 0 <= k < e.len() implies #[trigger] e[k] != '/' && e[k] != '.' by {
        assert(e[k] == old_name[dot + 1 + k]);
        assert(!only('.')(old_name[dot + 1 + k]));
        assert(old_name[dot + 1 + k] == p[a + dot + 1 + k]);
    }
    assert forall|k: int| 0 <= k < name.len() implies #[trigger] name[k] != '/' by {
        if k < safe.len() {
            assert(name[k] == safe[k]);
            assert(!is_reserved(safe[k]));
        } else if k > safe.len() {
            assert(name[k] == e[k - safe.len() - 1]);
        }
    }
    assert(name[0] == safe[0]);
    // The last part of the new path.
    assert forall|k: int| a - 1 < k < to.len() implies !only('/')(#[trigger] to[k]) by {
        assert(to[k] == name[k - a]);
    }
    lemma_is_last_of(to, only('/'), a - 1);
    assert(to.skip(a) =~= name);
    assert(name != seq!['.'] && name != seq!['.', '.']) by {
        assert(seq!['.'][0] == '.' && seq!['.', '.'][0] == '.');
    }
    assert(last_range(to) == Some((a, to.len() as int)));
    assert(to.subrange(a, to.len() as int) =~= name);
    assert(to.take(a) =~= p.take(a));
    // Its extension and stem.
    let at = safe.len() as int;
    assert(name[at] == '.');
    assert forall|k: int| at < k < name.len() implies !only('.')(#[trigger] name[k]) by {
        assert(name[k] == e[k - at - 1]);
    }
    lemma_is_last_of(name, only('.'), at);
    assert(name.skip(at + 1) =~= e);
    assert(name.take(at) =~= safe);
}

/// An extension holds no `/`.
pub proof fn lemma_suffix_in_last_part(p: Seq<char>)
    ensures
        path_suffix(p) matches Some(e) ==> !e.contains('/'),
{
    if let Some(e) = path_suffix(p) {
        let (a, b) = last_range(p)->0;
        let name = last_part(p)->0;
        lemma_last_range(p);
        lemma_last_of(name, only('.'));
        assert forall|k: int| 0 <= k < e.len() implies #[trigger] e[k] != '/' by {
            let at = last_of(name, only('.')) + 1 + k;
            assert(e[k] == name[at]);
            assert(name[at] == p[a + at]);
        }
    }
}

/// The last part of a path stands behind a `/` or at its start, and holds none.
proof fn lemma_last_range(p: Seq<char>)
    ensures
        last_range(p) matches Some((a, b)) ==> {
            &&& 0 <= a < b <= p.len()
            &&& a > 0 ==> p[a - 1] == '/'
            &&& forall|k: int| a <= k < b ==> #[trigger] p[k] != '/'
        },
    decreases p.len(),
{
    let i = last_of(p, only('/'));
    lemma_last_of(p, only('/'));
    let part = p.skip(i + 1);
    if part.len() == 0 || part == seq!['.'] {
        if 0 <= i {
            let t = p.take(i);
            lemma_last_range(t);
            if let Some((a, b)) = last_range(t) {
                assert forall|k: int| a <= k < b implies #[trigger] p[k] != '/' by {
                    assert(t[k] == p[k]);
                }
                if a > 0 {
                    assert(t[a - 1] == p[a - 1]);
                }
            }
        }
    } else if part != seq!['.', '.'] {
        assert forall|k: int| i < k < p.len() implies #[trigger] p[k] != '/' by {
            assert(!only('/')(p[k]));
        }
    }
}

/// `path` with another file name.
pub fn with_file_name(path: &[char], name: &[char]) -> (r: Vec<char>)
    ensures
        r@ == with_name(path@, name@),
{
    let n: usize = path.len();
    match last_part_range(path) {
        Some((a, _b)) => {
            let mut to = copy_of(slice_subrange(path, 0, a));
            assert(to@ =~= path@.take(a as int));
            append_chars(&mut to, name);
            to
        },
        None => {
            let mut to = copy_of(path);
            if n > 0 && path[n - 1] != '/' {
                to.push('/');
            }
            append_chars(&mut to, name);
            to
        },
    }
}

/// A file name without its extension.
pub open spec fn stem_of(name: Seq<char>) -> Seq<char> {
    let i = last_of(name, only('.'));
    if i <= 0 {
        name
    } else {
        name.take(i)
    }
}

/// The file name of a path without its extension.
pub open spec fn path_stem(p: Seq<char>) -> Option<Seq<char>> {
    match last_part(p) {
        Some(name) => Some(stem_of(name)),
        None => None,
    }
}

/// The file name of a path without its extension.
pub fn file_stem(path: &str) -> (r: Option<String>)
    ensures
        match r {
            Some(n) => path_stem(path@) == Some(n@),
            None => path_stem(path@) is None,
        },
{
    let p = chars_of(path);
    match last_part_range(&p) {
        Some((a, b)) => {
            let name = slice_subrange(&p, a, b);
            match rfind_char(name, '.') {
                Some(i) => {
                    if i == 0 {
                        Some(string_of(name))
                    } else {
                        let stem = slice_subrange(name, 0, i);
                        assert(stem@ =~= name@.take(i as int));
                        Some(string_of(stem))
                    }
                },
                None => Some(string_of(name)),
            }
        },
        None => None,
    }
}

// ---- The recordings of a folder, in order ----

/// `str::to_lowercase`: the text with every letter made small, by the Unicode rules.
pub uninterp spec fn lowercase(s: Seq<char>) -> Seq<char>;

/// Calls `str::to_lowercase`, whose result depends on the text alone.
#[verifier::external_body]
pub(crate) fn to_lowercase(s: &str) -> (r: String)
    ensures
        r@ == lowercase(s@),
{
    s.to_lowercase()
}

/// `a` comes before `b` or is the same, by the numbers of their characters.
pub open spec fn text_le(a: Seq<char>, b: Seq<char>) -> bool
    decreases a.len(),
{
    if a.len() == 0 {
        true
    } else if b.len() == 0 {
        false
    } else if a[0] == b[0] {
        text_le(a.skip(1), b.skip(1))
    } else {
        a[0] < b[0]
    }
}

fn text_not_after(a: &[char], b: &[char]) -> (r: bool)
    ensures
        r == text_le(a@, b@),
{
    let mut i: usize = 0;
    assert(a@.skip(0) =~= a@);
    assert(b@.skip(0) =~= b@);
    loop
        invariant
            i <= a@.len(),
            i <= b@.len(),
            text_le(a@, b@) == text_le(a@.skip(i as int), b@.skip(i as int)),
        decreases a@.len() - i,
    {
        if i >= a.len() {
            return true;
        }
        if i >= b.len() {
            return false;
        }
        if a[i] != b[i] {
            return a[i] < b[i];
        }
        assert(a@.skip(i as int).skip(1) =~= a@.skip(i + 1));
        assert(b@.skip(i as int).skip(1) =~= b@.skip(i + 1));
        i += 1;
    }
}

/// What a recording is sorted by: its file name in small letters.
pub open spec fn sort_key(p: Seq<char>) -> Seq<char> {
    match last_part(p) {
        Some(n) => lowercase(n),
        None => Seq::empty(),
    }
}

/// A file to list: a recording, and not a resource fork left by another system.
pub open spec fn is_listed(p: Seq<char>) -> bool {
    (audio_path(p) || video_path(p)) && !(last_part(p) matches Some(n) && "._"@.is_prefix_of(n))
}

/// `p` put behind all that it does not come before.
pub open spec fn placed(list: Seq<Seq<char>>, p: Seq<char>) -> Seq<Seq<char>>
    decreases list.len(),
{
    if list.len() > 0 && !text_le(sort_key(list.last()), sort_key(p)) {
        placed(list.drop_last(), p).push(list.last())
    } else {
        list.push(p)
    }
}

/// The listed ones among `paths`, sorted by file name; equal names keep their order.
pub open spec fn listed(paths: Seq<Seq<char>>) -> Seq<Seq<char>>
    decreases paths.len(),
{
    if paths.len() == 0 {
        Seq::empty()
    } else if is_listed(paths.last()) {
        placed(listed(paths.drop_last()), paths.last())
    } else {
        listed(paths.drop_last())
    }
}

/// The paths of a list of recordings.
pub open spec fn paths_of(list: Seq<Recording>) -> Seq<Seq<char>> {
    list.map_values(|r: Recording| r.path@)
}

fn key_of(path: &str) -> (r: Vec<char>)
    ensures
        r@ == sort_key(path@),
{
    match file_name(path) {
        Some(n) => chars_of(to_lowercase(n.as_str()).as_str()),
        None => Vec::new(),
    }
}

fn should_list(path: &str) -> (r: bool)
    ensures
        r == is_listed(path@),
{
    if !is_recording(path) {
        return false;
    }
    match file_name(path) {
        Some(n) => {
            let n = chars_of(n.as_str());
            proof {
                reveal_strlit("._");
            }
            let fork = n.len() >= 2 && n[0] == '.' && n[1] == '_';
            assert(fork == "._"@.is_prefix_of(n@)) by {
                if "._"@.is_prefix_of(n@) {
                    assert(n@[0] == "._"@[0] && n@[1] == "._"@[1]);
                }
            }
            !fork
        },
        None => true,
    }
}

/// All supported audio and video files among the given ones, sorted by file name.
pub fn list_recordings(paths: Vec<String>) -> (r: Vec<Recording>)
    ensures
        paths_of(r@) == listed(strings(paths@)),
{
    let mut out: Vec<Recording> = Vec::new();
    let mut i: usize = 0;
    assert(paths_of(out@) =~= listed(strings(paths@).take(0)));
    while i < paths.len()
        invariant
            i <= paths@.len(),
            paths_of(out@) == listed(strings(paths@).take(i as int)),
        decreases paths@.len() - i,
    {
        let ghost before = strings(paths@).take(i as int);
        assert(strings(paths@).take(i + 1).drop_last() =~= before);
        assert(strings(paths@).take(i + 1).last() == paths@[i as int]@);
        if should_list(paths[i].as_str()) {
            place(&mut out, paths[i].clone());
        }
        i += 1;
    }
    assert(strings(paths@).take(i as int) =~= strings(paths@));
    out
}

fn place(out: &mut Vec<Recording>, path: String)
    ensures
        paths_of(final(out)@) == placed(paths_of(old(out)@), path@),
{
    let key = key_of(path.as_str());
    let ghost all = paths_of(out@);
    let mut k: usize = out.len();
    assert(all.take(k as int) =~= all);
    assert(all.skip(k as int) =~= Seq::<Seq<char>>::empty());
    assert(placed(all, path@) + Seq::<Seq<char>>::empty() =~= placed(all, path@));
    while k > 0 && !text_not_after(&key_of(out[k - 1].path.as_str()), &key)
        invariant
            k <= out@.len(),
            all == paths_of(out@),
            key@ == sort_key(path@),
            placed(all, path@) == placed(all.take(k as int), path@) + all.skip(k as int),
        decreases k,
    {
        let ghost head = all.take(k as int);
        assert(head.drop_last() =~= all.take(k - 1));
        assert(head.last() == all[k - 1]);
        assert(placed(all.take(k - 1), path@).push(all[k - 1]) + all.skip(k as int) =~= placed(all.take(k - 1), path@)
            + all.skip(k - 1));
        k -= 1;
    }
    assert(k > 0 ==> all.take(k as int).last() == all[k - 1]);
    out.insert(k, Recording { path });
    assert(paths_of(out@) =~= all.take(k as int).push(path@) + all.skip(k as int));
}

} // verus!
