//! The export queue: recordings are exported one after another, with progress per file and a
//! cancel that stops after the current track.
use vstd::prelude::*;
use crate::edit::RecordingEdit;
use crate::export::{
    is_planned, law_stems_are_distinct, lemma_stem_of_all, plan, ExportSettings, Normalize, PlannedTrack, Profile,
    SourceFacts,
};
use crate::recording::{
    extension, file_stem, is_video, joined, lowercase, path_stem, path_suffix, paths_of, to_lowercase, video_path,
    with_file_name, with_name, Recording, Status,
};
use crate::scan::{Bitrate, SourceInfo};
use crate::tags::Tags;
use crate::text::{append_str, chars_of, lowered, string_of, strings};

verus! {

/// Where one recording stands in the export queue.
#[derive(Clone, Debug, PartialEq, Eq)]
pub enum ExportStatus {
    Queued,
    /// Measuring loudness before a normalized export.
    Measuring,
    Running { done: usize, total: usize },
    Finished { dir: String, count: usize },
    Failed(String),
    Cancelled,
}

impl ExportStatus {
    /// Waiting, or being worked on.
    pub open spec fn active(&self) -> bool {
        self is Queued || self is Measuring || self is Running
    }

    pub fn is_active(&self) -> (r: bool)
        ensures
            r == self.active(),
    {
        matches!(self, ExportStatus::Queued | ExportStatus::Measuring | ExportStatus::Running { .. })
    }

    /// Everything that is not over yet is cancelled.
    pub fn cancel(&mut self)
        ensures
            *final(self) == if old(self).active() {
                ExportStatus::Cancelled
            } else {
                *old(self)
            },
    {
        if self.is_active() {
            *self = ExportStatus::Cancelled;
        }
    }

    /// Whether the worker's report replaces what is known: once cancelled, its late progress is
    /// ignored.
    pub fn accepts(known: Option<&ExportStatus>, report: &ExportStatus) -> (r: bool)
        ensures
            r == !(known is Some && *known->0 == ExportStatus::Cancelled && report.active()),
    {
        let cancelled = match known {
            Some(ExportStatus::Cancelled) => true,
            _ => false,
        };
        !(cancelled && report.is_active())
    }
}

/// The status of a recording after the worker's report: a finished export is remembered.
pub fn reported(status: Status, report: &ExportStatus) -> (r: Status)
    ensures
        r == if report is Finished {
            Status::Exported
        } else {
            status
        },
{
    match report {
        ExportStatus::Finished { .. } => Status::Exported,
        _ => status,
    }
}

/// What the worker does when it takes a recording from the queue.
#[derive(Clone, Copy, Debug, PartialEq, Eq, Structural)]
pub enum Begin {
    Cancelled,
    /// Measure the loudness first.
    Measure,
    Write,
}

/// Normalizing needs loudness; otherwise it only adds ReplayGain tags when already known.
pub fn begin(cancelled: bool, has_loudness: bool, profile: Profile, normalize: Normalize) -> (r: Begin)
    ensures
        r == if cancelled {
            Begin::Cancelled
        } else if !has_loudness && profile != Profile::Original && normalize != Normalize::Off {
            Begin::Measure
        } else {
            Begin::Write
        },
{
    if cancelled {
        Begin::Cancelled
    } else if !has_loudness && profile != Profile::Original && normalize != Normalize::Off {
        Begin::Measure
    } else {
        Begin::Write
    }
}

/// What the worker reports with `done` of `total` tracks written. It goes on with the next track
/// only while the report is `Running`.
pub fn progress(done: usize, total: usize, cancelled: bool, dir: &str) -> (r: ExportStatus)
    ensures
        done >= total ==> r is Finished && r->dir@ == dir@ && r->count == total,
        done < total && cancelled ==> r is Cancelled,
        done < total && !cancelled ==> r == (ExportStatus::Running { done, total }),
{
    if done >= total {
        ExportStatus::Finished { dir: dir.to_owned(), count: total }
    } else if cancelled {
        ExportStatus::Cancelled
    } else {
        ExportStatus::Running { done, total }
    }
}

/// The folder of a recording's tracks.
pub open spec fn export_dir(p: Seq<char>) -> Option<Seq<char>> {
    match path_stem(p) {
        Some(stem) => Some(with_name(p, stem)),
        None => None,
    }
}

/// Where a recording's tracks go: a folder named after it, next to it.
pub fn export_dir_of(path: &str) -> (r: Option<String>)
    ensures
        match r {
            Some(d) => export_dir(path@) == Some(d@),
            None => export_dir(path@) is None,
        },
{
    match file_stem(path) {
        Some(stem) => Some(string_of(&with_file_name(&chars_of(path), &chars_of(stem.as_str())))),
        None => None,
    }
}

/// One track to write: `[start, end)` of the recording to `path`.
#[derive(Clone, Debug)]
pub struct ExportJob {
    pub start: u64,
    pub end: u64,
    pub path: String,
    /// Level change in millionths of a decibel, applied only when re-encoding.
    pub gain: i64,
    pub tags: Tags,
}

/// The extension of the exported files, for the extension of the recording.
pub open spec fn export_extension(profile: Profile, suffix: Option<Seq<char>>) -> Seq<char> {
    match profile {
        Profile::Original => match suffix {
            Some(e) => lowercase(e),
            None => "mp3"@,
        },
        Profile::Mp3Vbr { .. } => "mp3"@,
        Profile::Mp3Cbr { .. } => "mp3"@,
        Profile::Flac => "flac"@,
        Profile::Wav16 => "wav"@,
    }
}

/// `job` writes the planned track `t` of the album `album` into `dir`.
pub open spec fn is_job(t: PlannedTrack, dir: Seq<char>, ext: Seq<char>, album: Seq<char>, job: ExportJob) -> bool {
    &&& job.start == t.start
    &&& job.end == t.end
    &&& job.path@ == joined(dir, t.stem@.push('.') + ext)
    &&& job.gain == 0
    &&& job.tags.title@ == t.title@
    &&& job.tags.album@ == album
    &&& job.tags.track == t.number
    &&& job.tags.total == t.total
    &&& job.tags.replaygain is None
}

/// The jobs for planned tracks.
pub fn jobs(planned: &Vec<PlannedTrack>, dir: &str, ext: &str, album: &str) -> (r: Vec<ExportJob>)
    ensures
        r@.len() == planned@.len(),
        forall|i: int| 0 <= i < r@.len() ==> is_job(planned@[i], dir@, ext@, album@, #[trigger] r@[i]),
{
    let mut out: Vec<ExportJob> = Vec::new();
    let mut i: usize = 0;
    while i < planned.len()
        invariant
            i <= planned@.len(),
            out@.len() == i,
            forall|j: int| 0 <= j < i ==> is_job(planned@[j], dir@, ext@, album@, #[trigger] out@[j]),
        decreases planned@.len() - i,
    {
        let t = &planned[i];
        let mut path = chars_of(dir);
        let n: usize = path.len();
        if n > 0 && path[n - 1] != '/' {
            path.push('/');
        }
        append_str(&mut path, t.stem.as_str());
        path.push('.');
        append_str(&mut path, ext);
        assert(path@ =~= joined(dir@, t.stem@.push('.') + ext@));
        let job = ExportJob {
            start: t.start,
            end: t.end,
            path: string_of(&path),
            gain: 0,
            tags: Tags {
                title: t.title.as_str().to_owned(),
                album: album.to_owned(),
                track: t.number,
                total: t.total,
                replaygain: None,
            },
        };
        assert(is_job(planned@[i as int], dir@, ext@, album@, job));
        out.push(job);
        i += 1;
    }
    out
}

/// What queueing a recording comes to.
#[derive(Clone, Debug)]
pub enum Enqueue {
    /// It is in the queue already.
    Active,
    /// It is still being analysed, or has no folder of its own.
    NotYet,
    /// Every track is left out.
    NothingKept,
    /// Write these jobs into `dir`.
    Queue { dir: String, jobs: Vec<ExportJob> },
}

/// The extension of the files written for the recording at `p`: a video's tracks are clips in
/// the video format, whatever the format for audio.
pub open spec fn file_extension(p: Seq<char>, settings: ExportSettings) -> Seq<char> {
    if video_path(p) {
        "mp4"@
    } else {
        export_extension(settings.profile, path_suffix(p))
    }
}

/// `job` writes exported track `j` of the recording with the given stem.
pub open spec fn writes_track(
    stem: Seq<char>,
    ext: Seq<char>,
    edit: RecordingEdit,
    total: u64,
    naming: Seq<char>,
    dir: Seq<char>,
    j: int,
    job: ExportJob,
) -> bool {
    exists|t: PlannedTrack| #[trigger]
        is_planned(edit, total, stem, naming, j, t) && is_job(t, dir, ext, stem, job)
}

/// `list` writes the exported tracks of the recording at `p`.
pub open spec fn are_jobs(
    p: Seq<char>,
    edit: RecordingEdit,
    total: u64,
    settings: ExportSettings,
    dir: Seq<char>,
    list: Seq<ExportJob>,
) -> bool {
    &&& list.len() == edit.kept_tracks(total, edit.track_count()).len()
    &&& forall|j: int|
        0 <= j < list.len() ==> writes_track(
            path_stem(p)->0,
            file_extension(p, settings),
            edit,
            total,
            settings.naming@,
            dir,
            j,
            #[trigger] list[j],
        )
}

/// No two tracks of an export are written to the same file, even where case does not count.
pub proof fn law_tracks_do_not_overwrite_each_other(
    p: Seq<char>,
    edit: RecordingEdit,
    total: u64,
    settings: ExportSettings,
    dir: Seq<char>,
    list: Seq<ExportJob>,
    i: int,
    j: int,
)
    requires
        are_jobs(p, edit, total, settings, dir, list),
        0 <= i < j < list.len(),
    ensures
        lowered(list[i].path@) != lowered(list[j].path@),
{
    let stem = path_stem(p)->0;
    let ext = file_extension(p, settings);
    let naming = settings.naming@;
    assert(writes_track(stem, ext, edit, total, naming, dir, i, list[i]));
    assert(writes_track(stem, ext, edit, total, naming, dir, j, list[j]));
    let x = choose|t: PlannedTrack| #[trigger]
        is_planned(edit, total, stem, naming, i, t) && is_job(t, dir, ext, stem, list[i]);
    let y = choose|t: PlannedTrack| #[trigger]
        is_planned(edit, total, stem, naming, j, t) && is_job(t, dir, ext, stem, list[j]);
    let n = list.len() as int;
    lemma_stem_of_all(edit, total, stem, naming, i, n);
    lemma_stem_of_all(edit, total, stem, naming, j, n);
    law_stems_are_distinct(edit, total, stem, naming, n, i, j);
    let (a, b) = (x.stem@, y.stem@);
    let (u, v) = (list[i].path@, list[j].path@);
    if lowered(u) == lowered(v) {
        let front = joined(dir, Seq::empty());
        assert(u =~= front + a.push('.') + ext);
        assert(v =~= front + b.push('.') + ext);
        assert(lowered(u).len() == u.len() && lowered(v).len() == v.len());
        assert(a.len() == b.len());
        assert(lowered(a) =~= lowered(b)) by {
            assert forall|k: int| 0 <= k < a.len() implies lowered(a)[k] == lowered(b)[k] by {
                assert(lowered(u)[front.len() + k] == lowered(v)[front.len() + k]);
                assert(u[front.len() + k] == a[k] && v[front.len() + k] == b[k]);
            }
        }
    }
}

/// Queue a recording for export. `total` is its length once it has been analysed.
pub fn enqueue(
    path: &str,
    active: bool,
    total: Option<u64>,
    edit: &RecordingEdit,
    settings: &ExportSettings,
) -> (r: Enqueue)
    requires
        edit.splits@.len() < usize::MAX,
    ensures
        r is Active <==> active,
        r is NotYet <==> !active && (total is None || export_dir(path@) is None),
        r is NothingKept <==> !active && total is Some && export_dir(path@) is Some && edit.kept_tracks(
            total->0,
            edit.track_count(),
        ).len() == 0,
        r matches Enqueue::Queue { dir, jobs } ==> export_dir(path@) == Some(dir@) && are_jobs(
            path@,
            *edit,
            total->0,
            *settings,
            dir@,
            jobs@,
        ),
{
    if active {
        return Enqueue::Active;
    }
    let total = match total {
        Some(t) => t,
        None => return Enqueue::NotYet,
    };
    let dir = match export_dir_of(path) {
        Some(d) => d,
        None => return Enqueue::NotYet,
    };
    let stem: String = match file_stem(path) {
        Some(s) => s,
        None => "".to_owned(),
    };
    let src_ext: String = match extension(path) {
        Some(e) => to_lowercase(e.as_str()),
        None => "mp3".to_owned(),
    };
    let ext = if is_video(path) {
        settings.video.extension()
    } else {
        settings.profile.extension(src_ext.as_str())
    };
    assert(ext@ == file_extension(path@, *settings));
    let planned = plan(edit, total, stem.as_str(), settings);
    if planned.len() == 0 {
        return Enqueue::NothingKept;
    }
    let list = jobs(&planned, dir.as_str(), ext, stem.as_str());
    proof {
        assert forall|j: int| 0 <= j < list@.len() implies writes_track(
            stem@,
            ext@,
            *edit,
            total,
            settings.naming@,
            dir@,
            j,
            #[trigger] list@[j],
        ) by {
            assert(is_planned(*edit, total, stem@, settings.naming@, j, planned@[j]));
            assert(is_job(planned@[j], dir@, ext@, stem@, list@[j]));
        }
    }
    Enqueue::Queue { dir, jobs: list }
}

/// The paths of the first `n` recordings that are marked done.
pub open spec fn done_paths(paths: Seq<Seq<char>>, statuses: Seq<Option<Status>>, n: int) -> Seq<Seq<char>>
    decreases n,
{
    if n <= 0 {
        Seq::empty()
    } else {
        let before = done_paths(paths, statuses, n - 1);
        if statuses[n - 1] == Some(Status::Done) {
            before.push(paths[n - 1])
        } else {
            before
        }
    }
}

/// Recordings marked done (and not exported since). A recording without an edit has no status.
pub fn done_recordings(recordings: &Vec<Recording>, statuses: &Vec<Option<Status>>) -> (r: Vec<String>)
    requires
        recordings@.len() == statuses@.len(),
    ensures
        strings(r@) == done_paths(paths_of(recordings@), statuses@, recordings@.len() as int),
{
    let mut out: Vec<String> = Vec::new();
    let mut i: usize = 0;
    assert(strings(out@) =~= Seq::<Seq<char>>::empty());
    while i < recordings.len()
        invariant
            i <= recordings@.len(),
            recordings@.len() == statuses@.len(),
            strings(out@) == done_paths(paths_of(recordings@), statuses@, i as int),
        decreases recordings@.len() - i,
    {
        let done = match statuses[i] {
            Some(s) => s == Status::Done,
            None => false,
        };
        if done {
            let ghost before = out@;
            let p: String = recordings[i].path.as_str().to_owned();
            out.push(p);
            assert(strings(out@) =~= strings(before).push(p@));
            assert(p@ == paths_of(recordings@)[i as int]);
        }
        i += 1;
    }
    out
}

/// The average bitrate of a file whose bitrate is not known: its size over its length, which
/// counts as a second at least.
pub open spec fn guessed_kbps(size: int, total: int, rate: int) -> int {
    let kbps = if total <= rate {
        size * 8 / 1000
    } else {
        size * 8 * rate / (1000 * total)
    };
    if kbps > u32::MAX {
        u32::MAX as int
    } else {
        kbps
    }
}

fn guess_kbps(size: u64, total: u64, rate: u32) -> (r: u32)
    ensures
        r == guessed_kbps(size as int, total as int, rate as int),
{
    let bits: u128 = size as u128 * 8;
    let kbps: u128 = if total <= rate as u64 {
        bits / 1000
    } else {
        let f: u128 = rate as u128;
        assert(0 <= bits * f <= 8 * u64::MAX * u32::MAX) by (nonlinear_arith)
            requires
                0 <= bits <= 8 * u64::MAX,
                0 <= f <= u32::MAX,
        ;
        bits * f / (1000 * total as u128)
    };
    if kbps > u32::MAX as u128 {
        u32::MAX
    } else {
        kbps as u32
    }
}

/// What the size estimate and warnings need from an analysed recording.
pub fn source_facts(info: &SourceInfo, lossy: bool, copyable: bool) -> (r: SourceFacts)
    ensures
        r.lossy == lossy,
        r.copyable == copyable,
        r.sample_rate == info.sample_rate,
        r.channels == info.channels,
        (r.kbps as int, r.bits) == match info.bitrate {
            Bitrate::Cbr(k) => (k as int, None),
            Bitrate::Vbr { avg, .. } => (avg as int, None),
            Bitrate::Pcm { bits, kbps } => (kbps as int, Some(bits)),
            Bitrate::Unknown => (
                guessed_kbps(info.file_size as int, info.total_samples as int, info.sample_rate as int),
                None,
            ),
        },
{
    let (kbps, bits): (u32, Option<u32>) = match info.bitrate {
        Bitrate::Cbr(k) => (k, None),
        Bitrate::Vbr { avg, .. } => (avg, None),
        Bitrate::Pcm { bits, kbps } => (kbps, Some(bits)),
        Bitrate::Unknown => (guess_kbps(info.file_size, info.total_samples, info.sample_rate), None),
    };
    SourceFacts { lossy, copyable, kbps, sample_rate: info.sample_rate, channels: info.channels, bits }
}

} // verus!
