//! What an export writes, and where.
use vstd::prelude::*;
use crate::edit::RecordingEdit;
use crate::exporting::{are_jobs, export_dir, file_extension, is_job, writes_track, ExportJob};
use crate::export::{is_planned, stems, ExportSettings, PlannedTrack};
use crate::recording::{last_part, last_range, path_stem, path_suffix, video_path};
use crate::text::{decimal, trimmed};

verus! {

/// File `j` of an export holds track `j` of those that are exported, without a change of its
/// level, and says so: its number and how many there are, its title or else its number, and the
/// name of the recording as the album. It stands in the folder, under the name that the plan gives
/// it and with the extension of its format.
pub proof fn law_files_say_what_they_hold(
    p: Seq<char>,
    edit: RecordingEdit,
    total: u64,
    settings: ExportSettings,
    dir: Seq<char>,
    list: Seq<ExportJob>,
    j: int,
)
    requires
        are_jobs(p, edit, total, settings, dir, list),
        0 <= j < list.len(),
    ensures
        ({
            let k = edit.kept_tracks(total, edit.track_count())[j];
            let title = edit.meta_at(k).title@;
            let job = list[j];
            &&& job.start == edit.audio_from(total, k)
            &&& job.end == edit.audio_to(total, k)
            &&& job.gain == 0
            &&& job.tags.track == j + 1
            &&& job.tags.total == list.len()
            &&& job.tags.album@ == path_stem(p)->0
            &&& trimmed(title).len() > 0 ==> job.tags.title@ == trimmed(title)
            &&& trimmed(title).len() == 0 ==> job.tags.title@ == "Track "@ + decimal((j + 1) as nat)
            &&& job.tags.replaygain is None
            &&& dir.len() > 0 && dir.last() != '/' ==> job.path@ == dir.push('/') + (stems(
                edit,
                total,
                path_stem(p)->0,
                settings.naming@,
                j + 1,
            )[j].push('.') + file_extension(p, settings))
        }),
{
    let stem = path_stem(p)->0;
    let ext = file_extension(p, settings);
    assert(writes_track(stem, ext, edit, total, settings.naming@, dir, j, list[j]));
    let t = choose|t: PlannedTrack| #[trigger]
        is_planned(edit, total, stem, settings.naming@, j, t) && is_job(t, dir, ext, stem, list[j]);
    assert(is_planned(edit, total, stem, settings.naming@, j, t));
}

/// The files end as their format asks: a video keeps its picture, and a copy the extension of
/// what it copies.
pub proof fn law_files_end_as_their_format_asks(p: Seq<char>, settings: ExportSettings)
    ensures
        video_path(p) ==> file_extension(p, settings) == "mp4"@,
        !video_path(p) && (settings.profile is Mp3Vbr || settings.profile is Mp3Cbr) ==> file_extension(p, settings) == "mp3"@,
        !video_path(p) && settings.profile is Flac ==> file_extension(p, settings) == "flac"@,
        !video_path(p) && settings.profile is Wav16 ==> file_extension(p, settings) == "wav"@,
        !video_path(p) && settings.profile is Original && path_suffix(p) is Some ==> file_extension(p, settings)
            == crate::recording::lowercase(path_suffix(p)->0),
{
}

/// The tracks go to a folder beside the recording that is named like it.
pub proof fn law_tracks_go_beside_the_recording(p: Seq<char>)
    requires
        last_part(p) is Some,
    ensures
        export_dir(p) is Some,
        ({
            let (from, _to) = last_range(p)->0;
            export_dir(p)->0 == p.take(from) + path_stem(p)->0
        }),
{
}

} // verus!
