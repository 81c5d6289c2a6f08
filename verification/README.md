# Splitter

Split long MP3, WAV and video recordings into tracks, from the keyboard. The library under `src/` is
verified with Verus: what it decides and what its files hold is stated in contracts and proved.

## Layout

- `src/edit.rs`, `history.rs`, `review.rs`: splits, tracks and silences of a recording, undo, and the
  review loop.
- `src/detect.rs`, `peaks.rs`, `loudness.rs`: silence detection, waveform peaks, gated loudness.
- `src/mp3index.rs`, `mp3cut.rs`, `readback.rs`, `wav.rs`, `mp4.rs`, `tags.rs`, `transcode.rs`: the file
  formats, cutting them without re-encoding, and what reading a cut gives back.
- `src/export.rs`, `exporting.rs`, `tracklist.rs`, `cutlist.rs`, `recording.rs`, `cleaning.rs`: naming,
  planning and queueing exports, pasted tracklists, the saved edits.
- `src/player.rs`, `ring.rs`, `source.rs`, `ab.rs`, `scan.rs`, `scanner.rs`, `video.rs`,
  `video_export.rs`: playback, seeking, the background work and the video timeline.
- `src/tools.rs`, `download.rs`, `media_server.rs`, `update_check.rs`: downloads and their checksums,
  the local media server, the release check.
- `src/state.rs`, `keys.rs`, `views.rs`, `time.rs`, `text.rs`, `bytes.rs`: view, keys, labels, and the
  ground they stand on.
- `src/laws.rs`: what holds of several functions together; laws on one module stand in that module.
- `app/`: the window, the audio device, files, network and processes, in ordinary Rust.
- `tests/`: the library on concrete values, with the real codecs.

Decibels, LUFS and seconds are whole numbers of millionths or nanoseconds in the library; samples and
logarithms, which are floating point, stay in `app/`.
