use splitter::export::sanitize;
use splitter::recording::{is_audio, is_recording, is_video, renamed};
use splitter::tracklist::parse;
use splitter::update_check::is_newer;

#[test]
fn sanitize_never_returns_empty() {
    assert_eq!(sanitize(" ... "), "untitled");
    assert_eq!(sanitize("a\u{7}b"), "a_b");
}

#[test]
fn renaming_keeps_the_extension_and_folder() {
    let p = "/music/Live at the Roxy (Official Video).mp3";
    assert_eq!(renamed(p, "Roxy 1976"), Some("/music/Roxy 1976.mp3".to_string()));
    assert_eq!(renamed(p, " AC/DC: live "), Some("/music/AC_DC_ live.mp3".to_string()));
    assert_eq!(renamed(p, "Live at the Roxy (Official Video)"), None);
}

#[test]
fn audio_extensions_are_case_insensitive() {
    assert!(is_audio("a/Live.MP3"));
    assert!(is_audio("b.wav"));
    assert!(!is_audio("c.flac"));
    assert!(!is_audio("noext"));
}

#[test]
fn videos_are_recordings() {
    assert!(is_recording("Concert.MP4"));
    assert!(is_recording("clip.mov"));
    assert!(is_video("clip.m4v"));
    assert!(!is_audio("clip.mp4"));
    assert!(!is_recording("clip.mkv"));
}

#[test]
fn cleans_common_formats() {
    let text = "1. Intro\n02 - Blue Train\n03:12 Moment's Notice\n[01:02:03] Locomotion (7:14)\n\
                #5) I'm Old Fashioned [7:58]\n  \n1984 Song\nLazy Bird 7:00\n7) Artist - Title\n";
    assert_eq!(
        parse(text),
        [
            "Intro",
            "Blue Train",
            "Moment's Notice",
            "Locomotion",
            "I'm Old Fashioned",
            "1984 Song",
            "Lazy Bird",
            "Artist - Title",
        ]
    );
}

#[test]
fn compares_versions_numerically() {
    assert!(is_newer("0.1.10", "0.1.9"));
    assert!(is_newer("v0.2.0", "0.1.2"));
    assert!(!is_newer("0.1.2", "0.1.2"));
    assert!(!is_newer("0.1.1", "0.1.2"));
    assert!(!is_newer("garbage", "0.1.2"));
}

#[test]
fn safe_names_are_no_folders() {
    assert_eq!(sanitize(". . ."), "untitled");
    assert_eq!(sanitize("."), "untitled");
    assert_eq!(sanitize(".."), "untitled");
    // In front, the dots come off once; behind, nothing is left that Windows would lose.
    assert_eq!(sanitize(".. .a"), ".a");
    assert_eq!(sanitize(" . .a. b . ."), ".a. b");
}

#[test]
fn renaming_twice_changes_nothing_more() {
    let to = renamed("/music/old.name.wav", "..new: name..").unwrap();
    assert_eq!(to, "/music/new_ name.wav");
    assert_eq!(renamed(&to, "..new: name.."), None);
    assert_eq!(renamed("/music/old.", ". ."), Some("/music/untitled.".to_string()));
}

#[test]
fn tracklists_are_read_line_by_line() {
    let (a, b) = ("1. One\n\n2. Two (3:12)", "03:12 Three\n - \n");
    let joined = parse(&format!("{a}\n{b}"));
    assert_eq!(joined, [parse(a), parse(b)].concat());
    assert_eq!(joined, ["One", "Two", "Three"]);
}
