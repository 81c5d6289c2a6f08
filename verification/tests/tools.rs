use splitter::tools::{
    deno_asset, digest_matches, download_name, ffmpeg_build, find_entry, find_sha256, missing_tools, redirect_target,
    sum_for, unzip_one, update_due, yt_dlp_asset, Fetch, FfmpegBuild, UnzipError, UPDATE_EVERY,
};
use splitter::update_check::{is_newer, platform_url, update_info};

#[test]
fn sha256_from_sum_files() {
    let h = "a".repeat(64);
    assert_eq!(find_sha256(&format!("{h}  deno-aarch64-apple-darwin.zip")), Some(h.clone()));
    // Windows sum files are PowerShell's Get-FileHash list, with CRLF.
    let ps = format!("\r\nAlgorithm : SHA256\r\nHash      : {}\r\nPath      : C:\\a\\deno.zip\r\n", h.to_uppercase());
    assert_eq!(find_sha256(&ps), Some(h));
    assert_eq!(find_sha256("nothing here"), None);
}

#[test]
fn assets_exist_for_this_platform() {
    for os in ["macos", "windows", "linux"] {
        for arch in ["x86_64", "aarch64"] {
            assert!(yt_dlp_asset(os, arch).is_some());
            assert!(deno_asset(os, arch).is_some());
        }
    }
}

#[test]
fn assets_are_named_by_platform() {
    assert_eq!(yt_dlp_asset("linux", "aarch64"), Some("yt-dlp_linux_aarch64"));
    assert_eq!(yt_dlp_asset("linux", "riscv64"), None);
    assert_eq!(deno_asset("macos", "aarch64"), Some("deno-aarch64-apple-darwin.zip".to_string()));
    assert_eq!(deno_asset("freebsd", "x86_64"), None);
    assert_eq!(deno_asset("linux", "riscv64"), None);
    assert_eq!(
        ffmpeg_build("windows", "x86_64"),
        Some(FfmpegBuild::Release { asset: "ffmpeg-master-latest-win64-gpl.zip".into() })
    );
    assert_eq!(
        ffmpeg_build("macos", "aarch64"),
        Some(FfmpegBuild::Latest { path: "/redirect/latest/macos/arm64/release/ffmpeg.zip".into() })
    );
    assert_eq!(ffmpeg_build("linux", "riscv64"), None);
}

#[test]
fn downloads_must_have_the_published_sum() {
    let mut f = Fetch::start();
    f.chunk(b"a");
    f.chunk(b"bc");
    assert!(f.matches("ba7816bf8f01cfea414140de5dae2223b00361a396177a9cb410ff61f20015ad"));
    assert!(f.matches("BA7816BF8F01CFEA414140DE5DAE2223B00361A396177A9CB410FF61F20015AD"));
    f.chunk(b"d");
    assert!(!f.matches("ba7816bf8f01cfea414140de5dae2223b00361a396177a9cb410ff61f20015ad"));
    assert!(Fetch::start().matches("e3b0c44298fc1c149afbf4c8996fb92427ae41e4649b934ca495991b7852b855"));
    assert!(digest_matches(&[0x0f, 0xa0], "0FA0"));
    assert!(!digest_matches(&[0x0f, 0xa0], "0fa00"));
}

#[test]
fn sums_are_found_by_name() {
    let list = "aa  yt-dlp\nbb  yt-dlp_macos\ncc  yt-dlp.exe\n";
    assert_eq!(sum_for(list, "yt-dlp_macos"), Some("bb".to_string()));
    assert_eq!(sum_for(list, "yt-dlp_linux"), None);
}

#[test]
fn archives_hold_the_tool_in_any_folder() {
    let names: Vec<String> = ["readme", "x/notffmpeg", "x/bin/ffmpeg", "ffmpeg"].iter().map(|s| s.to_string()).collect();
    assert_eq!(find_entry(&names, "ffmpeg"), Some(2));
    assert_eq!(find_entry(&names, "deno"), None);
    assert_eq!(download_name("https://h/a/b.zip"), "b.zip");
}

#[test]
fn redirects_stay_on_the_server() {
    assert_eq!(redirect_target("https://h.org/a/b", "/c/d"), "https://h.org/c/d");
    assert_eq!(redirect_target("https://h.org/a/b", "https://o.org/x"), "https://o.org/x");
}

#[test]
fn updates_are_daily() {
    assert!(update_due(None));
    assert!(!update_due(Some(UPDATE_EVERY)));
    assert!(update_due(Some(UPDATE_EVERY + 1)));
    let m = missing_tools(true, false, None);
    assert!((m.yt_dlp, m.deno, m.update) == (false, true, false));
    assert!(missing_tools(true, true, None).update);
    assert!(!missing_tools(true, true, Some(0)).update);
}

#[test]
fn updates_lead_to_the_build() {
    assert!(is_newer("1.0.0", "0.9.9"));
    let info = update_info("0.2.0", "0.1.9", Some("https://h/x.dmg")).unwrap();
    assert_eq!(info.latest_version, "0.2.0");
    assert_eq!(info.download_url, "https://h/x.dmg?src=updater");
    assert!(update_info("0.1.9", "0.1.9", None).is_none());
    assert_eq!(platform_url(None), platform_url(Some("")));
}

#[test]
fn one_file_is_unpacked() {
    let mut zip = zip::ZipWriter::new(std::io::Cursor::new(Vec::new()));
    for (name, text) in [("build/README", "read me"), ("build/bin/ffmpeg", "the program"), ("other/ffmpeg", "another")] {
        zip.start_file(name, zip::write::SimpleFileOptions::default()).unwrap();
        std::io::Write::write_all(&mut zip, text.as_bytes()).unwrap();
    }
    let bytes = zip.finish().unwrap().into_inner();
    assert_eq!(unzip_one(&bytes, "ffmpeg").unwrap(), b"the program");
    assert_eq!(unzip_one(&bytes, "README").unwrap(), b"read me");
    assert_eq!(unzip_one(&bytes, "deno"), Err(UnzipError::NoEntry));
    assert!(matches!(unzip_one(b"not an archive", "ffmpeg"), Err(UnzipError::Unreadable(_))));
}
