use splitter::download::{ended, explain, link, parse_progress, stderr_line, stdout_line, Ended, Line, Progress};
use splitter::media_server::{
    byte_range, content_type, header_line, in_app_path, in_app_range, in_app_reply, random_token, reply_head,
    request_line, serve, token_from, token_of, Header, Reply, Shelf,
};

/// What a progress line comes to, with its numbers read.
enum Phase {
    Downloading(Option<f64>),
    Converting,
}

fn phase(line: &str) -> Option<Phase> {
    let num = |s: Option<String>| s.and_then(|s| s.parse::<f64>().ok());
    match parse_progress(line)? {
        Progress::Finished => Some(Phase::Converting),
        Progress::Downloading { done, total, estimate } => {
            let total = num(total).or(num(estimate)).filter(|&t| t > 0.0);
            Some(Phase::Downloading(num(done).zip(total).map(|(d, t)| (d / t).clamp(0.0, 1.0))))
        }
    }
}

#[test]
fn progress_lines() {
    let frac = |line: &str| match phase(line) {
        Some(Phase::Downloading(p)) => p,
        _ => panic!("not a download line: {line}"),
    };
    assert!((frac("SPLITTER-PROGRESS downloading 250 1000 NA").unwrap() - 0.25).abs() < 1e-6);
    // Only an estimate of the size.
    assert!((frac("SPLITTER-PROGRESS downloading 500 NA 1000.5").unwrap() - 0.5).abs() < 1e-3);
    assert_eq!(frac("SPLITTER-PROGRESS downloading 500 NA NA"), None);
    assert!(matches!(phase("SPLITTER-PROGRESS finished 1000 1000 NA"), Some(Phase::Converting)));
    assert!(parse_progress("[youtube] abc: Downloading webpage").is_none());
}

#[test]
fn output_lines() {
    assert_eq!(stdout_line("SPLITTER-FILE  /d/a b.m4a "), Line::File("/d/a b.m4a".into()));
    assert_eq!(stdout_line("SPLITTER-PROGRESS finished"), Line::Progress(Progress::Finished));
    assert_eq!(stdout_line("ERROR: no"), Line::Other);
    assert_eq!(stderr_line("ERROR:  no such video "), Line::Error("no such video".into()));
    assert_eq!(
        stderr_line("SPLITTER-PROGRESS downloading 5"),
        Line::Progress(Progress::Downloading { done: Some("5".into()), total: None, estimate: None })
    );
    assert_eq!(stderr_line("WARNING: x"), Line::Other);
}

#[test]
fn links_start_with_http() {
    assert_eq!(link("  https://example.org/v \n"), Some("https://example.org/v".to_string()));
    assert_eq!(link("http://x"), Some("http://x".to_string()));
    assert_eq!(link("ftp://x"), None);
    assert_eq!(link(""), None);
}

#[test]
fn downloads_end_in_a_file_or_a_reason() {
    let none: Vec<String> = vec![];
    let file = |p: &str| Some(p.to_string());
    assert_eq!(ended(true, file("/d/a.mp3"), true, true, &none), Ended::Cancelled);
    assert_eq!(ended(false, file("/d/a.mp3"), true, true, &none), Ended::Ready("/d/a.mp3".into()));
    assert_eq!(
        ended(false, file("/d/a.b.M4A"), true, true, &none),
        Ended::Convert { from: "/d/a.b.M4A".into(), to: "/d/a.b.wav".into() }
    );
    assert_eq!(ended(false, file("/d/a.mp3"), true, false, &none), Ended::Stopped);
    assert_eq!(ended(false, None, false, false, &none), Ended::Stopped);
    let errors = vec!["one".to_string(), "HTTP Error 403: Forbidden".to_string()];
    let Ended::Failed(e) = ended(false, None, false, false, &errors) else { panic!("no reason") };
    assert!(e.starts_with("Download failed: one\nHTTP Error 403: Forbidden — YouTube is refusing"), "{e}");
    assert_eq!(explain("x"), "Download failed: x");
    assert!(explain("Requested format is not available").ends_with("no M4A or MP3 audio for it"));
}

#[test]
fn byte_ranges() {
    assert_eq!(byte_range(Some("bytes=0-1"), 100), Some((0, 1)));
    assert_eq!(byte_range(Some("bytes=10-"), 100), Some((10, 99)));
    assert_eq!(byte_range(Some("bytes=90-200"), 100), Some((90, 99)));
    assert_eq!(byte_range(Some("bytes=-10"), 100), Some((90, 99)));
    assert_eq!(byte_range(Some("bytes=5-9, 20-30"), 100), Some((5, 9)));
    assert_eq!(byte_range(None, 100), Some((0, 99)));
    assert_eq!(byte_range(Some("bytes=100-"), 100), None);
    assert_eq!(byte_range(Some("bytes=9-5"), 100), None);
    assert_eq!(byte_range(Some("items=0-1"), 100), None);
    assert_eq!(byte_range(Some("bytes=0-"), 0), None);
}

/// One request, answered from a shelf that holds one file.
fn get(shelf: &Shelf, content: &str, request: &str) -> String {
    let mut lines = request.split_inclusive('\n');
    let (method, target) = request_line(lines.next().unwrap());
    let mut range = None;
    for line in lines {
        match header_line(line) {
            Header::End => break,
            Header::Range(r) => range = Some(r),
            Header::Other => {}
        }
    }
    let file = shelf.lookup(&target);
    let len = file.as_ref().map(|_| content.len() as u64);
    let reply = serve(&method, len, range.as_deref());
    let mime = content_type(file.as_deref().unwrap_or(""), false);
    let mut out = reply_head(reply, mime);
    match reply {
        Reply::Whole { .. } => out.push_str(content),
        Reply::Part { start, end, .. } => out.push_str(&content[start as usize..=end as usize]),
        _ => {}
    }
    out
}

#[test]
fn only_the_published_file_is_served() {
    let mut shelf = Shelf::empty();
    let token = random_token();
    let url = shelf.publish("/v/a.mp4", &token, 8080);
    assert_eq!(url, format!("http://127.0.0.1:8080/{token}.mp4"));
    assert_eq!(token_of(&url), token);
    let content = "0123456789";
    let ask = |shelf: &Shelf, target: &str, range: &str| {
        get(shelf, content, &format!("GET {target} HTTP/1.1\r\nHost: x\r\n{range}\r\n"))
    };
    let r = ask(&shelf, &format!("/{token}.mp4"), "Range: bytes=2-4\r\n");
    assert!(r.starts_with("HTTP/1.1 206"), "{r}");
    assert!(r.contains("Content-Range: bytes 2-4/10"), "{r}");
    assert!(r.ends_with("\r\n\r\n234"), "{r}");
    assert!(ask(&shelf, &format!("/{token}.mp4"), "").ends_with("0123456789"));
    assert!(ask(&shelf, &format!("/{token}.mp4"), "Range: bytes=10-\r\n").starts_with("HTTP/1.1 416"));
    assert!(ask(&shelf, "/guess.mp4", "").starts_with("HTTP/1.1 404"));
    assert!(get(&shelf, content, &format!("POST /{token}.mp4 HTTP/1.1\r\n\r\n")).starts_with("HTTP/1.1 404"));
    // The same file through the app's own protocol, under the same token.
    assert_eq!(shelf.lookup(&in_app_path(&url)), Some("/v/a.mp4".to_string()));
    shelf.unpublish("http://127.0.0.1:8080/other.mp4");
    assert!(shelf.filled);
    shelf.unpublish(&url);
    assert!(ask(&shelf, &format!("/{token}.mp4"), "").starts_with("HTTP/1.1 404"));
}

#[test]
fn tokens_differ() {
    assert_eq!(token_from(0x0123, 0xff), "000000000000012300000000000000ff");
    let (a, b) = (random_token(), random_token());
    assert_eq!(a.len(), 32);
    assert!(a.chars().all(|c| c.is_ascii_hexdigit()));
    assert_ne!(a, b);
}

#[test]
fn large_files_come_in_pieces_in_the_app() {
    let (a, b) = in_app_range(0, u64::MAX - 1);
    assert_eq!(a, 0);
    assert!(b < u64::MAX - 1);
    assert_eq!(in_app_range(5, 9), (5, 9));
}

#[test]
fn the_apps_own_protocol_answers_in_parts() {
    const MB: u64 = 1 << 20;
    assert_eq!(in_app_reply(None, None), Reply::NotFound);
    assert_eq!(in_app_reply(None, Some("bytes=0-")), Reply::NotFound);
    assert_eq!(in_app_reply(Some(10), Some("bytes=10-")), Reply::BadRange { len: 10 });
    assert_eq!(in_app_reply(Some(0), None), Reply::BadRange { len: 0 });
    // Partial content without a range too.
    assert_eq!(in_app_reply(Some(10), None), Reply::Part { start: 0, end: 9, len: 10 });
    assert_eq!(in_app_reply(Some(10), Some("bytes=2-4")), Reply::Part { start: 2, end: 4, len: 10 });
    assert_eq!(in_app_reply(Some(9 * MB), None), Reply::Part { start: 0, end: 4 * MB - 1, len: 9 * MB });
    assert_eq!(in_app_reply(Some(9 * MB), Some("bytes=7-")), Reply::Part { start: 7, end: 4 * MB + 6, len: 9 * MB });
}
