//! Whether a newer release is published, and where to get it.
use vstd::prelude::*;
use crate::text::{
    append_str, chars_of, drop_start, number_in, only, parse_number, split_chars, split_on, string_of,
    trim_start_of,
};

verus! {

/// What to tell about a newer release.
#[derive(Clone, Debug, PartialEq, Eq)]
pub struct UpdateInfo {
    pub latest_version: String,
    /// Direct link to this OS's build, so the banner downloads the binary itself.
    pub download_url: String,
}

/// What comes before the first `-` or `+`.
pub open spec fn plain_patch(s: Seq<char>) -> Seq<char> {
    split_on(split_on(s, '-')[0], '+')[0]
}

/// The three numbers of a version such as `v1.2.3-beta`.
pub open spec fn version_of(s: Seq<char>) -> Option<(int, int, int)> {
    let parts = split_on(drop_start(s, only('v')), '.');
    if parts.len() < 3 {
        None
    } else {
        let max = u32::MAX as int;
        match (number_in(parts[0], max), number_in(parts[1], max), number_in(plain_patch(parts[2]), max)) {
            (Some(a), Some(b), Some(c)) => Some((a, b, c)),
            _ => None,
        }
    }
}

/// The first numbers decide, then the second, then the third.
pub open spec fn later(a: (int, int, int), b: (int, int, int)) -> bool {
    a.0 > b.0 || (a.0 == b.0 && (a.1 > b.1 || (a.1 == b.1 && a.2 > b.2)))
}

/// `a` is a newer version than `b`; not if either is no version.
pub open spec fn newer(a: Seq<char>, b: Seq<char>) -> bool {
    version_of(a) is Some && version_of(b) is Some && later(version_of(a)->0, version_of(b)->0)
}

fn parse(s: &str) -> (r: Option<(u32, u32, u32)>)
    ensures
        match r {
            Some((a, b, c)) => version_of(s@) == Some((a as int, b as int, c as int)),
            None => version_of(s@) is None,
        },
{
    let chars = chars_of(s);
    let v = vec!['v'];
    let digits = trim_start_of(&chars, &v);
    proof {
        assert((|c: char| v@.contains(c)) =~= only('v')) by {
            assert(v@[0] == 'v');
        }
    }
    let parts = split_chars(digits, '.');
    if parts.len() < 3 {
        return None;
    }
    let before_dash = split_chars(&parts[2], '-');
    let before_plus = split_chars(&before_dash[0], '+');
    let max: u64 = u32::MAX as u64;
    let a = match parse_number(&parts[0], max) {
        Some(n) => n as u32,
        None => return None,
    };
    let b = match parse_number(&parts[1], max) {
        Some(n) => n as u32,
        None => return None,
    };
    let c = match parse_number(&before_plus[0], max) {
        Some(n) => n as u32,
        None => return None,
    };
    Some((a, b, c))
}

/// Whether version `a` is newer than version `b`, number by number.
pub fn is_newer(a: &str, b: &str) -> (r: bool)
    ensures
        r == newer(a@, b@),
{
    match (parse(a), parse(b)) {
        (Some(x), Some(y)) => x.0 > y.0 || (x.0 == y.0 && (x.1 > y.1 || (x.1 == y.1 && x.2 > y.2))),
        _ => false,
    }
}

/// Versions are in a strict order: none is newer than itself, no two are newer than each other,
/// and of three in a row the last is newer than the first.
pub proof fn law_versions_are_ordered(a: Seq<char>, b: Seq<char>, c: Seq<char>)
    ensures
        !newer(a, a),
        newer(a, b) ==> !newer(b, a),
        newer(a, b) && newer(b, c) ==> newer(a, c),
{
}

/// Where to go when there is no build for this OS, so the button leads somewhere to pick one.
pub open spec fn releases_page() -> Seq<char> {
    "https://mayorana.ch/en/apps"@
}

/// The link for a build, marked as an update for the download logs; the landing page when there
/// is none.
pub open spec fn build_link(url: Option<Seq<char>>) -> Seq<char> {
    if url is Some && url->0.len() > 0 {
        url->0 + "?src=updater"@
    } else {
        releases_page()
    }
}

/// The link for the build published for this OS, if any.
pub fn platform_url(url: Option<&str>) -> (r: String)
    ensures
        r@ == build_link(
            match url {
                Some(u) => Some(u@),
                None => None,
            },
        ),
{
    match url {
        Some(u) => if u.is_empty() {
            "https://mayorana.ch/en/apps".to_owned()
        } else {
            let mut s = chars_of(u);
            append_str(&mut s, "?src=updater");
            string_of(&s)
        },
        None => "https://mayorana.ch/en/apps".to_owned(),
    }
}

/// What to tell: the newest release and its link, if it is newer than this one.
pub fn update_info(latest: &str, current: &str, url: Option<&str>) -> (r: Option<UpdateInfo>)
    ensures
        r is Some <==> newer(latest@, current@),
        r matches Some(info) ==> info.latest_version@ == latest@ && info.download_url@ == build_link(
            match url {
                Some(u) => Some(u@),
                None => None,
            },
        ),
{
    if is_newer(latest, current) {
        Some(UpdateInfo { latest_version: latest.to_owned(), download_url: platform_url(url) })
    } else {
        None
    }
}

} // verus!
