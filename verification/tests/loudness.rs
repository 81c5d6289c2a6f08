use splitter::export::Normalize;
use splitter::loudness::{apply_to_jobs, integrated, normalize_gain, Loudness, LoudnessMap, Mean, Measured};

const HOP: u64 = 4410;

fn to_energy(lufs: f64) -> u64 {
    (10f64.powf((lufs + 0.691) / 10.0) * 1e15) as u64
}

fn lufs(mean: Option<Mean>) -> Option<f64> {
    mean.map(|m| -0.691 + 10.0 * (m.sum as f64 / m.count as f64 / 1e15).log10())
}

fn peak_db(m: &Measured) -> f64 {
    20.0 * (m.peak as f64 / 1e9).log10()
}

fn map(levels: &[(usize, f64)]) -> LoudnessMap {
    // (hops, LUFS) segments; peaks at -3 dBFS everywhere.
    let block_energy: Vec<u64> =
        levels.iter().flat_map(|&(n, l)| std::iter::repeat(to_energy(l)).take(n)).collect();
    let peak = vec![(10f64.powf(-3.0 / 20.0) * 1e9) as u64; block_energy.len()];
    LoudnessMap { hop: HOP, block_energy, peak }
}

#[test]
fn steady_level_reads_back() {
    let m = map(&[(100, -20.0)]);
    let l = m.range(0, 100 * HOP);
    assert!((lufs(l.mean).unwrap() + 20.0).abs() < 1e-6);
    assert!((peak_db(&l) + 3.0).abs() < 1e-3);
}

#[test]
fn gates_ignore_silence_and_quiet_passages() {
    // Loud music with silence and a passage 20 LU quieter: both are gated out.
    let m = map(&[(50, -14.0), (30, -120.0), (20, -34.0), (50, -14.0)]);
    let l = lufs(m.range(0, 150 * HOP).mean).unwrap();
    assert!((l + 14.0).abs() < 1e-6, "{l}");
}

#[test]
fn short_or_silent_ranges_have_no_loudness() {
    let m = map(&[(100, -20.0)]);
    assert_eq!(m.range(0, 3 * HOP).mean, None, "under one 400 ms block");
    assert_eq!(map(&[(100, -90.0)]).range(0, 100 * HOP).mean, None);
}

#[test]
fn only_blocks_inside_the_range_count() {
    let m = map(&[(40, -30.0), (40, -10.0)]);
    // The second half alone, starting mid-hop.
    let l = lufs(m.range(40 * HOP + 100, 80 * HOP).mean).unwrap();
    assert!((l + 10.0).abs() < 1e-6, "{l}");
}

#[test]
fn album_loudness_pools_blocks() {
    let m = map(&[(40, -20.0), (40, -20.0)]);
    let l = m.ranges(&[(0, 40 * HOP), (40 * HOP, 80 * HOP)]);
    assert!((lufs(l.mean).unwrap() + 20.0).abs() < 1e-6);
}

#[test]
fn normalization_respects_the_peak_ceiling() {
    let l = Loudness { lufs: Some(-20_000_000), peak: -3_000_000 };
    assert_eq!(normalize_gain(&l, -14_000_000, -1_000_000), 2_000_000, "limited by peak");
    assert_eq!(normalize_gain(&l, -21_000_000, -1_000_000), -1_000_000);
}

#[test]
fn silence_is_left_alone() {
    let l = Loudness { lufs: None, peak: -90_000_000 };
    assert_eq!(normalize_gain(&l, -14_000_000, -1_000_000), 0);
    assert_eq!(integrated(&vec![]), None);
    // Blocks count only above -70 LUFS, not at it.
    assert_eq!(integrated(&vec![117_246_530]), None);
    assert_eq!(integrated(&vec![117_246_531]), Some(Mean { sum: 117_246_531, count: 1 }));
}

#[test]
fn blocks_ten_below_the_mean_are_left_out() {
    // The mean of the first three is 7 units of 10^12, so only blocks above 0.7 of them count.
    let t: u64 = 1_000_000_000_000;
    let blocks = vec![10 * t, 10 * t, t];
    assert_eq!(integrated(&blocks), Some(Mean { sum: 21 * t as u128, count: 3 }));
    let blocks = vec![10 * t, 10 * t, t / 2];
    assert_eq!(integrated(&blocks), Some(Mean { sum: 20 * t as u128, count: 2 }));
}

#[test]
fn gains_and_tags_describe_what_is_written() {
    let a = Loudness { lufs: Some(-20_000_000), peak: -6_000_000 };
    let b = Loudness { lufs: Some(-10_000_000), peak: -2_000_000 };
    let album = Loudness { lufs: Some(-14_000_000), peak: -2_000_000 };
    let track = apply_to_jobs(&[a, b], &album, Normalize::Track { target: -16_000_000 }, true);
    assert_eq!((track[0].gain, track[1].gain), (4_000_000, -6_000_000));
    assert_eq!(track[0].track.unwrap().gain, -2_000_000);
    assert_eq!(track[0].track.unwrap().peak, -2_000_000);
    assert!(track[0].album.is_none());
    let whole = apply_to_jobs(&[a, b], &album, Normalize::Album { target: -16_000_000 }, true);
    assert_eq!((whole[0].gain, whole[1].gain), (-2_000_000, -2_000_000));
    assert_eq!(whole[1].album.unwrap().gain, -2_000_000);
    // A byte copy can't change level: no gain, but still tagged.
    let copy = apply_to_jobs(&[a], &album, Normalize::Album { target: 0 }, false);
    assert_eq!(copy[0].gain, 0);
    assert_eq!(copy[0].track.unwrap().gain, 2_000_000);
    assert_eq!(copy[0].album.unwrap().gain, -4_000_000);
}

#[test]
fn a_track_never_peaks_above_its_album() {
    let m = LoudnessMap { hop: 10, block_energy: vec![0; 10], peak: vec![3, 9, 4, 1, 0, 7, 2, 8, 5, 6] };
    let ranges = [(0, 10), (20, 45), (50, 60), (70, 100)];
    let album = m.ranges(&ranges).peak;
    assert_eq!(album, 8);
    let own: Vec<u64> = ranges.iter().map(|&(a, b)| m.range(a, b).peak).collect();
    assert_eq!(own, [3, 4, 7, 8]);
}

#[test]
fn what_is_too_short_to_measure_is_not_pushed() {
    let short = Loudness { lufs: None, peak: -3_000_000 };
    let loud = Loudness { lufs: Some(-8_000_000), peak: 500_000 };
    let gains = |n| apply_to_jobs(&[short, loud], &loud, n, true).iter().map(|j| j.gain).collect::<Vec<_>>();
    assert_eq!(gains(Normalize::Track { target: -14_000_000 }), [0, -6_000_000]);
    assert_eq!(gains(Normalize::Album { target: -4_000_000 }), [-1_500_000, -1_500_000]);
}
