use shinelink::squelch::{merge_runs, smooth, Config, ConfigError, CHUNK_SIZE};

fn config(sample_rate: u32, deviation: u32, shift: i64) -> Config {
    Config { decimation: 16, sample_rate, deviation, shift }
}

#[test]
fn typical_config_is_accepted() {
    assert_eq!(config(2_880_000, 60_000, 476_000).check(), Ok(()));
    assert_eq!(config(2_880_000, 60_000, -1_440_000).check(), Ok(()));
}

#[test]
fn deviation_above_half_the_rate_is_refused() {
    assert_eq!(config(2_880_000, 1_440_001, 0).check(), Err(ConfigError::Deviation));
    assert_eq!(config(2_880_000, 1_440_000, 0).check(), Ok(()));
}

#[test]
fn shift_above_half_the_rate_is_refused() {
    assert_eq!(config(2_880_000, 60_000, 1_440_001).check(), Err(ConfigError::Shift));
    assert_eq!(config(2_880_000, 60_000, -1_440_001).check(), Err(ConfigError::Shift));
    assert_eq!(config(2_880_000, 2_000_000, 2_000_000).check(), Err(ConfigError::Deviation));
}

#[test]
fn smooth_dilates_by_two_chunks() {
    let f = false;
    let t = true;
    assert_eq!(smooth(&[f, f, f, f, f, t, f, f, f, f, f]), vec![f, f, f, t, t, t, t, t, f, f, f]);
}

#[test]
fn smooth_keeps_the_ends() {
    let f = false;
    let t = true;
    assert_eq!(smooth(&[t, f, f, f, f, f, t]), vec![t, f, t, f, t, f, t]);
    assert_eq!(smooth(&[]), Vec::<bool>::new());
    assert_eq!(smooth(&[t]), vec![t]);
    assert_eq!(smooth(&[f, t, f, f]), vec![f, t, f, f]);
}

#[test]
fn empty_capture_gives_no_burst() {
    let observations: Vec<f32> = Vec::new();
    let smoothed = smooth(&[]);
    assert!(merge_runs(&observations, &smoothed, CHUNK_SIZE).is_empty());
}

#[test]
fn merge_runs_concatenates_flagged_chunks() {
    let observations: Vec<u32> = (0..10).collect();
    let flags = [false, true, true, false, true];
    let bursts = merge_runs(&observations, &flags, 2);
    assert_eq!(bursts, vec![(3, vec![2, 3, 4, 5]), (5, vec![8, 9])]);
}

#[test]
fn merge_runs_keeps_a_run_open_at_the_end() {
    let observations: Vec<u32> = (0..6).collect();
    assert_eq!(merge_runs(&observations, &[false, true, true], 2), vec![(3, vec![2, 3, 4, 5])]);
}

#[test]
fn merge_runs_keeps_an_open_run_over_a_short_last_chunk() {
    let observations: Vec<u32> = (0..5).collect();
    assert_eq!(merge_runs(&observations, &[false, true, true], 2), vec![(3, vec![2, 3, 4])]);
}

#[test]
fn a_single_flagged_chunk_is_a_burst() {
    assert_eq!(merge_runs(&[7u32], &[true], 1), vec![(1, vec![7])]);
}

#[test]
fn closed_and_open_runs_are_both_reported() {
    let observations: Vec<u32> = (0..6).collect();
    let bursts = merge_runs(&observations, &[true, false, true], 2);
    assert_eq!(bursts, vec![(1, vec![0, 1]), (3, vec![4, 5])]);
}

#[test]
fn two_bursts_are_reported_in_order_and_apart() {
    let mut flags = vec![false; 20];
    for i in 2..5 {
        flags[i] = true;
    }
    for i in 10..13 {
        flags[i] = true;
    }
    let observations: Vec<u32> = (0..(20 * CHUNK_SIZE as u32)).collect();
    let bursts = merge_runs(&observations, &smooth(&flags), CHUNK_SIZE);
    assert_eq!(bursts.len(), 2);
    assert_eq!(bursts[0].0, 7);
    assert_eq!(bursts[1].0, 15);
    assert!(bursts[0].0 + 2 <= bursts[1].0);
    assert_eq!(bursts[0].1, ((2 * CHUNK_SIZE as u32)..(7 * CHUNK_SIZE as u32)).collect::<Vec<u32>>());
    assert_eq!(bursts[1].1.len(), 7 * CHUNK_SIZE);
    assert_eq!(bursts[1].1[0], 8 * CHUNK_SIZE as u32);
}

#[test]
fn merge_runs_uses_a_short_last_chunk() {
    let observations: Vec<u32> = (0..5).collect();
    let bursts = merge_runs(&observations, &[true, false, false, false], 2);
    assert_eq!(bursts, vec![(1, vec![0, 1])]);
}
