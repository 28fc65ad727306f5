use phyllotaxis::word::{prefix, word, word_exact};

const PHI: f64 = 1.618_033_988_749_895;
const INV_PHI2: f64 = 0.381_966_011_250_105;
const W_LONG: f64 = 1.170_820_393_249_937;
const W_SHORT: f64 = 0.723_606_797_749_979;

/// The word itself, hand-computed from the concatenation rule.
#[test]
fn the_first_twenty_symbols() {
    assert_eq!(prefix(20), "01001010010010100101");
    assert_eq!(prefix(30), "010010100100101001010010010100");
}

/// The threshold form and the concatenation form are the same object.
#[test]
fn the_fast_path_matches_exact_arithmetic() {
    for n in 1..200_000u64 {
        assert_eq!(word(n), word_exact(n), "disagreement at n = {n}");
    }
}

/// Density of 1s converges on `1/φ²`; of 0s on `1/φ`.
#[test]
fn the_symbol_density_is_golden() {
    let n = 100_000u64;
    let ones = (1..=n).filter(|&k| word(k) == 1).count() as f64 / n as f64;
    assert!((ones - INV_PHI2).abs() < 1e-4, "density of ones is {ones}");
}

/// With `0 → long`, the n-th Fibonacci block lasts exactly `φⁿ` short steps.
#[test]
fn a_fibonacci_block_lasts_phi_to_the_n() {
    let (mut a, mut b) = (1u64, 2u64);
    let mut blocks = vec![a, b];
    while *blocks.last().unwrap() < 5000 {
        let next = a + b;
        blocks.push(next);
        a = b;
        b = next;
    }
    for (i, &len) in blocks.iter().enumerate().take(10) {
        let n = i + 1;
        let dur: f64 = (1..=len).map(|k| if word(k) == 0 { PHI } else { 1.0 }).sum();
        let expect = PHI.powi(n as i32);
        assert!(
            (dur - expect).abs() < 1e-6,
            "S({n}) lasts {dur} short steps, expected φ^{n} = {expect}"
        );
    }
}

/// `gesture(long) == short`, and `rest(long) == gesture(short)`.
#[test]
fn the_gesture_of_a_long_step_is_a_short_step() {
    let mean = 1.618_034_f32;
    let long = mean * W_LONG as f32;
    let short = mean * W_SHORT as f32;
    let gesture = |iv: f32| iv / PHI as f32;
    let rest = |iv: f32| iv - gesture(iv);

    assert!((gesture(long) - short).abs() < 1e-5, "{} vs {}", gesture(long), short);
    assert!((rest(long) - gesture(short)).abs() < 1e-5);
    assert!((gesture(long) + rest(long) - long).abs() < 1e-5);
}

/// Any window of any length stays within `L - S = 1/√5` of the mean.
#[test]
fn the_clock_never_drifts() {
    let bound = 1.0 / 5.0f64.sqrt();
    let dur = |n: u64| if word(n) == 0 { W_LONG } else { W_SHORT };
    let mut cum = vec![0.0f64];
    for n in 1..=2000u64 {
        cum.push(cum[(n - 1) as usize] + dur(n));
    }
    let mut worst = 0.0f64;
    for start in 0..cum.len() {
        for k in 1..=400.min(cum.len() - 1 - start) {
            let d = cum[start + k] - cum[start] - k as f64;
            worst = worst.max(d.abs());
        }
    }
    assert!(worst < bound, "window deviation {worst} exceeded {bound}");
}

/// Each block is a prefix of the next: S(k+1) starts with S(k).
#[test]
fn every_block_is_a_prefix_of_the_next() {
    let mut blocks = vec![String::from("0"), String::from("01")];
    while blocks.last().unwrap().len() < 3000 {
        let n = blocks.len();
        let next = format!("{}{}", blocks[n - 1], blocks[n - 2]);
        blocks.push(next);
    }
    let longest = blocks.last().unwrap().clone();
    assert_eq!(prefix(longest.len()), longest);
    for b in &blocks {
        assert!(longest.starts_with(b.as_str()));
    }
}

/// Position 0 lies before the word; both forms give 1 there.
#[test]
fn position_zero_is_one_in_both_forms() {
    assert_eq!(word(0), 1);
    assert_eq!(word_exact(0), 1);
    assert_eq!(prefix(0), "");
}

/// The descent is exact far beyond any tempo: symbols deep in the word agree
/// with the closed form wherever the closed form fits in `u64`.
#[test]
fn deep_symbols_match_the_closed_form() {
    for n in [1_000_000u64, 102_334_155, 102_334_156, 433_494_437, 1_000_000_007, 1_900_000_000] {
        assert_eq!(word(n), word_exact(n), "disagreement at n = {n}");
    }
    // The largest positions are still answered, without overflow.
    let last = word(u64::MAX);
    assert!(last <= 1);
}

/// Exact values of the closed form at the first few positions.
#[test]
fn word_exact_reads_floor_n_phi() {
    // ⌊nφ⌋ for n = 0..6 is 0, 1, 3, 4, 6, 8, 9.
    let expected = [1u8, 0, 1, 0, 0, 1, 0];
    for (n, &e) in expected.iter().enumerate() {
        assert_eq!(word_exact(n as u64), e, "n = {n}");
    }
}

#[test]
fn no_two_shorts_and_no_three_longs() {
    let p = prefix(5000);
    assert!(!p.contains("11"));
    assert!(!p.contains("000"));
    let firsts: Vec<u8> = (1..=8).map(word_exact).collect();
    assert_eq!(firsts, vec![0, 1, 0, 0, 1, 0, 1, 0]);
}

#[test]
fn the_prefix_of_a_block_is_the_two_blocks_before() {
    assert_eq!(prefix(13), prefix(8) + &prefix(5));
    let (mut a, mut b) = (2usize, 3usize);
    while b < 2000 {
        let c = a + b;
        assert_eq!(prefix(c), prefix(b) + &prefix(a));
        a = b;
        b = c;
    }
}

#[test]
fn equal_stretches_hold_nearly_equal_short_steps() {
    let w: Vec<u8> = (1..=3000u64).map(word).collect();
    for len in [1usize, 2, 5, 13, 50, 233] {
        let counts: Vec<usize> = w.windows(len).map(|s| s.iter().filter(|&&x| x == 1).count()).collect();
        let lo = *counts.iter().min().unwrap();
        let hi = *counts.iter().max().unwrap();
        assert!(hi - lo <= 1, "len {len}: {lo}..{hi}");
    }
}
