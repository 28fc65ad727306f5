use phyllotaxis::delays::{gcd, DIFFUSER_LEN, LOOP_AP_LEN, TANK_LEN};

/// The theorem the delay lengths are chosen for: consecutive Fibonacci
/// numbers are coprime, so no two echoes ever coincide.
#[test]
fn adjacent_delay_lengths_are_coprime() {
    for set in [&DIFFUSER_LEN, &LOOP_AP_LEN, &TANK_LEN] {
        for w in set.windows(2) {
            assert_eq!(gcd(w[0], w[1]), 1, "{} and {} share a factor", w[0], w[1]);
        }
    }
}

/// Adjacent lengths are coprime — the theorem the sequence was chosen for.
#[test]
fn adjacent_lengths_are_coprime() {
    for set in [&DIFFUSER_LEN, &LOOP_AP_LEN, &TANK_LEN] {
        for w in set.windows(2) {
            assert_eq!(gcd(w[0], w[1]), 1, "{} and {} share a factor", w[0], w[1]);
        }
    }
}

/// No two echoes in the tank coincide within any span anyone hears.
#[test]
fn no_two_echoes_in_a_loop_coincide_within_a_minute() {
    const SR_USIZE: usize = 48_000;
    {
        let set = &TANK_LEN;
        for i in 0..set.len() {
            for j in (i + 1)..set.len() {
                let (a, b) = (set[i], set[j]);
                let lcm = a / gcd(a, b) * b;
                let secs = lcm as f32 / SR_USIZE as f32;
                assert!(
                    secs > 60.0,
                    "{a} and {b} coincide every {secs:.1}s (gcd {})",
                    gcd(a, b)
                );
            }
        }
    }
}

/// Across networks a shared factor is expected; a reused length is not.
#[test]
fn cross_network_sharing_is_reported_not_required() {
    let all: Vec<usize> = DIFFUSER_LEN.iter().chain(LOOP_AP_LEN.iter()).chain(TANK_LEN.iter()).copied().collect();
    let mut worst = 1;
    for i in 0..all.len() {
        for j in (i + 1)..all.len() {
            worst = worst.max(gcd(all[i], all[j]));
        }
    }
    let mut sorted = all.clone();
    sorted.sort_unstable();
    let before = sorted.len();
    sorted.dedup();
    assert_eq!(sorted.len(), before, "a delay length is used in two places");
    assert!(worst > 1, "if this ever becomes 1, the note above is obsolete");
}

/// The sets are consecutive Fibonacci numbers F(10)…F(21).
#[test]
fn the_lengths_are_consecutive_fibonacci_numbers() {
    let all: Vec<usize> = DIFFUSER_LEN.iter().chain(LOOP_AP_LEN.iter()).chain(TANK_LEN.iter()).copied().collect();
    let (mut a, mut b) = (0usize, 1usize);
    for _ in 0..10 {
        let n = a + b;
        a = b;
        b = n;
    }
    for &len in &all {
        assert_eq!(len, a);
        let n = a + b;
        a = b;
        b = n;
    }
}

/// gcd(F(m), F(n)) = F(gcd(m, n)): F(12) = 144 and F(15) = 610 share F(3) = 2.
#[test]
fn gcd_values() {
    assert_eq!(gcd(144, 610), 2);
    assert_eq!(gcd(55, 6765), 55);
    assert_eq!(gcd(0, 7), 7);
    assert_eq!(gcd(7, 0), 7);
    assert_eq!(gcd(0, 0), 0);
    assert_eq!(gcd(2584, 6765), 1);
}
