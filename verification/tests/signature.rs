use phyllotaxis::signature::{signature_for, Signature};
use phyllotaxis::tuning::{Algorithm, Kind, Variant, ROSTER};

/// Exactly one entry repeats soon enough to hear, and it is fm I.
#[test]
fn one_signature_is_commensurate_and_it_is_the_reinforcing_one() {
    let short: Vec<_> = ROSTER
        .iter()
        .filter(|&&(a, v)| signature_for(a, v).period() < 10)
        .collect();
    assert_eq!(short.len(), 1, "expected exactly one short period, got {short:?}");
    assert_eq!(short[0].0, Algorithm::Fm1);
    assert_eq!(signature_for(Algorithm::Fm1, Variant::Golden).period(), 5);
}

/// Every other signature runs long enough that nobody tracks it.
#[test]
fn the_rest_are_long() {
    for &(a, v) in ROSTER.iter() {
        if a == Algorithm::Fm1 {
            continue;
        }
        let s = signature_for(a, v);
        assert!(s.period() >= 28, "{} has period {}", s.family, s.period());
    }
}

#[test]
fn every_roster_entry_has_a_distinct_signature() {
    let mut seen: Vec<[u32; 5]> = ROSTER.iter().map(|&(a, v)| signature_for(a, v).terms).collect();
    seen.sort();
    seen.dedup();
    assert_eq!(seen.len(), 8);
}

/// Reversed integers are the same rates, so the same period.
#[test]
fn a_mirrored_signature_keeps_its_period() {
    let fwd = signature_for(Algorithm::Rm, Variant::Harmonic);
    let rev = signature_for(Algorithm::Rm, Variant::Golden);
    let mut r = fwd.terms;
    r.reverse();
    assert_eq!(r, rev.terms);
    assert_eq!(fwd.period(), rev.period());
    assert_eq!(fwd.family, "lucas");
    assert_eq!(rev.family, "lucas mirrored");
}

/// All phases realign after exactly `period` base cycles, and not before.
#[test]
fn the_period_is_the_first_realignment() {
    for &(a, v) in ROSTER.iter() {
        let s = signature_for(a, v);
        let max = *s.terms.iter().max().unwrap() as u64;
        let aligned = |t: u64| s.terms.iter().all(|&x| (x as u64 * t) % max == 0);
        let p = s.period() as u64;
        assert!(aligned(p), "{} does not realign at {p}", s.family);
        for t in 1..p {
            assert!(!aligned(t), "{} realigns early at {t}", s.family);
        }
    }
}

/// Every period by hand: max over gcd.
#[test]
fn periods_are_max_over_gcd() {
    let cases = [
        ([30u32, 24, 18, 12, 6], 5u32),
        ([34, 21, 13, 8, 5], 34),
        ([44, 24, 13, 7, 4], 44),
        ([29, 12, 5, 2, 1], 29),
        ([6, 12, 18, 24, 30], 5),
        ([0, 0, 0, 0, 0], 0),
        ([7, 0, 0, 0, 0], 1),
    ];
    for (terms, p) in cases {
        assert_eq!(Signature { terms, family: "test" }.period(), p, "{terms:?}");
    }
}

/// The complex types carry a sub; the FM pair does not. Names and numerals.
#[test]
fn names_numerals_and_subs() {
    let names: Vec<&str> = Algorithm::ALL.iter().map(|a| a.name()).collect();
    assert_eq!(names, vec!["fm", "fm fb", "rm", "am", "rect"]);
    let subs: Vec<bool> = Algorithm::ALL.iter().map(|a| a.has_sub()).collect();
    assert_eq!(subs, vec![false, false, true, true, true]);
    assert_eq!(Variant::Harmonic.numeral(), "I");
    assert_eq!(Variant::Golden.numeral(), "II");
    assert_eq!(Variant::ALL, [Variant::Harmonic, Variant::Golden]);
}

/// Five degrees make a scale; fewer make a chord.
#[test]
fn kinds_are_named_and_counted() {
    assert_eq!(Kind::Scale.name(), "scale");
    assert_eq!(Kind::Chord.name(), "chord");
    assert_eq!(Kind::for_len(0), Kind::Chord);
    assert_eq!(Kind::for_len(4), Kind::Chord);
    assert_eq!(Kind::for_len(5), Kind::Scale);
    assert_eq!(Kind::for_len(8), Kind::Scale);
}
