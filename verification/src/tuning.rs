//! The roster's vocabulary: algorithms, variants and tuning kinds.

use vstd::prelude::*;

verus! {

/// Degrees per computed tuning.
pub const DEGREES_PER_SCALE: usize = 8;

/// Fewest degrees that make a scale rather than a chord.
pub const MIN_SCALE_DEGREES: usize = 5;

/// The five modulation types.
#[derive(Clone, Copy, PartialEq, Eq, Structural, Debug)]
pub enum Algorithm {
    /// Two modulators into one carrier.
    Fm1,
    /// One modulator into a feedback operator into a carrier.
    Fm2,
    /// Ring modulation.
    Rm,
    /// Amplitude modulation.
    Am,
    /// Full-wave rectification.
    Rect,
}

/// The name an algorithm is printed under.
pub open spec fn algorithm_name(a: Algorithm) -> Seq<char> {
    match a {
        Algorithm::Fm1 => "fm"@,
        Algorithm::Fm2 => "fm fb"@,
        Algorithm::Rm => "rm"@,
        Algorithm::Am => "am"@,
        Algorithm::Rect => "rect"@,
    }
}

impl Algorithm {
    pub const ALL: [Algorithm; 5] = [
        Algorithm::Fm1,
        Algorithm::Fm2,
        Algorithm::Rm,
        Algorithm::Am,
        Algorithm::Rect,
    ];

    pub fn name(self) -> (s: &'static str)
        ensures
            s@ == algorithm_name(self),
    {
        match self {
            Algorithm::Fm1 => "fm",
            Algorithm::Fm2 => "fm fb",
            Algorithm::Rm => "rm",
            Algorithm::Am => "am",
            Algorithm::Rect => "rect",
        }
    }

    /// Whether this algorithm carries a sub oscillator: every type but the FM pair.
    pub fn has_sub(self) -> (b: bool)
        ensures
            b <==> !(self is Fm1 || self is Fm2),
    {
        !matches!(self, Algorithm::Fm1 | Algorithm::Fm2)
    }
}

/// Which end of the Fibonacci convergents an algorithm's ratio is taken from.
#[derive(Clone, Copy, PartialEq, Eq, Structural, Debug)]
pub enum Variant {
    /// **I**: a low convergent, 2/1. Partials land on musical intervals.
    Harmonic,
    /// **II**: a high convergent, 13/8, effectively φ. Maximally inharmonic.
    Golden,
}

/// The roman numeral a variant is printed under.
pub open spec fn variant_numeral(v: Variant) -> Seq<char> {
    match v {
        Variant::Harmonic => "I"@,
        Variant::Golden => "II"@,
    }
}

impl Variant {
    pub const ALL: [Variant; 2] = [Variant::Harmonic, Variant::Golden];

    pub fn numeral(self) -> (s: &'static str)
        ensures
            s@ == variant_numeral(self),
    {
        match self {
            Variant::Harmonic => "I",
            Variant::Golden => "II",
        }
    }
}

/// What a spectrum turned out to want: enough degrees to step through, or a
/// handful to sound together.
#[derive(Clone, Copy, PartialEq, Eq, Structural, Debug)]
pub enum Kind {
    /// Enough degrees to move through. Played as a scale.
    Scale,
    /// Too few to step through. Voiced whole, never arpeggiated.
    Chord,
}

/// The name a kind is printed under.
pub open spec fn kind_name(k: Kind) -> Seq<char> {
    match k {
        Kind::Scale => "scale"@,
        Kind::Chord => "chord"@,
    }
}

/// The kind a tuning of `len` degrees is: a scale from [`MIN_SCALE_DEGREES`] up.
pub open spec fn kind_of_len(len: nat) -> Kind {
    if len >= MIN_SCALE_DEGREES { Kind::Scale } else { Kind::Chord }
}

impl Kind {
    pub fn name(self) -> (s: &'static str)
        ensures
            s@ == kind_name(self),
    {
        match self {
            Kind::Scale => "scale",
            Kind::Chord => "chord",
        }
    }

    /// Which kind a tuning with `len` degrees is.
    pub fn for_len(len: usize) -> (k: Kind)
        ensures
            k == kind_of_len(len as nat),
    {
        if len >= MIN_SCALE_DEGREES { Kind::Scale } else { Kind::Chord }
    }
}

/// The instrument's eight entries, in STEP order.
///
/// Each FM type appears once; the three complex types appear with both
/// variants, since only for them do the two ends of the convergents give two
/// different timbres rather than one timbre transposed.
pub const ROSTER: [(Algorithm, Variant); 8] = [
    (Algorithm::Fm1, Variant::Golden),
    (Algorithm::Fm2, Variant::Golden),
    (Algorithm::Rm, Variant::Harmonic),
    (Algorithm::Rm, Variant::Golden),
    (Algorithm::Am, Variant::Harmonic),
    (Algorithm::Am, Variant::Golden),
    (Algorithm::Rect, Variant::Harmonic),
    (Algorithm::Rect, Variant::Golden),
];

} // verus!
