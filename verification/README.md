# phyllotaxis

The integer and text logic of Phyllotaxis, a polyphonic instrument whose
scales are computed from each algorithm's own spectrum, written in Verus and
proved against its contracts.

## Layout

- `src/` — the verified library.
  - `tuning` — algorithms, variants, tuning kinds, and the eight-entry roster.
  - `signature` — each entry's five-integer movement and its realignment
    period, proved to be the first count of base cycles at which every
    component realigns.
  - `gcd` — Euclid's gcd and the facts the rest rests on (Bézout, coprime
    factors, scaling).
  - `delays` — the plate's Fibonacci delay lengths; consecutive Fibonacci
    numbers are coprime, and `gcd(F(m), F(n)) = F(gcd(m, n))`.
  - `word` — the Fibonacci word that decides how long each chord lasts, by its
    concatenation rule and by the closed form on `⌊nφ⌋`, proved to be the
    same word; it never holds `11` or `000`, and equal stretches of it hold
    the same number of short steps or differ by one.
  - `phi` — comparing a fraction with the golden ratio in integers: the norm
    `x² − xy − y²`, mediants, Cassini's identity, and the irrationality of φ.
  - `patch`, `chat`, `relay` — the chat relay: recognising a patch in a
    message, reading IRC and stdin chat lines, the hold-the-floor policy, and
    the reply to the instrument page.
  - `pool`, `leading`, `engine` — slot states and the order voices are given
    up, walking the roster, and which degrees a chord sounds.
  - `text` — character-sequence utilities.
- `tests/` — tests run against the compiled library.
- `app/` — the relay program (sockets, threads, clock, TLS) and the
  instrument's floating-point audio modules, which stay outside the verified
  library because Verus does not reason about floats.
