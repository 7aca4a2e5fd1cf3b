# sheng

Register-resident refutation sieves for regex automata, verified with Verus.

A sieve answers one question in one direction: *can this document be proven to hold no
match?* It projects a finished DFA onto its reachable core, climbs the lattice of
substitution-property partitions past the point where language is preserved, and runs
the resulting over-approximating quotient (at most sixteen blocks, one SIMD register)
as a byte-shuffle kernel. A quotient that rejects proves the automaton rejects.

## Layout

- `src/` is the library, every item verified:
  - `dfa.rs` — the questions a sieve asks of an automaton, with their meanings.
  - `projection.rs` — the reachable core and its exact byte classes; a faithful
    projection accepts exactly where the automaton matches.
  - `lattice.rs`, `lattice/canon.rs` — pair closures on a union-find forest (each the
    least closed partition identifying its pair, numbered canonically, at a step cost
    read off the forest), the sweep over state pairs under the step budget, the
    re-checked quotient a closed partition induces, and the ranking and greedy
    selection; the harvest's result is stated exactly, and every harvested quotient
    over-approximates the core, so its refutations are sound.
  - `shuffle.rs`, `arch/` — the composition kernel at 4, 8 and 16 slices per chunk, the
    scalar reference, and the skipping loop, all proved equal to one definition.
  - `skip.rs`, `skip/wide.rs` — exact escape-set searchers (`memchr` for up to three
    bytes, a nibble classifier for wider ASCII sets).
  - `relax.rs` — dropping repetition bounds from a pattern's shape; the relaxed shape
    matches wherever the strict one does.
  - `selectivity.rs` — a quotient's rows regrouped by byte class, the integer half of
    the acceptance-rate prediction; every span carries every byte of its class.
  - `arch.rs`, `price/`, `prior.rs` — kernel election (the cheapest priced rung) from
    probed facts, measurement samples, working-set regimes, and the byte classes the
    priors are written over.
  - `lib.rs` — the sieve: lanes, assembly from a DFA, refutation, and the law tying a
    refutation to the automaton.
- `tests/` runs the library on concrete inputs.
- `app/` holds what the library cannot: clocks, `CPUID`, floating-point pricing of the
  arming decision, the measured calibrations and byte priors, and `regex-automata`
  parsing and compilation.
