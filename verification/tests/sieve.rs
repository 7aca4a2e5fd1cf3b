use sheng::lattice::harvest;
use sheng::{Decline, Dfa, Projection, Refusal, Sieve, MAX_CORE_STATES};

/// A hand-written byte automaton: one row of successors per state.
struct Table {
    start: Option<u16>,
    rows: Vec<[u16; 256]>,
    matching: Vec<bool>,
    quitting: Vec<bool>,
}

impl Dfa for Table {
    type State = u16;

    fn start_spec(&self) -> Option<u16> {
        self.start
    }

    fn next_spec(&self, state: u16, byte: u8) -> u16 {
        self.rows[usize::from(state)][usize::from(byte)]
    }

    fn next_eoi_spec(&self, state: u16) -> u16 {
        state
    }

    fn is_match_spec(&self, state: u16) -> bool {
        self.matching[usize::from(state)]
    }

    fn is_quit_spec(&self, state: u16) -> bool {
        self.quitting[usize::from(state)]
    }

    fn start(&self) -> Option<u16> {
        self.start
    }

    fn next(&self, state: u16, byte: u8) -> u16 {
        self.rows[usize::from(state)][usize::from(byte)]
    }

    fn next_eoi(&self, state: u16) -> u16 {
        state
    }

    fn is_match(&self, state: u16) -> bool {
        self.matching[usize::from(state)]
    }

    fn is_quit(&self, state: u16) -> bool {
        self.quitting[usize::from(state)]
    }

    fn accelerator(&self, _state: u16) -> &[u8] {
        &[]
    }
}

/// `a`, then anything, then `b`: state 0 waits for an `a`, state 1 for a `b`, state 2
/// has matched.
fn a_then_b() -> Table {
    let mut rows = vec![[0u16; 256]; 3];
    for b in 0..256 {
        rows[0][b] = if b == usize::from(b'a') { 1 } else { 0 };
        rows[1][b] = if b == usize::from(b'b') { 2 } else { 1 };
        rows[2][b] = 2;
    }
    Table { start: Some(0), rows, matching: vec![false, false, true], quitting: vec![false; 3] }
}

/// The reference: does the automaton reach a match along `hay`?
fn matches(dfa: &Table, hay: &[u8]) -> bool {
    let mut s = dfa.start.unwrap();
    if dfa.is_match(s) {
        return true;
    }
    for &b in hay {
        s = dfa.next(s, b);
        if dfa.is_match(s) {
            return true;
        }
    }
    false
}

#[test]
fn the_projection_reads_the_reachable_core_and_its_byte_classes() {
    let core = Projection::of(&a_then_b()).expect("a plain automaton projects");
    assert_eq!(core.states, 3);
    assert_eq!(core.start, 0);
    // `a`, `b`, and everything else.
    assert_eq!(core.classes, 3);
    assert_eq!(core.accept, vec![false, false, true]);
    let a = usize::from(core.class_of[usize::from(b'a')]);
    let b = usize::from(core.class_of[usize::from(b'b')]);
    let z = usize::from(core.class_of[usize::from(b'z')]);
    assert_eq!(core.step(0, a), 1);
    assert_eq!(core.step(0, z), 0);
    assert_eq!(core.step(1, b), 2);
    assert_eq!(core.class_of[usize::from(b'q')], core.class_of[usize::from(b'z')]);
}

/// The same language with the automaton's own states numbered backwards.
fn a_then_b_backwards() -> Table {
    let mut rows = vec![[0u16; 256]; 3];
    for b in 0..256 {
        rows[2][b] = if b == usize::from(b'a') { 1 } else { 2 };
        rows[1][b] = if b == usize::from(b'b') { 0 } else { 1 };
        rows[0][b] = 0;
    }
    Table { start: Some(2), rows, matching: vec![true, false, false], quitting: vec![false; 3] }
}

#[test]
fn the_projection_numbers_states_as_the_walk_meets_them() {
    let forward = Projection::of(&a_then_b()).unwrap();
    let backward = Projection::of(&a_then_b_backwards()).unwrap();
    // The walk renumbers: the start is 0, the state met on `a` is 1, the match is 2.
    assert_eq!(backward.accept, vec![false, false, true]);
    assert_eq!(backward.states, forward.states);
    assert_eq!(backward.classes, forward.classes);
    assert_eq!(backward.class_of, forward.class_of);
    assert_eq!(backward.delta, forward.delta);
    // Classes in the order the bytes first show them: everything below `a`, then `a`,
    // then `b`.
    assert_eq!(forward.class_of[0], 0);
    assert_eq!(forward.class_of[usize::from(b'a')], 1);
    assert_eq!(forward.class_of[usize::from(b'b')], 2);
    assert_eq!(forward.class_of[usize::from(b'c')], 0);
}

#[test]
fn the_harvest_finds_the_closed_partition_that_forgets_the_b() {
    let core = Projection::of(&a_then_b()).unwrap();
    let quotients = harvest(&core);
    assert_eq!(quotients.len(), 1);
    let q = &quotients[0];
    assert_eq!((q.blocks, q.threshold, q.start), (2, 1, 0));
    assert_eq!(q.rows[usize::from(b'a')][0], 1);
    assert_eq!(q.rows[usize::from(b'z')][0], 0);
    assert!((0..256).all(|b| q.rows[b][1] == 1));
    // Lanes past the block count are never entered and stay zero.
    assert!((0..256).all(|b| q.rows[b][2..].iter().all(|&x| x == 0)));
}

#[test]
fn a_refutation_is_a_proof_and_a_pass_proves_nothing() {
    let dfa = a_then_b();
    let sieve = Sieve::assemble(&dfa, false, &|_: &sheng::Skip, _: usize| false).expect("a quotient exists");
    assert_eq!(sieve.conjuncts(), 1);
    assert_eq!(sieve.skipping(), 0);
    for hay in [&b""[..], b"zzz", b"bbbb", b"the quick brown fox", b"xa", b"ab", b"zzazzzb"] {
        let refuted = sieve.refutes(hay);
        assert_eq!(refuted, sieve.refutes_scalar(hay));
        if refuted {
            assert!(!matches(&dfa, hay), "refuted a document that matches: {hay:?}");
        }
    }
    assert!(sieve.refutes(b"bbbb"));
    // An `a` with no `b` after it does not match, but the quotient forgot the `b`.
    assert!(!sieve.refutes(b"xa"));
    assert!(!sieve.refutes(b"ab"));
}

#[test]
fn a_skip_is_taken_only_where_it_was_judged_cheaper() {
    let dfa = a_then_b();
    let skipping = Sieve::assemble(&dfa, true, &|s: &sheng::Skip, n: usize| n == 1 && s.leaves() == [b'a']).unwrap();
    assert_eq!(skipping.skipping(), 1);
    assert_eq!(skipping.lanes()[0].skip.as_ref().unwrap().resident, 0);
    let declined = Sieve::assemble(&dfa, true, &|_: &sheng::Skip, _: usize| false).unwrap();
    assert_eq!(declined.skipping(), 0);
    let unusable = Sieve::assemble(&dfa, false, &|_: &sheng::Skip, _: usize| true).unwrap();
    assert_eq!(unusable.skipping(), 0);
    let hay: Vec<u8> = b"zzzzzzzzzzzzzzzzzzzzzzzzzzzzzzzzzzzzzzzz".repeat(40);
    assert!(skipping.refutes(&hay));
    let mut planted = hay.clone();
    planted[777] = b'a';
    assert!(!skipping.refutes(&planted));
    assert_eq!(skipping.refutes(&planted), declined.refutes(&planted));
}

#[test]
fn each_shape_refusal_names_what_the_automaton_did() {
    let mut no_start = a_then_b();
    no_start.start = None;
    assert!(matches!(Projection::of(&no_start), Err(Decline::Quits)));
    assert!(matches!(
        Sieve::assemble(&no_start, false, &|_: &sheng::Skip, _: usize| false),
        Err(Refusal::Shape(Decline::Quits))
    ));

    let mut quits = a_then_b();
    quits.quitting[2] = true;
    assert!(matches!(Projection::of(&quits), Err(Decline::Quits)));

    let mut empty = a_then_b();
    empty.matching[0] = true;
    assert!(matches!(Projection::of(&empty), Err(Decline::MatchesEmpty)));

    // A counter one state wider than the cap.
    let n = MAX_CORE_STATES + 1;
    let mut rows = vec![[0u16; 256]; n];
    for (s, row) in rows.iter_mut().enumerate() {
        for b in row.iter_mut() {
            *b = ((s + 1) % n) as u16;
        }
    }
    let wide = Table { start: Some(0), rows, matching: vec![false; n], quitting: vec![false; n] };
    assert!(matches!(Projection::of(&wide), Err(Decline::TooWide)));
}

#[test]
fn an_automaton_with_nothing_to_forget_gets_no_quotient() {
    // Literally `ab`, unanchored: every closed partition that merges two states
    // collapses everything.
    let mut rows = vec![[0u16; 256]; 3];
    for b in 0..256 {
        rows[0][b] = if b == usize::from(b'a') { 1 } else { 0 };
        rows[1][b] = match b as u8 {
            b'b' => 2,
            b'a' => 1,
            _ => 0,
        };
        rows[2][b] = 2;
    }
    let literal = Table { start: Some(0), rows, matching: vec![false, false, true], quitting: vec![false; 3] };
    let core = Projection::of(&literal).unwrap();
    assert!(harvest(&core).is_empty());
    assert!(matches!(
        Sieve::assemble(&literal, false, &|_: &sheng::Skip, _: usize| false),
        Err(Refusal::NoQuotient)
    ));
}

#[test]
fn declines_explain_themselves() {
    assert!(Decline::Quits.message().contains("quit"));
    assert!(Decline::MatchesEmpty.message().contains("start state"));
    assert!(Decline::TooWide.message().contains("96"));
}

/// Both an `a` and a `b`, in either order: states 0 (neither), 1 (`a`), 2 (`b`), 3 (both).
fn a_and_b() -> Table {
    let mut rows = vec![[0u16; 256]; 4];
    for s in 0..4u16 {
        for b in 0..256 {
            rows[usize::from(s)][b] = match b as u8 {
                b'a' => s | 1,
                b'b' => s | 2,
                _ => s,
            };
        }
    }
    Table { start: Some(0), rows, matching: vec![false, false, false, true], quitting: vec![false; 4] }
}

#[test]
fn two_conjuncts_each_forget_one_letter() {
    let dfa = a_and_b();
    let core = Projection::of(&dfa).unwrap();
    assert_eq!(core.states, 4);
    let quotients = harvest(&core);
    assert_eq!(quotients.len(), 2, "one quotient per letter");
    for q in &quotients {
        assert_eq!((q.blocks, q.threshold, q.start), (3, 2, 0));
    }
    let sieve = Sieve::assemble(&dfa, false, &|_: &sheng::Skip, _: usize| false).unwrap();
    assert_eq!(sieve.conjuncts(), 2);
    for (hay, refuted) in [
        (&b"aaaa"[..], true),
        (b"bbbb", true),
        (b"xyz", true),
        (b"", true),
        (b"ab", false),
        (b"ba", false),
        (b"zzzzazzzzzzzbzz", false),
    ] {
        assert_eq!(sieve.refutes(hay), refuted, "{hay:?}");
        assert_eq!(sieve.refutes_scalar(hay), refuted, "{hay:?}");
        assert_eq!(matches(&dfa, hay), !refuted, "{hay:?}");
    }
}

#[test]
fn a_skip_probe_is_harvested_from_the_first_quotient() {
    let (q, probe) = sheng::price::measure::harvest_skip(&a_then_b()).expect("one quotient, one escape");
    assert_eq!(probe.resident, q.start);
    assert_eq!(probe.leaves(), &[b'a']);
    assert!(sheng::price::measure::harvest_skip(&a_and_b()).is_some());
    let mut no_start = a_then_b();
    no_start.start = None;
    assert!(sheng::price::measure::harvest_skip(&no_start).is_none());
}

#[test]
fn a_matching_start_is_refused_before_the_walk_meets_a_quit() {
    // State 0 matches at once, and every byte leads to state 1, which quits.
    let rows = vec![[1u16; 256], [1u16; 256]];
    let dfa = Table { start: Some(0), rows, matching: vec![true, false], quitting: vec![false, true] };
    assert_eq!(Projection::of(&dfa).err(), Some(Decline::MatchesEmpty));
    // Without the early match, the walk meets the quit state.
    let rows = vec![[1u16; 256], [1u16; 256]];
    let dfa = Table { start: Some(0), rows, matching: vec![false, false], quitting: vec![false, true] };
    assert_eq!(Projection::of(&dfa).err(), Some(Decline::Quits));
}
