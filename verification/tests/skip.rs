use sheng::skip::{wide, Escape};
use sheng::{Instrument, Skip};

/// Every set shape the classifier claims, plus the two it must refuse.
fn shapes() -> Vec<Vec<u8>> {
    vec![
        vec![],
        vec![b'W'],
        vec![b'a', b'b'],
        vec![b'a', b'b', b'g'],
        (b'0'..=b'9').collect(),
        (b'A'..=b'Z').collect(),
        (b'0'..=b'9').chain(b'a'..=b'f').chain(b'A'..=b'F').collect(),
        vec![0x00, 0x01, 0x7F, b'\n'],
        (0..0x80u8).collect(),
    ]
}

fn skip_over(escape: &[u8]) -> Option<Skip> {
    // Row `b` sends block 0 away iff `b` escapes, which is the shape `Skip::of` reads
    // out of a real quotient.
    let mut rows = [[0u8; 16]; 256];
    for &b in escape {
        rows[usize::from(b)][0] = 1;
    }
    Skip::of(&rows, 0)
}

#[test]
fn every_instrument_agrees_with_the_definition() {
    let mut hay = vec![0u8; 512];
    for (i, slot) in hay.iter_mut().enumerate() {
        *slot = match i % 17 {
            0 => b'A' + (i % 26) as u8,
            1 => b'0' + (i % 10) as u8,
            7 => 0x80 | (i % 128) as u8,
            _ => b'a' + (i % 26) as u8,
        };
    }
    for escape in shapes() {
        let Some(skip) = skip_over(&escape) else {
            continue;
        };
        for start in 0..64 {
            for len in [0usize, 1, 15, 16, 17, 31, 33, 64, 129, 255] {
                let end = (start + len).min(hay.len());
                let slice = &hay[start.min(hay.len())..end];
                assert_eq!(
                    skip.find(slice),
                    skip.find_scalar(slice),
                    "escape={escape:?} start={start} len={len}"
                );
            }
        }
    }
}

#[test]
fn the_classifier_admits_exactly_the_set() {
    for escape in shapes() {
        let Some(skip) = skip_over(&escape) else {
            continue;
        };
        for b in 0..=255u8 {
            let found = skip.find(&[b]) == Some(0);
            assert_eq!(found, escape.contains(&b), "byte {b:#04x} misclassified for escape={escape:?}");
        }
    }
}

#[test]
fn a_non_ascii_escape_set_is_declined_rather_than_approximated() {
    assert!(skip_over(&[b'a', b'b', b'c', 0xC3]).is_none());
    assert!(skip_over(&(0..=255u8).collect::<Vec<_>>()).is_none());
}

#[test]
fn a_block_nothing_leaves_never_finds_an_escape() {
    let skip = skip_over(&[]).expect("an absorbing block still yields a skip");
    assert_eq!(skip.find(&[0u8; 300]), None);
    assert_eq!(skip.find_scalar(&[0u8; 300]), None);
}

/// A deterministic xorshift, so a failure names a seed a reader can replay.
fn rolls(seed: u64) -> impl FnMut() -> u64 {
    let mut s = seed | 1;
    move || {
        s ^= s << 13;
        s ^= s >> 7;
        s ^= s << 17;
        s
    }
}

#[test]
fn the_classifier_is_exact_on_sets_nobody_hand_picked() {
    let mut next = rolls(0x5E1F_C0DE_1234_5678);
    for trial in 0..2048 {
        let width = 1 + (trial % 96);
        let mut escape = Vec::with_capacity(width);
        while escape.len() < width {
            let b = (next() % 128) as u8;
            if !escape.contains(&b) {
                escape.push(b);
            }
        }
        let Some(skip) = skip_over(&escape) else {
            continue;
        };
        for b in 0..=255u8 {
            assert_eq!(
                skip.find(&[b]) == Some(0),
                escape.contains(&b),
                "trial {trial}: byte {b:#04x} misclassified for {escape:?}"
            );
        }
    }
}

#[test]
fn an_escape_is_found_at_every_offset_of_every_length() {
    for escape in shapes() {
        let Some(skip) = skip_over(&escape) else {
            continue;
        };
        let Some(&needle) = escape.first() else {
            continue;
        };
        let Some(filler) = (0..=255u8).find(|b| !escape.contains(b)) else {
            continue;
        };
        for len in 1..=72usize {
            for at in 0..len {
                let mut hay = vec![filler; len];
                hay[at] = needle;
                assert_eq!(skip.find(&hay), Some(at), "escape={escape:?} len={len} planted at {at}");
                assert_eq!(skip.find(&hay), skip.find_scalar(&hay));
            }
        }
    }
}

#[test]
fn the_instrument_follows_the_size_of_the_escape_set() {
    assert_eq!(skip_over(&[]).unwrap().instrument(), Instrument::Few);
    assert_eq!(skip_over(&[b'x']).unwrap().instrument(), Instrument::Few);
    assert_eq!(skip_over(&[b'x', b'y', b'z']).unwrap().instrument(), Instrument::Few);
    assert_eq!(skip_over(&[b'w', b'x', b'y', b'z']).unwrap().instrument(), Instrument::Wide);
}

#[test]
fn the_escape_set_is_reported_in_increasing_order() {
    let skip = skip_over(&[b'z', b'a', b'm']).unwrap();
    assert_eq!(skip.leaves(), &[b'a', b'm', b'z']);
    assert_eq!(skip.resident, 0);
}

#[test]
fn three_escapes_are_searched_and_a_fourth_high_byte_is_refused() {
    let skip = skip_over(&[0x00, 0x80, 0xFF]).expect("three bytes go to memchr whatever they are");
    assert_eq!(skip.find(b"abc\xFFdef"), Some(3));
    assert_eq!(skip.find(b"abc"), None);
    assert!(skip_over(&[0x00, 0x80, 0xFF, b'a']).is_none());
}

#[test]
fn the_widest_ascii_set_is_accepted_and_one_more_is_refused() {
    let all_ascii: Vec<u8> = (0..0x80u8).collect();
    let skip = skip_over(&all_ascii).expect("every ASCII byte fits the nibble tables");
    assert_eq!(skip.find(b"\x80\x81\x7F"), Some(2));
    let mut more = all_ascii.clone();
    more.push(0x80);
    assert!(skip_over(&more).is_none());
}

#[test]
fn the_nibble_classifier_finds_the_first_member() {
    // Members: the digits, whose high nibble is 3.
    let mut lo_digits = [0u8; 16];
    for l in 0..10 {
        lo_digits[l] = 1 << 3;
    }
    let mut hi = [0u8; 16];
    for h in 0..8 {
        hi[h] = 1 << h;
    }
    assert!(wide::member(&lo_digits, &hi, b'7'));
    assert!(!wide::member(&lo_digits, &hi, b'a'));
    assert!(!wide::member(&lo_digits, &hi, 0xB7));
    assert_eq!(wide::find(&lo_digits, &hi, b"abc9d0"), Some(3));
    assert_eq!(wide::scalar(&lo_digits, &hi, b"abcd"), None);
    assert_eq!(wide::tail(&lo_digits, &hi, b"0123456789abcdefghij5", 16), Some(20));
}

#[test]
fn the_nibble_tables_hold_exactly_the_set() {
    let mut next = rolls(0x0DDB_A11_5EED_0001);
    for trial in 0..1024 {
        let width = 4 + (trial % 125);
        let mut escape = Vec::with_capacity(width);
        while escape.len() < width {
            let b = (next() % 128) as u8;
            if !escape.contains(&b) {
                escape.push(b);
            }
        }
        match Escape::of(&escape) {
            Some(Escape::Wide { lo, hi }) => {
                for b in 0..=255u8 {
                    assert_eq!(
                        wide::member(&lo, &hi, b),
                        escape.contains(&b),
                        "trial {trial}: byte {b:#04x} misclassified for {escape:?}"
                    );
                }
            },
            _ => panic!("trial {trial}: an ASCII set of {width} values was not given the tables"),
        }
    }
}
