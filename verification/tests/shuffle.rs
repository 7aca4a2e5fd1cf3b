use sheng::shuffle::{self, CHUNK, IDENTITY, STRIDE, WAYS};
use sheng::{Quotient, Skip};

#[test]
fn the_identity_shuffles_to_itself() {
    for (i, &lane) in IDENTITY.iter().enumerate() {
        assert_eq!(usize::from(lane), i);
    }
}

#[test]
fn the_slices_tile_a_chunk_with_nothing_left_over() {
    assert_eq!(STRIDE * WAYS, CHUNK);
}

/// Two blocks: block 0 until an `a` is read, then block 1, which accepts and absorbs.
fn seen_a() -> Quotient {
    let mut rows = [[0u8; 16]; 256];
    for (b, row) in rows.iter_mut().enumerate() {
        row[0] = if b == usize::from(b'a') { 1 } else { 0 };
        row[1] = 1;
    }
    Quotient { blocks: 2, threshold: 1, start: 0, rows }
}

/// Three blocks counting `x`s: block 2, reached on the second, accepts; any `y` resets.
fn two_xs() -> Quotient {
    let mut rows = [[0u8; 16]; 256];
    for (b, row) in rows.iter_mut().enumerate() {
        let (on0, on1) = match b as u8 {
            b'x' => (1, 2),
            b'y' => (0, 0),
            _ => (0, 1),
        };
        row[0] = on0;
        row[1] = on1;
        row[2] = 2;
    }
    Quotient { blocks: 3, threshold: 2, start: 0, rows }
}

fn agree(q: &Quotient, hay: &[u8]) -> bool {
    let kernel = shuffle::refutes(q, hay);
    assert_eq!(kernel, shuffle::scalar(q, hay), "scalar disagrees on {} bytes", hay.len());
    assert_eq!(kernel, sheng::arch::avx2::refutes(q, hay));
    assert_eq!(kernel, sheng::arch::avx512::refutes(q, hay));
    for ways in [1usize, 2, 4, 8, 16] {
        assert_eq!(kernel, shuffle::sweep_shuffle(q, hay, ways), "{ways} ways");
    }
    kernel
}

#[test]
fn a_document_without_the_byte_is_refuted_at_every_length() {
    let q = seen_a();
    for len in [0usize, 1, 15, 63, 64, 255, 256, 257, 511, 512, 1000] {
        let hay = vec![b'z'; len];
        assert!(agree(&q, &hay), "len {len}");
        if len > 0 {
            let mut planted = hay.clone();
            planted[len - 1] = b'a';
            assert!(!agree(&q, &planted), "len {len}, a at the end");
            planted[len - 1] = b'z';
            planted[0] = b'a';
            assert!(!agree(&q, &planted), "len {len}, a at the start");
        }
    }
}

#[test]
fn an_accepting_block_visited_mid_chunk_is_not_forgotten() {
    let q = two_xs();
    // `xx` visits block 2, which absorbs, however the slices fall.
    for at in [0usize, 63, 64, 127, 255, 256, 300] {
        let mut hay = vec![b'y'; 600];
        hay[at] = b'x';
        assert!(agree(&q, &hay), "a lone x at {at}");
        hay[at + 1] = b'x';
        assert!(!agree(&q, &hay), "xx at {at}");
    }
    // `x?x` with a reset between never gets there.
    let hay: Vec<u8> = b"xyxyxyxy".iter().copied().cycle().take(777).collect();
    assert!(agree(&q, &hay));
    // An `x`, other bytes, then another `x`: block 1 persists through them.
    assert!(!agree(&q, b"xabcx"));
}

#[test]
fn walking_reports_the_block_reached_or_nothing() {
    let q = two_xs();
    assert_eq!(shuffle::walk(&q, b"x", 0), Some(1));
    assert_eq!(shuffle::walk(&q, b"xy", 0), Some(0));
    assert_eq!(shuffle::walk(&q, b"xx", 0), None);
    assert_eq!(shuffle::walk(&q, b"", 1), Some(1));
    assert_eq!(shuffle::walk(&q, b"", 2), None);
}

#[test]
fn skipping_agrees_with_composing() {
    let q = seen_a();
    let skip = Skip::of(&q.rows, q.start).expect("one escape byte");
    assert_eq!(skip.leaves(), &[b'a']);
    for hay in [&b""[..], b"zzzz", b"zzza", b"a", b"bbbbbbbbbbbbbbbbbbbbbbbba"] {
        assert_eq!(shuffle::refutes_skipping(&q, &skip, hay), shuffle::refutes(&q, hay));
    }
    let q = two_xs();
    let skip = Skip::of(&q.rows, q.start).expect("one escape byte");
    for hay in [&b"yyyyyxyyyyx"[..], b"abcxx", b"xyxyxy", b"x"] {
        assert_eq!(shuffle::refutes_skipping(&q, &skip, hay), shuffle::refutes(&q, hay));
    }
}
