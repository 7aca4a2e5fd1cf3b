use sheng::prior::{member_count, Class};
use sheng::selectivity::Fanout;
use sheng::Quotient;

/// Block 0 waits for an `a`; block 1 accepts and stays.
fn seen_a() -> Quotient {
    let mut rows = [[0u8; 16]; 256];
    for (b, row) in rows.iter_mut().enumerate() {
        row[0] = u8::from(b == usize::from(b'a'));
        row[1] = 1;
    }
    Quotient { blocks: 2, threshold: 1, start: 0, rows }
}

#[test]
fn a_class_splits_where_one_of_its_bytes_leaves() {
    let fanout = Fanout::of(&seen_a());
    assert_eq!((fanout.blocks, fanout.start, fanout.threshold), (2, 0, 1));
    let lower = Class::Lower.index();
    let (from, until) = fanout.spans[0][lower];
    assert_eq!(&fanout.edges[usize::from(from)..usize::from(until)], &[(0, 25), (1, 1)]);
    let digit = Class::Digit.index();
    let (from, until) = fanout.spans[0][digit];
    assert_eq!(&fanout.edges[usize::from(from)..usize::from(until)], &[(0, 10)]);
    let (from, until) = fanout.spans[1][lower];
    assert_eq!(&fanout.edges[usize::from(from)..usize::from(until)], &[(1, 26)]);
    // Blocks the quotient does not use own nothing.
    assert_eq!(fanout.spans[2][lower], (0, 0));
}

#[test]
fn every_span_carries_every_byte_of_its_class() {
    let q = seen_a();
    let fanout = Fanout::of(&q);
    for block in 0..usize::from(q.blocks) {
        for class in Class::all() {
            let (from, until) = fanout.spans[block][class.index()];
            let carried: u32 = fanout.edges[usize::from(from)..usize::from(until)]
                .iter()
                .map(|&(_, n)| u32::from(n))
                .sum();
            assert_eq!(carried, u32::from(member_count(class)), "block {block} class {class:?}");
        }
    }
}

#[test]
fn the_spans_lie_end_to_end() {
    let fanout = Fanout::of(&seen_a());
    let mut at = 0u16;
    for block in 0..2 {
        for class in 0..7 {
            let (from, until) = fanout.spans[block][class];
            assert_eq!(from, at);
            at = until;
        }
    }
    assert_eq!(usize::from(at), fanout.edges.len());
}
